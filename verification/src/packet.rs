//! Decoder for one de-framed packet: a fixed-layout 20-byte header followed
//! by two `0x00`-separated trailing fields (message and source file name).
//! Decoding never fails: a frame that does not pass the validation gate is
//! classified as unrecognized and kept verbatim for diagnostic output.

use vstd::prelude::*;
use vstd::slice::{slice_subrange, slice_to_vec};

verus! {

/// First byte of every recognized log packet.
pub const PACKET_MAGIC: u8 = 0x79;
/// Shortest frame that can carry the fixed header and both separators.
pub const MIN_PACKET_LEN: usize = 24;
/// Length of the fixed header that precedes the trailing fields.
pub const HEADER_LEN: usize = 20;
/// Separator between the trailing fields.
pub const FIELD_SEP: u8 = 0x00;
/// Trailing bytes stripped from the message field.
pub const NEWLINE: u8 = 0x0a;

/// Splitting at the first occurrence of a separator: the part before it and
/// the part after it. Without a separator the whole input is the first part
/// and the second is empty.
pub open spec fn split_at_sep(s: Seq<u8>, sep: u8) -> (Seq<u8>, Seq<u8>) {
    match s.index_of_first(sep) {
        Some(i) => (s.take(i), s.skip(i + 1)),
        None => (s, Seq::empty()),
    }
}

/// The input with every trailing newline byte removed.
pub open spec fn strip_newlines(s: Seq<u8>) -> Seq<u8>
    decreases s.len(),
{
    if s.len() > 0 && s.last() == NEWLINE {
        strip_newlines(s.drop_last())
    } else {
        s
    }
}

/// The unsigned value of four little-endian bytes.
pub open spec fn le32_spec(s: Seq<u8>) -> int
    recommends
        s.len() >= 4,
{
    s[0] + 0x100 * s[1] + 0x1_0000 * s[2] + 0x100_0000 * s[3]
}

/// The unsigned value of two little-endian bytes.
pub open spec fn le16_spec(s: Seq<u8>) -> int
    recommends
        s.len() >= 2,
{
    s[0] + 0x100 * s[1]
}

/// The validation gate: length, magic byte at offset 0, zero at offset 2.
pub open spec fn frame_recognized(f: Seq<u8>) -> bool {
    &&& f.len() >= MIN_PACKET_LEN
    &&& f[0] == PACKET_MAGIC
    &&& f[2] == 0x00
}

/// The variable-length part after the fixed header.
pub open spec fn trailer_of(f: Seq<u8>) -> Seq<u8> {
    f.skip(HEADER_LEN as int)
}

/// The 32-bit timestamp at header offset 6.
pub open spec fn timestamp_field(f: Seq<u8>) -> int {
    le32_spec(f.subrange(6, 10))
}

/// The 16-bit line number at header offset 12.
pub open spec fn line_field(f: Seq<u8>) -> int {
    le16_spec(f.subrange(12, 14))
}

/// The message: the trailer up to the first separator, trailing newlines
/// stripped.
pub open spec fn message_field(f: Seq<u8>) -> Seq<u8> {
    strip_newlines(split_at_sep(trailer_of(f), FIELD_SEP).0)
}

/// The source file name: between the first and the second separator of the
/// trailer (anything after the second separator is discarded).
pub open spec fn source_file_field(f: Seq<u8>) -> Seq<u8> {
    split_at_sep(split_at_sep(trailer_of(f), FIELD_SEP).1, FIELD_SEP).0
}

/// One decoded log line.
pub struct LogRecord {
    pub timestamp: u32,
    pub line_number: u16,
    pub message: Vec<u8>,
    pub source_file: Vec<u8>,
}

/// What decoding a frame yields: a log record, or the frame kept verbatim.
pub enum Packet {
    Log(LogRecord),
    Unknown(Vec<u8>),
}

/// Splits at the first occurrence of `sep`, which is consumed; without one,
/// the second half is empty.
pub fn split_byte<'a>(s: &'a [u8], sep: u8) -> (r: (&'a [u8], &'a [u8]))
    ensures
        r.0@ == split_at_sep(s@, sep).0,
        r.1@ == split_at_sep(s@, sep).1,
{
    let mut i: usize = 0;
    while i < s.len()
        invariant
            i <= s@.len(),
            forall|j: int| 0 <= j < i ==> s@[j] != sep,
        decreases s@.len() - i,
    {
        if s[i] == sep {
            proof {
                assert(s@.contains(sep)) by {
                    assert(s@[i as int] == sep);
                }
                s@.index_of_first_ensures(sep);
                let idx = s@.index_of_first(sep).unwrap();
                assert(idx == i);
                assert(s@.subrange(0, i as int) =~= s@.take(i as int));
                assert(s@.subrange(i + 1, s@.len() as int) =~= s@.skip(i + 1));
            }
            let a = slice_subrange(s, 0, i);
            let b = slice_subrange(s, i + 1, s.len());
            return (a, b);
        }
        i = i + 1;
    }
    proof {
        s@.index_of_first_ensures(sep);
        assert(!s@.contains(sep));
        assert(s@.subrange(s@.len() as int, s@.len() as int) =~= Seq::<u8>::empty());
    }
    let b = slice_subrange(s, s.len(), s.len());
    (s, b)
}

/// Removes every trailing newline byte, repeatedly, until none remains.
pub fn strip_trailing_newlines(s: &[u8]) -> (r: &[u8])
    ensures
        r@ == strip_newlines(s@),
{
    let mut n: usize = s.len();
    proof {
        assert(s@.take(s@.len() as int) =~= s@);
    }
    while n > 0 && s[n - 1] == NEWLINE
        invariant
            n <= s@.len(),
            strip_newlines(s@) == strip_newlines(s@.take(n as int)),
        decreases n,
    {
        proof {
            assert(s@.take(n as int).last() == s@[n - 1]);
            assert(s@.take(n as int).drop_last() =~= s@.take(n - 1));
        }
        n = n - 1;
    }
    proof {
        assert(strip_newlines(s@.take(n as int)) == s@.take(n as int));
        assert(s@.subrange(0, n as int) =~= s@.take(n as int));
    }
    slice_subrange(s, 0, n)
}

/// The unsigned value of the first four bytes, little-endian.
pub fn le32(s: &[u8]) -> (r: u32)
    requires
        s@.len() >= 4,
    ensures
        r == le32_spec(s@),
{
    let b0 = s[0];
    let b1 = s[1];
    let b2 = s[2];
    let b3 = s[3];
    let r = (b0 as u32) | ((b1 as u32) << 8) | ((b2 as u32) << 16) | ((b3 as u32) << 24);
    proof {
        assert((b0 as u32) | ((b1 as u32) << 8) | ((b2 as u32) << 16) | ((b3 as u32) << 24)
            == (b0 as u32) + 0x100 * (b1 as u32) + 0x1_0000 * (b2 as u32) + 0x100_0000 * (
        b3 as u32)) by (bit_vector);
    }
    r
}

/// The unsigned value of the first two bytes, little-endian.
pub fn le16(s: &[u8]) -> (r: u16)
    requires
        s@.len() >= 2,
    ensures
        r == le16_spec(s@),
{
    let b0 = s[0];
    let b1 = s[1];
    let r = (b0 as u16) | ((b1 as u16) << 8);
    proof {
        assert((b0 as u16) | ((b1 as u16) << 8) == (b0 as u16) + 0x100 * (b1 as u16))
            by (bit_vector);
    }
    r
}

/// Decodes one frame. A frame that passes the validation gate yields a log
/// record with exactly the header fields and separator-split trailer fields;
/// any other frame is returned verbatim as unrecognized. Never fails.
pub fn parse_packet(frame: &[u8]) -> (p: Packet)
    ensures
        frame_recognized(frame@) ==> (p matches Packet::Log(rec) && {
            &&& rec.timestamp == timestamp_field(frame@)
            &&& rec.line_number == line_field(frame@)
            &&& rec.message@ == message_field(frame@)
            &&& rec.source_file@ == source_file_field(frame@)
        }),
        !frame_recognized(frame@) ==> (p matches Packet::Unknown(b) && b@ == frame@),
{
    if frame.len() < MIN_PACKET_LEN || frame[0] != PACKET_MAGIC || frame[2] != 0x00 {
        return Packet::Unknown(slice_to_vec(frame));
    }
    let ts_bytes = slice_subrange(frame, 6, 10);
    let timestamp = le32(ts_bytes);
    let ln_bytes = slice_subrange(frame, 12, 14);
    let line_number = le16(ln_bytes);
    let rest = slice_subrange(frame, HEADER_LEN, frame.len());
    proof {
        assert(rest@ =~= trailer_of(frame@));
    }
    let (msg, rest2) = split_byte(rest, FIELD_SEP);
    let (file, _discarded) = split_byte(rest2, FIELD_SEP);
    let message = slice_to_vec(strip_trailing_newlines(msg));
    let source_file = slice_to_vec(file);
    Packet::Log(LogRecord { timestamp, line_number, message, source_file })
}

/// The decimal digits of a number, most significant first, no sign, no
/// leading zeros (a single zero digit for zero).
pub open spec fn dec_rep(n: nat) -> Seq<u8>
    decreases n,
{
    if n < 10 {
        seq![(n + 0x30) as u8]
    } else {
        dec_rep(n / 10).push(((n % 10) + 0x30) as u8)
    }
}

/// A run of space bytes.
pub open spec fn spaces(n: nat) -> Seq<u8> {
    Seq::new(n, |i: int| 0x20u8)
}

/// The input padded with spaces on the left up to the width; longer inputs
/// pass through unchanged.
pub open spec fn right_justified(s: Seq<u8>, w: nat) -> Seq<u8> {
    if s.len() >= w {
        s
    } else {
        spaces((w - s.len()) as nat) + s
    }
}

/// One lowercase hexadecimal digit.
pub open spec fn hex_digit(n: u8) -> u8
    recommends
        n < 16,
{
    if n < 10 {
        (0x30 + n) as u8
    } else {
        (0x61 + (n - 10)) as u8
    }
}

/// Two lowercase hexadecimal digits per byte, no separators.
pub open spec fn hex_rep(s: Seq<u8>) -> Seq<u8>
    decreases s.len(),
{
    if s.len() == 0 {
        Seq::empty()
    } else {
        hex_rep(s.drop_last()).push(hex_digit(s.last() / 16)).push(hex_digit(s.last() % 16))
    }
}

/// The rendering of a log record: the timestamp right-justified in a
/// ten-character field, a colon and space, the message, the source file and
/// line number in parentheses, and a final newline.
pub open spec fn record_line(ts: int, line: int, msg: Seq<u8>, file: Seq<u8>) -> Seq<u8>
    recommends
        0 <= ts,
        0 <= line,
{
    right_justified(dec_rep(ts as nat), 10) + seq![0x3au8, 0x20u8] + msg + seq![0x20u8, 0x28u8]
        + file + seq![0x3au8] + dec_rep(line as nat) + seq![0x29u8, 0x0au8]
}

/// The text `[unknown packet: ` that opens the diagnostic line.
pub open spec fn unknown_prefix() -> Seq<u8> {
    seq![
        0x5bu8,
        0x75u8,
        0x6eu8,
        0x6bu8,
        0x6eu8,
        0x6fu8,
        0x77u8,
        0x6eu8,
        0x20u8,
        0x70u8,
        0x61u8,
        0x63u8,
        0x6bu8,
        0x65u8,
        0x74u8,
        0x3au8,
        0x20u8,
    ]
}

/// The rendering of an unrecognized frame: its bytes as a hex dump inside the
/// diagnostic brackets, and a final newline.
pub open spec fn unknown_line(bytes: Seq<u8>) -> Seq<u8> {
    unknown_prefix() + hex_rep(bytes) + seq![0x5du8, 0x0au8]
}

/// What the sink receives for one frame: the record line when the frame is
/// recognized, the diagnostic hex dump otherwise.
pub open spec fn rendered(f: Seq<u8>) -> Seq<u8> {
    if frame_recognized(f) {
        record_line(timestamp_field(f), line_field(f), message_field(f), source_file_field(f))
    } else {
        unknown_line(f)
    }
}

/// Appends every byte of the slice, in order.
fn push_all(out: &mut Vec<u8>, s: &[u8])
    ensures
        final(out)@ == old(out)@ + s@,
{
    let ghost base = old(out)@;
    let mut i: usize = 0;
    while i < s.len()
        invariant
            i <= s@.len(),
            out@ == base + s@.take(i as int),
        decreases s@.len() - i,
    {
        out.push(s[i]);
        proof {
            assert((base + s@.take(i as int)).push(s@[i as int]) =~= base + s@.take(i + 1));
        }
        i = i + 1;
    }
    proof {
        assert(base + s@.take(s@.len() as int) =~= base + s@);
    }
}

/// The decimal digits of a number, most significant first.
pub fn dec_digits(v: u32) -> (out: Vec<u8>)
    ensures
        out@ == dec_rep(v as nat),
    decreases v,
{
    if v < 10 {
        let mut out: Vec<u8> = Vec::new();
        out.push((v as u8) + 0x30);
        proof {
            assert(out@ =~= dec_rep(v as nat));
        }
        out
    } else {
        let mut out = dec_digits(v / 10);
        out.push(((v % 10) as u8) + 0x30);
        proof {
            assert(out@ =~= dec_rep(v as nat));
        }
        out
    }
}

/// The decimal digits of a number, right-justified in a ten-character field.
pub fn dec_digits_padded(v: u32) -> (out: Vec<u8>)
    ensures
        out@ == right_justified(dec_rep(v as nat), 10),
{
    let mut digits = dec_digits(v);
    let mut out: Vec<u8> = Vec::new();
    proof {
        assert(out@ =~= spaces(0));
    }
    if digits.len() < 10 {
        let pad: usize = 10 - digits.len();
        let mut j: usize = 0;
        while j < pad
            invariant
                j <= pad,
                j == out@.len(),
                out@ == spaces(j as nat),
            decreases pad - j,
        {
            out.push(0x20);
            j = j + 1;
            proof {
                assert(out@ =~= spaces(j as nat));
            }
        }
    }
    out.append(&mut digits);
    proof {
        if dec_rep(v as nat).len() < 10 {
            assert(out@ =~= right_justified(dec_rep(v as nat), 10));
        } else {
            assert(spaces(0) + dec_rep(v as nat) =~= dec_rep(v as nat));
        }
    }
    out
}

/// One nibble as a lowercase hexadecimal digit.
fn to_hex_digit(n: u8) -> (r: u8)
    requires
        n < 16,
    ensures
        r == hex_digit(n),
{
    if n < 10 {
        0x30 + n
    } else {
        0x61 + (n - 10)
    }
}

/// The bytes of a slice as a lowercase hex dump, two digits per byte.
pub fn hex_bytes(s: &[u8]) -> (out: Vec<u8>)
    ensures
        out@ == hex_rep(s@),
{
    let mut out: Vec<u8> = Vec::new();
    let mut i: usize = 0;
    proof {
        assert(s@.take(0) =~= Seq::<u8>::empty());
    }
    while i < s.len()
        invariant
            i <= s@.len(),
            out@ == hex_rep(s@.take(i as int)),
        decreases s@.len() - i,
    {
        let b = s[i];
        out.push(to_hex_digit(b / 16));
        out.push(to_hex_digit(b % 16));
        proof {
            assert(s@.take(i + 1).drop_last() =~= s@.take(i as int));
            assert(s@.take(i + 1).last() == s@[i as int]);
        }
        i = i + 1;
    }
    proof {
        assert(s@.take(s@.len() as int) =~= s@);
    }
    out
}

/// Renders one decoded packet for the sink, byte for byte as `rendered` says.
pub fn render_packet(p: &Packet) -> (out: Vec<u8>)
    ensures
        match p {
            Packet::Log(rec) => out@ == record_line(
                rec.timestamp as int,
                rec.line_number as int,
                rec.message@,
                rec.source_file@,
            ),
            Packet::Unknown(b) => out@ == unknown_line(b@),
        },
{
    match p {
        Packet::Log(rec) => {
            let mut out = dec_digits_padded(rec.timestamp);
            out.push(0x3a);
            out.push(0x20);
            push_all(&mut out, rec.message.as_slice());
            out.push(0x20);
            out.push(0x28);
            push_all(&mut out, rec.source_file.as_slice());
            out.push(0x3a);
            let mut line_digits = dec_digits(rec.line_number as u32);
            out.append(&mut line_digits);
            out.push(0x29);
            out.push(0x0a);
            proof {
                assert(out@ =~= record_line(
                    rec.timestamp as int,
                    rec.line_number as int,
                    rec.message@,
                    rec.source_file@,
                ));
            }
            out
        },
        Packet::Unknown(b) => {
            let mut out: Vec<u8> = Vec::new();
            out.push(0x5b);
            out.push(0x75);
            out.push(0x6e);
            out.push(0x6b);
            out.push(0x6e);
            out.push(0x6f);
            out.push(0x77);
            out.push(0x6e);
            out.push(0x20);
            out.push(0x70);
            out.push(0x61);
            out.push(0x63);
            out.push(0x6b);
            out.push(0x65);
            out.push(0x74);
            out.push(0x3a);
            out.push(0x20);
            proof {
                assert(out@ =~= unknown_prefix());
            }
            let mut dump = hex_bytes(b.as_slice());
            out.append(&mut dump);
            out.push(0x5d);
            out.push(0x0a);
            proof {
                assert(out@ =~= unknown_line(b@));
            }
            out
        },
    }
}

/// Decodes one frame and renders the result: exactly the record line for a
/// recognized frame, exactly the diagnostic hex dump for any other.
pub fn decode_and_render(frame: &[u8]) -> (out: Vec<u8>)
    ensures
        out@ == rendered(frame@),
{
    let p = parse_packet(frame);
    render_packet(&p)
}

} // verus!
