//! Incremental HDLC-style de-framer: recovers flag-delimited, escape-resolved
//! frames from a raw byte stream, fed in chunks of any size.

use vstd::prelude::*;

verus! {

/// Frame delimiter: ends the current frame (possibly empty).
pub const FLAG_BYTE: u8 = 0x7e;
/// Escape marker: the byte after it is appended XORed with the mask.
pub const ESCAPE_BYTE: u8 = 0x7d;
/// Mask applied to an escaped byte to recover its original value.
pub const ESCAPE_MASK: u8 = 0x20;

/// Abstract state of the de-framer: frames completed so far and not yet
/// drained, the accumulator of the current (unterminated) frame, and whether
/// an escape byte has been seen with its partner byte still outstanding.
#[verifier::ext_equal]
pub struct DeframerModel {
    pub frames: Seq<Seq<u8>>,
    pub acc: Seq<u8>,
    pub esc: bool,
}

/// The state every de-framer starts in: nothing buffered, no escape pending.
pub open spec fn initial_model() -> DeframerModel {
    DeframerModel { frames: Seq::empty(), acc: Seq::empty(), esc: false }
}

/// One byte of input, as the wire format defines it: an escaped byte is
/// appended XORed with the mask whatever its value; a flag byte completes the
/// accumulator as a frame; an escape byte only sets the pending flag; any
/// other byte is appended verbatim.
pub open spec fn model_step(m: DeframerModel, b: u8) -> DeframerModel {
    if m.esc {
        DeframerModel { frames: m.frames, acc: m.acc.push(b ^ ESCAPE_MASK), esc: false }
    } else if b == FLAG_BYTE {
        DeframerModel { frames: m.frames.push(m.acc), acc: Seq::empty(), esc: false }
    } else if b == ESCAPE_BYTE {
        DeframerModel { frames: m.frames, acc: m.acc, esc: true }
    } else {
        DeframerModel { frames: m.frames, acc: m.acc.push(b), esc: false }
    }
}

/// The state after feeding a whole byte sequence, front to back.
pub open spec fn feed_model(m: DeframerModel, bytes: Seq<u8>) -> DeframerModel
    decreases bytes.len(),
{
    if bytes.len() == 0 {
        m
    } else {
        feed_model(model_step(m, bytes[0]), bytes.skip(1))
    }
}

/// Incremental de-framer. Bytes go in through `feed` (or one at a time
/// through `input_byte`); completed frames come out through `take_frames`.
/// An incomplete trailing escape is simply state that later bytes resolve;
/// a frame cut short by the end of input is never emitted.
pub struct Hdlc {
    frames: Vec<Vec<u8>>,
    acc: Vec<u8>,
    esc: bool,
}

impl View for Hdlc {
    type V = DeframerModel;

    closed spec fn view(&self) -> DeframerModel {
        DeframerModel {
            frames: self.frames@.map_values(|f: Vec<u8>| f@),
            acc: self.acc@,
            esc: self.esc,
        }
    }
}

impl Hdlc {
    /// A fresh de-framer with nothing buffered.
    pub fn new() -> (d: Hdlc)
        ensures
            d@ == initial_model(),
    {
        let d = Hdlc { frames: Vec::new(), acc: Vec::new(), esc: false };
        proof {
            assert(d@ =~= initial_model());
        }
        d
    }

    /// Feeds a single byte; the state advances exactly as `model_step` says.
    pub fn input_byte(&mut self, b: u8)
        ensures
            final(self)@ == model_step(old(self)@, b),
    {
        if self.esc {
            self.acc.push(b ^ ESCAPE_MASK);
            self.esc = false;
        } else if b == FLAG_BYTE {
            let mut done: Vec<u8> = Vec::new();
            core::mem::swap(&mut done, &mut self.acc);
            self.frames.push(done);
        } else if b == ESCAPE_BYTE {
            self.esc = true;
        } else {
            self.acc.push(b);
        }
        proof {
            assert(self@ =~= model_step(old(self)@, b));
        }
    }

    /// Feeds a whole chunk, front to back.
    pub fn feed(&mut self, bytes: &[u8])
        ensures
            final(self)@ == feed_model(old(self)@, bytes@),
    {
        let mut i: usize = 0;
        while i < bytes.len()
            invariant
                i <= bytes@.len(),
                self@ == feed_model(old(self)@, bytes@.take(i as int)),
            decreases bytes@.len() - i,
        {
            proof {
                lemma_feed_model_concat(old(self)@, bytes@.take(i as int), seq![bytes@[i as int]]);
                lemma_feed_model_one(feed_model(old(self)@, bytes@.take(i as int)), bytes@[i as int]);
                assert(bytes@.take(i as int) + seq![bytes@[i as int]] =~= bytes@.take(i + 1));
            }
            self.input_byte(bytes[i]);
            i = i + 1;
        }
        proof {
            assert(bytes@.take(bytes@.len() as int) =~= bytes@);
        }
    }

    /// Hands out the completed frames, in the order their closing flags
    /// arrived, and keeps the partial state (accumulator, escape flag) so
    /// that a frame split across two chunks is preserved.
    pub fn take_frames(&mut self) -> (out: Vec<Vec<u8>>)
        ensures
            out@.map_values(|f: Vec<u8>| f@) == old(self)@.frames,
            final(self)@ == (DeframerModel { frames: Seq::empty(), ..old(self)@ }),
    {
        let mut out: Vec<Vec<u8>> = Vec::new();
        core::mem::swap(&mut out, &mut self.frames);
        proof {
            assert(self@ =~= (DeframerModel { frames: Seq::empty(), ..old(self)@ }));
        }
        out
    }
}

/// Feeding one byte is one step of the model.
proof fn lemma_feed_model_one(m: DeframerModel, b: u8)
    ensures
        feed_model(m, seq![b]) == model_step(m, b),
{
    assert(seq![b].skip(1) =~= Seq::<u8>::empty());
    assert(feed_model(model_step(m, b), Seq::<u8>::empty()) == model_step(m, b));
}

/// Feeding a concatenation is feeding the pieces in turn: the ground fact
/// behind incremental use of the de-framer.
pub proof fn lemma_feed_model_concat(m: DeframerModel, a: Seq<u8>, b: Seq<u8>)
    ensures
        feed_model(m, a + b) == feed_model(feed_model(m, a), b),
    decreases a.len(),
{
    if a.len() == 0 {
        assert(a + b =~= b);
    } else {
        assert((a + b)[0] == a[0]);
        assert((a + b).skip(1) =~= a.skip(1) + b);
        lemma_feed_model_concat(model_step(m, a[0]), a.skip(1), b);
    }
}

/// Feeding a stream at once and feeding it one byte at a time end in the same
/// state, frames included: the whole-stream reading equals the left fold of
/// single steps over the bytes.
pub proof fn lemma_bytewise_equals_whole(m: DeframerModel, bytes: Seq<u8>)
    ensures
        feed_model(m, bytes) == bytes.fold_left(m, |st: DeframerModel, b: u8| model_step(st, b)),
    decreases bytes.len(),
{
    if bytes.len() > 0 {
        lemma_bytewise_equals_whole(m, bytes.drop_last());
        lemma_feed_model_concat(m, bytes.drop_last(), seq![bytes.last()]);
        lemma_feed_model_one(feed_model(m, bytes.drop_last()), bytes.last());
        assert(bytes.drop_last() + seq![bytes.last()] =~= bytes);
    }
}

/// The wire encoding of one byte: flag and escape bytes are stuffed as the
/// escape byte followed by the value XORed with the mask; all others pass
/// through unchanged.
pub open spec fn escape_byte(b: u8) -> Seq<u8> {
    if b == FLAG_BYTE || b == ESCAPE_BYTE {
        seq![ESCAPE_BYTE, b ^ ESCAPE_MASK]
    } else {
        seq![b]
    }
}

/// The wire encoding of a whole byte sequence, byte by byte.
pub open spec fn escape_seq(data: Seq<u8>) -> Seq<u8>
    decreases data.len(),
{
    if data.len() == 0 {
        Seq::empty()
    } else {
        escape_byte(data[0]) + escape_seq(data.skip(1))
    }
}

/// Bytes that are neither flags nor escapes are accumulated verbatim.
proof fn lemma_feed_plain(m: DeframerModel, mid: Seq<u8>)
    requires
        !m.esc,
        forall|i: int| 0 <= i < mid.len() ==> mid[i] != FLAG_BYTE && mid[i] != ESCAPE_BYTE,
    ensures
        feed_model(m, mid) == (DeframerModel { acc: m.acc + mid, ..m }),
    decreases mid.len(),
{
    if mid.len() == 0 {
        assert(m.acc + mid =~= m.acc);
        assert(feed_model(m, mid) =~= (DeframerModel { acc: m.acc + mid, ..m }));
    } else {
        let m1 = model_step(m, mid[0]);
        lemma_feed_plain(m1, mid.skip(1));
        assert(m.acc.push(mid[0]) + mid.skip(1) =~= m.acc + mid);
        assert(feed_model(m, mid) =~= (DeframerModel { acc: m.acc + mid, ..m }));
    }
}

/// De-framing between two flags: when no escape is pending, the bytes that
/// stand strictly between two flag bytes — none of them a flag or an escape —
/// come out as exactly one frame, equal to those bytes.
pub proof fn lemma_frame_between_flags(m: DeframerModel, mid: Seq<u8>)
    requires
        !m.esc,
        forall|i: int| 0 <= i < mid.len() ==> mid[i] != FLAG_BYTE && mid[i] != ESCAPE_BYTE,
    ensures
        feed_model(m, seq![FLAG_BYTE] + mid + seq![FLAG_BYTE]) == (DeframerModel {
            frames: m.frames.push(m.acc).push(mid),
            acc: Seq::empty(),
            esc: false,
        }),
{
    let m1 = DeframerModel { frames: m.frames.push(m.acc), acc: Seq::empty(), esc: false };
    lemma_feed_model_concat(m, seq![FLAG_BYTE], mid + seq![FLAG_BYTE]);
    lemma_feed_model_one(m, FLAG_BYTE);
    assert(seq![FLAG_BYTE] + (mid + seq![FLAG_BYTE]) =~= seq![FLAG_BYTE] + mid + seq![FLAG_BYTE]);
    lemma_feed_model_concat(m1, mid, seq![FLAG_BYTE]);
    lemma_feed_plain(m1, mid);
    let m2 = DeframerModel { acc: m1.acc + mid, ..m1 };
    lemma_feed_model_one(m2, FLAG_BYTE);
    assert(m1.acc + mid =~= mid);
    assert(feed_model(m, seq![FLAG_BYTE] + mid + seq![FLAG_BYTE]) =~= (DeframerModel {
        frames: m.frames.push(m.acc).push(mid),
        acc: Seq::empty(),
        esc: false,
    }));
}

/// Escaped bytes are accumulated back to their original values, whatever they
/// are: the accumulator grows by exactly the unescaped data.
proof fn lemma_feed_escaped(m: DeframerModel, data: Seq<u8>)
    requires
        !m.esc,
    ensures
        feed_model(m, escape_seq(data)) == (DeframerModel { acc: m.acc + data, esc: false, ..m }),
    decreases data.len(),
{
    if data.len() == 0 {
        assert(m.acc + data =~= m.acc);
        assert(feed_model(m, escape_seq(data)) =~= (DeframerModel {
            acc: m.acc + data,
            esc: false,
            ..m
        }));
    } else {
        let b = data[0];
        lemma_feed_model_concat(m, escape_byte(b), escape_seq(data.skip(1)));
        let m1 = DeframerModel { acc: m.acc.push(b), esc: false, ..m };
        if b == FLAG_BYTE || b == ESCAPE_BYTE {
            assert((b ^ ESCAPE_MASK) ^ ESCAPE_MASK == b) by (bit_vector);
            let me = model_step(m, ESCAPE_BYTE);
            assert(escape_byte(b) =~= seq![ESCAPE_BYTE, b ^ ESCAPE_MASK]);
            assert(escape_byte(b).skip(1) =~= seq![b ^ ESCAPE_MASK]);
            lemma_feed_model_one(me, b ^ ESCAPE_MASK);
            assert(feed_model(m, escape_byte(b)) =~= m1);
        } else {
            lemma_feed_model_one(m, b);
            assert(feed_model(m, escape_byte(b)) =~= m1);
        }
        lemma_feed_escaped(m1, data.skip(1));
        assert(m.acc.push(b) + data.skip(1) =~= m.acc + data);
        assert(feed_model(m, escape_seq(data)) =~= (DeframerModel {
            acc: m.acc + data,
            esc: false,
            ..m
        }));
    }
}

/// Escape round trip: escaping any byte sequence and closing it with a flag,
/// then de-framing, yields back exactly the original sequence as one frame.
pub proof fn lemma_escape_round_trip(m: DeframerModel, data: Seq<u8>)
    requires
        !m.esc,
    ensures
        feed_model(m, escape_seq(data) + seq![FLAG_BYTE]) == (DeframerModel {
            frames: m.frames.push(m.acc + data),
            acc: Seq::empty(),
            esc: false,
        }),
{
    lemma_feed_model_concat(m, escape_seq(data), seq![FLAG_BYTE]);
    lemma_feed_escaped(m, data);
    lemma_feed_model_one(DeframerModel { acc: m.acc + data, esc: false, ..m }, FLAG_BYTE);
    assert(feed_model(m, escape_seq(data) + seq![FLAG_BYTE]) =~= (DeframerModel {
        frames: m.frames.push(m.acc + data),
        acc: Seq::empty(),
        esc: false,
    }));
}

/// Boundary: two consecutive flag bytes with nothing between them close the
/// current accumulator and then emit a zero-length frame.
pub proof fn lemma_consecutive_flags(m: DeframerModel)
    requires
        !m.esc,
    ensures
        feed_model(m, seq![FLAG_BYTE, FLAG_BYTE]) == (DeframerModel {
            frames: m.frames.push(m.acc).push(Seq::empty()),
            acc: Seq::empty(),
            esc: false,
        }),
{
    lemma_frame_between_flags(m, Seq::empty());
    assert(seq![FLAG_BYTE] + Seq::<u8>::empty() + seq![FLAG_BYTE] =~= seq![
        FLAG_BYTE,
        FLAG_BYTE,
    ]);
}

} // verus!
