use dmss_log::hdlc::Hdlc;

/// Escapes a byte sequence the way the wire format defines it: flag and
/// escape bytes are stuffed as the escape byte followed by the value XORed
/// with the mask.
fn escape(data: &[u8]) -> Vec<u8> {
    let mut out = Vec::new();
    for &b in data {
        if b == 0x7e || b == 0x7d {
            out.push(0x7d);
            out.push(b ^ 0x20);
        } else {
            out.push(b);
        }
    }
    out
}

fn frames_of(stream: &[u8]) -> Vec<Vec<u8>> {
    let mut d = Hdlc::new();
    d.feed(stream);
    d.take_frames()
}

#[test]
fn frame_between_flags() {
    // The bytes strictly between two flags come out as exactly one frame.
    let frames = frames_of(&[0x7e, 0x01, 0x02, 0x03, 0x7e]);
    assert_eq!(frames, vec![vec![], vec![0x01, 0x02, 0x03]]);
}

#[test]
fn escape_round_trip_all_byte_values() {
    // Escaping then de-framing yields back the original, for every byte value.
    for v in 0u8..=255 {
        let data = [v, 0x41, v];
        let mut stream = escape(&data);
        stream.push(0x7e);
        let frames = frames_of(&stream);
        assert_eq!(frames, vec![data.to_vec()]);
    }
}

#[test]
fn escape_round_trip_mixed() {
    let data = [0x7e, 0x00, 0x7d, 0x7d, 0xff, 0x7e];
    let mut stream = escape(&data);
    stream.push(0x7e);
    assert_eq!(frames_of(&stream), vec![data.to_vec()]);
}

#[test]
fn chunked_feeding_matches_whole_stream() {
    // Feeding the stream one byte at a time yields the same frames as feeding
    // it at once, even when an escape pair spans a chunk boundary.
    let stream = [0x10, 0x7d, 0x5e, 0x7e, 0x7e, 0x79, 0x7d, 0x5d, 0x7e, 0x7d];

    let whole = frames_of(&stream);

    let mut bytewise = Hdlc::new();
    let mut collected: Vec<Vec<u8>> = Vec::new();
    for &b in stream.iter() {
        bytewise.input_byte(b);
        collected.append(&mut bytewise.take_frames());
    }
    assert_eq!(collected, whole);

    let mut split = Hdlc::new();
    split.feed(&stream[0..2]);
    let mut collected2 = split.take_frames();
    split.feed(&stream[2..]);
    collected2.append(&mut split.take_frames());
    assert_eq!(collected2, whole);

    assert_eq!(whole, vec![vec![0x10, 0x7e], vec![], vec![0x79, 0x7d]]);
}

#[test]
fn consecutive_flags_yield_empty_frame() {
    let frames = frames_of(&[0x01, 0x7e, 0x7e]);
    assert_eq!(frames, vec![vec![0x01], vec![]]);
}

#[test]
fn incomplete_trailing_escape_is_not_emitted() {
    // The input ends while an escape is pending: the partial frame stays
    // buffered and no frame is emitted.
    let frames = frames_of(&[0x7e, 0x01, 0x7d]);
    assert_eq!(frames, vec![vec![]]);
}

#[test]
fn escape_resolves_across_reads() {
    // The byte that completes an escape may arrive in a later read.
    let mut d = Hdlc::new();
    d.feed(&[0x7d]);
    assert_eq!(d.take_frames(), Vec::<Vec<u8>>::new());
    d.feed(&[0x5e, 0x7e]);
    assert_eq!(d.take_frames(), vec![vec![0x7e]]);
}
