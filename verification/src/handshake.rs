//! The handshake that puts the device into logging mode, and the decision
//! logic of the receive loop that follows. The transport itself (USB bulk
//! transfers) stays outside: callers send the wire constants, hand every
//! received buffer to these functions, and write the returned lines to the
//! sink.

use vstd::prelude::*;
use crate::hdlc::{Hdlc, feed_model, DeframerModel};
use crate::packet::{decode_and_render, rendered};

verus! {

/// The fixed 8-byte connect request sent while awaiting the acknowledgment.
pub open spec fn connect_request_seq() -> Seq<u8> {
    seq![0x0cu8, 0x00u8, 0x00u8, 0x00u8, 0x00u8, 0x47u8, 0xb8u8, 0x7eu8]
}

/// The exact 9-byte acknowledgment that establishes the session.
pub open spec fn ack_seq() -> Seq<u8> {
    seq![0x13u8, 0x0cu8, 0x00u8, 0x00u8, 0x00u8, 0x00u8, 0x72u8, 0xceu8, 0x7eu8]
}

/// The fixed 16-byte configuration frame sent once, on establishment.
pub open spec fn config_frame_seq() -> Seq<u8> {
    seq![
        0x7du8,
        0x5du8,
        0x04u8,
        0x34u8,
        0x21u8,
        0x34u8,
        0x21u8,
        0x00u8,
        0x00u8,
        0x1fu8,
        0x00u8,
        0x00u8,
        0x00u8,
        0xabu8,
        0xdfu8,
        0x7eu8,
    ]
}

/// The connect request as a sendable buffer.
pub fn connect_request() -> (v: Vec<u8>)
    ensures
        v@ == connect_request_seq(),
{
    let mut v: Vec<u8> = Vec::new();
    v.push(0x0c);
    v.push(0x00);
    v.push(0x00);
    v.push(0x00);
    v.push(0x00);
    v.push(0x47);
    v.push(0xb8);
    v.push(0x7e);
    proof {
        assert(v@ =~= connect_request_seq());
    }
    v
}

/// The configuration frame as a sendable buffer.
pub fn config_frame() -> (v: Vec<u8>)
    ensures
        v@ == config_frame_seq(),
{
    let mut v: Vec<u8> = Vec::new();
    v.push(0x7d);
    v.push(0x5d);
    v.push(0x04);
    v.push(0x34);
    v.push(0x21);
    v.push(0x34);
    v.push(0x21);
    v.push(0x00);
    v.push(0x00);
    v.push(0x1f);
    v.push(0x00);
    v.push(0x00);
    v.push(0x00);
    v.push(0xab);
    v.push(0xdf);
    v.push(0x7e);
    proof {
        assert(v@ =~= config_frame_seq());
    }
    v
}

/// The two states of the handshake. `Established` is terminal: once reached,
/// the controller never revisits `AwaitingAck`.
#[derive(Clone, Copy, PartialEq, Eq, Structural, Debug)]
pub enum HandshakeState {
    AwaitingAck,
    Established,
}

/// One round of the handshake: in `AwaitingAck` the exact acknowledgment
/// establishes the session and anything else leaves the state unchanged (the
/// caller waits and retries); `Established` absorbs every response.
pub open spec fn handshake_step(st: HandshakeState, rx: Seq<u8>) -> HandshakeState {
    match st {
        HandshakeState::AwaitingAck => if rx == ack_seq() {
            HandshakeState::Established
        } else {
            HandshakeState::AwaitingAck
        },
        HandshakeState::Established => HandshakeState::Established,
    }
}

/// Whether a received buffer is exactly the acknowledgment.
pub fn is_ack(rx: &[u8]) -> (r: bool)
    ensures
        r == (rx@ == ack_seq()),
{
    if rx.len() != 9 {
        proof {
            assert(ack_seq().len() == 9);
        }
        return false;
    }
    let r = rx[0] == 0x13 && rx[1] == 0x0c && rx[2] == 0x00 && rx[3] == 0x00 && rx[4] == 0x00
        && rx[5] == 0x00 && rx[6] == 0x72 && rx[7] == 0xce && rx[8] == 0x7e;
    proof {
        if r {
            assert(rx@ =~= ack_seq());
        } else {
            if rx@ == ack_seq() {
                assert(rx@[0] == 0x13 && rx@[1] == 0x0c && rx@[2] == 0x00 && rx@[3] == 0x00
                    && rx@[4] == 0x00 && rx@[5] == 0x00 && rx@[6] == 0x72 && rx@[7] == 0xce
                    && rx@[8] == 0x7e);
            }
        }
    }
    r
}

/// Advances the handshake by one received buffer, exactly as `handshake_step`
/// says. The caller sends one connect request before each call made in
/// `AwaitingAck`, and one configuration frame when the state changes to
/// `Established`.
pub fn on_response(st: HandshakeState, rx: &[u8]) -> (next: HandshakeState)
    ensures
        next == handshake_step(st, rx@),
{
    match st {
        HandshakeState::AwaitingAck => {
            if is_ack(rx) {
                HandshakeState::Established
            } else {
                HandshakeState::AwaitingAck
            }
        },
        HandshakeState::Established => HandshakeState::Established,
    }
}

/// The state after the first `k` received buffers, starting in `AwaitingAck`.
pub open spec fn state_after(responses: Seq<Seq<u8>>, k: int) -> HandshakeState
    decreases k,
{
    if k <= 0 {
        HandshakeState::AwaitingAck
    } else {
        handshake_step(state_after(responses, k - 1), responses[k - 1])
    }
}

/// How many connect requests go out during the first `k` rounds: one before
/// every round that begins in `AwaitingAck`, none afterwards.
pub open spec fn connects_sent(responses: Seq<Seq<u8>>, k: int) -> int
    decreases k,
{
    if k <= 0 {
        0
    } else {
        connects_sent(responses, k - 1) + if state_after(responses, k - 1) is AwaitingAck {
            1int
        } else {
            0int
        }
    }
}

/// How many configuration frames go out during the first `k` rounds: one at
/// every transition from `AwaitingAck` to `Established`.
pub open spec fn configs_sent(responses: Seq<Seq<u8>>, k: int) -> int
    decreases k,
{
    if k <= 0 {
        0
    } else {
        configs_sent(responses, k - 1) + if state_after(responses, k - 1) is AwaitingAck
            && state_after(responses, k) is Established {
            1int
        } else {
            0int
        }
    }
}

/// While every response so far missed the acknowledgment, the controller is
/// still awaiting it, has sent one connect request per round, and no
/// configuration frame.
proof fn lemma_awaiting_prefix(responses: Seq<Seq<u8>>, n: int, k: int)
    requires
        0 <= k <= n <= responses.len(),
        forall|i: int| 0 <= i < n ==> responses[i] != ack_seq(),
    ensures
        state_after(responses, k) is AwaitingAck,
        connects_sent(responses, k) == k,
        configs_sent(responses, k) == 0,
    decreases k,
{
    if k > 0 {
        lemma_awaiting_prefix(responses, n, k - 1);
    }
}

/// From the round that carries the acknowledgment onwards, the controller is
/// established, the connect count stays where it was, and exactly one
/// configuration frame has gone out.
proof fn lemma_established_suffix(responses: Seq<Seq<u8>>, n: int, k: int)
    requires
        0 <= n < responses.len(),
        forall|i: int| 0 <= i < n ==> responses[i] != ack_seq(),
        responses[n] == ack_seq(),
        n + 1 <= k <= responses.len(),
    ensures
        state_after(responses, k) is Established,
        connects_sent(responses, k) == n + 1,
        configs_sent(responses, k) == 1,
    decreases k,
{
    if k == n + 1 {
        lemma_awaiting_prefix(responses, n, n);
    } else {
        lemma_established_suffix(responses, n, k - 1);
    }
}

/// The handshake law: when the transport misses the acknowledgment `n` times
/// and then delivers it exactly, the controller sends exactly `n + 1` connect
/// requests and exactly one configuration frame, stays in `AwaitingAck` until
/// the acknowledgment and in `Established` ever after — whatever else the
/// transport returns later.
pub proof fn lemma_handshake_counts(responses: Seq<Seq<u8>>, n: int)
    requires
        0 <= n < responses.len(),
        forall|i: int| 0 <= i < n ==> responses[i] != ack_seq(),
        responses[n] == ack_seq(),
    ensures
        forall|k: int| 0 <= k <= n ==> state_after(responses, k) is AwaitingAck,
        forall|k: int| n < k <= responses.len() ==> state_after(responses, k) is Established,
        forall|k: int| n < k <= responses.len() ==> connects_sent(responses, k) == n + 1,
        configs_sent(responses, responses.len() as int) == 1,
{
    assert forall|k: int| 0 <= k <= n implies state_after(responses, k) is AwaitingAck by {
        lemma_awaiting_prefix(responses, n, k);
    }
    assert forall|k: int| n < k <= responses.len() implies state_after(
        responses,
        k,
    ) is Established by {
        lemma_established_suffix(responses, n, k);
    }
    assert forall|k: int| n < k <= responses.len() implies connects_sent(responses, k) == n
        + 1 by {
        lemma_established_suffix(responses, n, k);
    }
    lemma_established_suffix(responses, n, responses.len() as int);
}

/// The renderings of the non-empty frames, in order: zero-length frames are
/// discarded without decoding.
pub open spec fn rendered_frames(frames: Seq<Seq<u8>>) -> Seq<Seq<u8>>
    decreases frames.len(),
{
    if frames.len() == 0 {
        Seq::empty()
    } else {
        let rest = rendered_frames(frames.drop_last());
        if frames.last().len() == 0 {
            rest
        } else {
            rest.push(rendered(frames.last()))
        }
    }
}

/// One pass of the receive loop: feeds a received buffer through the
/// de-framer and returns the rendering of every frame it completed, skipping
/// zero-length frames. The de-framer keeps the partial frame and escape
/// state, so a frame split across two reads is preserved.
pub fn process_chunk(deframer: &mut Hdlc, bytes: &[u8]) -> (out: Vec<Vec<u8>>)
    ensures
        final(deframer)@ == (DeframerModel {
            frames: Seq::empty(),
            ..feed_model(old(deframer)@, bytes@)
        }),
        out@.map_values(|l: Vec<u8>| l@) == rendered_frames(
            feed_model(old(deframer)@, bytes@).frames,
        ),
{
    deframer.feed(bytes);
    let frames = deframer.take_frames();
    let ghost fs = feed_model(old(deframer)@, bytes@).frames;
    let mut out: Vec<Vec<u8>> = Vec::new();
    let mut i: usize = 0;
    proof {
        assert(out@.map_values(|l: Vec<u8>| l@) =~= rendered_frames(fs.take(0)));
    }
    while i < frames.len()
        invariant
            i <= frames@.len(),
            frames@.map_values(|f: Vec<u8>| f@) == fs,
            out@.map_values(|l: Vec<u8>| l@) == rendered_frames(fs.take(i as int)),
        decreases frames@.len() - i,
    {
        proof {
            assert(fs.take(i + 1).drop_last() =~= fs.take(i as int));
            assert(fs.take(i + 1).last() == fs[i as int]);
            assert(fs[i as int] == frames@[i as int]@);
        }
        let frame: &Vec<u8> = &frames[i];
        if frame.len() > 0 {
            let line = decode_and_render(frame.as_slice());
            out.push(line);
        }
        proof {
            assert(out@.map_values(|l: Vec<u8>| l@) =~= rendered_frames(fs.take(i + 1)));
        }
        i = i + 1;
    }
    proof {
        assert(fs.take(fs.len() as int) =~= fs);
    }
    out
}

} // verus!
