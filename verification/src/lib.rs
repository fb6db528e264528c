//! Protocol layer for a diagnostic-mode USB modem log stream: HDLC-style
//! de-framing of the raw byte stream, decoding of fixed-layout log packets,
//! and the handshake state machine that establishes the logging session.

pub mod hdlc;
pub mod packet;
pub mod handshake;
