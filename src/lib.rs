//! A reliable, ordered byte-stream protocol over an unreliable datagram
//! channel: the frame codec, the session table and its state machine, and
//! the line-reversal application that runs on top of a session. Beside it,
//! the stream obfuscation cipher and a primality check of neighbouring
//! services.
pub mod cipher;
pub mod codec;
pub mod lines;
pub mod prime;
pub mod registry;
pub mod session;
