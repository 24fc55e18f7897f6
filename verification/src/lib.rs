//! A WebSocket relay server core: the HTTP upgrade handshake, the frame
//! wire format, message reassembly, and a broadcast room, together with a
//! few small companion utilities (a prime finder, a deadline-ordered work
//! list, and a line-protocol calculator command parser).

pub mod bytesutil;
pub mod calc;
pub mod frame;
pub mod handshake;
pub mod message;
pub mod primes;
pub mod room;
pub mod sched;
