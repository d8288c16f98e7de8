//! A client for the Web Application Messaging Protocol over a length-prefixed
//! binary transport: the framing rules, the self-describing value model and its
//! binary encoding, the message catalogue, and the session state machine.

pub mod errors;
pub mod cbor;
pub mod serialization;
pub mod transport;
pub mod messages;
pub mod session;
pub mod codec_lemmas;
pub mod float_bits;
