//! Exploit-development aid: a cyclic-pattern (de Bruijn) generator with
//! inverse lookup, boundary-safe pattern search over refilling byte streams,
//! byte packing and numeral parsing helpers, and a base-address translator.
//!
//! Every function here carries a verified contract. The transports that feed
//! real process or socket bytes into these types live outside the library.

pub mod cyclic;
pub mod debruijn;
pub mod error;
pub mod memory_base;
pub mod search;
pub mod stream;
pub mod util;
