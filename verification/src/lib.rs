pub mod buffer;
pub mod codec;
pub mod framing;
pub mod irc;
pub mod raw;
pub mod state;
pub mod utf8;
pub mod link;
pub mod network;
pub mod client;
pub mod ircd;
