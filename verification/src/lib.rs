//! The decision core of an XHTTP proxy: configuration rules, routing, DNS
//! messages, the XHTTP carrier protocol and the proxy handshakes.
use vstd::prelude::*;

pub mod anytls;
pub mod clash;
pub mod client;
pub mod config;
pub mod dns;
pub mod encoding;
pub mod header;
pub mod json;
pub mod linux_route;
pub mod location;
pub mod net;
pub mod pattern;
pub mod program;
pub mod protocol;
pub mod proxy;
pub mod routing;
pub mod singbox;
pub mod text;
pub mod time;
pub mod wire;

verus! {

} // verus!
