//! The proxy: handshakes, route evaluation, datagrams and relays.
pub mod direct;
pub mod fetch;
pub mod first_packet;
pub mod group;
pub mod handshakes;
pub mod hello;
pub mod http_inbound;
pub mod inbound;
pub mod relay;
pub mod route;
pub mod runtime;
pub mod sniff;
pub mod told;
pub mod tproxy;
pub mod udp;
pub mod udp_nat;
