# xhttp

The decision core of a proxy that carries streams over HTTP (XHTTP), written in
Rust and verified with Verus, and a program around it.

The library in `src/` holds everything that decides: which configuration is
valid, which rule a connection matches, what a DNS message says, how a request of
the carrier is built and read, which handshake a client has to make. Each function
states in its `ensures` what it returns for every input that its `requires` admits,
and Verus proves it. Public proof functions state what holds across functions, such
as that a server reads out of a request the session that a client wrote into it.

The program in `app/` does what the library does not: it parses arguments, reads
files, opens sockets, waits and logs. It hands the library plain values and does
what comes back.

## Layout

- `src/config.rs`, `src/singbox.rs`, `src/program.rs`: settings.
- `src/client.rs`, `src/protocol/`: the carrier. Metadata, payload and padding of
  a request, and that a server with the same settings takes what a client sends.
- `src/routing/`, `src/linux_route.rs`: rules, what they match, the router, facts
  about the host that rules ask for.
- `src/dns/`: messages, records, rules for names, cache, the plan of a lookup.
- `src/proxy/`: handshakes of SOCKS and HTTP proxies, route evaluation step by step,
  first bytes of a connection, relaying, address translation, groups of outbounds,
  downloads.
- `src/anytls.rs`: settings of AnyTLS sessions, client certificates, keys of
  encrypted hellos.
- `src/clash.rs`: what a dashboard sees and changes.
- `src/text.rs`, `src/wire.rs`, `src/net.rs`, `src/time.rs`, `src/json.rs`,
  `src/encoding.rs`, `src/header.rs`, `src/location.rs`, `src/pattern.rs`: texts,
  bytes, addresses, times, and the outside crates that the core calls.

Functions marked `external_body` wrap calls into outside crates (`axum`, `base64`,
`httlib-huffman`, `ipnet`, `rand`, `regex`, `serde_json`, `sha2`, `url`, `uuid`,
`x509-parser`, `zip`) or into the standard library. Their doc comments say what is
taken on trust.
