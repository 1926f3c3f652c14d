//! How the servers of names are reached.
use crate::config;
use crate::dns::message::{self, DnsError};
use crate::singbox::DnsServer;
use crate::text;
use crate::time::Duration;
use crate::wire;
use vstd::prelude::*;

verus! {

// ---- servers ----

/// How a server is reached.
#[derive(Clone, Copy, Debug, PartialEq, Eq, Structural)]
pub enum Transport {
    /// Over datagrams, and over a stream where an answer is cut short.
    Udp,
    Tcp,
    Tls,
    Https,
    /// The system looks names up.
    Local,
}

/// Why a server cannot be reached.
#[derive(Clone, Copy, Debug, PartialEq, Eq, Structural)]
pub enum UpstreamError {
    UnsupportedKind,
    NoAddress,
}

/// How a server of a kind is reached.
pub open spec fn transport_named(kind: Seq<char>) -> Option<Transport> {
    if kind == ""@ || kind == "udp"@ {
        Some(Transport::Udp)
    } else if kind == "tcp"@ {
        Some(Transport::Tcp)
    } else if kind == "tls"@ {
        Some(Transport::Tls)
    } else if kind == "https"@ {
        Some(Transport::Https)
    } else if kind == "local"@ {
        Some(Transport::Local)
    } else {
        None
    }
}

/// A server that is reached at a host and a port.
pub open spec fn has_endpoint(t: Transport) -> bool {
    t == Transport::Udp || t == Transport::Tcp || t == Transport::Tls
}

/// Why a server cannot be reached, if it cannot.
pub open spec fn upstream_fault(server: DnsServer) -> Option<UpstreamError> {
    match transport_named(server.kind@) {
        None => Some(UpstreamError::UnsupportedKind),
        Some(t) => if has_endpoint(t) && server.server is None {
            Some(UpstreamError::NoAddress)
        } else {
            None
        },
    }
}

/// How a server is reached, and where.
#[derive(Debug)]
pub struct Upstream {
    pub transport: Transport,
    pub endpoint: Option<(String, u16)>,
}

impl Upstream {
    /// Reads how a server is reached.
    pub fn new(server: &DnsServer) -> (r: Result<Upstream, UpstreamError>)
        ensures
            match r {
                Ok(u) => {
                    &&& upstream_fault(*server) is None
                    &&& transport_named(server.kind@) == Some(u.transport)
                    &&& match u.endpoint {
                        Some((host, port)) => has_endpoint(u.transport) && Some(host@)
                            == text::opt_text(server.server) && port == (match server.server_port {
                            Some(p) => p,
                            None => if u.transport == Transport::Tls {
                                853
                            } else {
                                53
                            },
                        }),
                        None => !has_endpoint(u.transport),
                    }
                },
                Err(e) => upstream_fault(*server) == Some(e),
            },
    {
        let kind = server.kind.as_str();
        let transport = if text::same_text(kind, "") || text::same_text(kind, "udp") {
            Transport::Udp
        } else if text::same_text(kind, "tcp") {
            Transport::Tcp
        } else if text::same_text(kind, "tls") {
            Transport::Tls
        } else if text::same_text(kind, "https") {
            return Ok(Upstream { transport: Transport::Https, endpoint: None });
        } else if text::same_text(kind, "local") {
            return Ok(Upstream { transport: Transport::Local, endpoint: None });
        } else {
            return Err(UpstreamError::UnsupportedKind);
        };
        let host = match &server.server {
            Some(host) => text::copy_text(host.as_str()),
            None => {
                return Err(UpstreamError::NoAddress);
            },
        };
        let port: u16 = match server.server_port {
            Some(port) => port,
            None => if transport == Transport::Tls {
                853
            } else {
                53
            },
        };
        Ok(Upstream { transport, endpoint: Some((host, port)) })
    }
}

/// The URL of a server that is reached over HTTPS.
pub open spec fn https_url_of(server: DnsServer) -> Option<Seq<char>> {
    match server.server {
        None => None,
        Some(s) => {
            let host = s@;
            let path = text::text_or(text::opt_text(server.path), "/dns-query"@);
            Some(
                if text::starts_with(host, "http://"@) || text::starts_with(host, "https://"@) {
                    text::trim_end(host, '/') + path
                } else {
                    "https://"@ + host + seq![':'] + text::decimal(
                        (match server.server_port {
                            Some(p) => p,
                            None => 443u16,
                        }) as nat,
                    ) + path
                },
            )
        },
    }
}

/// The URL of a server that is reached over HTTPS.
pub fn https_url(server: &DnsServer) -> (r: Option<String>)
    ensures
        text::opt_text(r) == https_url_of(*server),
{
    let host = match &server.server {
        Some(host) => host.as_str(),
        None => {
            return None;
        },
    };
    let path = text::or_text(&server.path, "/dns-query");
    if text::text_starts_with(host, "http://") || text::text_starts_with(host, "https://") {
        let mut url = text::trim_end_char(host, '/');
        url.append(path.as_str());
        return Some(url);
    }
    let port: u16 = match server.server_port {
        Some(port) => port,
        None => 443,
    };
    let mut url = text::copy_text("https://");
    url.append(host);
    text::push_char(&mut url, ':');
    url.append(text::to_decimal(port as u64).as_str());
    url.append(path.as_str());
    proof {
        assert(url@ =~= https_url_of(*server)->0);
    }
    Some(url)
}

/// Whether an answer over datagrams was cut short, so that the question is put
/// again over a stream.
pub fn is_cut_short(response: &[u8]) -> (r: bool)
    ensures
        r == (response@.len() > 2 && response@[2] & 2 != 0),
{
    response.len() > 2 && response[2] & 2 != 0
}

// ---- numbers of questions ----

/// The questions over datagrams that wait for an answer, by their numbers.
#[derive(Debug)]
pub struct PendingIds {
    pub ids: Vec<u16>,
    pub next: u32,
}

/// The number that comes so many steps on.
pub open spec fn id_after(next: u32, steps: nat) -> u16 {
    ((next + steps) % 0x1_0000) as u16
}

/// The counter so many steps on.
pub open spec fn counter_after(next: u32, steps: nat) -> u32 {
    ((next + steps) % 0x1_0000_0000) as u32
}

impl PendingIds {
    /// No number is given out twice.
    pub open spec fn wf(&self) -> bool {
        forall|i: int, j: int|
            0 <= i < j < self.ids@.len() ==> (#[trigger] self.ids@[i]) != (#[trigger] self.ids@[j])
    }

    pub fn new(next: u32) -> (r: PendingIds)
        ensures
            r.wf(),
            r.ids@.len() == 0,
            r.next == next,
    {
        PendingIds { ids: Vec::new(), next }
    }

    /// Numbers that begin anywhere.
    pub fn anywhere() -> (r: PendingIds)
        ensures
            r.wf(),
            r.ids@.len() == 0,
    {
        PendingIds::new(config::random_between(0, 0xffff_ffff) as u32)
    }

    fn is_pending(&self, id: u16) -> (r: bool)
        ensures
            r == self.ids@.contains(id),
    {
        let mut i: usize = 0;
        while i < self.ids.len()
            invariant
                i <= self.ids@.len(),
                forall|j: int| 0 <= j < i ==> self.ids@[j] != id,
            decreases self.ids@.len() - i,
        {
            if self.ids[i] == id {
                proof {
                    assert(self.ids@[i as int] == id);
                }
                return true;
            }
            i = i + 1;
        }
        false
    }

    /// Gives out the next number that no question waits under, if there is one.
    pub fn take(&mut self) -> (r: Option<u16>)
        requires
            old(self).wf(),
        ensures
            final(self).wf(),
            match r {
                Some(id) => {
                    &&& !old(self).ids@.contains(id)
                    &&& final(self).ids@ == old(self).ids@.push(id)
                    &&& exists|k: nat|
                        k < 0x1_0000 && id == id_after(old(self).next, k) && final(self).next
                            == counter_after(old(self).next, k + 1) && forall|j: nat|
                            j < k ==> old(self).ids@.contains(#[trigger] id_after(old(self).next, j))
                },
                None => {
                    &&& final(self).ids == old(self).ids
                    &&& final(self).next == counter_after(old(self).next, 0x1_0000)
                    &&& forall|id: u16| old(self).ids@.contains(id)
                },
            },
    {
        let ghost start = self.next;
        let mut k: u32 = 0;
        proof {
            assert(counter_after(start, 0) == start);
        }
        while k < 0x1_0000
            invariant
                k <= 0x1_0000,
                self.ids == old(self).ids,
                start == old(self).next,
                self.next == counter_after(start, k as nat),
                forall|j: nat| j < k ==> self.ids@.contains(#[trigger] id_after(start, j)),
                self.wf(),
            decreases 0x1_0000 - k,
        {
            let candidate: u16 = (self.next % 0x1_0000) as u16;
            proof {
                lemma_counter(start, k as nat);
                assert(candidate == id_after(start, k as nat));
            }
            self.next = if self.next == 0xffff_ffff {
                0
            } else {
                self.next + 1
            };
            if !self.is_pending(candidate) {
                let ghost before = self.ids@;
                self.ids.push(candidate);
                proof {
                    assert forall|i: int, j: int| 0 <= i < j < self.ids@.len() implies (
                    #[trigger] self.ids@[i]) != (#[trigger] self.ids@[j]) by {
                        assert(self.ids@[i] == before[i]);
                        if j < before.len() {
                            assert(self.ids@[j] == before[j]);
                        } else {
                            assert(before.contains(before[i]));
                        }
                    }
                    assert(candidate == id_after(start, k as nat));
                }
                return Some(candidate);
            }
            k = k + 1;
        }
        proof {
            assert forall|id: u16| self.ids@.contains(id) by {
                lemma_every_id(start, id);
                let j = choose|j: nat| j < 0x1_0000 && #[trigger] id_after(start, j) == id;
                assert(self.ids@.contains(id_after(start, j)));
            }
        }
        None
    }

    /// Takes a number back: its question has been answered or given up.
    pub fn release(&mut self, id: u16) -> (r: bool)
        requires
            old(self).wf(),
        ensures
            final(self).wf(),
            final(self).next == old(self).next,
            r == old(self).ids@.contains(id),
            !final(self).ids@.contains(id),
            forall|other: u16|
                other != id ==> #[trigger] final(self).ids@.contains(other)
                    == old(self).ids@.contains(other),
    {
        let mut i: usize = 0;
        while i < self.ids.len()
            invariant
                i <= self.ids@.len(),
                *self == *old(self),
                self.wf(),
                forall|j: int| 0 <= j < i ==> self.ids@[j] != id,
            decreases self.ids@.len() - i,
        {
            if self.ids[i] == id {
                let ghost before = self.ids@;
                let _ = self.ids.remove(i);
                proof {
                    let after = self.ids@;
                    assert forall|a: int, b: int| 0 <= a < b < after.len() implies (
                    #[trigger] after[a]) != (#[trigger] after[b]) by {
                        let x = if a < i {
                            a
                        } else {
                            a + 1
                        };
                        let y = if b < i {
                            b
                        } else {
                            b + 1
                        };
                        assert(before[x] != before[y]);
                    }
                    if after.contains(id) {
                        let a = choose|a: int| 0 <= a < after.len() && after[a] == id;
                        let x = if a < i {
                            a
                        } else {
                            a + 1
                        };
                        assert(before[x] == id && x != i);
                    }
                    assert(before.contains(id)) by {
                        assert(before[i as int] == id);
                    }
                    assert forall|other: u16| other != id implies #[trigger] after.contains(other)
                        == before.contains(other) by {
                        if before.contains(other) {
                            let b = choose|b: int| 0 <= b < before.len() && before[b] == other;
                            assert(after[if b < i {
                                b
                            } else {
                                b - 1
                            }] == other);
                        }
                        if after.contains(other) {
                            let a = choose|a: int| 0 <= a < after.len() && after[a] == other;
                            assert(before[if a < i {
                                a
                            } else {
                                a + 1
                            }] == other);
                        }
                    }
                }
                return true;
            }
            i = i + 1;
        }
        false
    }
}

proof fn lemma_counter(start: u32, k: nat)
    requires
        k <= 0x1_0000,
    ensures
        counter_after(start, k) % 0x1_0000 == id_after(start, k),
        counter_after(start, k + 1) == (if counter_after(start, k) == 0xffff_ffffu32 {
            0
        } else {
            counter_after(start, k) + 1
        }),
{
    let n = (start + k) as int;
    assert((n % 0x1_0000_0000) % 0x1_0000 == n % 0x1_0000) by (nonlinear_arith);
    assert((n + 1) % 0x1_0000_0000 == (if n % 0x1_0000_0000 == 0xffff_ffff {
        0
    } else {
        n % 0x1_0000_0000 + 1
    }));
}

proof fn lemma_every_id(start: u32, id: u16)
    ensures
        exists|j: nat| j < 0x1_0000 && #[trigger] id_after(start, j) == id,
{
    let low = (start % 0x1_0000) as int;
    let j = if id >= low {
        (id - low) as nat
    } else {
        (id + 0x1_0000 - low) as nat
    };
    assert((start + j) % 0x1_0000 == id);
    assert(id_after(start, j) == id);
}

// ---- streams ----

/// A stream that is not in use.
#[derive(Clone, Copy, Debug, PartialEq, Eq, Structural)]
pub struct IdleStream {
    pub handle: u64,
    pub last_used: Duration,
}

/// The streams to a server that are not in use.
#[derive(Debug)]
pub struct IdlePool {
    pub idle: Vec<IdleStream>,
}

/// A stream was used within the last minute.
pub open spec fn is_fresh(s: IdleStream, now: nat) -> bool {
    now < s.last_used.millis || now - s.last_used.millis < 60000
}

/// The place of the last stream that is fresh.
pub open spec fn last_fresh(s: Seq<IdleStream>, now: nat) -> Option<int>
    decreases s.len(),
{
    if s.len() == 0 {
        None
    } else if is_fresh(s.last(), now) {
        Some(s.len() - 1)
    } else {
        last_fresh(s.drop_last(), now)
    }
}

impl IdlePool {
    /// There are no more than 32.
    pub open spec fn wf(&self) -> bool {
        self.idle@.len() <= 32
    }

    pub fn new() -> (r: IdlePool)
        ensures
            r.wf(),
            r.idle@.len() == 0,
    {
        IdlePool { idle: Vec::new() }
    }

    /// Takes the stream that was put back last and is fresh; those put back after
    /// it are dropped, all of them where none is fresh.
    pub fn take_idle(&mut self, now: Duration) -> (r: Option<u64>)
        requires
            old(self).wf(),
        ensures
            final(self).wf(),
            match last_fresh(old(self).idle@, now.millis as nat) {
                Some(i) => r == Some(old(self).idle@[i].handle) && final(self).idle@
                    == old(self).idle@.take(i),
                None => r is None && final(self).idle@.len() == 0,
            },
    {
        let ghost all = self.idle@;
        proof {
            assert(all.take(all.len() as int) =~= all);
        }
        while self.idle.len() > 0
            invariant
                all == old(self).idle@,
                self.idle@.len() <= all.len() <= 32,
                self.idle@ == all.take(self.idle@.len() as int),
                last_fresh(all, now.millis as nat) == last_fresh(self.idle@, now.millis as nat),
            decreases self.idle@.len(),
        {
            let ghost before = self.idle@;
            match self.idle.pop() {
                Some(s) => {
                    proof {
                        assert(before.last() == s);
                        assert(self.idle@ =~= before.drop_last());
                        assert(self.idle@ =~= all.take(self.idle@.len() as int));
                    }
                    if now.millis < s.last_used.millis || now.millis - s.last_used.millis < 60000 {
                        return Some(s.handle);
                    }
                },
                None => {},
            }
        }
        None
    }

    /// Puts a stream back, where there is room for it.
    pub fn put_back(&mut self, handle: u64, now: Duration)
        requires
            old(self).wf(),
        ensures
            final(self).wf(),
            final(self).idle@ == (if old(self).idle@.len() < 32 {
                old(self).idle@.push(IdleStream { handle, last_used: now })
            } else {
                old(self).idle@
            }),
    {
        if self.idle.len() < 32 {
            self.idle.push(IdleStream { handle, last_used: now });
        }
    }
}

// ---- messages on streams ----

/// A message on a stream: its length in two bytes, then the message.
pub open spec fn framed(message: Seq<u8>) -> Seq<u8> {
    wire::bytes16(message.len()) + message
}

/// What comes of a try to put a question over a stream.
#[derive(Clone, Copy, Debug, PartialEq, Eq, Structural)]
pub enum StreamEvent {
    Answered,
    /// The stream failed, one that was idle or a new one.
    Broken,
    /// There is no connection to the server.
    Unconnected,
}

/// What is done then.
#[derive(Clone, Copy, Debug, PartialEq, Eq, Structural)]
pub enum StreamAction {
    /// The answer is handed on, and the stream is put back.
    Done,
    /// The question is put over another stream.
    Again,
    GiveUp,
}

/// A question that is put over streams.
#[derive(Debug)]
pub struct StreamTries {
    /// How many streams failed.
    pub broken: u8,
}

/// What is done after so many streams failed: a second one is tried, and no third. A
/// server that cannot be connected to is not tried again.
pub open spec fn stream_action(broken: u8, event: StreamEvent) -> StreamAction {
    match event {
        StreamEvent::Answered => StreamAction::Done,
        StreamEvent::Unconnected => StreamAction::GiveUp,
        StreamEvent::Broken => if broken == 0 {
            StreamAction::Again
        } else {
            StreamAction::GiveUp
        },
    }
}

impl StreamTries {
    pub fn new() -> (r: StreamTries)
        ensures
            r.broken == 0,
    {
        StreamTries { broken: 0 }
    }

    /// Decides what is done after a try.
    pub fn on(&mut self, event: StreamEvent) -> (r: StreamAction)
        ensures
            r == stream_action(old(self).broken, event),
            final(self).broken == (if event == StreamEvent::Broken && old(self).broken < 255 {
                old(self).broken + 1
            } else {
                old(self).broken as int
            }),
    {
        let before: u8 = self.broken;
        match event {
            StreamEvent::Answered => StreamAction::Done,
            StreamEvent::Unconnected => StreamAction::GiveUp,
            StreamEvent::Broken => {
                if before < 255 {
                    self.broken = before + 1;
                }
                if before == 0 {
                    StreamAction::Again
                } else {
                    StreamAction::GiveUp
                }
            },
        }
    }
}

/// A question gets over one stream that fails, and not over two.
pub proof fn one_broken_stream_is_got_over(last: StreamEvent)
    ensures
        stream_action(0, StreamEvent::Broken) == StreamAction::Again,
        last == StreamEvent::Answered ==> stream_action(1, last) == StreamAction::Done,
        last != StreamEvent::Answered ==> stream_action(1, last) == StreamAction::GiveUp,
{
}

/// Writes a message for a stream; one that is longer than its length can say is
/// none.
pub fn frame(message: &[u8]) -> (r: Option<Vec<u8>>)
    ensures
        match r {
            Some(b) => message@.len() <= 65535 && b@ == framed(message@),
            None => message@.len() > 65535,
        },
{
    if message.len() > 65535 {
        return None;
    }
    let mut out: Vec<u8> = Vec::new();
    wire::push_u16(&mut out, message.len() as u16);
    wire::push_bytes(&mut out, message);
    proof {
        assert(out@ =~= framed(message@));
    }
    Some(out)
}

/// The message at the front of what was read of a stream, once it is all there.
pub open spec fn unframed(b: Seq<u8>) -> Option<Seq<u8>> {
    if b.len() < 2 || b.len() < 2 + wire::be16(b, 0) {
        None
    } else {
        Some(b.subrange(2, (2 + wire::be16(b, 0)) as int))
    }
}

/// Reads the message at the front of what was read of a stream, once it is all
/// there.
pub fn unframe(b: &[u8]) -> (r: Option<Vec<u8>>)
    ensures
        match r {
            Some(m) => unframed(b@) == Some(m@),
            None => unframed(b@) is None,
        },
{
    if b.len() < 2 {
        return None;
    }
    let n: usize = wire::read_u16(b, 0) as usize;
    if b.len() - 2 < n {
        return None;
    }
    Some(text::copy_bytes(&b[2..2 + n]))
}

/// A message that was written for a stream is read back, whatever follows it.
pub proof fn frames_read_back(message: Seq<u8>, rest: Seq<u8>)
    requires
        message.len() <= 65535,
    ensures
        unframed(framed(message) + rest) == Some(message),
{
    let b = framed(message) + rest;
    assert(b.subrange(0, 2) =~= wire::bytes16(message.len()));
    wire::lemma_be16(b, 0, message.len());
    assert(b.subrange(2, (2 + message.len()) as int) =~= message);
}

/// A question over datagrams under the number it was given.
pub fn renumber(request: &[u8], id: u16) -> (r: Result<Vec<u8>, DnsError>)
    ensures
        match r {
            Ok(b) => request@.len() >= 2 && b@ == message::with_id(request@, id),
            Err(e) => request@.len() < 2 && e == DnsError::TruncatedMessage,
        },
{
    let mut out = text::copy_bytes(request);
    match message::replace_id(&mut out, id) {
        Ok(()) => Ok(out),
        Err(e) => Err(e),
    }
}

/// A server is one where its kind is known and, unless it is asked over HTTPS or
/// is the system itself, it has an address.
pub proof fn servers_are_in_order(server: DnsServer)
    ensures
        ({
            let kind = server.kind@;
            upstream_fault(server) is None <==> kind == "https"@ || kind == "local"@ || (
            server.server is Some && (kind == ""@ || kind == "udp"@ || kind == "tcp"@ || kind
                == "tls"@))
        }),
        server.kind@ == "udp"@ ==> transport_named(server.kind@) == Some(Transport::Udp),
        server.kind@ == "tcp"@ ==> transport_named(server.kind@) == Some(Transport::Tcp),
        server.kind@ == "tls"@ ==> transport_named(server.kind@) == Some(Transport::Tls),
        server.kind@ == "https"@ ==> transport_named(server.kind@) == Some(Transport::Https),
        server.kind@ == "local"@ ==> transport_named(server.kind@) == Some(Transport::Local),
        server.kind@ == ""@ ==> transport_named(server.kind@) == Some(Transport::Udp),
{
    reveal_strlit("");
    reveal_strlit("udp");
    reveal_strlit("tcp");
    reveal_strlit("tls");
    reveal_strlit("https");
    reveal_strlit("local");
    assert("udp"@[0] == 'u' && "tcp"@[1] == 'c' && "tls"@[1] == 'l' && "https"@[0] == 'h'
        && "local"@[0] == 'l' && "tcp"@[0] == 't' && "tls"@[0] == 't');
    assert("https"@.len() == 5 && "local"@.len() == 5 && "udp"@.len() == 3 && ""@.len() == 0);
}

/// A server over HTTPS is asked at its own URL where it has one, without the slashes
/// at its end, or else at its host and port, 443 where it names none; at the path
/// that it names, or else at the usual one.
pub proof fn servers_over_https_are_asked_at(server: DnsServer)
    requires
        server.server is Some,
    ensures
        ({
            let host = server.server->0@;
            let path = if server.path is Some {
                server.path->0@
            } else {
                "/dns-query"@
            };
            let port: u16 = if server.server_port is Some {
                server.server_port->0
            } else {
                443
            };
            &&& text::starts_with(host, "http://"@) || text::starts_with(host, "https://"@)
                ==> https_url_of(server) == Some(text::trim_end(host, '/') + path)
            &&& !text::starts_with(host, "http://"@) && !text::starts_with(host, "https://"@)
                ==> https_url_of(server) == Some(
                "https://"@ + host + seq![':'] + text::decimal(port as nat) + path,
            )
        }),
{
}

/// A stream that was last used less than a minute ago is used again: the last one
/// of those, and none that is older.
pub proof fn fresh_streams_are_used_again(s: Seq<IdleStream>, now: nat)
    ensures
        match last_fresh(s, now) {
            Some(i) => 0 <= i < s.len() && now < s[i].last_used.millis + 60 * 1000 && forall|j: int|
                i < j < s.len() ==> now >= (#[trigger] s[j]).last_used.millis + 60 * 1000,
            None => forall|j: int|
                0 <= j < s.len() ==> now >= (#[trigger] s[j]).last_used.millis + 60 * 1000,
        },
    decreases s.len(),
{
    if s.len() > 0 && !is_fresh(s.last(), now) {
        let front = s.drop_last();
        fresh_streams_are_used_again(front, now);
        assert forall|j: int| 0 <= j < front.len() implies front[j] == s[j] by {
        }
        match last_fresh(s, now) {
            Some(i) => {
                assert forall|j: int| i < j < s.len() implies now >= (
                #[trigger] s[j]).last_used.millis + 60 * 1000 by {
                    if j < front.len() {
                        assert(front[j] == s[j]);
                    }
                }
            },
            None => {
                assert forall|j: int| 0 <= j < s.len() implies now >= (
                #[trigger] s[j]).last_used.millis + 60 * 1000 by {
                    if j < front.len() {
                        assert(front[j] == s[j]);
                    }
                }
            },
        }
    }
}

} // verus!
