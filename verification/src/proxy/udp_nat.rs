//! The table of UDP sessions behind an inbound that translates addresses.
use crate::net::{IpAddr, SocketAddr};
use crate::text;
use crate::time::Duration;
use vstd::prelude::*;

verus! {

/// How much of a datagram's endpoints a mapping or a filter goes by.
#[derive(Debug, Clone, Copy, PartialEq, Eq, Structural)]
pub enum UdpNatBehavior {
    EndpointIndependent,
    AddressDependent,
    AddressAndPortDependent,
}

/// A behaviour is not one of those known: the option and its value.
#[derive(Debug, Clone, PartialEq, Eq)]
pub struct UnsupportedBehavior {
    pub field: String,
    pub value: String,
}

/// The behaviour that a word of the configuration names.
pub open spec fn behavior_named(word: Option<Seq<char>>) -> Option<UdpNatBehavior> {
    if word is None || word == Some("endpoint_independent"@) {
        Some(UdpNatBehavior::EndpointIndependent)
    } else if word == Some("address_dependent"@) {
        Some(UdpNatBehavior::AddressDependent)
    } else if word == Some("address_and_port_dependent"@) {
        Some(UdpNatBehavior::AddressAndPortDependent)
    } else {
        None
    }
}

impl UdpNatBehavior {
    /// Reads an option of the configuration; without one a mapping and a filter
    /// are independent of the endpoint.
    pub fn parse(value: Option<&str>, field: &str) -> (r: Result<
        UdpNatBehavior,
        UnsupportedBehavior,
    >)
        ensures
            match r {
                Ok(b) => behavior_named(text::opt_str(value)) == Some(b),
                Err(e) => behavior_named(text::opt_str(value)) is None && e.field@ == field@
                    && value is Some && e.value@ == value->0@,
            },
    {
        match value {
            None => Ok(UdpNatBehavior::EndpointIndependent),
            Some(v) => {
                if text::same_text(v, "endpoint_independent") {
                    Ok(UdpNatBehavior::EndpointIndependent)
                } else if text::same_text(v, "address_dependent") {
                    Ok(UdpNatBehavior::AddressDependent)
                } else if text::same_text(v, "address_and_port_dependent") {
                    Ok(UdpNatBehavior::AddressAndPortDependent)
                } else {
                    Err(
                        UnsupportedBehavior {
                            field: text::copy_text(field),
                            value: text::copy_text(v),
                        },
                    )
                }
            },
        }
    }
}

/// What a session is found by.
#[derive(Debug, Clone, Copy, PartialEq, Eq, Structural)]
pub enum UdpMappingKey {
    Endpoint(SocketAddr),
    Address(SocketAddr, IpAddr),
    AddressAndPort(SocketAddr, SocketAddr),
}

/// A session: the handle of what sends for it, whom it has sent to, when it was
/// last used, and its place in the order of use.
#[derive(Debug)]
pub struct UdpNatSession {
    pub key: UdpMappingKey,
    pub sender: Option<u64>,
    pub allowed_addresses: Vec<IpAddr>,
    pub allowed_endpoints: Vec<SocketAddr>,
    pub last_used: Duration,
    pub generation: u64,
}

/// A session with plain values.
#[verifier::ext_equal]
pub struct SessionView {
    pub key: UdpMappingKey,
    pub sender: Option<u64>,
    pub addresses: Set<IpAddr>,
    pub endpoints: Set<SocketAddr>,
    pub last_used: nat,
    pub generation: u64,
}

impl View for UdpNatSession {
    type V = SessionView;

    open spec fn view(&self) -> SessionView {
        SessionView {
            key: self.key,
            sender: self.sender,
            addresses: self.allowed_addresses@.to_set(),
            endpoints: self.allowed_endpoints@.to_set(),
            last_used: self.last_used.millis as nat,
            generation: self.generation,
        }
    }
}

/// The sessions, and how they are filtered, bounded and expired. Times are read
/// off one clock and handed in.
#[derive(Debug)]
pub struct UdpNatTable {
    pub filtering: UdpNatBehavior,
    pub max_sessions: usize,
    pub idle_timeout: Duration,
    pub generation: u64,
    pub sessions: Vec<UdpNatSession>,
}

/// Sessions with plain values.
pub open spec fn session_views(s: Seq<UdpNatSession>) -> Seq<SessionView> {
    s.map_values(|x: UdpNatSession| x@)
}

/// No two sessions are found by the same key.
pub open spec fn keys_unique(s: Seq<SessionView>) -> bool {
    forall|i: int, j: int|
        0 <= i < j < s.len() ==> (#[trigger] s[i]).key != (#[trigger] s[j]).key
}

/// A session was used less than the timeout ago.
pub open spec fn in_use(s: SessionView, now: nat, timeout: nat) -> bool {
    if now >= s.last_used {
        now - s.last_used < timeout
    } else {
        0 < timeout
    }
}

/// The sessions that were used less than the timeout ago.
pub open spec fn live(s: Seq<SessionView>, now: nat, timeout: nat) -> Seq<SessionView>
    decreases s.len(),
{
    if s.len() == 0 {
        s
    } else if in_use(s.last(), now, timeout) {
        live(s.drop_last(), now, timeout).push(s.last())
    } else {
        live(s.drop_last(), now, timeout)
    }
}

/// The place of the session that was used longest ago.
pub open spec fn least(s: Seq<SessionView>) -> int
    decreases s.len(),
{
    if s.len() <= 1 {
        0
    } else {
        let before = least(s.drop_last());
        if s.last().generation < s[before].generation {
            s.len() - 1
        } else {
            before
        }
    }
}

/// The sessions once there is room for one more: nothing is done below the limit;
/// at the limit those out of use go, and where none was, the one used longest ago.
pub open spec fn reclaimed(s: Seq<SessionView>, now: nat, timeout: nat, max: nat) -> Seq<
    SessionView,
> {
    if s.len() < max {
        s
    } else if live(s, now, timeout).len() == s.len() && s.len() > 0 {
        s.remove(least(s))
    } else {
        live(s, now, timeout)
    }
}

/// The place of the session with a key, or one behind the last.
pub open spec fn place(s: Seq<SessionView>, key: UdpMappingKey) -> int
    decreases s.len(),
{
    if s.len() == 0 || s[0].key == key {
        0
    } else {
        1 + place(s.skip(1), key)
    }
}

/// The number behind a number, in 64 bits.
pub open spec fn next(generation: u64) -> u64 {
    if generation == u64::MAX {
        0
    } else {
        (generation + 1) as u64
    }
}

/// A session that was just used to send to a destination.
pub open spec fn used(s: SessionView, to: SocketAddr, now: nat, generation: u64) -> SessionView {
    SessionView {
        addresses: s.addresses.insert(to.ip),
        endpoints: s.endpoints.insert(to),
        last_used: now,
        generation,
        ..s
    }
}

/// A session that nothing was sent through yet.
pub open spec fn fresh(key: UdpMappingKey) -> SessionView {
    SessionView {
        key,
        sender: None,
        addresses: Set::empty(),
        endpoints: Set::empty(),
        last_used: 0,
        generation: 0,
    }
}

/// The sessions after one was used to send to a destination; a key that none has
/// gets a session, for which room is made.
pub open spec fn touched(
    s: Seq<SessionView>,
    key: UdpMappingKey,
    to: SocketAddr,
    now: nat,
    timeout: nat,
    max: nat,
    generation: u64,
) -> Seq<SessionView> {
    let i = place(s, key);
    if i < s.len() {
        s.update(i, used(s[i], to, now, generation))
    } else {
        reclaimed(s, now, timeout, max).push(used(fresh(key), to, now, generation))
    }
}

/// Whether an answer from a remote may pass.
pub open spec fn passes(s: SessionView, filtering: UdpNatBehavior, remote: SocketAddr) -> bool {
    match filtering {
        UdpNatBehavior::EndpointIndependent => true,
        UdpNatBehavior::AddressDependent => s.addresses.contains(remote.ip),
        UdpNatBehavior::AddressAndPortDependent => s.endpoints.contains(remote),
    }
}

/// What the session of a datagram is found by.
pub open spec fn mapping_key(mapping: UdpNatBehavior, source: SocketAddr, to: SocketAddr) -> UdpMappingKey {
    match mapping {
        UdpNatBehavior::EndpointIndependent => UdpMappingKey::Endpoint(source),
        UdpNatBehavior::AddressDependent => UdpMappingKey::Address(source, to.ip),
        UdpNatBehavior::AddressAndPortDependent => UdpMappingKey::AddressAndPort(source, to),
    }
}

// ---- lemmas ----

proof fn lemma_place(s: Seq<SessionView>, key: UdpMappingKey, n: int)
    requires
        0 <= n <= s.len(),
        forall|j: int| 0 <= j < n ==> (#[trigger] s[j]).key != key,
        n < s.len() ==> s[n].key == key,
    ensures
        place(s, key) == n,
    decreases s.len(),
{
    if n > 0 {
        let rest = s.skip(1);
        assert forall|j: int| 0 <= j < n - 1 implies (#[trigger] rest[j]).key != key by {
            assert(rest[j] == s[j + 1]);
        }
        lemma_place(rest, key, n - 1);
    }
}

proof fn lemma_place_found(s: Seq<SessionView>, key: UdpMappingKey)
    ensures
        0 <= place(s, key) <= s.len(),
        place(s, key) < s.len() ==> s[place(s, key)].key == key,
        forall|j: int| 0 <= j < place(s, key) ==> (#[trigger] s[j]).key != key,
    decreases s.len(),
{
    if s.len() > 0 && s[0].key != key {
        let rest = s.skip(1);
        lemma_place_found(rest, key);
        assert forall|j: int| 0 <= j < place(s, key) implies (#[trigger] s[j]).key != key by {
            if j > 0 {
                assert(rest[j - 1].key != key);
            }
        }
    }
}

proof fn lemma_live(s: Seq<SessionView>, now: nat, timeout: nat)
    ensures
        live(s, now, timeout).len() <= s.len(),
        live(s, now, timeout).len() == s.len() ==> live(s, now, timeout) == s,
        forall|i: int|
            0 <= i < live(s, now, timeout).len() ==> s.contains(
                #[trigger] live(s, now, timeout)[i],
            ),
        keys_unique(s) ==> keys_unique(live(s, now, timeout)),
    decreases s.len(),
{
    if s.len() > 0 {
        let front = s.drop_last();
        let kept = live(front, now, timeout);
        lemma_live(front, now, timeout);
        assert forall|i: int| 0 <= i < kept.len() implies s.contains(#[trigger] kept[i]) by {
            let j = choose|j: int| 0 <= j < front.len() && front[j] == kept[i];
            assert(s[j] == kept[i]);
        }
        assert forall|i: int| 0 <= i < live(s, now, timeout).len() implies s.contains(
            #[trigger] live(s, now, timeout)[i],
        ) by {
            if i == kept.len() {
                assert(s[s.len() - 1] == s.last());
            }
        }
        if keys_unique(s) {
            assert(keys_unique(front)) by {
                assert forall|i: int, j: int| 0 <= i < j < front.len() implies (
                #[trigger] front[i]).key != (#[trigger] front[j]).key by {
                    assert(s[i].key != s[j].key);
                }
            }
            assert forall|i: int| 0 <= i < kept.len() implies (#[trigger] kept[i]).key
                != s.last().key by {
                assert(front.contains(kept[i]));
                let j = choose|j: int| 0 <= j < front.len() && front[j] == kept[i];
                assert(s[j].key != s[s.len() - 1].key);
            }
        }
        if live(s, now, timeout).len() == s.len() {
            assert(live(s, now, timeout) =~= s);
        }
    }
}

proof fn lemma_least(s: Seq<SessionView>)
    requires
        s.len() > 0,
    ensures
        0 <= least(s) < s.len(),
        forall|i: int| 0 <= i < s.len() ==> s[least(s)].generation <= (#[trigger] s[i]).generation,
    decreases s.len(),
{
    if s.len() > 1 {
        lemma_least(s.drop_last());
        assert forall|i: int| 0 <= i < s.len() implies s[least(s)].generation <= (
        #[trigger] s[i]).generation by {
            if i < s.len() - 1 {
                assert(s.drop_last()[i] == s[i]);
            }
        }
    }
}

proof fn lemma_live_step(s: Seq<SessionView>, n: int, now: nat, timeout: nat)
    requires
        0 <= n < s.len(),
    ensures
        live(s.take(n + 1), now, timeout) == (if in_use(s[n], now, timeout) {
            live(s.take(n), now, timeout).push(s[n])
        } else {
            live(s.take(n), now, timeout)
        }),
{
    assert(s.take(n + 1).drop_last() =~= s.take(n));
    assert(s.take(n + 1).last() == s[n]);
}

// ---- the table ----

impl UdpNatTable {
    /// The sessions are found by different keys.
    pub open spec fn wf(&self) -> bool {
        keys_unique(session_views(self.sessions@))
    }

    /// All but the sessions and the count of uses is as it was.
    pub open spec fn same_rules(&self, other: &UdpNatTable) -> bool {
        &&& self.filtering == other.filtering
        &&& self.max_sessions == other.max_sessions
        &&& self.idle_timeout == other.idle_timeout
    }

    /// A table without sessions.
    pub fn new(filtering: UdpNatBehavior, max_sessions: usize, idle_timeout: Duration) -> (r:
        UdpNatTable)
        ensures
            r.wf(),
            r.filtering == filtering,
            r.max_sessions == max_sessions,
            r.idle_timeout == idle_timeout,
            r.generation == 0,
            r.sessions@.len() == 0,
            r@ == table_after(
                filtering,
                max_sessions as nat,
                idle_timeout.millis as nat,
                seq![],
            ),
    {
        UdpNatTable { filtering, max_sessions, idle_timeout, generation: 0, sessions: Vec::new() }
    }

    /// What the session of a datagram is found by.
    pub fn key_for(mapping: UdpNatBehavior, source: SocketAddr, destination: SocketAddr) -> (r:
        UdpMappingKey)
        ensures
            r == mapping_key(mapping, source, destination),
    {
        match mapping {
            UdpNatBehavior::EndpointIndependent => UdpMappingKey::Endpoint(source),
            UdpNatBehavior::AddressDependent => UdpMappingKey::Address(source, destination.ip),
            UdpNatBehavior::AddressAndPortDependent => UdpMappingKey::AddressAndPort(
                source,
                destination,
            ),
        }
    }

    fn find(&self, key: UdpMappingKey) -> (n: usize)
        ensures
            n == place(session_views(self.sessions@), key),
            n <= self.sessions@.len(),
    {
        let ghost all = session_views(self.sessions@);
        let mut i: usize = 0;
        while i < self.sessions.len()
            invariant
                i <= self.sessions@.len(),
                all == session_views(self.sessions@),
                forall|j: int| 0 <= j < i ==> (#[trigger] all[j]).key != key,
            decreases self.sessions@.len() - i,
        {
            if self.sessions[i].key == key {
                proof {
                    lemma_place(all, key, i as int);
                }
                return i;
            }
            i = i + 1;
        }
        proof {
            lemma_place(all, key, i as int);
        }
        i
    }

    /// Whether there is a session with the key.
    pub fn contains_key(&self, key: UdpMappingKey) -> (r: bool)
        ensures
            r == exists|i: int|
                0 <= i < self.sessions@.len() && (#[trigger] self.sessions@[i]).key == key,
    {
        let n = self.find(key);
        proof {
            let all = session_views(self.sessions@);
            lemma_place_found(all, key);
            if n < self.sessions@.len() {
                assert(self.sessions@[n as int].key == key);
            } else {
                assert forall|i: int| 0 <= i < self.sessions@.len() implies (
                #[trigger] self.sessions@[i]).key != key by {
                    assert(all[i].key != key);
                }
            }
        }
        n < self.sessions.len()
    }

    pub fn is_empty(&self) -> (r: bool)
        ensures
            r == (self.sessions@.len() == 0),
    {
        self.sessions.len() == 0
    }

    /// Drops the sessions that were last used longer ago than the timeout.
    pub fn expire(&mut self, now: Duration)
        requires
            old(self).wf(),
        ensures
            final(self).wf(),
            final(self).same_rules(old(self)),
            final(self).generation == old(self).generation,
            session_views(final(self).sessions@) == live(
                session_views(old(self).sessions@),
                now.millis as nat,
                old(self).idle_timeout.millis as nat,
            ),
            final(self)@ == stepped(old(self)@, Step::Expire { now: now.millis as nat }),
    {
        let ghost all = session_views(self.sessions@);
        let ghost t = self.idle_timeout.millis as nat;
        let ghost mut seen: int = 0;
        let mut i: usize = 0;
        proof {
            assert(all.take(0) =~= Seq::<SessionView>::empty());
            assert(live(all.take(0), now.millis as nat, t) =~= Seq::<SessionView>::empty());
            assert(session_views(self.sessions@) =~= Seq::<SessionView>::empty() + all.skip(0));
        }
        while i < self.sessions.len()
            invariant
                0 <= seen <= all.len(),
                i == live(all.take(seen), now.millis as nat, t).len(),
                session_views(self.sessions@) == live(all.take(seen), now.millis as nat, t)
                    + all.skip(seen),
                t == self.idle_timeout.millis,
                self.same_rules(old(self)),
                self.generation == old(self).generation,
            decreases all.len() - seen,
        {
            let ghost kept = live(all.take(seen), now.millis as nat, t);
            let ghost views = session_views(self.sessions@);
            proof {
                assert(views.len() == self.sessions@.len());
                assert(views[i as int] == all.skip(seen)[0]);
                assert(views[i as int] == self.sessions@[i as int]@);
                assert(all.skip(seen)[0] == all[seen]);
                lemma_live_step(all, seen, now.millis as nat, t);
            }
            let last = self.sessions[i].last_used.millis;
            let elapsed: u128 = if now.millis >= last {
                now.millis - last
            } else {
                0
            };
            if elapsed < self.idle_timeout.millis {
                proof {
                    assert(kept + all.skip(seen) =~= kept.push(all[seen]) + all.skip(seen + 1));
                }
                i = i + 1;
            } else {
                let _ = self.sessions.remove(i);
                proof {
                    assert(session_views(self.sessions@) =~= views.remove(i as int));
                    assert((kept + all.skip(seen)).remove(i as int) =~= kept + all.skip(seen + 1));
                }
            }
            proof {
                seen = seen + 1;
            }
        }
        proof {
            assert(all.skip(seen).len() == 0);
            assert(seen == all.len());
            assert(all.take(seen) =~= all);
            let kept = live(all, now.millis as nat, t);
            assert(kept + all.skip(seen) =~= kept);
            lemma_live(all, now.millis as nat, t);
        }
    }

    fn evict_lru(&mut self)
        requires
            old(self).wf(),
            old(self).sessions@.len() > 0,
        ensures
            final(self).wf(),
            final(self).same_rules(old(self)),
            final(self).generation == old(self).generation,
            session_views(final(self).sessions@) == session_views(old(self).sessions@).remove(
                least(session_views(old(self).sessions@)),
            ),
    {
        let ghost all = session_views(self.sessions@);
        let mut best: usize = 0;
        let mut i: usize = 1;
        while i < self.sessions.len()
            invariant
                1 <= i <= self.sessions@.len(),
                best < i,
                all == session_views(self.sessions@),
                best == least(all.take(i as int)),
                *self == *old(self),
            decreases self.sessions@.len() - i,
        {
            proof {
                assert(all.take(i + 1).drop_last() =~= all.take(i as int));
                assert(all.take(i + 1).last() == all[i as int]);
                assert(all[best as int] == self.sessions@[best as int]@);
                assert(all[i as int] == self.sessions@[i as int]@);
            }
            if self.sessions[i].generation < self.sessions[best].generation {
                best = i;
            }
            i = i + 1;
        }
        proof {
            assert(all.take(i as int) =~= all);
            lemma_least(all);
        }
        let _ = self.sessions.remove(best);
        proof {
            assert(session_views(self.sessions@) =~= all.remove(best as int));
            assert forall|i: int, j: int| 0 <= i < j < all.len() - 1 implies (#[trigger] all.remove(
                best as int,
            )[i]).key != (#[trigger] all.remove(best as int)[j]).key by {
                let a = if i < best {
                    i
                } else {
                    i + 1
                };
                let b = if j < best {
                    j
                } else {
                    j + 1
                };
                assert(all[a].key != all[b].key);
            }
        }
    }

    fn reclaim_if_full(&mut self, now: Duration)
        requires
            old(self).wf(),
        ensures
            final(self).wf(),
            final(self).same_rules(old(self)),
            final(self).generation == old(self).generation,
            session_views(final(self).sessions@) == reclaimed(
                session_views(old(self).sessions@),
                now.millis as nat,
                old(self).idle_timeout.millis as nat,
                old(self).max_sessions as nat,
            ),
    {
        if self.sessions.len() < self.max_sessions {
            return;
        }
        let before: usize = self.sessions.len();
        proof {
            lemma_live(
                session_views(self.sessions@),
                now.millis as nat,
                self.idle_timeout.millis as nat,
            );
        }
        self.expire(now);
        proof {
            assert(session_views(self.sessions@).len() == self.sessions@.len());
        }
        if self.sessions.len() == before && self.sessions.len() > 0 {
            self.evict_lru();
        }
    }

    /// Marks the session of a datagram as used and gives the handle of what sends
    /// for it. A datagram that no session takes opens one; only at the limit is
    /// room made for it.
    pub fn touch_and_sender(&mut self, key: UdpMappingKey, destination: SocketAddr, now: Duration) -> (r:
        Option<u64>)
        requires
            old(self).wf(),
        ensures
            final(self).wf(),
            final(self).same_rules(old(self)),
            final(self).generation == next(old(self).generation),
            session_views(final(self).sessions@) == touched(
                session_views(old(self).sessions@),
                key,
                destination,
                now.millis as nat,
                old(self).idle_timeout.millis as nat,
                old(self).max_sessions as nat,
                next(old(self).generation),
            ),
            r == ({
                let s = session_views(old(self).sessions@);
                if place(s, key) < s.len() {
                    s[place(s, key)].sender
                } else {
                    None
                }
            }),
            final(self)@ == stepped(
                old(self)@,
                Step::Touch { key, to: destination, now: now.millis as nat },
            ),
    {
        let ghost before = session_views(self.sessions@);
        let n = self.find(key);
        proof {
            lemma_place_found(before, key);
        }
        let known = n < self.sessions.len();
        if !known {
            self.reclaim_if_full(now);
        }
        self.generation = if self.generation == u64::MAX {
            0
        } else {
            self.generation + 1
        };
        let generation: u64 = self.generation;
        if known {
            let mut session = UdpNatSession {
                key,
                sender: self.sessions[n].sender,
                allowed_addresses: copy_all(&self.sessions[n].allowed_addresses),
                allowed_endpoints: copy_all(&self.sessions[n].allowed_endpoints),
                last_used: now,
                generation,
            };
            let sender = session.sender;
            insert_address(&mut session.allowed_addresses, destination.ip);
            insert_endpoint(&mut session.allowed_endpoints, destination);
            proof {
                assert(before[n as int] == self.sessions@[n as int]@);
                assert(session@ =~= used(
                    before[n as int],
                    destination,
                    now.millis as nat,
                    generation,
                ));
            }
            self.sessions.set(n, session);
            proof {
                let now_views = session_views(self.sessions@);
                assert(now_views =~= before.update(
                    n as int,
                    used(before[n as int], destination, now.millis as nat, generation),
                ));
                assert forall|i: int, j: int| 0 <= i < j < now_views.len() implies (
                #[trigger] now_views[i]).key != (#[trigger] now_views[j]).key by {
                    assert(before[i].key != before[j].key);
                }
            }
            sender
        } else {
            let ghost room = session_views(self.sessions@);
            let mut addresses: Vec<IpAddr> = Vec::new();
            addresses.push(destination.ip);
            let mut endpoints: Vec<SocketAddr> = Vec::new();
            endpoints.push(destination);
            let session = UdpNatSession {
                key,
                sender: None,
                allowed_addresses: addresses,
                allowed_endpoints: endpoints,
                last_used: now,
                generation,
            };
            proof {
                let fresh_one = used(fresh(key), destination, now.millis as nat, generation);
                assert(addresses@ =~= seq![destination.ip]);
                assert(endpoints@ =~= seq![destination]);
                lemma_single(destination.ip);
                lemma_single(destination);
                assert(session@ =~= fresh_one);
                lemma_reclaimed_keys(
                    before,
                    now.millis as nat,
                    self.idle_timeout.millis as nat,
                    self.max_sessions as nat,
                    key,
                );
            }
            self.sessions.push(session);
            proof {
                let now_views = session_views(self.sessions@);
                assert(now_views =~= room.push(session@));
                assert forall|i: int, j: int| 0 <= i < j < now_views.len() implies (
                #[trigger] now_views[i]).key != (#[trigger] now_views[j]).key by {
                    if j < room.len() {
                        assert(room[i].key != room[j].key);
                    } else {
                        assert(room[i].key != key);
                    }
                }
            }
            None
        }
    }

    /// Gives a session the handle of what sends for it, if the session is there.
    pub fn insert_sender(&mut self, key: UdpMappingKey, sender: u64)
        requires
            old(self).wf(),
        ensures
            final(self).wf(),
            final(self).same_rules(old(self)),
            final(self).generation == old(self).generation,
            session_views(final(self).sessions@) == with_sender(
                session_views(old(self).sessions@),
                key,
                Some(sender),
            ),
            final(self)@ == stepped(old(self)@, Step::Sender { key, sender: Some(sender) }),
    {
        self.put_sender(key, Some(sender));
    }

    /// Takes the handle from a session, if the session is there.
    pub fn clear_sender(&mut self, key: UdpMappingKey)
        requires
            old(self).wf(),
        ensures
            final(self).wf(),
            final(self).same_rules(old(self)),
            final(self).generation == old(self).generation,
            session_views(final(self).sessions@) == with_sender(
                session_views(old(self).sessions@),
                key,
                None,
            ),
            final(self)@ == stepped(old(self)@, Step::Sender { key, sender: None }),
    {
        self.put_sender(key, None);
    }

    /// Takes the handles that are closed from the sessions that have them.
    pub fn clear_closed(&mut self, closed: &Vec<u64>)
        requires
            old(self).wf(),
        ensures
            final(self).wf(),
            final(self).same_rules(old(self)),
            final(self).generation == old(self).generation,
            session_views(final(self).sessions@) == without_handles(
                session_views(old(self).sessions@),
                closed@,
            ),
            final(self)@ == stepped(old(self)@, Step::Closed { handles: closed@ }),
    {
        let ghost before = session_views(self.sessions@);
        let ghost cleared = without_handles(before, closed@);
        let mut i: usize = 0;
        while i < self.sessions.len()
            invariant
                i <= self.sessions@.len(),
                old(self).wf(),
                self.same_rules(old(self)),
                self.generation == old(self).generation,
                before == session_views(old(self).sessions@),
                cleared == without_handles(before, closed@),
                self.sessions@.len() == before.len(),
                forall|k: int|
                    0 <= k < self.sessions@.len() ==> (#[trigger] self.sessions@[k])@ == (if k < i {
                        cleared[k]
                    } else {
                        before[k]
                    }),
            decreases self.sessions@.len() - i,
        {
            let gone = match self.sessions[i].sender {
                Some(handle) => has_handle(closed, handle),
                None => false,
            };
            if gone {
                let session = UdpNatSession {
                    key: self.sessions[i].key,
                    sender: None,
                    allowed_addresses: copy_all(&self.sessions[i].allowed_addresses),
                    allowed_endpoints: copy_all(&self.sessions[i].allowed_endpoints),
                    last_used: self.sessions[i].last_used,
                    generation: self.sessions[i].generation,
                };
                proof {
                    assert(self.sessions@[i as int]@ == before[i as int]);
                    assert(session@ == cleared[i as int]);
                }
                self.sessions.set(i, session);
            } else {
                proof {
                    assert(self.sessions@[i as int]@ == before[i as int]);
                    assert(cleared[i as int] == before[i as int]);
                }
            }
            i = i + 1;
        }
        proof {
            let views = session_views(self.sessions@);
            assert(views =~= cleared);
            assert forall|a: int, b: int| 0 <= a < b < views.len() implies (
            #[trigger] views[a]).key != (#[trigger] views[b]).key by {
                assert(before[a].key != before[b].key);
            }
        }
    }

    fn put_sender(&mut self, key: UdpMappingKey, sender: Option<u64>)
        requires
            old(self).wf(),
        ensures
            final(self).wf(),
            final(self).same_rules(old(self)),
            final(self).generation == old(self).generation,
            session_views(final(self).sessions@) == with_sender(
                session_views(old(self).sessions@),
                key,
                sender,
            ),
    {
        let ghost before = session_views(self.sessions@);
        let n = self.find(key);
        proof {
            lemma_place_found(before, key);
        }
        if n < self.sessions.len() {
            let session = UdpNatSession {
                key,
                sender,
                allowed_addresses: copy_all(&self.sessions[n].allowed_addresses),
                allowed_endpoints: copy_all(&self.sessions[n].allowed_endpoints),
                last_used: self.sessions[n].last_used,
                generation: self.sessions[n].generation,
            };
            proof {
                assert(before[n as int] == self.sessions@[n as int]@);
            }
            self.sessions.set(n, session);
            proof {
                let now_views = session_views(self.sessions@);
                assert(now_views =~= with_sender(before, key, sender));
                assert forall|i: int, j: int| 0 <= i < j < now_views.len() implies (
                #[trigger] now_views[i]).key != (#[trigger] now_views[j]).key by {
                    assert(before[i].key != before[j].key);
                }
            }
        }
    }

    /// Whether an answer may pass through a session; one that passes counts as a
    /// use. Sessions out of use are dropped first.
    pub fn allow_response(&mut self, key: UdpMappingKey, remote: SocketAddr, now: Duration) -> (r:
        bool)
        requires
            old(self).wf(),
        ensures
            final(self).wf(),
            final(self).same_rules(old(self)),
            ({
                let s = live(
                    session_views(old(self).sessions@),
                    now.millis as nat,
                    old(self).idle_timeout.millis as nat,
                );
                let i = place(s, key);
                &&& r == (i < s.len() && passes(s[i], old(self).filtering, remote))
                &&& final(self).generation == (if r {
                    next(old(self).generation)
                } else {
                    old(self).generation
                })
                &&& session_views(final(self).sessions@) == (if r {
                    s.update(
                        i,
                        SessionView {
                            last_used: now.millis as nat,
                            generation: next(old(self).generation),
                            ..s[i]
                        },
                    )
                } else {
                    s
                })
            }),
            r == allowed(old(self)@, key, remote, now.millis as nat),
            final(self)@ == stepped(
                old(self)@,
                Step::Response { key, remote, now: now.millis as nat },
            ),
    {
        self.expire(now);
        let ghost s = session_views(self.sessions@);
        let n = self.find(key);
        proof {
            lemma_place_found(s, key);
        }
        if n >= self.sessions.len() {
            return false;
        }
        proof {
            assert(s[n as int] == self.sessions@[n as int]@);
        }
        let allowed = match self.filtering {
            UdpNatBehavior::EndpointIndependent => true,
            UdpNatBehavior::AddressDependent => has_address(
                &self.sessions[n].allowed_addresses,
                remote.ip,
            ),
            UdpNatBehavior::AddressAndPortDependent => has_endpoint(
                &self.sessions[n].allowed_endpoints,
                remote,
            ),
        };
        if allowed {
            self.generation = if self.generation == u64::MAX {
                0
            } else {
                self.generation + 1
            };
            let session = UdpNatSession {
                key,
                sender: self.sessions[n].sender,
                allowed_addresses: copy_all(&self.sessions[n].allowed_addresses),
                allowed_endpoints: copy_all(&self.sessions[n].allowed_endpoints),
                last_used: now,
                generation: self.generation,
            };
            self.sessions.set(n, session);
            proof {
                let now_views = session_views(self.sessions@);
                assert(now_views =~= s.update(
                    n as int,
                    SessionView {
                        last_used: now.millis as nat,
                        generation: self.generation,
                        ..s[n as int]
                    },
                ));
                assert forall|i: int, j: int| 0 <= i < j < now_views.len() implies (
                #[trigger] now_views[i]).key != (#[trigger] now_views[j]).key by {
                    assert(s[i].key != s[j].key);
                }
            }
        }
        allowed
    }
}

/// The sessions with the handle of one set, where there is a session with the key.
pub open spec fn with_sender(s: Seq<SessionView>, key: UdpMappingKey, sender: Option<u64>) -> Seq<
    SessionView,
> {
    let i = place(s, key);
    if i < s.len() {
        s.update(i, SessionView { sender, ..s[i] })
    } else {
        s
    }
}

/// Sessions without the handles that are closed.
pub open spec fn without_handles(s: Seq<SessionView>, closed: Seq<u64>) -> Seq<SessionView> {
    s.map_values(
        |x: SessionView|
            if x.sender matches Some(handle) && closed.contains(handle) {
                SessionView { sender: None, ..x }
            } else {
                x
            },
    )
}

fn has_handle(list: &Vec<u64>, handle: u64) -> (r: bool)
    ensures
        r == list@.contains(handle),
{
    let mut i: usize = 0;
    while i < list.len()
        invariant
            i <= list@.len(),
            forall|k: int| 0 <= k < i ==> list@[k] != handle,
        decreases list@.len() - i,
    {
        if list[i] == handle {
            return true;
        }
        i = i + 1;
    }
    false
}

proof fn lemma_single<T>(x: T)
    ensures
        seq![x].to_set() == Set::<T>::empty().insert(x),
{
    assert forall|y: T| seq![x].to_set().contains(y) == Set::<T>::empty().insert(x).contains(y) by {
        if y == x {
            assert(seq![x][0] == x);
        }
    }
    assert(seq![x].to_set() =~= Set::<T>::empty().insert(x));
}

proof fn lemma_reclaimed_keys(
    s: Seq<SessionView>,
    now: nat,
    timeout: nat,
    max: nat,
    key: UdpMappingKey,
)
    requires
        forall|j: int| 0 <= j < s.len() ==> (#[trigger] s[j]).key != key,
    ensures
        forall|j: int|
            0 <= j < reclaimed(s, now, timeout, max).len() ==> (#[trigger] reclaimed(
                s,
                now,
                timeout,
                max,
            )[j]).key != key,
{
    let out = reclaimed(s, now, timeout, max);
    lemma_live(s, now, timeout);
    assert forall|j: int| 0 <= j < out.len() implies (#[trigger] out[j]).key != key by {
        if s.len() < max {
        } else if live(s, now, timeout).len() == s.len() && s.len() > 0 {
            lemma_least(s);
            let k = if j < least(s) {
                j
            } else {
                j + 1
            };
            assert(out[j] == s[k]);
        } else {
            assert(s.contains(live(s, now, timeout)[j]));
            let k = choose|k: int| 0 <= k < s.len() && s[k] == out[j];
            assert(s[k].key != key);
        }
    }
}

fn copy_all<T: Copy>(list: &Vec<T>) -> (r: Vec<T>)
    ensures
        r@ == list@,
{
    let mut r: Vec<T> = Vec::new();
    let mut i: usize = 0;
    while i < list.len()
        invariant
            i <= list@.len(),
            r@ == list@.take(i as int),
        decreases list@.len() - i,
    {
        proof {
            assert(list@.take(i + 1) =~= list@.take(i as int).push(list@[i as int]));
        }
        r.push(list[i]);
        i = i + 1;
    }
    proof {
        assert(list@.take(i as int) =~= list@);
    }
    r
}

fn has_address(list: &Vec<IpAddr>, x: IpAddr) -> (r: bool)
    ensures
        r == list@.to_set().contains(x),
{
    let mut i: usize = 0;
    while i < list.len()
        invariant
            i <= list@.len(),
            forall|j: int| 0 <= j < i ==> list@[j] != x,
        decreases list@.len() - i,
    {
        if list[i] == x {
            return true;
        }
        i = i + 1;
    }
    false
}

fn has_endpoint(list: &Vec<SocketAddr>, x: SocketAddr) -> (r: bool)
    ensures
        r == list@.to_set().contains(x),
{
    let mut i: usize = 0;
    while i < list.len()
        invariant
            i <= list@.len(),
            forall|j: int| 0 <= j < i ==> list@[j] != x,
        decreases list@.len() - i,
    {
        if list[i] == x {
            return true;
        }
        i = i + 1;
    }
    false
}

proof fn lemma_push_set<T>(s: Seq<T>, x: T)
    ensures
        s.push(x).to_set() == s.to_set().insert(x),
        s.to_set().contains(x) ==> s.to_set() == s.to_set().insert(x),
{
    assert forall|y: T| s.push(x).to_set().contains(y) == s.to_set().insert(x).contains(y) by {
        if s.contains(y) {
            let i = choose|i: int| 0 <= i < s.len() && s[i] == y;
            assert(s.push(x)[i] == y);
        }
        if y == x {
            assert(s.push(x)[s.len() as int] == y);
        }
        if s.push(x).contains(y) {
            let i = choose|i: int| 0 <= i < s.push(x).len() && s.push(x)[i] == y;
            if i < s.len() {
                assert(s[i] == y);
            }
        }
    }
    assert(s.push(x).to_set() =~= s.to_set().insert(x));
    if s.to_set().contains(x) {
        assert(s.to_set() =~= s.to_set().insert(x));
    }
}

fn insert_address(list: &mut Vec<IpAddr>, x: IpAddr)
    ensures
        final(list)@.to_set() == old(list)@.to_set().insert(x),
{
    proof {
        lemma_push_set(list@, x);
    }
    if !has_address(list, x) {
        list.push(x);
    }
}

fn insert_endpoint(list: &mut Vec<SocketAddr>, x: SocketAddr)
    ensures
        final(list)@.to_set() == old(list)@.to_set().insert(x),
{
    proof {
        lemma_push_set(list@, x);
    }
    if !has_endpoint(list, x) {
        list.push(x);
    }
}

// ---- laws ----

/// A table within its limit stays within it, whatever datagrams come; one session
/// is there even where the limit is nought.
pub proof fn table_stays_within_limit(
    s: Seq<SessionView>,
    key: UdpMappingKey,
    to: SocketAddr,
    now: nat,
    timeout: nat,
    max: nat,
    generation: u64,
)
    requires
        s.len() <= max || s.len() <= 1,
    ensures
        touched(s, key, to, now, timeout, max, generation).len() <= max || touched(
            s,
            key,
            to,
            now,
            timeout,
            max,
            generation,
        ).len() <= 1,
{
    lemma_place_found(s, key);
    lemma_live(s, now, timeout);
    if s.len() > 0 {
        lemma_least(s);
    }
}

/// What makes room is the session that was used longest ago: no other session
/// leaves a full table that is wholly in use.
pub proof fn longest_unused_makes_room(s: Seq<SessionView>, now: nat, timeout: nat, max: nat)
    requires
        s.len() > 0,
        s.len() >= max,
        live(s, now, timeout).len() == s.len(),
    ensures
        reclaimed(s, now, timeout, max) == s.remove(least(s)),
        0 <= least(s) < s.len(),
        forall|i: int| 0 <= i < s.len() ==> s[least(s)].generation <= (#[trigger] s[i]).generation,
{
    lemma_least(s);
}

/// An answer from where a datagram was just sent to passes, whatever the filter.
pub proof fn answers_from_destination_pass(
    s: Seq<SessionView>,
    key: UdpMappingKey,
    to: SocketAddr,
    now: nat,
    timeout: nat,
    max: nat,
    generation: u64,
    filtering: UdpNatBehavior,
)
    requires
        keys_unique(s),
    ensures
        ({
            let out = touched(s, key, to, now, timeout, max, generation);
            let i = place(out, key);
            i < out.len() && passes(out[i], filtering, to)
        }),
{
    let out = touched(s, key, to, now, timeout, max, generation);
    lemma_place_found(s, key);
    let i = place(s, key);
    if i < s.len() {
        assert forall|j: int| 0 <= j < i implies (#[trigger] out[j]).key != key by {
            assert(out[j] == s[j]);
        }
        lemma_place(out, key, i);
    } else {
        lemma_reclaimed_keys(s, now, timeout, max, key);
        let room = reclaimed(s, now, timeout, max);
        assert forall|j: int| 0 <= j < room.len() implies (#[trigger] out[j]).key != key by {
            assert(out[j] == room[j]);
        }
        lemma_place(out, key, room.len() as int);
    }
}

/// Datagrams that agree in what the mapping goes by share a session.
pub proof fn mapping_goes_by_its_endpoints(
    mapping: UdpNatBehavior,
    source: SocketAddr,
    a: SocketAddr,
    b: SocketAddr,
)
    ensures
        (mapping_key(mapping, source, a) == mapping_key(mapping, source, b)) == (match mapping {
            UdpNatBehavior::EndpointIndependent => true,
            UdpNatBehavior::AddressDependent => a.ip == b.ip,
            UdpNatBehavior::AddressAndPortDependent => a == b,
        }),
{
}

// ---- the history of a table ----

/// What is done with a table.
pub enum Step {
    /// A datagram is sent: `touch_and_sender`.
    Touch { key: UdpMappingKey, to: SocketAddr, now: nat },
    /// A handle is set or taken: `insert_sender` and `clear_sender`.
    Sender { key: UdpMappingKey, sender: Option<u64> },
    /// The handles that are closed are taken: `clear_closed`.
    Closed { handles: Seq<u64> },
    /// An answer comes: `allow_response`.
    Response { key: UdpMappingKey, remote: SocketAddr, now: nat },
    /// Sessions out of use are dropped: `expire`.
    Expire { now: nat },
}

/// A table with plain values.
#[verifier::ext_equal]
pub struct TableView {
    pub filtering: UdpNatBehavior,
    pub max: nat,
    pub timeout: nat,
    pub generation: u64,
    pub sessions: Seq<SessionView>,
}

impl View for UdpNatTable {
    type V = TableView;

    open spec fn view(&self) -> TableView {
        TableView {
            filtering: self.filtering,
            max: self.max_sessions as nat,
            timeout: self.idle_timeout.millis as nat,
            generation: self.generation,
            sessions: session_views(self.sessions@),
        }
    }
}

/// There is a session with the key.
pub open spec fn has_session(s: Seq<SessionView>, key: UdpMappingKey) -> bool {
    place(s, key) < s.len()
}

/// An answer passes through a table at a time.
pub open spec fn allowed(t: TableView, key: UdpMappingKey, remote: SocketAddr, now: nat) -> bool {
    let s = live(t.sessions, now, t.timeout);
    has_session(s, key) && passes(s[place(s, key)], t.filtering, remote)
}

/// A table after something was done with it.
pub open spec fn stepped(t: TableView, step: Step) -> TableView {
    match step {
        Step::Touch { key, to, now } => TableView {
            generation: next(t.generation),
            sessions: touched(t.sessions, key, to, now, t.timeout, t.max, next(t.generation)),
            ..t
        },
        Step::Sender { key, sender } => TableView {
            sessions: with_sender(t.sessions, key, sender),
            ..t
        },
        Step::Closed { handles } => TableView {
            sessions: without_handles(t.sessions, handles),
            ..t
        },
        Step::Response { key, remote, now } => {
            let s = live(t.sessions, now, t.timeout);
            let i = place(s, key);
            if allowed(t, key, remote, now) {
                TableView {
                    generation: next(t.generation),
                    sessions: s.update(
                        i,
                        SessionView { last_used: now, generation: next(t.generation), ..s[i] },
                    ),
                    ..t
                }
            } else {
                TableView { sessions: s, ..t }
            }
        },
        Step::Expire { now } => TableView { sessions: live(t.sessions, now, t.timeout), ..t },
    }
}

/// A new table after all that was done with it.
pub open spec fn table_after(
    filtering: UdpNatBehavior,
    max: nat,
    timeout: nat,
    steps: Seq<Step>,
) -> TableView
    decreases steps.len(),
{
    if steps.len() == 0 {
        TableView { filtering, max, timeout, generation: 0, sessions: Seq::empty() }
    } else {
        stepped(table_after(filtering, max, timeout, steps.drop_last()), steps.last())
    }
}

/// Whom datagrams were sent to through the session with a key since it was made.
pub open spec fn sent_to(
    filtering: UdpNatBehavior,
    max: nat,
    timeout: nat,
    steps: Seq<Step>,
    key: UdpMappingKey,
) -> Set<SocketAddr>
    decreases steps.len(),
{
    if steps.len() == 0 {
        Set::empty()
    } else {
        let before = sent_to(filtering, max, timeout, steps.drop_last(), key);
        match steps.last() {
            Step::Touch { key: k, to, .. } if k == key => if has_session(
                table_after(filtering, max, timeout, steps.drop_last()).sessions,
                key,
            ) {
                before.insert(to)
            } else {
                Set::empty().insert(to)
            },
            _ => before,
        }
    }
}

/// A session holds exactly these destinations and their addresses.
pub open spec fn holds(s: SessionView, sent: Set<SocketAddr>) -> bool {
    &&& s.endpoints == sent
    &&& forall|a: IpAddr| #[trigger]
        s.addresses.contains(a) <==> exists|d: SocketAddr| sent.contains(d) && d.ip == a
}

/// Every session with the key holds these destinations.
spec fn all_hold(s: Seq<SessionView>, key: UdpMappingKey, sent: Set<SocketAddr>) -> bool {
    forall|i: int| 0 <= i < s.len() && (#[trigger] s[i]).key == key ==> holds(s[i], sent)
}

proof fn lemma_used_holds(s: SessionView, sent: Set<SocketAddr>, to: SocketAddr, now: nat, g: u64)
    requires
        holds(s, sent),
    ensures
        holds(used(s, to, now, g), sent.insert(to)),
{
    let u = used(s, to, now, g);
    let all = sent.insert(to);
    assert forall|a: IpAddr| #[trigger]
        u.addresses.contains(a) <==> exists|d: SocketAddr| all.contains(d) && d.ip == a by {
        if u.addresses.contains(a) {
            if a == to.ip {
                assert(all.contains(to) && to.ip == a);
            } else {
                assert(s.addresses.contains(a));
                let d = choose|d: SocketAddr| sent.contains(d) && d.ip == a;
                assert(all.contains(d) && d.ip == a);
            }
        }
        if exists|d: SocketAddr| all.contains(d) && d.ip == a {
            let d = choose|d: SocketAddr| all.contains(d) && d.ip == a;
            if d != to {
                assert(sent.contains(d) && d.ip == a);
                assert(s.addresses.contains(a));
            }
        }
    }
}

proof fn lemma_live_holds(
    s: Seq<SessionView>,
    now: nat,
    timeout: nat,
    key: UdpMappingKey,
    sent: Set<SocketAddr>,
)
    requires
        keys_unique(s),
        all_hold(s, key, sent),
    ensures
        keys_unique(live(s, now, timeout)),
        all_hold(live(s, now, timeout), key, sent),
{
    lemma_live(s, now, timeout);
    let l = live(s, now, timeout);
    assert forall|i: int| 0 <= i < l.len() && (#[trigger] l[i]).key == key implies holds(
        l[i],
        sent,
    ) by {
        assert(s.contains(l[i]));
        let k = choose|k: int| 0 <= k < s.len() && s[k] == l[i];
        assert(s[k].key == key);
    }
}

/// A session put in the place of one with the same key.
proof fn lemma_update_unique(s: Seq<SessionView>, i: int, x: SessionView)
    requires
        keys_unique(s),
        0 <= i < s.len(),
        x.key == s[i].key,
    ensures
        keys_unique(s.update(i, x)),
{
    let u = s.update(i, x);
    assert forall|a: int, b: int| 0 <= a < b < u.len() implies (#[trigger] u[a]).key != (
    #[trigger] u[b]).key by {
        assert(s[a].key != s[b].key);
    }
}

proof fn lemma_touched_holds(
    t: TableView,
    key: UdpMappingKey,
    to: SocketAddr,
    now: nat,
    other: UdpMappingKey,
    sent: Set<SocketAddr>,
)
    requires
        keys_unique(t.sessions),
        all_hold(t.sessions, other, sent),
    ensures
        keys_unique(stepped(t, Step::Touch { key, to, now }).sessions),
        all_hold(
            stepped(t, Step::Touch { key, to, now }).sessions,
            other,
            if key != other {
                sent
            } else if has_session(t.sessions, key) {
                sent.insert(to)
            } else {
                Set::empty().insert(to)
            },
        ),
{
    let s = t.sessions;
    let g = next(t.generation);
    let out = touched(s, key, to, now, t.timeout, t.max, g);
    lemma_place_found(s, key);
    let i = place(s, key);
    if i < s.len() {
        lemma_update_unique(s, i, used(s[i], to, now, g));
        if key == other {
            lemma_used_holds(s[i], sent, to, now, g);
        }
        let after = if key != other {
            sent
        } else {
            sent.insert(to)
        };
        assert forall|j: int| 0 <= j < out.len() && (#[trigger] out[j]).key == other implies holds(
            out[j],
            after,
        ) by {
            if j != i {
                assert(out[j] == s[j]);
                assert(s[j].key != s[i].key) by {
                    if j < i {
                        assert(s[j].key != s[i].key);
                    } else {
                        assert(s[i].key != s[j].key);
                    }
                }
            }
        }
    } else {
        let room = reclaimed(s, now, t.timeout, t.max);
        lemma_reclaimed_keys(s, now, t.timeout, t.max, key);
        lemma_reclaimed_holds(s, now, t.timeout, t.max, other, sent);
        let one = used(fresh(key), to, now, g);
        assert forall|a: int, b: int| 0 <= a < b < out.len() implies (#[trigger] out[a]).key != (
        #[trigger] out[b]).key by {
            assert(out[a] == room[a]);
            if b < room.len() {
                assert(out[b] == room[b]);
            }
        }
        let none = Set::<SocketAddr>::empty();
        assert(holds(fresh(key), none));
        lemma_used_holds(fresh(key), none, to, now, g);
        let after = if key != other {
            sent
        } else {
            none.insert(to)
        };
        assert forall|j: int| 0 <= j < out.len() && (#[trigger] out[j]).key == other implies holds(
            out[j],
            after,
        ) by {
            if j < room.len() {
                assert(out[j] == room[j]);
            }
        }
    }
}

proof fn lemma_reclaimed_holds(
    s: Seq<SessionView>,
    now: nat,
    timeout: nat,
    max: nat,
    key: UdpMappingKey,
    sent: Set<SocketAddr>,
)
    requires
        keys_unique(s),
        all_hold(s, key, sent),
    ensures
        keys_unique(reclaimed(s, now, timeout, max)),
        all_hold(reclaimed(s, now, timeout, max), key, sent),
{
    lemma_live_holds(s, now, timeout, key, sent);
    if s.len() >= max && s.len() > 0 && live(s, now, timeout).len() == s.len() {
        lemma_least(s);
        let n = least(s);
        let out = s.remove(n);
        assert forall|a: int, b: int| 0 <= a < b < out.len() implies (#[trigger] out[a]).key != (
        #[trigger] out[b]).key by {
            let x = if a < n {
                a
            } else {
                a + 1
            };
            let y = if b < n {
                b
            } else {
                b + 1
            };
            assert(s[x].key != s[y].key);
        }
        assert forall|j: int| 0 <= j < out.len() && (#[trigger] out[j]).key == key implies holds(
            out[j],
            sent,
        ) by {
            let x = if j < n {
                j
            } else {
                j + 1
            };
            assert(out[j] == s[x]);
        }
    }
}

proof fn lemma_step_holds(t: TableView, step: Step, key: UdpMappingKey, sent: Set<SocketAddr>)
    requires
        keys_unique(t.sessions),
        all_hold(t.sessions, key, sent),
        !(step is Touch),
    ensures
        keys_unique(stepped(t, step).sessions),
        all_hold(stepped(t, step).sessions, key, sent),
{
    match step {
        Step::Sender { key: k, sender } => {
            lemma_place_found(t.sessions, k);
            let i = place(t.sessions, k);
            if i < t.sessions.len() {
                lemma_update_unique(t.sessions, i, SessionView { sender, ..t.sessions[i] });
            }
        },
        Step::Closed { handles } => {
            let s = t.sessions;
            let c = without_handles(s, handles);
            assert forall|i: int| 0 <= i < c.len() implies (#[trigger] c[i]).key == s[i].key
                && c[i].addresses == s[i].addresses && c[i].endpoints == s[i].endpoints by {}
            assert forall|a: int, b: int| 0 <= a < b < c.len() implies (#[trigger] c[a]).key != (
            #[trigger] c[b]).key by {
                assert(s[a].key != s[b].key);
            }
            assert forall|i: int| 0 <= i < c.len() && (#[trigger] c[i]).key == key implies holds(
                c[i],
                sent,
            ) by {
                assert(holds(s[i], sent));
            }
        },
        Step::Response { key: k, remote, now } => {
            lemma_live_holds(t.sessions, now, t.timeout, key, sent);
            let s = live(t.sessions, now, t.timeout);
            lemma_place_found(s, k);
            let i = place(s, k);
            if allowed(t, k, remote, now) {
                let x = SessionView { last_used: now, generation: next(t.generation), ..s[i] };
                lemma_update_unique(s, i, x);
                assert(x.addresses == s[i].addresses && x.endpoints == s[i].endpoints);
            }
        },
        Step::Expire { now } => {
            lemma_live_holds(t.sessions, now, t.timeout, key, sent);
        },
        Step::Touch { .. } => {},
    }
}

proof fn lemma_history(
    filtering: UdpNatBehavior,
    max: nat,
    timeout: nat,
    steps: Seq<Step>,
    key: UdpMappingKey,
)
    ensures
        keys_unique(table_after(filtering, max, timeout, steps).sessions),
        all_hold(
            table_after(filtering, max, timeout, steps).sessions,
            key,
            sent_to(filtering, max, timeout, steps, key),
        ),
        table_after(filtering, max, timeout, steps).filtering == filtering,
        table_after(filtering, max, timeout, steps).timeout == timeout,
    decreases steps.len(),
{
    if steps.len() > 0 {
        let front = steps.drop_last();
        let t = table_after(filtering, max, timeout, front);
        let sent = sent_to(filtering, max, timeout, front, key);
        lemma_history(filtering, max, timeout, front, key);
        match steps.last() {
            Step::Touch { key: k, to, now } => {
                lemma_touched_holds(t, k, to, now, key, sent);
            },
            other => {
                lemma_step_holds(t, other, key, sent);
            },
        }
    }
}

/// Whatever was done with a new table: an answer passes if and only if its key has a
/// session in use and, as the filter goes, the remote or its address is among all
/// destinations that datagrams were sent to through that session since it was made. No
/// session out of use is left then.
pub proof fn answers_pass_by_what_was_sent(
    filtering: UdpNatBehavior,
    max: nat,
    timeout: nat,
    steps: Seq<Step>,
    key: UdpMappingKey,
    remote: SocketAddr,
    now: nat,
)
    ensures
        ({
            let t = table_after(filtering, max, timeout, steps);
            let sent = sent_to(filtering, max, timeout, steps, key);
            let i = place(t.sessions, key);
            let after = stepped(t, Step::Response { key, remote, now }).sessions;
            &&& allowed(t, key, remote, now) == (i < t.sessions.len() && in_use(
                t.sessions[i],
                now,
                timeout,
            ) && match filtering {
                UdpNatBehavior::EndpointIndependent => true,
                UdpNatBehavior::AddressDependent => exists|d: SocketAddr|
                    sent.contains(d) && d.ip == remote.ip,
                UdpNatBehavior::AddressAndPortDependent => sent.contains(remote),
            })
            &&& forall|j: int|
                0 <= j < after.len() ==> in_use(#[trigger] after[j], now, timeout)
        }),
{
    let t = table_after(filtering, max, timeout, steps);
    let sent = sent_to(filtering, max, timeout, steps, key);
    lemma_history(filtering, max, timeout, steps, key);
    lemma_live_holds(t.sessions, now, timeout, key, sent);
    let l = live(t.sessions, now, timeout);
    lemma_live_in_use(t.sessions, now, timeout);
    lemma_place_found(t.sessions, key);
    lemma_place_found(l, key);
    let i = place(t.sessions, key);
    let k = place(l, key);
    if k < l.len() {
        lemma_live(t.sessions, now, timeout);
        assert(t.sessions.contains(l[k]));
        let n = choose|n: int| 0 <= n < t.sessions.len() && t.sessions[n] == l[k];
        assert(n == i) by {
            if n < i {
                assert(t.sessions[n].key != key);
            } else if i < n {
                assert(t.sessions[i].key != t.sessions[n].key);
            }
        }
        assert(holds(l[k], sent));
        assert(l[k].addresses.contains(remote.ip) <==> exists|d: SocketAddr|
            sent.contains(d) && d.ip == remote.ip);
    } else if i < t.sessions.len() && in_use(t.sessions[i], now, timeout) {
        assert(l.contains(t.sessions[i]));
        let n = choose|n: int| 0 <= n < l.len() && l[n] == t.sessions[i];
        assert(l[n].key == key);
    }
}

proof fn lemma_live_in_use(s: Seq<SessionView>, now: nat, timeout: nat)
    ensures
        forall|i: int|
            0 <= i < live(s, now, timeout).len() ==> in_use(
                #[trigger] live(s, now, timeout)[i],
                now,
                timeout,
            ),
        forall|i: int|
            0 <= i < s.len() && in_use(#[trigger] s[i], now, timeout) ==> live(
                s,
                now,
                timeout,
            ).contains(s[i]),
    decreases s.len(),
{
    if s.len() > 0 {
        let front = s.drop_last();
        let a = live(front, now, timeout);
        let b = live(s, now, timeout);
        lemma_live_in_use(front, now, timeout);
        assert forall|i: int| 0 <= i < b.len() implies in_use(#[trigger] b[i], now, timeout) by {
            if i < a.len() {
                assert(b[i] == a[i]);
            }
        }
        assert forall|i: int| 0 <= i < s.len() && in_use(#[trigger] s[i], now, timeout) implies b.contains(
            s[i],
        ) by {
            if i < front.len() {
                assert(front[i] == s[i]);
                assert(a.contains(front[i]));
                let k = choose|k: int| 0 <= k < a.len() && a[k] == front[i];
                assert(b[k] == s[i]);
            } else {
                assert(b[b.len() - 1] == s[i]);
            }
        }
    }
}

/// Packets of different sources never share a session, whatever the mapping.
pub proof fn sources_are_kept_apart(
    mapping: UdpNatBehavior,
    one: SocketAddr,
    other: SocketAddr,
    a: SocketAddr,
    b: SocketAddr,
)
    requires
        one != other,
    ensures
        mapping_key(mapping, one, a) != mapping_key(mapping, other, b),
{
}

/// A session lasts as long as it is used: it is there exactly while less than the
/// time limit has passed since its last packet.
pub proof fn unused_sessions_end(s: Seq<SessionView>, now: nat, timeout: nat, x: SessionView)
    requires
        x.last_used <= now,
    ensures
        live(s, now, timeout).contains(x) <==> s.contains(x) && now < x.last_used + timeout,
{
    lemma_live_in_use(s, now, timeout);
    lemma_live(s, now, timeout);
    if live(s, now, timeout).contains(x) {
        let i = choose|i: int|
            0 <= i < live(s, now, timeout).len() && live(s, now, timeout)[i] == x;
        assert(in_use(live(s, now, timeout)[i], now, timeout));
        assert(s.contains(live(s, now, timeout)[i]));
    }
    if s.contains(x) && now < x.last_used + timeout {
        let i = choose|i: int| 0 <= i < s.len() && s[i] == x;
        assert(in_use(s[i], now, timeout));
    }
}

/// What a filter lets through: anything, what comes from an address that was sent
/// to, or what comes from the very address and port that were.
pub proof fn filters_go_by_what_was_sent_to(s: SessionView, remote: SocketAddr)
    ensures
        passes(s, UdpNatBehavior::EndpointIndependent, remote),
        passes(s, UdpNatBehavior::AddressDependent, remote) <==> s.addresses.contains(remote.ip),
        passes(s, UdpNatBehavior::AddressAndPortDependent, remote) <==> s.endpoints.contains(remote),
{
}

/// The behaviours have the names that they are written by; without a name one is
/// independent of where packets go.
pub proof fn behaviours_have_their_names()
    ensures
        behavior_named(None) == Some(UdpNatBehavior::EndpointIndependent),
        behavior_named(Some("endpoint_independent"@)) == Some(UdpNatBehavior::EndpointIndependent),
        behavior_named(Some("address_dependent"@)) == Some(UdpNatBehavior::AddressDependent),
        behavior_named(Some("address_and_port_dependent"@)) == Some(
            UdpNatBehavior::AddressAndPortDependent,
        ),
{
    reveal_strlit("endpoint_independent");
    reveal_strlit("address_dependent");
    reveal_strlit("address_and_port_dependent");
    assert("endpoint_independent"@.len() == 20 && "address_dependent"@.len() == 17
        && "address_and_port_dependent"@.len() == 26);
}

} // verus!
