//! What was looked up before, and what is being looked up.
use crate::dns::answer::{self, Retime};
use crate::net::IpAddr;
use crate::text;
use crate::time::Duration;
use vstd::prelude::*;

verus! {

// ---- keys and values ----

/// What was asked.
#[derive(Debug, Clone, PartialEq, Eq, Hash, PartialOrd, Ord)]
pub enum CacheKey {
    /// The addresses of a name.
    Lookup {
        name: String,
        qtype: u16,
        server: Option<String>,
        client_subnet: Option<String>,
    },
    /// A whole message.
    Wire { query: Vec<u8>, server: String },
}

/// What was asked, with plain values.
#[verifier::ext_equal]
pub enum KeyView {
    Lookup {
        name: Seq<char>,
        qtype: u16,
        server: Option<Seq<char>>,
        client_subnet: Option<Seq<char>>,
    },
    Wire { query: Seq<u8>, server: Seq<char> },
}

impl View for CacheKey {
    type V = KeyView;

    open spec fn view(&self) -> KeyView {
        match *self {
            CacheKey::Lookup { name, qtype, server, client_subnet } => KeyView::Lookup {
                name: name@,
                qtype,
                server: text::opt_text(server),
                client_subnet: text::opt_text(client_subnet),
            },
            CacheKey::Wire { query, server } => KeyView::Wire { query: query@, server: server@ },
        }
    }
}

fn same_opt(a: &Option<String>, b: &Option<String>) -> (r: bool)
    ensures
        r == (text::opt_text(*a) == text::opt_text(*b)),
{
    match (a, b) {
        (Some(x), Some(y)) => text::same_text(x.as_str(), y.as_str()),
        (None, None) => true,
        _ => false,
    }
}

impl CacheKey {
    pub fn copy(&self) -> (r: CacheKey)
        ensures
            r@ == self@,
    {
        match self {
            CacheKey::Lookup { name, qtype, server, client_subnet } => CacheKey::Lookup {
                name: text::copy_text(name.as_str()),
                qtype: *qtype,
                server: text::copy_opt(server),
                client_subnet: text::copy_opt(client_subnet),
            },
            CacheKey::Wire { query, server } => CacheKey::Wire {
                query: text::copy_bytes(query.as_slice()),
                server: text::copy_text(server.as_str()),
            },
        }
    }

    /// Whether the same was asked.
    pub fn same(&self, other: &CacheKey) -> (r: bool)
        ensures
            r == (self@ == other@),
    {
        match self {
            CacheKey::Lookup { name, qtype, server, client_subnet } => match other {
                CacheKey::Lookup {
                    name: name2,
                    qtype: qtype2,
                    server: server2,
                    client_subnet: client_subnet2,
                } => *qtype == *qtype2 && text::same_text(name.as_str(), name2.as_str())
                    && same_opt(server, server2) && same_opt(client_subnet, client_subnet2),
                CacheKey::Wire { .. } => false,
            },
            CacheKey::Wire { query, server } => match other {
                CacheKey::Wire { query: query2, server: server2 } => text::same_bytes(
                    query.as_slice(),
                    query2.as_slice(),
                ) && text::same_text(server.as_str(), server2.as_str()),
                CacheKey::Lookup { .. } => false,
            },
        }
    }
}

/// What was answered.
#[derive(Debug)]
pub enum CacheValue {
    Addresses(Vec<IpAddr>),
    Wire(Vec<u8>),
}

/// What was answered, with plain values.
#[verifier::ext_equal]
pub enum ValueView {
    Addresses(Seq<IpAddr>),
    Wire(Seq<u8>),
}

impl View for CacheValue {
    type V = ValueView;

    open spec fn view(&self) -> ValueView {
        match *self {
            CacheValue::Addresses(list) => ValueView::Addresses(list@),
            CacheValue::Wire(message) => ValueView::Wire(message@),
        }
    }
}

/// Copies addresses.
pub fn copy_addresses(list: &Vec<IpAddr>) -> (r: Vec<IpAddr>)
    ensures
        r@ == list@,
{
    let mut r: Vec<IpAddr> = Vec::new();
    let mut i: usize = 0;
    while i < list.len()
        invariant
            i <= list@.len(),
            r@ =~= list@.take(i as int),
        decreases list@.len() - i,
    {
        r.push(list[i]);
        i = i + 1;
    }
    r
}

impl CacheValue {
    pub fn copy(&self) -> (r: CacheValue)
        ensures
            r@ == self@,
    {
        match self {
            CacheValue::Addresses(list) => CacheValue::Addresses(copy_addresses(list)),
            CacheValue::Wire(message) => CacheValue::Wire(text::copy_bytes(message.as_slice())),
        }
    }
}

/// An answer after so many seconds: the lifetimes in a message have grown shorter.
pub open spec fn aged(value: ValueView, seconds: nat) -> ValueView {
    match value {
        ValueView::Addresses(list) => ValueView::Addresses(list),
        ValueView::Wire(message) => ValueView::Wire(
            answer::message_retimed(
                message,
                Retime::Age(
                    if seconds <= u32::MAX {
                        seconds as u32
                    } else {
                        u32::MAX
                    },
                ),
            ),
        ),
    }
}

// ---- entries ----

/// An answer and when it came and is over.
#[derive(Debug)]
pub struct CacheEntry {
    pub key: CacheKey,
    pub value: CacheValue,
    pub expires: Duration,
    pub inserted: Duration,
}

/// An answer with plain values; times are in milliseconds.
#[verifier::ext_equal]
pub struct EntryView {
    pub key: KeyView,
    pub value: ValueView,
    pub expires: nat,
    pub inserted: nat,
}

impl View for CacheEntry {
    type V = EntryView;

    open spec fn view(&self) -> EntryView {
        EntryView {
            key: self.key@,
            value: self.value@,
            expires: self.expires.millis as nat,
            inserted: self.inserted.millis as nat,
        }
    }
}

/// Entries with plain values.
pub open spec fn entry_views(s: Seq<CacheEntry>) -> Seq<EntryView> {
    s.map_values(|e: CacheEntry| e@)
}

/// No two entries answer the same.
pub open spec fn keys_unique(s: Seq<EntryView>) -> bool {
    forall|i: int, j: int|
        0 <= i < j < s.len() ==> (#[trigger] s[i]).key != (#[trigger] s[j]).key
}

/// The entries that are not over; all of them where they are kept.
pub open spec fn live(s: Seq<EntryView>, now: nat, kept: bool) -> Seq<EntryView>
    decreases s.len(),
{
    if kept {
        s
    } else if s.len() == 0 {
        Seq::empty()
    } else if s.last().expires > now {
        live(s.drop_last(), now, kept).push(s.last())
    } else {
        live(s.drop_last(), now, kept)
    }
}

/// The first place of what was asked, or the number of entries.
pub open spec fn place(s: Seq<EntryView>, key: KeyView) -> int
    decreases s.len(),
{
    if s.len() == 0 || s[0].key == key {
        0
    } else {
        1 + place(s.skip(1), key)
    }
}

/// The entries without the one for a key.
pub open spec fn without(s: Seq<EntryView>, key: KeyView) -> Seq<EntryView> {
    let i = place(s, key);
    if i < s.len() {
        s.take(i) + s.skip(i + 1)
    } else {
        s
    }
}

/// The entries with the one for a key at the end, as the one used last.
pub open spec fn used(s: Seq<EntryView>, key: KeyView) -> Seq<EntryView> {
    let i = place(s, key);
    if i < s.len() {
        without(s, key).push(s[i])
    } else {
        s
    }
}

/// The answer for a key at a time, if there is one.
pub open spec fn found(s: Seq<EntryView>, key: KeyView, now: nat) -> Option<ValueView> {
    let i = place(s, key);
    if i < s.len() {
        Some(
            aged(
                s[i].value,
                if now >= s[i].inserted {
                    ((now - s[i].inserted) / 1000) as nat
                } else {
                    0
                },
            ),
        )
    } else {
        None
    }
}

/// No more entries than there is room for: the ones used longest ago go first.
pub open spec fn bounded(s: Seq<EntryView>, capacity: nat) -> Seq<EntryView> {
    if s.len() > capacity {
        s.skip(s.len() - capacity)
    } else {
        s
    }
}

/// The entries with one more.
pub open spec fn with_entry(s: Seq<EntryView>, entry: EntryView, capacity: nat) -> Seq<EntryView> {
    bounded(without(s, entry.key).push(entry), capacity)
}

proof fn lemma_place(s: Seq<EntryView>, key: KeyView)
    ensures
        0 <= place(s, key) <= s.len(),
        place(s, key) < s.len() ==> s[place(s, key)].key == key,
        forall|i: int| 0 <= i < place(s, key) ==> (#[trigger] s[i]).key != key,
    decreases s.len(),
{
    if s.len() > 0 && s[0].key != key {
        lemma_place(s.skip(1), key);
        assert forall|i: int| 0 <= i < place(s, key) implies (#[trigger] s[i]).key != key by {
            if i > 0 {
                assert(s.skip(1)[i - 1] == s[i]);
            }
        }
    }
}

proof fn lemma_place_is(s: Seq<EntryView>, key: KeyView, n: int)
    requires
        0 <= n <= s.len(),
        forall|i: int| 0 <= i < n ==> (#[trigger] s[i]).key != key,
        n < s.len() ==> s[n].key == key,
    ensures
        place(s, key) == n,
    decreases n,
{
    if n > 0 {
        assert(s[0].key != key);
        assert forall|i: int| 0 <= i < n - 1 implies (#[trigger] s.skip(1)[i]).key != key by {
            assert(s.skip(1)[i] == s[i + 1]);
        }
        lemma_place_is(s.skip(1), key, n - 1);
    }
}

proof fn lemma_live(s: Seq<EntryView>, now: nat, kept: bool)
    ensures
        live(s, now, kept).len() <= s.len(),
        forall|i: int|
            0 <= i < live(s, now, kept).len() ==> s.contains(#[trigger] live(s, now, kept)[i]) && (
            kept || live(s, now, kept)[i].expires > now),
        keys_unique(s) ==> keys_unique(live(s, now, kept)),
        forall|i: int|
            0 <= i < s.len() && (kept || (#[trigger] s[i]).expires > now) ==> live(
                s,
                now,
                kept,
            ).contains(s[i]),
    decreases s.len(),
{
    if kept {
        assert forall|i: int| 0 <= i < s.len() implies s.contains(#[trigger] s[i]) by {}
    } else if s.len() > 0 {
        let front = s.drop_last();
        lemma_live(front, now, kept);
        let a = live(front, now, kept);
        let b = live(s, now, kept);
        assert forall|i: int| 0 <= i < b.len() implies s.contains(#[trigger] b[i]) && b[i].expires
            > now by {
            if i < a.len() {
                assert(a[i] == b[i]);
                assert(front.contains(a[i]));
                let k = choose|k: int| 0 <= k < front.len() && front[k] == a[i];
                assert(s[k] == b[i]);
            } else {
                assert(s[s.len() - 1] == b[i]);
            }
        }
        if keys_unique(s) {
            assert forall|i: int, j: int| 0 <= i < j < front.len() implies (
            #[trigger] front[i]).key != (#[trigger] front[j]).key by {
                assert(s[i].key != s[j].key);
            }
            assert forall|i: int, j: int| 0 <= i < j < b.len() implies (#[trigger] b[i]).key != (
            #[trigger] b[j]).key by {
                assert(a[i] == b[i]);
                if j < a.len() {
                    assert(a[j] == b[j]);
                } else {
                    assert(front.contains(a[i]));
                    let k = choose|k: int| 0 <= k < front.len() && front[k] == a[i];
                    assert(s[k].key != s[s.len() - 1].key);
                }
            }
        }
        assert forall|i: int| 0 <= i < s.len() && (#[trigger] s[i]).expires > now implies b.contains(
            s[i],
        ) by {
            if i < front.len() {
                assert(front[i] == s[i]);
                assert(a.contains(front[i]));
                let k = choose|k: int| 0 <= k < a.len() && a[k] == front[i];
                assert(b[k] == s[i]);
            } else {
                assert(b[b.len() - 1] == s[i]);
            }
        }
    }
}

proof fn lemma_without(s: Seq<EntryView>, key: KeyView)
    requires
        keys_unique(s),
    ensures
        keys_unique(without(s, key)),
        forall|i: int| 0 <= i < without(s, key).len() ==> (#[trigger] without(s, key)[i]).key != key,
        without(s, key).len() == (if place(s, key) < s.len() {
            s.len() - 1
        } else {
            s.len() as int
        }),
{
    lemma_place(s, key);
    let n = place(s, key);
    let w = without(s, key);
    if n < s.len() {
        assert forall|i: int| 0 <= i < w.len() implies (#[trigger] w[i]).key != key by {
            if i < n {
                assert(w[i] == s[i]);
            } else {
                assert(w[i] == s[i + 1]);
                assert(s[n].key != s[i + 1].key);
            }
        }
        assert forall|i: int, j: int| 0 <= i < j < w.len() implies (#[trigger] w[i]).key != (
        #[trigger] w[j]).key by {
            let x = if i < n {
                i
            } else {
                i + 1
            };
            let y = if j < n {
                j
            } else {
                j + 1
            };
            assert(w[i] == s[x] && w[j] == s[y]);
            assert(s[x].key != s[y].key);
        }
    } else {
        assert forall|i: int| 0 <= i < w.len() implies (#[trigger] w[i]).key != key by {
            assert(s[i].key != key);
        }
    }
}

proof fn lemma_pushed_unique(s: Seq<EntryView>, e: EntryView)
    requires
        keys_unique(s),
        forall|i: int| 0 <= i < s.len() ==> (#[trigger] s[i]).key != e.key,
    ensures
        keys_unique(s.push(e)),
        place(s.push(e), e.key) == s.len(),
{
    let p = s.push(e);
    assert forall|i: int, j: int| 0 <= i < j < p.len() implies (#[trigger] p[i]).key != (
    #[trigger] p[j]).key by {
        assert(p[i] == s[i]);
        if j < s.len() {
            assert(p[j] == s[j]);
        }
    }
    assert forall|i: int| 0 <= i < s.len() implies (#[trigger] p[i]).key != e.key by {
        assert(p[i] == s[i]);
    }
    lemma_place_is(p, e.key, s.len() as int);
}

proof fn lemma_bounded(s: Seq<EntryView>, capacity: nat)
    requires
        keys_unique(s),
    ensures
        keys_unique(bounded(s, capacity)),
        bounded(s, capacity).len() <= capacity,
{
    let b = bounded(s, capacity);
    if s.len() > capacity {
        let n = s.len() - capacity;
        assert forall|i: int, j: int| 0 <= i < j < b.len() implies (#[trigger] b[i]).key != (
        #[trigger] b[j]).key by {
            assert(b[i] == s[n + i] && b[j] == s[n + j]);
        }
    }
}

// ---- the cache ----

/// Answers that were given before; the one used last stands at the end.
#[derive(Debug)]
pub struct DnsCache {
    pub entries: Vec<CacheEntry>,
    pub capacity: usize,
    pub disable_expire: bool,
}

impl DnsCache {
    /// No two entries answer the same, and there are no more than there is room
    /// for.
    pub open spec fn wf(&self) -> bool {
        keys_unique(entry_views(self.entries@)) && self.entries@.len() <= self.capacity
    }

    /// A cache without answers.
    pub fn new(capacity: usize, disable_expire: bool) -> (r: DnsCache)
        ensures
            r.wf(),
            r.capacity == capacity,
            r.disable_expire == disable_expire,
            r.entries@.len() == 0,
    {
        DnsCache { entries: Vec::new(), capacity, disable_expire }
    }

    /// Drops the entries that are over.
    pub fn purge_expired(&mut self, now: Duration)
        requires
            old(self).wf(),
        ensures
            final(self).wf(),
            final(self).capacity == old(self).capacity,
            final(self).disable_expire == old(self).disable_expire,
            entry_views(final(self).entries@) == live(
                entry_views(old(self).entries@),
                now.millis as nat,
                old(self).disable_expire,
            ),
    {
        let ghost all = entry_views(self.entries@);
        let ghost t = now.millis as nat;
        proof {
            lemma_live(all, t, self.disable_expire);
        }
        if self.disable_expire {
            return;
        }
        let mut kept: Vec<CacheEntry> = Vec::new();
        let mut rest: Vec<CacheEntry> = Vec::new();
        std::mem::swap(&mut rest, &mut self.entries);
        proof {
            assert(entry_views(kept@) =~= live(all.skip(all.len() as int), t, false));
            assert(rest@ == old(self).entries@);
            assert(all.take(all.len() as int) =~= all);
        }
        // The entries are taken from the end, so they come out in reverse.
        while rest.len() > 0
            invariant
                t == now.millis as nat,
                all == entry_views(old(self).entries@),
                rest@ == old(self).entries@.take(rest@.len() as int),
                rest@.len() <= old(self).entries@.len(),
                live(all, t, false) == live(all.take(rest@.len() as int), t, false) + entry_views(
                    kept@,
                ).reverse(),
                self.capacity == old(self).capacity,
                self.disable_expire == old(self).disable_expire,
            decreases rest@.len(),
        {
            let ghost n = rest@.len() as int;
            let ghost before = entry_views(kept@);
            proof {
                assert(all.take(n).drop_last() =~= all.take(n - 1));
                assert(all.take(n).last() == rest@[n - 1]@);
            }
            match rest.pop() {
                Some(entry) => {
                    let ghost e = entry@;
                    if entry.expires.millis > now.millis {
                        kept.push(entry);
                        proof {
                            assert(entry_views(kept@) =~= before.push(e));
                            assert(before.push(e).reverse() =~= seq![e] + before.reverse());
                            let front = live(all.take(n - 1), t, false);
                            assert(front.push(e) + before.reverse() =~= front + (seq![e]
                                + before.reverse()));
                        }
                    }
                    proof {
                        assert(rest@ =~= old(self).entries@.take(n - 1));
                    }
                },
                None => {},
            }
        }
        proof {
            assert(all.take(0) =~= Seq::<EntryView>::empty());
            assert(live(all.take(0), t, false) + entry_views(kept@).reverse() =~= entry_views(
                kept@,
            ).reverse());
        }
        let ghost turned = entry_views(kept@);
        let mut entries: Vec<CacheEntry> = Vec::new();
        while kept.len() > 0
            invariant
                kept@.len() <= turned.len(),
                entry_views(kept@) == turned.take(kept@.len() as int),
                turned.reverse() == entry_views(entries@) + entry_views(kept@).reverse(),
            decreases kept@.len(),
        {
            let ghost n = kept@.len() as int;
            let ghost before = entry_views(entries@);
            let ghost left = entry_views(kept@);
            match kept.pop() {
                Some(entry) => {
                    let ghost e = entry@;
                    entries.push(entry);
                    proof {
                        assert(entry_views(entries@) =~= before.push(e));
                        assert(left.last() == e);
                        assert(entry_views(kept@) =~= left.drop_last());
                        assert(left.reverse() =~= seq![e] + left.drop_last().reverse());
                        assert(before + (seq![e] + left.drop_last().reverse()) =~= before.push(e)
                            + left.drop_last().reverse());
                        assert(turned.take(n).drop_last() =~= turned.take(n - 1));
                    }
                },
                None => {},
            }
        }
        proof {
            assert(entry_views(kept@).reverse() =~= Seq::<EntryView>::empty());
            assert(entry_views(entries@) + entry_views(kept@).reverse() =~= entry_views(entries@));
            assert(entry_views(entries@).len() == entries@.len());
            assert(all.len() == old(self).entries@.len());
        }
        self.entries = entries;
    }

    fn find(&self, key: &CacheKey) -> (r: usize)
        ensures
            r == place(entry_views(self.entries@), key@),
            r <= self.entries@.len(),
    {
        let ghost all = entry_views(self.entries@);
        let mut i: usize = 0;
        while i < self.entries.len()
            invariant
                i <= self.entries@.len(),
                all == entry_views(self.entries@),
                forall|j: int| 0 <= j < i ==> (#[trigger] all[j]).key != key@,
            decreases self.entries@.len() - i,
        {
            proof {
                assert(all[i as int] == self.entries@[i as int]@);
            }
            if self.entries[i].key.same(key) {
                proof {
                    lemma_place_is(all, key@, i as int);
                }
                return i;
            }
            i = i + 1;
        }
        proof {
            lemma_place_is(all, key@, i as int);
        }
        i
    }

    /// The answer for a key, if there is one; it is then the one used last.
    pub fn get(&mut self, key: &CacheKey, now: Duration) -> (r: Option<CacheValue>)
        requires
            old(self).wf(),
        ensures
            final(self).wf(),
            final(self).capacity == old(self).capacity,
            final(self).disable_expire == old(self).disable_expire,
            ({
                let s = live(
                    entry_views(old(self).entries@),
                    now.millis as nat,
                    old(self).disable_expire,
                );
                &&& match r {
                    Some(v) => found(s, key@, now.millis as nat) == Some(v@),
                    None => found(s, key@, now.millis as nat) is None,
                }
                &&& entry_views(final(self).entries@) == used(s, key@)
            }),
    {
        self.purge_expired(now);
        let ghost s = entry_views(self.entries@);
        let i: usize = self.find(key);
        proof {
            lemma_place(s, key@);
        }
        if i >= self.entries.len() {
            return None;
        }
        let entry = self.entries.remove(i);
        let elapsed: u128 = if now.millis >= entry.inserted.millis {
            now.millis - entry.inserted.millis
        } else {
            0
        };
        let seconds: u32 = if elapsed / 1000 <= 0xffff_ffff {
            (elapsed / 1000) as u32
        } else {
            0xffff_ffff
        };
        let mut value = entry.value.copy();
        let ghost stored = value@;
        value = match value {
            CacheValue::Wire(mut message) => {
                answer::age_response_ttls(&mut message, seconds);
                CacheValue::Wire(message)
            },
            other => other,
        };
        proof {
            assert(entry_views(self.entries@) =~= without(s, key@));
            lemma_without(s, key@);
            lemma_pushed_unique(without(s, key@), entry@);
        }
        self.entries.push(entry);
        proof {
            assert(entry_views(self.entries@) =~= without(s, key@).push(s[i as int]));
        }
        Some(value)
    }

    /// Puts an answer in, for a time. Where there is no room, the answers used
    /// longest ago go.
    pub fn insert(&mut self, key: CacheKey, value: CacheValue, ttl: Duration, now: Duration)
        requires
            old(self).wf(),
            now.millis + ttl.millis <= u128::MAX,
        ensures
            final(self).wf(),
            final(self).capacity == old(self).capacity,
            final(self).disable_expire == old(self).disable_expire,
            entry_views(final(self).entries@) == with_entry(
                live(
                    entry_views(old(self).entries@),
                    now.millis as nat,
                    old(self).disable_expire,
                ),
                EntryView {
                    key: key@,
                    value: value@,
                    expires: (now.millis + ttl.millis) as nat,
                    inserted: now.millis as nat,
                },
                old(self).capacity as nat,
            ),
    {
        self.purge_expired(now);
        let ghost s = entry_views(self.entries@);
        let i: usize = self.find(&key);
        proof {
            lemma_place(s, key@);
            lemma_without(s, key@);
        }
        if i < self.entries.len() {
            let _ = self.entries.remove(i);
        }
        proof {
            assert(entry_views(self.entries@) =~= without(s, key@));
        }
        let expires = Duration { millis: now.millis + ttl.millis };
        let entry = CacheEntry { key, value, expires, inserted: now };
        proof {
            lemma_pushed_unique(without(s, entry.key@), entry@);
        }
        let ghost e = entry@;
        self.entries.push(entry);
        let ghost full = without(s, e.key).push(e);
        proof {
            assert(entry_views(self.entries@) =~= full);
            lemma_bounded(full, self.capacity as nat);
        }
        if self.entries.len() > self.capacity {
            proof {
                assert(full.len() <= self.capacity + 1);
            }
            let _ = self.entries.remove(0);
            proof {
                assert(entry_views(self.entries@) =~= full.skip(1));
            }
        }
    }
}

// ---- laws ----

/// An answer that is there is found until its time is over, and grows older.
pub proof fn what_is_there_is_found(s: Seq<EntryView>, entry: EntryView, now: nat, kept: bool)
    requires
        keys_unique(s),
        s.contains(entry),
        now >= entry.inserted,
        kept || now < entry.expires,
    ensures
        found(live(s, now, kept), entry.key, now) == Some(
            aged(entry.value, ((now - entry.inserted) / 1000) as nat),
        ),
{
    lemma_live(s, now, kept);
    let l = live(s, now, kept);
    let k = choose|k: int| 0 <= k < s.len() && s[k] == entry;
    assert(l.contains(s[k]));
    let n = choose|n: int| 0 <= n < l.len() && l[n] == entry;
    assert forall|i: int| 0 <= i < n implies (#[trigger] l[i]).key != entry.key by {
        assert(l[i].key != l[n].key);
    }
    lemma_place_is(l, entry.key, n);
}

/// An answer that was put in is there until its time is over, and grows older.
pub proof fn answers_are_kept_for_their_time(
    s: Seq<EntryView>,
    entry: EntryView,
    capacity: nat,
    now: nat,
    kept: bool,
)
    requires
        keys_unique(s),
        capacity > 0,
        now >= entry.inserted,
        kept || now < entry.expires,
    ensures
        keys_unique(with_entry(s, entry, capacity)),
        with_entry(s, entry, capacity).contains(entry),
        found(live(with_entry(s, entry, capacity), now, kept), entry.key, now) == Some(
            aged(entry.value, ((now - entry.inserted) / 1000) as nat),
        ),
{
    let full = without(s, entry.key).push(entry);
    let t = with_entry(s, entry, capacity);
    lemma_without(s, entry.key);
    lemma_pushed_unique(without(s, entry.key), entry);
    lemma_bounded(full, capacity);
    assert(t[t.len() - 1] == entry);
    what_is_there_is_found(t, entry, now, kept);
}

/// Putting in an answer leaves no more of them than there is room for. Where the
/// question is new and there was room for no more, the answer used longest ago goes,
/// and no other; else all answers to other questions stay.
pub proof fn one_answer_makes_room(s: Seq<EntryView>, entry: EntryView, capacity: nat)
    requires
        keys_unique(s),
        s.len() <= capacity,
        capacity > 0,
    ensures
        ({
            let t = with_entry(s, entry, capacity);
            let others = without(s, entry.key);
            &&& t.len() <= capacity
            &&& t.last() == entry
            &&& place(s, entry.key) == s.len() && s.len() == capacity ==> others == s
                && t.drop_last() == s.skip(1)
            &&& place(s, entry.key) < s.len() || s.len() < capacity ==> t.drop_last() == others
            &&& forall|i: int|
                0 <= i < s.len() && (#[trigger] s[i]).key != entry.key ==> others.contains(s[i])
        }),
{
    lemma_place(s, entry.key);
    lemma_without(s, entry.key);
    let n = place(s, entry.key);
    let others = without(s, entry.key);
    let full = others.push(entry);
    let t = with_entry(s, entry, capacity);
    if full.len() > capacity {
        assert(t.drop_last() =~= s.skip(1));
    } else {
        assert(t.drop_last() =~= others);
    }
    assert forall|i: int| 0 <= i < s.len() && (#[trigger] s[i]).key != entry.key implies others.contains(
        s[i],
    ) by {
        if n < s.len() {
            if i < n {
                assert(others[i] == s[i]);
            } else {
                assert(others[i - 1] == s[i]);
            }
        } else {
            assert(others[i] == s[i]);
        }
    }
}

/// An answer whose time is over is not given.
pub proof fn answers_expire(s: Seq<EntryView>, entry: EntryView, capacity: nat, now: nat)
    requires
        keys_unique(s),
        now >= entry.expires,
    ensures
        found(live(with_entry(s, entry, capacity), now, false), entry.key, now) is None,
{
    let full = without(s, entry.key).push(entry);
    let t = with_entry(s, entry, capacity);
    lemma_without(s, entry.key);
    lemma_pushed_unique(without(s, entry.key), entry);
    lemma_bounded(full, capacity);
    lemma_live(t, now, false);
    let l = live(t, now, false);
    assert forall|i: int| 0 <= i < l.len() implies (#[trigger] l[i]).key != entry.key by {
        if l[i].key == entry.key {
            assert(t.contains(l[i]));
            let k = choose|k: int| 0 <= k < t.len() && t[k] == l[i];
            let base = full.len() - t.len();
            assert(t[k] == full[base + k]);
            if base + k < full.len() - 1 {
                assert(full[base + k] == without(s, entry.key)[base + k]);
            }
        }
    }
    lemma_place_is(l, entry.key, l.len() as int);
}

/// What was just used is not what makes room, unless there is room for one alone.
pub proof fn the_last_used_stays(s: Seq<EntryView>, key: KeyView, entry: EntryView, capacity: nat)
    requires
        keys_unique(s),
        s.len() <= capacity,
        capacity >= 2,
        place(s, key) < s.len(),
        entry.key != key,
    ensures
        place(with_entry(used(s, key), entry, capacity), key) < with_entry(
            used(s, key),
            entry,
            capacity,
        ).len(),
{
    lemma_place(s, key);
    lemma_without(s, key);
    let e = s[place(s, key)];
    let u = used(s, key);
    lemma_pushed_unique(without(s, key), e);
    lemma_without(u, entry.key);
    lemma_place(u, entry.key);
    let w = without(u, entry.key);
    assert(u[u.len() - 1] == e);
    assert(w.len() > 0 && w[w.len() - 1] == e);
    let full = w.push(entry);
    lemma_pushed_unique(w, entry);
    lemma_bounded(full, capacity);
    let t = bounded(full, capacity);
    let base = full.len() - t.len();
    let n = w.len() - 1 - base;
    assert(full[w.len() - 1] == e);
    assert(t[n] == e);
    lemma_place(t, key);
    if place(t, key) >= t.len() {
        assert(t[n].key != key);
    }
}

/// Other answers stay as they are when one is read.
pub proof fn reading_changes_no_answer(s: Seq<EntryView>, key: KeyView, other: KeyView, now: nat)
    requires
        keys_unique(s),
    ensures
        found(used(s, key), other, now) == found(s, other, now),
{
    lemma_place(s, key);
    lemma_place(s, other);
    let i = place(s, key);
    if i < s.len() {
        let u = used(s, key);
        lemma_without(s, key);
        lemma_pushed_unique(without(s, key), s[i]);
        let k = place(s, other);
        if k < s.len() {
            let n = if k == i {
                u.len() - 1
            } else if k < i {
                k
            } else {
                k - 1
            };
            assert(u[n] == s[k]);
            assert forall|j: int| 0 <= j < n implies (#[trigger] u[j]).key != other by {
                assert(u[j].key != u[n].key);
            }
            lemma_place_is(u, other, n);
        } else {
            assert forall|j: int| 0 <= j < u.len() implies (#[trigger] u[j]).key != other by {
                if j < i {
                    assert(u[j] == s[j]);
                } else if j < u.len() - 1 {
                    assert(u[j] == s[j + 1]);
                } else {
                    assert(u[j] == s[i]);
                }
            }
            lemma_place_is(u, other, u.len() as int);
        }
    }
}

// ---- what is being looked up ----

/// A question that is being put, and what waits for its answer.
#[derive(Debug)]
pub struct Flight {
    pub key: CacheKey,
    pub handle: u64,
}

/// The questions that are being put.
#[derive(Debug)]
pub struct Flights {
    pub list: Vec<Flight>,
}

/// The keys and handles of flights.
pub open spec fn flight_views(s: Seq<Flight>) -> Seq<(KeyView, u64)> {
    s.map_values(|f: Flight| (f.key@, f.handle))
}

/// The flight for a key, if there is one.
pub open spec fn flight_for(s: Seq<(KeyView, u64)>, key: KeyView) -> Option<u64>
    decreases s.len(),
{
    if s.len() == 0 {
        None
    } else if s[0].0 == key {
        Some(s[0].1)
    } else {
        flight_for(s.skip(1), key)
    }
}

/// The flights without those for a key.
pub open spec fn landed(s: Seq<(KeyView, u64)>, key: KeyView) -> Seq<(KeyView, u64)>
    decreases s.len(),
{
    if s.len() == 0 {
        Seq::empty()
    } else if s.last().0 == key {
        landed(s.drop_last(), key)
    } else {
        landed(s.drop_last(), key).push(s.last())
    }
}

impl Flights {
    pub fn new() -> (r: Flights)
        ensures
            r.list@.len() == 0,
    {
        Flights { list: Vec::new() }
    }

    /// Joins the flight for a key, or starts one with a fresh handle: the handle,
    /// and whether the question is to be put.
    pub fn join(&mut self, key: CacheKey, fresh: u64) -> (r: (u64, bool))
        ensures
            match flight_for(flight_views(old(self).list@), key@) {
                Some(handle) => r == (handle, false) && final(self).list == old(self).list,
                None => r == (fresh, true) && flight_views(final(self).list@) == flight_views(
                    old(self).list@,
                ).push((key@, fresh)),
            },
    {
        let ghost all = flight_views(self.list@);
        let mut i: usize = 0;
        proof {
            assert(all.skip(0) =~= all);
        }
        while i < self.list.len()
            invariant
                i <= self.list@.len(),
                *self == *old(self),
                all == flight_views(self.list@),
                flight_for(all, key@) == flight_for(all.skip(i as int), key@),
            decreases self.list@.len() - i,
        {
            proof {
                assert(all.skip(i as int)[0] == all[i as int]);
                assert(all.skip(i as int).skip(1) =~= all.skip(i + 1));
            }
            if self.list[i].key.same(&key) {
                return (self.list[i].handle, false);
            }
            i = i + 1;
        }
        let ghost k = key@;
        self.list.push(Flight { key, handle: fresh });
        proof {
            assert(flight_views(self.list@) =~= all.push((k, fresh)));
        }
        (fresh, true)
    }

    /// Ends the flight for a key.
    pub fn finish(&mut self, key: &CacheKey)
        ensures
            flight_views(final(self).list@) == landed(flight_views(old(self).list@), key@),
            flight_for(flight_views(final(self).list@), key@) is None,
    {
        let ghost all = flight_views(self.list@);
        let mut n: usize = self.list.len();
        proof {
            assert(all.take(n as int) =~= all);
            assert(landed(all, key@) + Seq::<(KeyView, u64)>::empty() =~= landed(all, key@));
            assert(all.skip(n as int) =~= Seq::<(KeyView, u64)>::empty());
        }
        let ghost mut tail = Seq::<(KeyView, u64)>::empty();
        while n > 0
            invariant
                n <= self.list@.len(),
                all == flight_views(old(self).list@),
                flight_views(self.list@) == all.take(n as int) + tail,
                landed(all, key@) == landed(all.take(n as int), key@) + tail,
                n <= all.len(),
            decreases n,
        {
            let ghost now = flight_views(self.list@);
            proof {
                assert(all.take(n as int).drop_last() =~= all.take(n - 1));
                assert(all.take(n as int).last() == all[n - 1]);
                assert(now[n - 1] == all[n - 1]);
            }
            n = n - 1;
            if self.list[n].key.same(key) {
                let _ = self.list.remove(n);
                proof {
                    assert(flight_views(self.list@) =~= now.remove(n as int));
                    assert(now =~= all.take(n + 1) + tail);
                    assert(now.remove(n as int) =~= all.take(n as int) + tail);
                }
            } else {
                proof {
                    let e = all[n as int];
                    let front = landed(all.take(n as int), key@);
                    assert(front.push(e) + tail =~= front + (seq![e] + tail));
                    tail = seq![e] + tail;
                    assert(flight_views(self.list@) =~= all.take(n as int) + tail);
                }
            }
        }
        proof {
            assert(all.take(0) =~= Seq::<(KeyView, u64)>::empty());
            assert(flight_views(self.list@) =~= tail);
            assert(landed(all.take(0), key@) + tail =~= tail);
            lemma_landed(all, key@);
        }
    }
}

proof fn lemma_landed(s: Seq<(KeyView, u64)>, key: KeyView)
    ensures
        flight_for(landed(s, key), key) is None,
        forall|i: int| 0 <= i < landed(s, key).len() ==> (#[trigger] landed(s, key)[i]).0 != key,
    decreases s.len(),
{
    if s.len() > 0 {
        let front = landed(s.drop_last(), key);
        lemma_landed(s.drop_last(), key);
        assert forall|i: int| 0 <= i < landed(s, key).len() implies (#[trigger] landed(
            s,
            key,
        )[i]).0 != key by {
            if i < front.len() {
                assert(landed(s, key)[i] == front[i]);
            }
        }
    }
    lemma_no_flight(landed(s, key), key);
}

proof fn lemma_no_flight(s: Seq<(KeyView, u64)>, key: KeyView)
    requires
        forall|i: int| 0 <= i < s.len() ==> (#[trigger] s[i]).0 != key,
    ensures
        flight_for(s, key) is None,
    decreases s.len(),
{
    if s.len() > 0 {
        assert(s[0].0 != key);
        assert forall|i: int| 0 <= i < s.skip(1).len() implies (#[trigger] s.skip(1)[i]).0 != key by {
            assert(s.skip(1)[i] == s[i + 1]);
        }
        lemma_no_flight(s.skip(1), key);
    }
}

/// While a question is being put, all who ask it wait for the same answer.
pub proof fn a_question_is_put_once(s: Seq<(KeyView, u64)>, key: KeyView, handle: u64)
    requires
        flight_for(s, key) is None,
    ensures
        flight_for(s.push((key, handle)), key) == Some(handle),
    decreases s.len(),
{
    let all = s.push((key, handle));
    if s.len() > 0 {
        assert(all.skip(1) =~= s.skip(1).push((key, handle)));
        a_question_is_put_once(s.skip(1), key, handle);
    }
}

} // verus!
