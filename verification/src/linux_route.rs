//! What is known of the host and of the process behind a connection.
use crate::net::{self, IpAddr};
use crate::routing::matching::NamedAddresses;
use crate::text;
use crate::time::Duration;
use vstd::prelude::*;

verus! {

/// Which facts about the host the rules ask for.
#[derive(Debug, Clone, Copy, PartialEq, Eq, Structural)]
pub struct LinuxMetadataScope {
    pub process: bool,
    pub user: bool,
    pub interface: bool,
    pub network: bool,
    pub mac: bool,
    pub hostname: bool,
}

impl Default for LinuxMetadataScope {
    /// Nothing is asked for.
    fn default() -> (r: LinuxMetadataScope)
        ensures
            r == LinuxMetadataScope::nothing(),
    {
        LinuxMetadataScope {
            process: false,
            user: false,
            interface: false,
            network: false,
            mac: false,
            hostname: false,
        }
    }
}

impl LinuxMetadataScope {
    pub open spec fn nothing() -> LinuxMetadataScope {
        LinuxMetadataScope {
            process: false,
            user: false,
            interface: false,
            network: false,
            mac: false,
            hostname: false,
        }
    }

    /// What either scope asks for.
    pub open spec fn either(self, other: LinuxMetadataScope) -> LinuxMetadataScope {
        LinuxMetadataScope {
            process: self.process || other.process,
            user: self.user || other.user,
            interface: self.interface || other.interface,
            network: self.network || other.network,
            mac: self.mac || other.mac,
            hostname: self.hostname || other.hostname,
        }
    }

    /// Whether nothing is asked for.
    pub fn is_empty(self) -> (r: bool)
        ensures
            r == (self == LinuxMetadataScope::nothing()),
    {
        !self.process && !self.user && !self.interface && !self.network && !self.mac
            && !self.hostname
    }

    /// What either scope asks for.
    pub fn union(self, other: LinuxMetadataScope) -> (r: LinuxMetadataScope)
        ensures
            r == self.either(other),
    {
        LinuxMetadataScope {
            process: self.process || other.process,
            user: self.user || other.user,
            interface: self.interface || other.interface,
            network: self.network || other.network,
            mac: self.mac || other.mac,
            hostname: self.hostname || other.hostname,
        }
    }
}

/// The union of scopes is idempotent, commutative and associative, the empty
/// scope is neutral, and a union is empty only where both parts are.
pub proof fn scope_union_laws(a: LinuxMetadataScope, b: LinuxMetadataScope, c: LinuxMetadataScope)
    ensures
        a.either(a) == a,
        a.either(b) == b.either(a),
        a.either(b).either(c) == a.either(b.either(c)),
        a.either(LinuxMetadataScope::nothing()) == a,
        a.either(b) == LinuxMetadataScope::nothing() <==> a == LinuxMetadataScope::nothing() && b
            == LinuxMetadataScope::nothing(),
{
}


// ---- tables of the system ----

pub open spec fn is_hex(c: char) -> bool {
    '0' <= c <= '9' || 'a' <= c <= 'f' || 'A' <= c <= 'F'
}

/// The value of a hexadecimal digit.
pub open spec fn hex_digit(c: char) -> nat {
    if '0' <= c <= '9' {
        (c as nat - '0' as nat) as nat
    } else if 'a' <= c <= 'f' {
        (c as nat - 'a' as nat + 10) as nat
    } else {
        (c as nat - 'A' as nat + 10) as nat
    }
}

/// The number that hexadecimal digits stand for.
pub open spec fn hex_value(s: Seq<char>) -> nat
    decreases s.len(),
{
    if s.len() == 0 {
        0
    } else {
        hex_value(s.drop_last()) * 16 + hex_digit(s.last())
    }
}

/// One or more hexadecimal digits and nothing else.
pub open spec fn is_hex_digits(s: Seq<char>) -> bool {
    s.len() > 0 && forall|i: int| 0 <= i < s.len() ==> is_hex(#[trigger] s[i])
}

/// A text without a plus sign in front.
pub open spec fn unsigned(s: Seq<char>) -> Seq<char> {
    if s.len() > 0 && s[0] == '+' {
        s.skip(1)
    } else {
        s
    }
}

/// A 16-bit number in hexadecimal digits, with an optional plus sign.
pub open spec fn hex_port(s: Seq<char>) -> Option<nat> {
    if is_hex_digits(unsigned(s)) && hex_value(unsigned(s)) <= u16::MAX {
        Some(hex_value(unsigned(s)))
    } else {
        None
    }
}

proof fn lemma_hex_prefix(s: Seq<char>, n: int)
    requires
        0 <= n <= s.len(),
    ensures
        hex_value(s.take(n)) <= hex_value(s),
    decreases s.len() - n,
{
    if n < s.len() {
        lemma_hex_prefix(s, n + 1);
        assert(s.take(n + 1).drop_last() =~= s.take(n));
    } else {
        assert(s.take(n) =~= s);
    }
}

fn read_hex_port(s: &str) -> (r: Option<u16>)
    ensures
        match r {
            Some(n) => hex_port(s@) == Some(n as nat),
            None => hex_port(s@) is None,
        },
{
    let v = text::to_chars(s);
    let start: usize = if v.len() > 0 && v[0] == '+' {
        1
    } else {
        0
    };
    if start >= v.len() {
        return None;
    }
    let ghost digits = v@.skip(start as int);
    proof {
        assert(v@.skip(0) =~= v@);
        assert(digits.take(0) =~= Seq::<char>::empty());
    }
    let mut n: u32 = 0;
    let mut i: usize = start;
    while i < v.len()
        invariant
            start <= i <= v@.len(),
            start < v@.len(),
            digits == v@.skip(start as int),
            digits == unsigned(s@),
            n == hex_value(digits.take(i - start)),
            n <= u16::MAX,
            forall|j: int| 0 <= j < i - start ==> is_hex(#[trigger] digits[j]),
        decreases v@.len() - i,
    {
        let c = v[i];
        proof {
            assert(digits[i - start] == c);
            assert(digits.take(i - start + 1).drop_last() =~= digits.take(i - start));
        }
        proof {
            assert(is_hex(c) == is_hex(digits[i - start]));
        }
        let d: u32 = if '0' <= c && c <= '9' {
            c as u32 - 48
        } else if 'a' <= c && c <= 'f' {
            c as u32 - 87
        } else if 'A' <= c && c <= 'F' {
            c as u32 - 55
        } else {
            return None;
        };
        n = n * 16 + d;
        if n > 0xffff {
            proof {
                lemma_hex_prefix(digits, i - start + 1);
            }
            return None;
        }
        i = i + 1;
    }
    proof {
        assert(digits.take(i - start) =~= digits);
    }
    Some(n as u16)
}

/// The port behind the last colon of a socket address in hexadecimal digits.
pub open spec fn table_port(s: Seq<char>) -> Option<nat> {
    let pieces = text::split(s, ':');
    if pieces.len() >= 2 {
        hex_port(pieces.last())
    } else {
        None
    }
}

fn read_table_port(s: &str) -> (r: Option<u16>)
    ensures
        match r {
            Some(n) => table_port(s@) == Some(n as nat),
            None => table_port(s@) is None,
        },
{
    let pieces = text::split_text(s, ':');
    proof {
        assert(text::texts(pieces@).len() == pieces@.len());
    }
    if pieces.len() >= 2 {
        proof {
            assert(text::texts(pieces@).last() == pieces@.last()@);
        }
        read_hex_port(pieces[pieces.len() - 1].as_str())
    } else {
        None
    }
}

/// The word at a place in a line.
pub open spec fn word_at(line: Seq<char>, i: int) -> Option<Seq<char>> {
    let w = text::words(line);
    if 0 <= i < w.len() {
        Some(w[i])
    } else {
        None
    }
}

/// The port in a field of a line of the table of TCP sockets.
pub open spec fn field_port(line: Seq<char>, i: int) -> Option<nat> {
    match word_at(line, i) {
        Some(w) => table_port(w),
        None => None,
    }
}

/// The number in a field of a line.
pub open spec fn field_number(line: Seq<char>, i: int, max: nat) -> Option<nat> {
    match word_at(line, i) {
        Some(w) => text::number(w, max),
        None => None,
    }
}

/// The inode and the user of the socket in a line of the table of TCP sockets,
/// where its ports are the given ones.
pub open spec fn owner_in(line: Seq<char>, local: u16, remote: u16) -> Option<(nat, nat)> {
    if field_port(line, 1) != Some(local as nat) || field_port(line, 2) != Some(remote as nat) {
        None
    } else {
        match (field_number(line, 7, u32::MAX as nat), field_number(line, 9, u64::MAX as nat)) {
            (Some(uid), Some(inode)) => Some((inode, uid)),
            _ => None,
        }
    }
}

/// The first socket with the given ports among lines of the table.
pub open spec fn first_owner(ls: Seq<Seq<char>>, local: u16, remote: u16) -> Option<(nat, nat)>
    decreases ls.len(),
{
    if ls.len() == 0 {
        None
    } else {
        match owner_in(ls[0], local, remote) {
            Some(found) => Some(found),
            None => first_owner(ls.skip(1), local, remote),
        }
    }
}

/// The lines of a table behind its heading.
pub open spec fn body(table: Seq<char>) -> Seq<Seq<char>> {
    let ls = text::lines(table);
    if ls.len() > 0 {
        ls.skip(1)
    } else {
        ls
    }
}

/// The first socket with the given ports in the tables, each behind its heading.
pub open spec fn owner_in_tables(tables: Seq<Seq<char>>, local: u16, remote: u16) -> Option<
    (nat, nat),
>
    decreases tables.len(),
{
    if tables.len() == 0 {
        None
    } else {
        match first_owner(body(tables[0]), local, remote) {
            Some(found) => Some(found),
            None => owner_in_tables(tables.skip(1), local, remote),
        }
    }
}

pub open spec fn owner_view(r: Option<(u64, u32)>) -> Option<(nat, nat)> {
    match r {
        Some((inode, uid)) => Some((inode as nat, uid as nat)),
        None => None,
    }
}

/// A word of a list of words.
fn word(words: &Vec<String>, i: usize) -> (r: Option<&str>)
    ensures
        text::opt_str(r) == (if i < text::texts(words@).len() {
            Some(text::texts(words@)[i as int])
        } else {
            None
        }),
{
    proof {
        assert(text::texts(words@).len() == words@.len());
    }
    if i < words.len() {
        proof {
            assert(text::texts(words@)[i as int] == words@[i as int]@);
        }
        Some(words[i].as_str())
    } else {
        None
    }
}

fn read_owner(line: &str, local: u16, remote: u16) -> (r: Option<(u64, u32)>)
    ensures
        owner_view(r) == owner_in(line@, local, remote),
{
    let words = text::split_words(line);
    let local_port: u16 = match word(&words, 1) {
        Some(w) => match read_table_port(w) {
            Some(p) => p,
            None => {
                return None;
            },
        },
        None => {
            return None;
        },
    };
    let remote_port: u16 = match word(&words, 2) {
        Some(w) => match read_table_port(w) {
            Some(p) => p,
            None => {
                return None;
            },
        },
        None => {
            return None;
        },
    };
    if local_port != local || remote_port != remote {
        return None;
    }
    let uid: u64 = match word(&words, 7) {
        Some(w) => match text::parse_number(w, 0xffff_ffff) {
            Some(n) => n,
            None => {
                return None;
            },
        },
        None => {
            return None;
        },
    };
    let inode: u64 = match word(&words, 9) {
        Some(w) => match text::parse_number(w, 0xffff_ffff_ffff_ffff) {
            Some(n) => n,
            None => {
                return None;
            },
        },
        None => {
            return None;
        },
    };
    Some((inode, uid as u32))
}

fn owner_in_table(table: &str, local: u16, remote: u16) -> (r: Option<(u64, u32)>)
    ensures
        owner_view(r) == first_owner(body(table@), local, remote),
{
    let ls = text::split_lines(table);
    let ghost all = body(table@);
    let mut i: usize = 1;
    proof {
        assert(ls@.len() == text::texts(ls@).len());
        assert(all.skip(0) =~= all);
    }
    if ls.len() == 0 {
        return None;
    }
    while i < ls.len()
        invariant
            1 <= i <= ls@.len(),
            all == text::texts(ls@).skip(1),
            all == body(table@),
            first_owner(all, local, remote) == first_owner(all.skip(i - 1), local, remote),
        decreases ls@.len() - i,
    {
        proof {
            assert(all.skip(i - 1)[0] == ls@[i as int]@);
            assert(all.skip(i - 1).skip(1) =~= all.skip(i as int));
        }
        match read_owner(ls[i].as_str(), local, remote) {
            Some(found) => {
                return Some(found);
            },
            None => {},
        }
        i = i + 1;
    }
    None
}

/// The inode and the user of the socket of a connection: the local port is the
/// peer's, the remote port the proxy's. `tables` holds the system's tables of
/// TCP sockets, as far as they could be read.
pub fn find_socket_owner(tables: &Vec<String>, peer_port: u16, proxy_port: u16) -> (r: Option<
    (u64, u32),
>)
    ensures
        owner_view(r) == owner_in_tables(text::texts(tables@), peer_port, proxy_port),
{
    let ghost all = text::texts(tables@);
    let mut i: usize = 0;
    proof {
        assert(all.skip(0) =~= all);
    }
    while i < tables.len()
        invariant
            i <= tables@.len(),
            all == text::texts(tables@),
            owner_in_tables(all, peer_port, proxy_port) == owner_in_tables(
                all.skip(i as int),
                peer_port,
                proxy_port,
            ),
        decreases tables@.len() - i,
    {
        proof {
            assert(all.skip(i as int)[0] == tables@[i as int]@);
            assert(all.skip(i as int).skip(1) =~= all.skip(i + 1));
        }
        match owner_in_table(tables[i].as_str(), peer_port, proxy_port) {
            Some(found) => {
                return Some(found);
            },
            None => {},
        }
        i = i + 1;
    }
    None
}

/// An entry of the directory of processes: its name and where its descriptors
/// point to, if that could be read.
#[derive(Debug)]
pub struct ProcessEntry {
    pub name: String,
    pub links: Option<Vec<String>>,
}

/// What a descriptor of the socket with the inode points to.
pub open spec fn socket_link(inode: u64) -> Seq<char> {
    "socket:["@ + text::decimal(inode as nat) + "]"@
}

/// The process of an entry that holds the socket.
pub open spec fn holder_in(entry: ProcessEntry, inode: u64) -> Option<nat> {
    match (text::number(entry.name@, u32::MAX as nat), entry.links) {
        (Some(pid), Some(links)) if text::texts(links@).contains(socket_link(inode)) => Some(pid),
        _ => None,
    }
}

/// The first process that holds the socket.
pub open spec fn first_holder(entries: Seq<ProcessEntry>, inode: u64) -> Option<nat>
    decreases entries.len(),
{
    if entries.len() == 0 {
        None
    } else {
        match holder_in(entries[0], inode) {
            Some(pid) => Some(pid),
            None => first_holder(entries.skip(1), inode),
        }
    }
}

/// The process that holds the socket with an inode.
pub fn find_inode_process(entries: &Vec<ProcessEntry>, inode: u64) -> (r: Option<u32>)
    ensures
        match r {
            Some(pid) => first_holder(entries@, inode) == Some(pid as nat),
            None => first_holder(entries@, inode) is None,
        },
{
    let mut target = text::copy_text("socket:[");
    target.append(text::to_decimal(inode).as_str());
    target.append("]");
    let mut i: usize = 0;
    proof {
        assert(entries@.skip(0) =~= entries@);
    }
    while i < entries.len()
        invariant
            i <= entries@.len(),
            target@ == socket_link(inode),
            first_holder(entries@, inode) == first_holder(entries@.skip(i as int), inode),
        decreases entries@.len() - i,
    {
        proof {
            assert(entries@.skip(i as int)[0] == entries@[i as int]);
            assert(entries@.skip(i as int).skip(1) =~= entries@.skip(i + 1));
        }
        match (text::parse_number(entries[i].name.as_str(), 0xffff_ffff), &entries[i].links) {
            (Some(pid), Some(links)) => {
                if listed(links, target.as_str()) {
                    return Some(pid as u32);
                }
            },
            _ => {},
        }
        i = i + 1;
    }
    None
}

/// The name in a line of the table of users, where its number is the given one.
pub open spec fn user_in(line: Seq<char>, uid: u32) -> Option<Seq<char>> {
    let fields = text::split(line, ':');
    if fields.len() > 2 && text::number(fields[2], u32::MAX as nat) == Some(uid as nat) {
        Some(fields[0])
    } else {
        None
    }
}

/// The name of the first user with the given number.
pub open spec fn first_user(ls: Seq<Seq<char>>, uid: u32) -> Option<Seq<char>>
    decreases ls.len(),
{
    if ls.len() == 0 {
        None
    } else {
        match user_in(ls[0], uid) {
            Some(name) => Some(name),
            None => first_user(ls.skip(1), uid),
        }
    }
}

/// The name of a user, from the system's table of users.
pub fn user_name(passwd: &str, uid: u32) -> (r: Option<String>)
    ensures
        text::opt_text(r) == first_user(text::lines(passwd@), uid),
{
    let ls = text::split_lines(passwd);
    let ghost all = text::texts(ls@);
    let mut i: usize = 0;
    proof {
        assert(all.skip(0) =~= all);
    }
    while i < ls.len()
        invariant
            i <= ls@.len(),
            all == text::texts(ls@),
            all == text::lines(passwd@),
            first_user(all, uid) == first_user(all.skip(i as int), uid),
        decreases ls@.len() - i,
    {
        proof {
            assert(all.skip(i as int)[0] == ls@[i as int]@);
            assert(all.skip(i as int).skip(1) =~= all.skip(i + 1));
        }
        let fields = text::split_text(ls[i].as_str(), ':');
        match word(&fields, 2) {
            Some(w) => {
                match text::parse_number(w, 0xffff_ffff) {
                    Some(n) => {
                        if n == uid as u64 {
                            proof {
                                assert(text::texts(fields@)[0] == fields@[0]@);
                            }
                            return Some(text::copy_text(fields[0].as_str()));
                        }
                    },
                    None => {},
                }
            },
            None => {},
        }
        i = i + 1;
    }
    None
}

/// The metric and the interface of a default route in a line of the table of
/// routes.
pub open spec fn default_route_in(line: Seq<char>) -> Option<(nat, Seq<char>)> {
    if word_at(line, 1) != Some("00000000"@) {
        None
    } else {
        match field_number(line, 6, u32::MAX as nat) {
            Some(metric) => Some((metric, text::words(line)[0])),
            None => None,
        }
    }
}

/// The default route with the least metric, the first of those.
pub open spec fn best_route(ls: Seq<Seq<char>>) -> Option<(nat, Seq<char>)>
    decreases ls.len(),
{
    if ls.len() == 0 {
        None
    } else {
        let best = best_route(ls.drop_last());
        match (best, default_route_in(ls.last())) {
            (best, None) => best,
            (None, Some(route)) => Some(route),
            (Some(best), Some(route)) => if route.0 < best.0 {
                Some(route)
            } else {
                Some(best)
            },
        }
    }
}

/// The interface of the default route, from the system's table of routes.
pub fn default_interface(table: &str) -> (r: Option<String>)
    ensures
        text::opt_text(r) == (match best_route(body(table@)) {
            Some((_, name)) => Some(name),
            None => None,
        }),
{
    let ls = text::split_lines(table);
    let ghost all = body(table@);
    let mut best: Option<(u64, String)> = None;
    let mut i: usize = 1;
    proof {
        assert(ls@.len() == text::texts(ls@).len());
        assert(all.take(0) =~= Seq::<Seq<char>>::empty());
    }
    if ls.len() == 0 {
        return None;
    }
    while i < ls.len()
        invariant
            1 <= i <= ls@.len(),
            all == text::texts(ls@).skip(1),
            all == body(table@),
            match best {
                Some((metric, name)) => best_route(all.take(i - 1)) == Some((metric as nat, name@)),
                None => best_route(all.take(i - 1)) is None,
            },
        decreases ls@.len() - i,
    {
        proof {
            assert(all.take(i as int).last() == ls@[i as int]@);
            assert(all.take(i as int).drop_last() =~= all.take(i - 1));
        }
        let words = text::split_words(ls[i].as_str());
        let is_default = match word(&words, 1) {
            Some(w) => text::same_text(w, "00000000"),
            None => false,
        };
        if is_default {
            match word(&words, 6) {
                Some(w) => {
                    match text::parse_number(w, 0xffff_ffff) {
                        Some(metric) => {
                            let better = match &best {
                                Some((least, _)) => metric < *least,
                                None => true,
                            };
                            if better {
                                proof {
                                    assert(text::texts(words@)[0] == words@[0]@);
                                }
                                best = Some((metric, text::copy_text(words[0].as_str())));
                            }
                        },
                        None => {},
                    }
                },
                None => {},
            }
        }
        i = i + 1;
    }
    proof {
        assert(all.take(i - 1) =~= all);
    }
    match best {
        Some((_, name)) => Some(name),
        None => None,
    }
}

/// The kind of network that an interface stands for.
pub open spec fn interface_kind(interface: Seq<char>, wireless: bool) -> Seq<char> {
    if interface == "lo"@ {
        "loopback"@
    } else if wireless {
        "wifi"@
    } else if text::starts_with(interface, "wwan"@) || text::starts_with(interface, "rmnet"@) {
        "cellular"@
    } else {
        "ethernet"@
    }
}

/// The kind of network behind an interface; `wireless` says whether the system
/// lists it as a wireless one.
pub fn interface_type(interface: &str, wireless: bool) -> (r: String)
    ensures
        r@ == interface_kind(interface@, wireless),
{
    if text::same_text(interface, "lo") {
        text::copy_text("loopback")
    } else if wireless {
        text::copy_text("wifi")
    } else if text::text_starts_with(interface, "wwan") || text::text_starts_with(
        interface,
        "rmnet",
    ) {
        text::copy_text("cellular")
    } else {
        text::copy_text("ethernet")
    }
}

/// Addresses under names, as plain sequences.
pub open spec fn named_view(list: Seq<NamedAddresses>) -> Seq<(Seq<char>, Seq<IpAddr>)> {
    list.map_values(|n: NamedAddresses| (n.name@, n.addresses@))
}

/// The list with more addresses under a name, which is added where it is new.
pub open spec fn extended(
    list: Seq<(Seq<char>, Seq<IpAddr>)>,
    name: Seq<char>,
    more: Seq<IpAddr>,
) -> Seq<(Seq<char>, Seq<IpAddr>)>
    decreases list.len(),
{
    if list.len() == 0 {
        seq![(name, more)]
    } else if list[0].0 == name {
        list.update(0, (name, list[0].1 + more))
    } else {
        seq![list[0]] + extended(list.skip(1), name, more)
    }
}

/// The addresses under a name.
pub open spec fn under_name(list: Seq<(Seq<char>, Seq<IpAddr>)>, name: Seq<char>) -> Seq<IpAddr>
    decreases list.len(),
{
    if list.len() == 0 {
        Seq::empty()
    } else if list[0].0 == name {
        list[0].1
    } else {
        under_name(list.skip(1), name)
    }
}

proof fn lemma_extended_at(
    list: Seq<(Seq<char>, Seq<IpAddr>)>,
    name: Seq<char>,
    more: Seq<IpAddr>,
    n: int,
)
    requires
        0 <= n <= list.len(),
        forall|j: int| 0 <= j < n ==> (#[trigger] list[j]).0 != name,
        n < list.len() ==> list[n].0 == name,
    ensures
        extended(list, name, more) == (if n < list.len() {
            list.update(n, (name, list[n].1 + more))
        } else {
            list.push((name, more))
        }),
    decreases list.len(),
{
    if list.len() == 0 {
        assert(list.push((name, more)) =~= seq![(name, more)]);
    } else if n > 0 {
        let rest = list.skip(1);
        assert forall|j: int| 0 <= j < n - 1 implies (#[trigger] rest[j]).0 != name by {
            assert(rest[j] == list[j + 1]);
        }
        lemma_extended_at(rest, name, more, n - 1);
        if n < list.len() {
            assert(seq![list[0]] + rest.update(n - 1, (name, rest[n - 1].1 + more)) =~= list.update(
                n,
                (name, list[n].1 + more),
            ));
        } else {
            assert(seq![list[0]] + rest.push((name, more)) =~= list.push((name, more)));
        }
    }
}

/// Adding under a name leaves the other names as they are, and the name holds
/// what it held and what was added behind it.
pub proof fn extending_adds_under_name(
    list: Seq<(Seq<char>, Seq<IpAddr>)>,
    name: Seq<char>,
    more: Seq<IpAddr>,
    other: Seq<char>,
)
    ensures
        under_name(extended(list, name, more), name) == under_name(list, name) + more,
        other != name ==> under_name(extended(list, name, more), other) == under_name(list, other),
    decreases list.len(),
{
    let out = extended(list, name, more);
    if list.len() == 0 {
        assert(Seq::<IpAddr>::empty() + more =~= more);
        assert(out.skip(1) =~= Seq::<(Seq<char>, Seq<IpAddr>)>::empty());
        assert(under_name(out.skip(1), other) =~= Seq::<IpAddr>::empty());
    } else if list[0].0 == name {
        assert(out.skip(1) =~= list.skip(1));
    } else {
        extending_adds_under_name(list.skip(1), name, more, other);
        assert(out.skip(1) =~= extended(list.skip(1), name, more));
    }
}

fn find_name(list: &Vec<NamedAddresses>, name: &str) -> (n: usize)
    ensures
        n <= list@.len(),
        forall|j: int| 0 <= j < n ==> (#[trigger] list@[j]).name@ != name@,
        n < list@.len() ==> list@[n as int].name@ == name@,
{
    let mut i: usize = 0;
    while i < list.len()
        invariant
            i <= list@.len(),
            forall|j: int| 0 <= j < i ==> (#[trigger] list@[j]).name@ != name@,
        decreases list@.len() - i,
    {
        if text::same_text(list[i].name.as_str(), name) {
            return i;
        }
        i = i + 1;
    }
    i
}

fn copy_addresses(list: &Vec<IpAddr>) -> (r: Vec<IpAddr>)
    ensures
        r@ == list@,
{
    let mut r: Vec<IpAddr> = Vec::new();
    let mut i: usize = 0;
    while i < list.len()
        invariant
            i <= list@.len(),
            r@ == list@.take(i as int),
        decreases list@.len() - i,
    {
        proof {
            assert(list@.take(i + 1) =~= list@.take(i as int).push(list@[i as int]));
        }
        r.push(list[i]);
        i = i + 1;
    }
    proof {
        assert(list@.take(i as int) =~= list@);
    }
    r
}

fn add_addresses(list: &mut Vec<NamedAddresses>, name: &str, more: &Vec<IpAddr>)
    ensures
        named_view(final(list)@) == extended(named_view(old(list)@), name@, more@),
{
    let ghost before = named_view(list@);
    let n = find_name(list, name);
    proof {
        assert forall|j: int| 0 <= j < n implies (#[trigger] before[j]).0 != name@ by {
            assert(before[j].0 == list@[j].name@);
        }
        lemma_extended_at(before, name@, more@, n as int);
    }
    if n < list.len() {
        let mut all = copy_addresses(&list[n].addresses);
        let mut i: usize = 0;
        let ghost held = all@;
        while i < more.len()
            invariant
                i <= more@.len(),
                all@ == held + more@.take(i as int),
            decreases more@.len() - i,
        {
            proof {
                assert(more@.take(i + 1) =~= more@.take(i as int).push(more@[i as int]));
                assert(held + more@.take(i + 1) =~= (held + more@.take(i as int)).push(
                    more@[i as int],
                ));
            }
            all.push(more[i]);
            i = i + 1;
        }
        proof {
            assert(more@.take(i as int) =~= more@);
        }
        let entry = NamedAddresses { name: text::copy_text(name), addresses: all };
        list.set(n, entry);
        proof {
            assert(named_view(list@) =~= before.update(n as int, (name@, before[n as int].1 + more@)));
        }
    } else {
        let entry = NamedAddresses { name: text::copy_text(name), addresses: copy_addresses(more) };
        list.push(entry);
        proof {
            assert(named_view(list@) =~= before.push((name@, more@)));
        }
    }
}

/// The address in front of the slash of the first word that has one.
pub open spec fn first_prefix(words: Seq<Seq<char>>) -> Option<IpAddr>
    decreases words.len(),
{
    if words.len() == 0 {
        None
    } else {
        let found = match text::split_once(words[0], '/') {
            Some((address, _)) => net::ip_text(address),
            None => None,
        };
        match found {
            Some(ip) => Some(ip),
            None => first_prefix(words.skip(1)),
        }
    }
}

/// The interface, in lower case, and the address in a line of a list of
/// addresses.
pub open spec fn address_in(line: Seq<char>) -> Option<(Seq<char>, IpAddr)> {
    match (word_at(line, 1), first_prefix(text::words(line))) {
        (Some(name), Some(ip)) => Some((text::lower(text::trim_end(name, ':')), ip)),
        _ => None,
    }
}

/// The addresses of all interfaces in lines of a list of addresses.
pub open spec fn addresses_in(ls: Seq<Seq<char>>) -> Seq<(Seq<char>, Seq<IpAddr>)>
    decreases ls.len(),
{
    if ls.len() == 0 {
        Seq::empty()
    } else {
        match address_in(ls.last()) {
            Some((name, ip)) => extended(addresses_in(ls.drop_last()), name, seq![ip]),
            None => addresses_in(ls.drop_last()),
        }
    }
}

fn read_prefix(words: &Vec<String>) -> (r: Option<IpAddr>)
    ensures
        r == first_prefix(text::texts(words@)),
{
    let ghost all = text::texts(words@);
    let mut i: usize = 0;
    proof {
        assert(all.skip(0) =~= all);
    }
    while i < words.len()
        invariant
            i <= words@.len(),
            all == text::texts(words@),
            first_prefix(all) == first_prefix(all.skip(i as int)),
        decreases words@.len() - i,
    {
        proof {
            assert(all.skip(i as int)[0] == words@[i as int]@);
            assert(all.skip(i as int).skip(1) =~= all.skip(i + 1));
        }
        match text::split_at_char(words[i].as_str(), '/') {
            Some((address, _)) => {
                match net::parse_ip(address.as_str()) {
                    Some(ip) => {
                        return Some(ip);
                    },
                    None => {},
                }
            },
            None => {},
        }
        i = i + 1;
    }
    None
}

/// The addresses of all interfaces, from the output of a command that lists one
/// address in a line: the interface is the second word, the address the first
/// one with a prefix length.
pub fn all_interface_addresses(output: &str) -> (r: Vec<NamedAddresses>)
    ensures
        named_view(r@) == addresses_in(text::lines(output@)),
{
    let ls = text::split_lines(output);
    let ghost all = text::texts(ls@);
    let mut r: Vec<NamedAddresses> = Vec::new();
    let mut i: usize = 0;
    proof {
        assert(all.take(0) =~= Seq::<Seq<char>>::empty());
        assert(named_view(r@) =~= Seq::<(Seq<char>, Seq<IpAddr>)>::empty());
    }
    while i < ls.len()
        invariant
            i <= ls@.len(),
            all == text::texts(ls@),
            named_view(r@) == addresses_in(all.take(i as int)),
        decreases ls@.len() - i,
    {
        proof {
            assert(all.take(i + 1).last() == ls@[i as int]@);
            assert(all.take(i + 1).drop_last() =~= all.take(i as int));
        }
        let words = text::split_words(ls[i].as_str());
        match (word(&words, 1), read_prefix(&words)) {
            (Some(w), Some(ip)) => {
                let trimmed = text::trim_end_char(w, ':');
                let name = text::to_lower(trimmed.as_str());
                let mut one: Vec<IpAddr> = Vec::new();
                one.push(ip);
                proof {
                    assert(one@ =~= seq![ip]);
                }
                add_addresses(&mut r, name.as_str(), &one);
            },
            _ => {},
        }
        i = i + 1;
    }
    proof {
        assert(all.take(i as int) =~= all);
    }
    r
}

proof fn lemma_under_name(list: Seq<(Seq<char>, Seq<IpAddr>)>, name: Seq<char>, n: int)
    requires
        0 <= n <= list.len(),
        forall|j: int| 0 <= j < n ==> (#[trigger] list[j]).0 != name,
        n < list.len() ==> list[n].0 == name,
    ensures
        under_name(list, name) == (if n < list.len() {
            list[n].1
        } else {
            Seq::empty()
        }),
    decreases list.len(),
{
    if n > 0 {
        let rest = list.skip(1);
        assert forall|j: int| 0 <= j < n - 1 implies (#[trigger] rest[j]).0 != name by {
            assert(rest[j] == list[j + 1]);
        }
        lemma_under_name(rest, name, n - 1);
    }
}

/// The addresses of one interface.
pub fn interface_addresses(list: &Vec<NamedAddresses>, interface: &str) -> (r: Vec<IpAddr>)
    ensures
        r@ == under_name(named_view(list@), text::lower(interface@)),
{
    let name = text::to_lower(interface);
    let n = find_name(list, name.as_str());
    proof {
        let view = named_view(list@);
        assert forall|j: int| 0 <= j < n implies (#[trigger] view[j]).0 != name@ by {
            assert(view[j].0 == list@[j].name@);
        }
        lemma_under_name(view, name@, n as int);
    }
    if n < list.len() {
        copy_addresses(&list[n].addresses)
    } else {
        Vec::new()
    }
}

/// The named interface is among the wireless ones.
pub open spec fn is_wireless(wireless: Seq<Seq<char>>, interface: Seq<char>) -> bool {
    wireless.contains(interface)
}

fn listed(names: &Vec<String>, name: &str) -> (r: bool)
    ensures
        r == text::texts(names@).contains(name@),
{
    let ghost all = text::texts(names@);
    let mut i: usize = 0;
    while i < names.len()
        invariant
            i <= names@.len(),
            all == text::texts(names@),
            forall|j: int| 0 <= j < i ==> all[j] != name@,
        decreases names@.len() - i,
    {
        if text::same_text(names[i].as_str(), name) {
            proof {
                assert(all[i as int] == name@);
            }
            return true;
        }
        i = i + 1;
    }
    false
}

/// The addresses of interfaces by the kind of network behind them.
pub open spec fn by_kind(list: Seq<(Seq<char>, Seq<IpAddr>)>, wireless: Seq<Seq<char>>) -> Seq<
    (Seq<char>, Seq<IpAddr>),
>
    decreases list.len(),
{
    if list.len() == 0 {
        Seq::empty()
    } else {
        extended(
            by_kind(list.drop_last(), wireless),
            interface_kind(list.last().0, is_wireless(wireless, list.last().0)),
            list.last().1,
        )
    }
}

/// Gathers the addresses of interfaces under the kind of network behind them.
pub fn network_addresses(list: &Vec<NamedAddresses>, wireless: &Vec<String>) -> (r: Vec<
    NamedAddresses,
>)
    ensures
        named_view(r@) == by_kind(named_view(list@), text::texts(wireless@)),
{
    let ghost all = named_view(list@);
    let mut r: Vec<NamedAddresses> = Vec::new();
    let mut i: usize = 0;
    proof {
        assert(all.take(0) =~= Seq::<(Seq<char>, Seq<IpAddr>)>::empty());
        assert(named_view(r@) =~= Seq::<(Seq<char>, Seq<IpAddr>)>::empty());
    }
    while i < list.len()
        invariant
            i <= list@.len(),
            all == named_view(list@),
            named_view(r@) == by_kind(all.take(i as int), text::texts(wireless@)),
        decreases list@.len() - i,
    {
        proof {
            assert(all.take(i + 1).last() == (list@[i as int].name@, list@[i as int].addresses@));
            assert(all.take(i + 1).drop_last() =~= all.take(i as int));
        }
        let name = list[i].name.as_str();
        let kind = interface_type(name, listed(wireless, name));
        add_addresses(&mut r, kind.as_str(), &list[i].addresses);
        i = i + 1;
    }
    proof {
        assert(all.take(i as int) =~= all);
    }
    r
}

/// A field, in lower case, of a line of the table of neighbours, where its first
/// word is the given address.
pub open spec fn neighbour_in(line: Seq<char>, ip: IpAddr, field: int) -> Option<Seq<char>> {
    match word_at(line, 0) {
        Some(w) if net::ip_text(w) == Some(ip) => match word_at(line, field) {
            Some(value) => Some(text::lower(value)),
            None => None,
        },
        _ => None,
    }
}

/// The field in the first line that has it for the address.
pub open spec fn first_neighbour(ls: Seq<Seq<char>>, ip: IpAddr, field: int) -> Option<Seq<char>>
    decreases ls.len(),
{
    if ls.len() == 0 {
        None
    } else {
        match neighbour_in(ls[0], ip, field) {
            Some(value) => Some(value),
            None => first_neighbour(ls.skip(1), ip, field),
        }
    }
}

/// Whether the first word of a line is the given address.
fn is_line_of(words: &Vec<String>, ip: IpAddr) -> (r: bool)
    ensures
        r == (text::texts(words@).len() > 0 && net::ip_text(text::texts(words@)[0]) == Some(ip)),
{
    match word(words, 0) {
        Some(w) => match net::parse_ip(w) {
            Some(found) => found == ip,
            None => false,
        },
        None => false,
    }
}

/// A field of an address in the system's table of neighbours.
pub fn arp_value(table: &str, ip: IpAddr, field: usize) -> (r: Option<String>)
    ensures
        text::opt_text(r) == first_neighbour(body(table@), ip, field as int),
{
    let ls = text::split_lines(table);
    let ghost all = body(table@);
    let mut i: usize = 1;
    proof {
        assert(ls@.len() == text::texts(ls@).len());
        assert(all.skip(0) =~= all);
    }
    if ls.len() == 0 {
        return None;
    }
    while i < ls.len()
        invariant
            1 <= i <= ls@.len(),
            all == text::texts(ls@).skip(1),
            all == body(table@),
            first_neighbour(all, ip, field as int) == first_neighbour(
                all.skip(i - 1),
                ip,
                field as int,
            ),
        decreases ls@.len() - i,
    {
        proof {
            assert(all.skip(i - 1)[0] == ls@[i as int]@);
            assert(all.skip(i - 1).skip(1) =~= all.skip(i as int));
        }
        let words = text::split_words(ls[i].as_str());
        if is_line_of(&words, ip) {
            match word(&words, field) {
                Some(value) => {
                    return Some(text::to_lower(value));
                },
                None => {},
            }
        }
        i = i + 1;
    }
    None
}

/// The first name of the address in a line of the table of hosts; a line whose
/// first mark is `#` is none.
pub open spec fn host_in(line: Seq<char>, ip: IpAddr) -> Option<Seq<char>> {
    if text::starts_with(text::skip_space(line), seq!['#']) {
        None
    } else {
        match word_at(line, 0) {
            Some(w) if net::ip_text(w) == Some(ip) => word_at(line, 1),
            _ => None,
        }
    }
}

/// The first name that the lines give the address.
pub open spec fn first_host(ls: Seq<Seq<char>>, ip: IpAddr) -> Option<Seq<char>>
    decreases ls.len(),
{
    if ls.len() == 0 {
        None
    } else {
        match host_in(ls[0], ip) {
            Some(name) => Some(name),
            None => first_host(ls.skip(1), ip),
        }
    }
}

/// A line is a comment where its first word starts with the mark.
proof fn lemma_comment(line: Seq<char>)
    ensures
        text::starts_with(text::skip_space(line), seq!['#']) == (text::words(line).len() > 0
            && text::starts_with(text::words(line)[0], seq!['#'])),
    decreases line.len(),
{
    if line.len() > 0 {
        if text::is_space(line[0]) {
            lemma_comment(line.skip(1));
        } else {
            let n = text::word_len(line) as int;
            assert(0 < n <= line.len()) by {
                lemma_word_bounds(line);
            }
            let w = line.take(n);
            assert(text::words(line)[0] == w);
            assert(text::skip_space(line) == line);
            assert(line.take(1) =~= w.take(1));
        }
    }
}

proof fn lemma_word_bounds(line: Seq<char>)
    ensures
        text::word_len(line) <= line.len(),
    decreases line.len(),
{
    if line.len() > 0 && !text::is_space(line[0]) {
        lemma_word_bounds(line.skip(1));
    }
}

/// The name of an address in the system's table of hosts.
pub fn hosts_name(table: &str, ip: IpAddr) -> (r: Option<String>)
    ensures
        text::opt_text(r) == first_host(text::lines(table@), ip),
{
    let ls = text::split_lines(table);
    let ghost all = text::texts(ls@);
    let mut i: usize = 0;
    proof {
        assert(all.skip(0) =~= all);
    }
    while i < ls.len()
        invariant
            i <= ls@.len(),
            all == text::texts(ls@),
            all == text::lines(table@),
            first_host(all, ip) == first_host(all.skip(i as int), ip),
        decreases ls@.len() - i,
    {
        proof {
            assert(all.skip(i as int)[0] == ls@[i as int]@);
            assert(all.skip(i as int).skip(1) =~= all.skip(i + 1));
            lemma_comment(ls@[i as int]@);
            reveal_strlit("#");
            assert("#"@ =~= seq!['#']);
        }
        let words = text::split_words(ls[i].as_str());
        let comment = match word(&words, 0) {
            Some(w) => text::text_starts_with(w, "#"),
            None => false,
        };
        if !comment && is_line_of(&words, ip) {
            match word(&words, 1) {
                Some(name) => {
                    return Some(text::copy_text(name));
                },
                None => {},
            }
        }
        i = i + 1;
    }
    None
}

// ---- what is known of a connection ----

/// Facts about the process behind a connection, the host and its networks.
#[derive(Debug)]
pub struct LinuxRouteMetadata {
    pub process_name: Option<String>,
    pub process_path: Option<String>,
    pub user: Option<String>,
    pub user_id: Option<u32>,
    pub network_type: Option<String>,
    pub network_is_expensive: bool,
    pub network_is_constrained: bool,
    pub wifi_ssid: Option<String>,
    pub wifi_bssid: Option<String>,
    pub interface_addresses: Vec<NamedAddresses>,
    pub network_interface_addresses: Vec<NamedAddresses>,
    pub source_mac_address: Option<String>,
    pub source_hostname: Option<String>,
    pub default_interface_addresses: Vec<IpAddr>,
}

impl LinuxRouteMetadata {
    /// Nothing is known.
    pub open spec fn blank(self) -> bool {
        &&& self.process_name is None
        &&& self.process_path is None
        &&& self.user is None
        &&& self.user_id is None
        &&& self.network_type is None
        &&& !self.network_is_expensive
        &&& !self.network_is_constrained
        &&& self.wifi_ssid is None
        &&& self.wifi_bssid is None
        &&& self.interface_addresses@.len() == 0
        &&& self.network_interface_addresses@.len() == 0
        &&& self.source_mac_address is None
        &&& self.source_hostname is None
        &&& self.default_interface_addresses@.len() == 0
    }
}

impl Default for LinuxRouteMetadata {
    fn default() -> (r: LinuxRouteMetadata)
        ensures
            r.blank(),
    {
        LinuxRouteMetadata {
            process_name: None,
            process_path: None,
            user: None,
            user_id: None,
            network_type: None,
            network_is_expensive: false,
            network_is_constrained: false,
            wifi_ssid: None,
            wifi_bssid: None,
            interface_addresses: Vec::new(),
            network_interface_addresses: Vec::new(),
            source_mac_address: None,
            source_hostname: None,
            default_interface_addresses: Vec::new(),
        }
    }
}

/// What was read of the host: contents of files and outputs of commands, as far
/// as they could be had.
#[derive(Debug)]
pub struct HostFacts {
    /// The list of addresses of all interfaces.
    pub addresses: Option<String>,
    /// The interfaces that the system lists as wireless.
    pub wireless: Vec<String>,
    /// The inode and the user of the socket of the connection.
    pub owner: Option<(u64, u32)>,
    /// The table of users.
    pub users: Option<String>,
    /// The name of the process that holds the socket.
    pub process_name: Option<String>,
    /// The path of the process that holds the socket.
    pub process_path: Option<String>,
    /// The interface of the default route.
    pub default_interface: Option<String>,
    /// Whether the default interface is metered, in the words of the command.
    pub metered: Option<String>,
    /// The name of the wireless network.
    pub ssid: Option<String>,
    /// The state of the wireless link.
    pub link: Option<String>,
    /// The table of neighbours.
    pub neighbours: Option<String>,
    /// The table of hosts.
    pub hosts: Option<String>,
}

/// A text without white space around it, unless nothing is left.
pub open spec fn trimmed_or_none(s: Option<Seq<char>>) -> Option<Seq<char>> {
    match s {
        Some(v) if text::trim_space(v).len() > 0 => Some(text::trim_space(v)),
        _ => None,
    }
}

/// The one line that a command printed, or what a file of one line holds.
pub fn command_line(output: &Option<String>) -> (r: Option<String>)
    ensures
        text::opt_text(r) == trimmed_or_none(text::opt_text(*output)),
{
    match output {
        Some(v) => {
            let trimmed = text::trim_text(v.as_str());
            let chars = text::to_chars(trimmed.as_str());
            if chars.len() > 0 {
                Some(trimmed)
            } else {
                None
            }
        },
        None => None,
    }
}

/// The station in a line of the state of a wireless link, in lower case.
pub open spec fn station_in(line: Seq<char>) -> Option<Seq<char>> {
    let s = text::trim_space(line);
    if text::starts_with(s, "Connected to "@) {
        match word_at(s.skip("Connected to "@.len() as int), 0) {
            Some(w) => Some(text::lower(w)),
            None => None,
        }
    } else {
        None
    }
}

/// The first station that the lines name.
pub open spec fn first_station(ls: Seq<Seq<char>>) -> Option<Seq<char>>
    decreases ls.len(),
{
    if ls.len() == 0 {
        None
    } else {
        match station_in(ls[0]) {
            Some(value) => Some(value),
            None => first_station(ls.skip(1)),
        }
    }
}

fn read_station(line: &str) -> (r: Option<String>)
    ensures
        text::opt_text(r) == station_in(line@),
{
    let trimmed = text::trim_text(line);
    if text::text_starts_with(trimmed.as_str(), "Connected to ") {
        let v = text::to_chars(trimmed.as_str());
        proof {
            reveal_strlit("Connected to ");
            assert(v@.subrange(13, v@.len() as int) =~= v@.skip(13));
        }
        let rest = text::to_text(&v[13..v.len()]);
        let words = text::split_words(rest.as_str());
        match word(&words, 0) {
            Some(w) => Some(text::to_lower(w)),
            None => None,
        }
    } else {
        None
    }
}

/// The station that a wireless link is connected to.
pub fn wifi_station(link: &str) -> (r: Option<String>)
    ensures
        text::opt_text(r) == first_station(text::lines(link@)),
{
    let ls = text::split_lines(link);
    let ghost all = text::texts(ls@);
    let mut i: usize = 0;
    proof {
        assert(all.skip(0) =~= all);
    }
    while i < ls.len()
        invariant
            i <= ls@.len(),
            all == text::texts(ls@),
            all == text::lines(link@),
            first_station(all) == first_station(all.skip(i as int)),
        decreases ls@.len() - i,
    {
        proof {
            assert(all.skip(i as int)[0] == ls@[i as int]@);
            assert(all.skip(i as int).skip(1) =~= all.skip(i + 1));
        }
        match read_station(ls[i].as_str()) {
            Some(value) => {
                return Some(value);
            },
            None => {},
        }
        i = i + 1;
    }
    None
}

/// The addresses of all interfaces that were read.
pub open spec fn read_addresses(facts: HostFacts) -> Seq<(Seq<char>, Seq<IpAddr>)> {
    match facts.addresses {
        Some(output) => addresses_in(text::lines(output@)),
        None => Seq::empty(),
    }
}

/// The kind of network behind the default interface.
pub open spec fn default_kind(scope: LinuxMetadataScope, facts: HostFacts) -> Option<Seq<char>> {
    match facts.default_interface {
        Some(name) if scope.network => Some(
            interface_kind(name@, is_wireless(text::texts(facts.wireless@), name@)),
        ),
        _ => None,
    }
}

/// The network's cost as the command tells it.
pub open spec fn is_metered(facts: HostFacts) -> bool {
    let words = trimmed_or_none(text::opt_text(facts.metered));
    words == Some("yes"@) || words == Some("guess-yes"@)
}

/// The facts that a scope asks for, as far as they could be read; nothing else
/// is known.
pub open spec fn collected(
    m: LinuxRouteMetadata,
    peer: IpAddr,
    scope: LinuxMetadataScope,
    facts: HostFacts,
) -> bool {
    let owner = if scope.process || scope.user {
        facts.owner
    } else {
        None
    };
    let kind = default_kind(scope, facts);
    let wifi = kind == Some("wifi"@);
    &&& named_view(m.interface_addresses@) == (if scope.interface {
        read_addresses(facts)
    } else {
        Seq::empty()
    })
    &&& named_view(m.network_interface_addresses@) == (if scope.interface {
        by_kind(read_addresses(facts), text::texts(facts.wireless@))
    } else {
        Seq::empty()
    })
    &&& m.user_id == (match owner {
        Some((_, uid)) => Some(uid),
        None => None,
    })
    &&& text::opt_text(m.user) == (match (owner, facts.users) {
        (Some((_, uid)), Some(users)) => first_user(text::lines(users@), uid),
        _ => None,
    })
    &&& text::opt_text(m.process_name) == (if owner is Some && scope.process {
        trimmed_or_none(text::opt_text(facts.process_name))
    } else {
        None
    })
    &&& text::opt_text(m.process_path) == (if owner is Some && scope.process {
        text::opt_text(facts.process_path)
    } else {
        None
    })
    &&& text::opt_text(m.network_type) == kind
    &&& m.network_is_expensive == (kind is Some && is_metered(facts))
    &&& !m.network_is_constrained
    &&& m.default_interface_addresses@ == (if kind is Some {
        under_name(read_addresses(facts), text::lower(facts.default_interface->0@))
    } else {
        Seq::empty()
    })
    &&& text::opt_text(m.wifi_ssid) == (if wifi {
        trimmed_or_none(text::opt_text(facts.ssid))
    } else {
        None
    })
    &&& text::opt_text(m.wifi_bssid) == (match facts.link {
        Some(link) if wifi => first_station(text::lines(link@)),
        _ => None,
    })
    &&& text::opt_text(m.source_mac_address) == (match facts.neighbours {
        Some(table) if scope.mac => first_neighbour(body(table@), peer, 3),
        _ => None,
    })
    &&& text::opt_text(m.source_hostname) == (match facts.hosts {
        Some(table) if scope.hostname => first_host(text::lines(table@), peer),
        _ => None,
    })
}

fn addresses_of(facts: &HostFacts) -> (r: Vec<NamedAddresses>)
    ensures
        named_view(r@) == read_addresses(*facts),
{
    match &facts.addresses {
        Some(output) => all_interface_addresses(output.as_str()),
        None => {
            let none: Vec<NamedAddresses> = Vec::new();
            proof {
                assert(named_view(none@) =~= Seq::<(Seq<char>, Seq<IpAddr>)>::empty());
            }
            none
        },
    }
}

/// Gathers the facts about a TCP connection that the rules ask for from what was
/// read of the host.
pub fn collect_tcp(peer: IpAddr, scope: LinuxMetadataScope, facts: &HostFacts) -> (r:
    LinuxRouteMetadata)
    ensures
        collected(r, peer, scope, *facts),
{
    let mut m = LinuxRouteMetadata {
        process_name: None,
        process_path: None,
        user: None,
        user_id: None,
        network_type: None,
        network_is_expensive: false,
        network_is_constrained: false,
        wifi_ssid: None,
        wifi_bssid: None,
        interface_addresses: Vec::new(),
        network_interface_addresses: Vec::new(),
        source_mac_address: None,
        source_hostname: None,
        default_interface_addresses: Vec::new(),
    };
    proof {
        assert(named_view(m.interface_addresses@) =~= Seq::<(Seq<char>, Seq<IpAddr>)>::empty());
        assert(named_view(m.network_interface_addresses@) =~= Seq::<
            (Seq<char>, Seq<IpAddr>),
        >::empty());
        assert(m.default_interface_addresses@ =~= Seq::<IpAddr>::empty());
    }
    if scope.interface {
        m.interface_addresses = addresses_of(facts);
        m.network_interface_addresses = network_addresses(&m.interface_addresses, &facts.wireless);
    }
    if scope.process || scope.user {
        match facts.owner {
            Some((_, uid)) => {
                m.user_id = Some(uid);
                m.user = match &facts.users {
                    Some(users) => user_name(users.as_str(), uid),
                    None => None,
                };
                if scope.process {
                    m.process_name = command_line(&facts.process_name);
                    m.process_path = text::copy_opt(&facts.process_path);
                }
            },
            None => {},
        }
    }
    if scope.network {
        match &facts.default_interface {
            Some(name) => {
                let kind = interface_type(name.as_str(), listed(&facts.wireless, name.as_str()));
                let wifi = text::same_text(kind.as_str(), "wifi");
                m.network_type = Some(kind);
                m.network_is_expensive = match command_line(&facts.metered) {
                    Some(v) => text::same_text(v.as_str(), "yes") || text::same_text(
                        v.as_str(),
                        "guess-yes",
                    ),
                    None => false,
                };
                let all = addresses_of(facts);
                m.default_interface_addresses = interface_addresses(&all, name.as_str());
                if wifi {
                    m.wifi_ssid = command_line(&facts.ssid);
                    m.wifi_bssid = match &facts.link {
                        Some(link) => wifi_station(link.as_str()),
                        None => None,
                    };
                }
            },
            None => {},
        }
    }
    if scope.mac {
        m.source_mac_address = match &facts.neighbours {
            Some(table) => arp_value(table.as_str(), peer, 3),
            None => None,
        };
    }
    if scope.hostname {
        m.source_hostname = match &facts.hosts {
            Some(table) => hosts_name(table.as_str(), peer),
            None => None,
        };
    }
    m
}

/// Whether what was read of the interfaces that long ago is still used: for five
/// seconds.
pub fn is_fresh(elapsed: Duration) -> (r: bool)
    ensures
        r == (elapsed.millis < 5000),
{
    elapsed.millis < 5000
}

// ---- laws of the host ----

/// The owner of a socket is read from the line of the table with its two ports, in
/// hexadecimal digits behind the addresses: the user stands in the eighth column and
/// the inode in the tenth. A line with other ports names none.
pub proof fn owners_are_read_by_their_ports(
    line: Seq<char>,
    from: Seq<char>,
    from_port: Seq<char>,
    to: Seq<char>,
    to_port: Seq<char>,
    uid: u32,
    inode: u64,
    local: u16,
    remote: u16,
)
    requires
        text::words(line).len() > 9,
        text::words(line)[1] == from + seq![':'] + from_port,
        text::words(line)[2] == to + seq![':'] + to_port,
        text::words(line)[7] == text::decimal(uid as nat),
        text::words(line)[9] == text::decimal(inode as nat),
        is_hex_digits(from_port),
        is_hex_digits(to_port),
    ensures
        owner_in(line, local, remote) == (if hex_value(from_port) == local && hex_value(to_port)
            == remote {
            Some((inode as nat, uid as nat))
        } else {
            None
        }),
{
    lemma_table_port(from, from_port);
    lemma_table_port(to, to_port);
    text::decimal_reads_back(uid as nat, u32::MAX as nat);
    text::decimal_reads_back(inode as nat, u64::MAX as nat);
}

proof fn lemma_table_port(address: Seq<char>, port: Seq<char>)
    requires
        is_hex_digits(port),
    ensures
        table_port(address + seq![':'] + port) == (if hex_value(port) <= u16::MAX {
            Some(hex_value(port))
        } else {
            None
        }),
{
    text::split_at_a_separator(address, ':', port);
    assert forall|i: int| 0 <= i < port.len() implies port[i] != ':' by {
        assert(is_hex(port[i]));
    }
    text::lemma_span(port, ':', port.len() as int);
    assert(text::split(port, ':') =~= seq![port]);
    let pieces = text::split(address, ':') + seq![port];
    assert(pieces.last() == port);
    assert(text::split(address, ':').len() >= 1);
    assert(is_hex(port[0]));
}

/// Hexadecimal digits count by sixteen, whatever the case of the letters.
pub proof fn digits_count_by_sixteen(s: Seq<char>, c: char)
    requires
        is_hex(c),
    ensures
        hex_value(s.push(c)) == 16 * hex_value(s) + hex_digit(c),
        hex_digit(c) < 16,
        '0' <= c <= '9' ==> hex_digit(c) == c as nat - '0' as nat,
        hex_digit('a') == 10 && hex_digit('f') == 15 && hex_digit('A') == 10 && hex_digit('F') == 15,
{
    assert(s.push(c).drop_last() =~= s);
}

/// The first line that names an owner counts.
pub proof fn the_first_owner_counts(ls: Seq<Seq<char>>, local: u16, remote: u16, i: int)
    requires
        0 <= i < ls.len(),
        owner_in(ls[i], local, remote) is Some,
        forall|j: int| 0 <= j < i ==> owner_in(#[trigger] ls[j], local, remote) is None,
    ensures
        first_owner(ls, local, remote) == owner_in(ls[i], local, remote),
    decreases i,
{
    if i > 0 {
        assert(owner_in(ls[0], local, remote) is None);
        assert forall|j: int| 0 <= j < i - 1 implies owner_in(
            #[trigger] ls.skip(1)[j],
            local,
            remote,
        ) is None by {
            assert(ls.skip(1)[j] == ls[j + 1]);
        }
        the_first_owner_counts(ls.skip(1), local, remote, i - 1);
    }
}

/// The default route is one of those to everywhere, and none of them is cheaper;
/// there is none only where no line is one.
pub proof fn the_cheapest_default_route_counts(ls: Seq<Seq<char>>)
    ensures
        match best_route(ls) {
            Some((metric, name)) => (exists|i: int|
                0 <= i < ls.len() && default_route_in(#[trigger] ls[i]) == Some((metric, name)))
                && forall|i: int|
                0 <= i < ls.len() && default_route_in(#[trigger] ls[i]) is Some
                    ==> match default_route_in(ls[i]) {
                    Some((m, _)) => metric <= m,
                    None => true,
                },
            None => forall|i: int| 0 <= i < ls.len() ==> default_route_in(#[trigger] ls[i]) is None,
        },
        forall|i: int|
            0 <= i < ls.len() ==> (default_route_in(#[trigger] ls[i]) matches Some((m, n))
                ==> text::words(ls[i]).len() > 6 && text::words(ls[i])[0] == n && text::words(
                ls[i],
            )[1] == "00000000"@ && text::number(text::words(ls[i])[6], u32::MAX as nat) == Some(m)),
    decreases ls.len(),
{
    if ls.len() > 0 {
        let front = ls.drop_last();
        the_cheapest_default_route_counts(front);
        assert forall|i: int| 0 <= i < front.len() implies front[i] == ls[i] by {
        }
        assert(ls.last() == ls[ls.len() - 1]);
        match best_route(front) {
            Some((metric, name)) => {
                let i = choose|i: int|
                    0 <= i < front.len() && default_route_in(#[trigger] front[i]) == Some(
                        (metric, name),
                    );
                assert(ls[i] == front[i]);
            },
            None => {},
        }
        assert forall|i: int|
            0 <= i < ls.len() && default_route_in(#[trigger] ls[i]) is Some && best_route(ls)
                is Some implies match default_route_in(ls[i]) {
            Some((m, _)) => (match best_route(ls) {
                Some((metric, _)) => metric <= m,
                None => true,
            }),
            None => true,
        } by {
            if i < front.len() {
                assert(front[i] == ls[i]);
            }
        }
        if best_route(ls) is None {
            assert forall|i: int| 0 <= i < ls.len() implies default_route_in(#[trigger] ls[i])
                is None by {
                if i < front.len() {
                    assert(front[i] == ls[i]);
                }
            }
        }
    }
}

/// A line more in the list of addresses is an address more under the name of its
/// interface, behind those that are there, and leaves those of all others.
pub proof fn a_line_more_is_an_address_more(
    ls: Seq<Seq<char>>,
    line: Seq<char>,
    name: Seq<char>,
    ip: IpAddr,
    other: Seq<char>,
)
    requires
        address_in(line) == Some((name, ip)),
        other != name,
    ensures
        under_name(addresses_in(ls.push(line)), name) == under_name(addresses_in(ls), name).push(ip),
        under_name(addresses_in(ls.push(line)), other) == under_name(addresses_in(ls), other),
{
    assert(ls.push(line).drop_last() =~= ls);
    extending_adds_under_name(addresses_in(ls), name, seq![ip], other);
    assert(under_name(addresses_in(ls), name) + seq![ip] =~= under_name(
        addresses_in(ls),
        name,
    ).push(ip));
}

/// What is not asked for is not told, and what is asked for is told as it was found:
/// the user and the process of the socket's owner, the kind and the addresses of the
/// default interface, the wireless network only on one, and the neighbour and the
/// host by the address of the peer.
pub proof fn what_is_asked_for_is_told(
    m: LinuxRouteMetadata,
    peer: IpAddr,
    scope: LinuxMetadataScope,
    facts: HostFacts,
)
    requires
        collected(m, peer, scope, facts),
    ensures
        !scope.process ==> m.process_name is None && m.process_path is None,
        !scope.process && !scope.user ==> m.user is None && m.user_id is None,
        !scope.interface ==> m.interface_addresses@.len() == 0
            && m.network_interface_addresses@.len() == 0,
        !scope.network ==> m.network_type is None && m.wifi_ssid is None && m.wifi_bssid is None
            && !m.network_is_expensive && m.default_interface_addresses@.len() == 0,
        !scope.mac ==> m.source_mac_address is None,
        !scope.hostname ==> m.source_hostname is None,
        !m.network_is_constrained,
        (scope.process || scope.user) ==> match facts.owner {
            Some((_, uid)) => m.user_id == Some(uid),
            None => m.user_id is None && m.user is None && m.process_name is None,
        },
        scope.process && facts.owner is Some ==> (match (m.process_path, facts.process_path) {
            (Some(a), Some(b)) => a@ == b@,
            (None, None) => true,
            _ => false,
        }),
        scope.network && facts.default_interface is Some ==> m.network_type is Some
            && m.network_type->0@ == interface_kind(
            facts.default_interface->0@,
            text::texts(facts.wireless@).contains(facts.default_interface->0@),
        ),
        m.wifi_ssid is Some || m.wifi_bssid is Some ==> m.network_type is Some
            && m.network_type->0@ == "wifi"@,
{
    assert(named_view(m.interface_addresses@).len() == m.interface_addresses@.len());
    assert(named_view(m.network_interface_addresses@).len()
        == m.network_interface_addresses@.len());
}

/// A user is named by the line with its number in the third column, a process by
/// its link to the socket, a neighbour and a host by the address in front of their
/// line, and a line that is a comment names no host.
pub proof fn lines_name_what_they_are_about(line: Seq<char>, uid: u32, ip: IpAddr, field: int)
    ensures
        text::split(line, ':').len() > 2 && text::split(line, ':')[2] == text::decimal(uid as nat)
            ==> user_in(line, uid) == Some(text::split(line, ':')[0]),
        user_in(line, uid) is Some ==> text::split(line, ':').len() > 2 && text::number(
            text::split(line, ':')[2],
            u32::MAX as nat,
        ) == Some(uid as nat),
        neighbour_in(line, ip, field) matches Some(v) ==> text::words(line).len() > 0
            && net::ip_text(text::words(line)[0]) == Some(ip) && 0 <= field < text::words(
            line,
        ).len() && v == text::lower(text::words(line)[field]),
        0 <= field < text::words(line).len() && net::ip_text(text::words(line)[0]) == Some(ip)
            ==> neighbour_in(line, ip, field) is Some,
        host_in(line, ip) matches Some(v) ==> text::words(line).len() > 1 && net::ip_text(
            text::words(line)[0],
        ) == Some(ip) && v == text::words(line)[1],
        text::skip_space(line).len() > 0 && text::skip_space(line)[0] == '#' ==> host_in(line, ip)
            is None,
{
    text::decimal_reads_back(uid as nat, u32::MAX as nat);
    let s = text::skip_space(line);
    if s.len() > 0 && s[0] == '#' {
        assert(s.take(1) =~= seq!['#']);
    }
}

/// The first process with a link to the socket holds it; without one none does.
pub proof fn the_first_holder_counts(entries: Seq<ProcessEntry>, inode: u64, i: int)
    requires
        0 <= i <= entries.len(),
        i < entries.len() ==> holder_in(entries[i], inode) is Some,
        forall|j: int| 0 <= j < i ==> holder_in(#[trigger] entries[j], inode) is None,
    ensures
        i < entries.len() ==> first_holder(entries, inode) == holder_in(entries[i], inode),
        i == entries.len() ==> first_holder(entries, inode) is None,
    decreases i,
{
    if i > 0 {
        assert(holder_in(entries[0], inode) is None);
        assert forall|j: int| 0 <= j < i - 1 implies holder_in(
            #[trigger] entries.skip(1)[j],
            inode,
        ) is None by {
            assert(entries.skip(1)[j] == entries[j + 1]);
        }
        the_first_holder_counts(entries.skip(1), inode, i - 1);
    }
}

/// A process holds a socket where one of its links names the inode.
pub proof fn processes_hold_what_they_link_to(entry: ProcessEntry, inode: u64)
    ensures
        holder_in(entry, inode) matches Some(pid) ==> text::number(entry.name@, u32::MAX as nat)
            == Some(pid) && entry.links is Some && text::texts(entry.links->0@).contains(
            "socket:["@ + text::decimal(inode as nat) + "]"@,
        ),
        text::number(entry.name@, u32::MAX as nat) is Some && entry.links is Some && text::texts(
            entry.links->0@,
        ).contains("socket:["@ + text::decimal(inode as nat) + "]"@) ==> holder_in(entry, inode)
            == text::number(entry.name@, u32::MAX as nat),
{
}

/// An interface is of one kind: the loopback by its name, a wireless one by the list
/// of those, a cellular one by how its name starts, and any other is a cable.
pub proof fn interfaces_are_of_one_kind(name: Seq<char>, wireless: bool)
    ensures
        name == "lo"@ ==> interface_kind(name, wireless) == "loopback"@,
        name != "lo"@ && wireless ==> interface_kind(name, wireless) == "wifi"@,
        name != "lo"@ && !wireless && (text::starts_with(name, "wwan"@) || text::starts_with(
            name,
            "rmnet"@,
        )) ==> interface_kind(name, wireless) == "cellular"@,
        name != "lo"@ && !wireless && !text::starts_with(name, "wwan"@) && !text::starts_with(
            name,
            "rmnet"@,
        ) ==> interface_kind(name, wireless) == "ethernet"@,
{
}

} // verus!
