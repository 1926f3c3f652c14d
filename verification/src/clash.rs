//! The controller: what a dashboard sees of the outbounds and can change.
use crate::config;
use crate::encoding;
use crate::header;
use crate::json;
use crate::proxy::group::{GroupKind, GroupView, Outbounds};
use crate::proxy::relay::DialerKind;
use crate::proxy::runtime;
use crate::routing::router::Router;
use crate::singbox::ClashApiConfig;
use crate::text;
use vstd::prelude::*;

verus! {

// ---- who may ask ----

/// The secret that is asked for; an empty one is none.
pub fn effective_secret(config: &ClashApiConfig) -> (r: Option<&str>)
    ensures
        text::opt_str(r) == runtime::not_empty(text::opt_text(config.secret)),
{
    match &config.secret {
        Some(s) => {
            if text::to_chars(s.as_str()).len() == 0 {
                None
            } else {
                Some(s.as_str())
            }
        },
        None => None,
    }
}

/// The fields of a request carry the secret that is asked for.
pub open spec fn carries_secret(
    m: Map<Seq<char>, Seq<Seq<u8>>>,
    secret: Option<Seq<char>>,
) -> bool {
    match secret {
        None => true,
        Some(s) => header::text_under(m, "authorization"@) == Some(config::bearer(s)),
    }
}

/// Whether the fields of a request carry the secret that is asked for.
pub fn authenticated(headers: &axum::http::HeaderMap, secret: Option<&str>) -> (r: bool)
    ensures
        r == carries_secret(header::contents(*headers), text::opt_str(secret)),
{
    match secret {
        None => true,
        Some(s) => {
            let expected = config::bearer_text(s);
            match header::get_text(headers, "authorization") {
                Some(value) => text::same_text(value.as_str(), expected.as_str()),
                None => false,
            }
        },
    }
}

/// Whether what goes without fields is answered: only where no secret is asked for.
pub fn answered_without_fields(secret: Option<&str>) -> (r: bool)
    ensures
        r == (secret is None),
{
    let none = header::no_headers();
    proof {
        assert(header::values_under(header::nothing(), text::lower("authorization"@)).len() == 0);
    }
    authenticated(&none, secret)
}

// ---- the mode ----

/// A mode that can be set.
pub open spec fn is_mode(word: Seq<char>) -> bool {
    word == "rule"@ || word == "global"@ || word == "direct"@
}

/// The mode that a change asks for, if it is one that can be set.
pub fn patched_mode(asked: Option<&str>) -> (r: Option<String>)
    ensures
        text::opt_text(r) == (match asked {
            Some(word) if is_mode(word@) => Some(word@),
            _ => None,
        }),
{
    match asked {
        Some(word) => {
            if text::same_text(word, "rule") || text::same_text(word, "global")
                || text::same_text(word, "direct") {
                Some(text::copy_text(word))
            } else {
                None
            }
        },
        None => None,
    }
}

/// The mode that a body asks for: nothing where it is no JSON; else the mode of its
/// member `mode`, if that is one that can be set.
pub fn patch_configs(body: &[u8]) -> (r: Option<Option<String>>)
    ensures
        match json::text_member(body@, "mode"@) {
            None => r is None,
            Some(asked) => r matches Some(mode) && text::opt_text(mode) == (match asked {
                Some(word) if is_mode(word) => Some(word),
                _ => None,
            }),
        },
{
    match json::read_member(body, "mode") {
        None => None,
        Some(asked) => Some(patched_mode(text::as_opt_str(&asked))),
    }
}

/// The mode that is shown.
pub fn shown_mode(mode: &Option<String>) -> (r: String)
    ensures
        r@ == text::text_or(text::opt_text(*mode), "rule"@),
{
    text::or_text(mode, "rule")
}

// ---- outbounds ----

/// What a dashboard sees of an outbound.
#[derive(Debug)]
pub enum ProxyEntry {
    Group { kind: &'static str, name: String, now: String, all: Vec<String> },
    Leaf { kind: &'static str, name: String },
}

/// What a dashboard sees of an outbound, with plain values.
#[verifier::ext_equal]
pub enum EntryView {
    Group { kind: Seq<char>, name: Seq<char>, now: Seq<char>, all: Seq<Seq<char>> },
    Leaf { kind: Seq<char>, name: Seq<char> },
}

impl View for ProxyEntry {
    type V = EntryView;

    open spec fn view(&self) -> EntryView {
        match *self {
            ProxyEntry::Group { kind, name, now, all } => EntryView::Group {
                kind: kind@,
                name: name@,
                now: now@,
                all: text::texts(all@),
            },
            ProxyEntry::Leaf { kind, name } => EntryView::Leaf { kind: kind@, name: name@ },
        }
    }
}

/// The name of a kind of group.
pub open spec fn group_kind_name(kind: GroupKind) -> Seq<char> {
    match kind {
        GroupKind::Selector => "Selector"@,
        GroupKind::UrlTest => "URLTest"@,
    }
}

/// What is seen of the outbound under a tag. What leads nowhere is shown as direct.
pub open spec fn entry_of(o: Outbounds, tag: Seq<char>) -> EntryView {
    match o.group_at(tag) {
        Some(g) => EntryView::Group {
            kind: group_kind_name(g.kind),
            name: tag,
            now: g.selected,
            all: g.members,
        },
        None => EntryView::Leaf {
            kind: match o.leads_to(tag, 8) {
                Some(kind) => runtime::kind_name(kind),
                None => "Direct"@,
            },
            name: tag,
        },
    }
}

/// What is seen of the outbound under a tag.
pub fn proxy_entry(o: &Outbounds, tag: &str) -> (r: ProxyEntry)
    ensures
        r@ == entry_of(*o, tag@),
{
    match o.group(tag) {
        Some(g) => {
            let kind = match g.kind() {
                GroupKind::Selector => "Selector",
                GroupKind::UrlTest => "URLTest",
            };
            ProxyEntry::Group {
                kind,
                name: text::copy_text(tag),
                now: g.now(),
                all: text::copy_texts(g.all()),
            }
        },
        None => {
            let kind = match o.resolve(tag) {
                Some(kind) => runtime::clash_type(kind),
                None => "Direct",
            };
            ProxyEntry::Leaf { kind, name: text::copy_text(tag) }
        },
    }
}

/// There is an outbound under a tag.
pub open spec fn is_known(o: Outbounds, tag: Seq<char>) -> bool {
    o.group_at(tag) is Some || o.leads_to(tag, 8) is Some
}

/// What is seen of the outbound under a tag, where there is one.
pub fn get_proxy(o: &Outbounds, name: &str) -> (r: Option<ProxyEntry>)
    ensures
        match r {
            Some(e) => is_known(*o, name@) && e@ == entry_of(*o, name@),
            None => !is_known(*o, name@),
        },
{
    if !o.is_group(name) && o.resolve(name).is_none() {
        return None;
    }
    Some(proxy_entry(o, name))
}

/// What is seen of all outbounds: first one that stands for the default, then each
/// of them.
pub open spec fn all_entries(o: Outbounds) -> Seq<EntryView> {
    seq![
        EntryView::Group {
            kind: "Selector"@,
            name: "GLOBAL"@,
            now: if o.tags().len() == 0 {
                "direct"@
            } else {
                o.tags()[0]
            },
            all: o.tags(),
        },
    ] + o.tags().map_values(|tag: Seq<char>| entry_of(o, tag))
}

/// Entries with plain values.
pub open spec fn entry_views(s: Seq<ProxyEntry>) -> Seq<EntryView> {
    s.map_values(|e: ProxyEntry| e@)
}

/// What is seen of all outbounds.
pub fn get_proxies(o: &Outbounds) -> (r: Vec<ProxyEntry>)
    ensures
        entry_views(r@) == all_entries(*o),
{
    let tags = o.outbound_tags();
    let ghost all = o.tags();
    proof {
        assert(all.len() == tags@.len());
    }
    let now = if tags.len() == 0 {
        text::copy_text("direct")
    } else {
        proof {
            assert(text::texts(tags@)[0] == tags@[0]@);
        }
        text::copy_text(tags[0].as_str())
    };
    let mut r: Vec<ProxyEntry> = Vec::new();
    r.push(
        ProxyEntry::Group {
            kind: "Selector",
            name: text::copy_text("GLOBAL"),
            now,
            all: text::copy_texts(&tags),
        },
    );
    let ghost shown = all_entries(*o);
    let mut i: usize = 0;
    proof {
        assert(entry_views(r@) =~= shown.take(1));
    }
    while i < tags.len()
        invariant
            i <= tags@.len(),
            all == o.tags(),
            all == text::texts(tags@),
            shown == all_entries(*o),
            shown.len() == tags@.len() + 1,
            entry_views(r@) == shown.take(i + 1),
        decreases tags@.len() - i,
    {
        let ghost before = entry_views(r@);
        let entry = proxy_entry(o, tags[i].as_str());
        proof {
            assert(all[i as int] == tags@[i as int]@);
            assert(shown[i + 1] == entry@);
        }
        let ghost e = entry@;
        r.push(entry);
        proof {
            assert(entry_views(r@) =~= before.push(e));
            assert(before.push(e) =~= shown.take(i + 2));
        }
        i = i + 1;
    }
    proof {
        assert(shown.take(i + 1) =~= shown);
    }
    r
}

/// What becomes of a change of an outbound.
#[derive(Debug, Clone, Copy, PartialEq, Eq, Structural)]
pub enum Update {
    /// The default outbound is another.
    Default,
    /// A member of a group is selected.
    Selected,
    Refused,
}

/// Changes an outbound: what stands for the default leads to a known outbound, and a
/// group to one of its members.
pub fn update_proxy(o: &mut Outbounds, name: &str, member: &str) -> (r: Update)
    ensures
        old(o).wf() ==> final(o).wf(),
        final(o).nodes == old(o).nodes,
        final(o).tags() == old(o).tags(),
        name@ == "GLOBAL"@ ==> *final(o) == *old(o) && r == (if is_known(*old(o), member@) {
            Update::Default
        } else {
            Update::Refused
        }),
        name@ != "GLOBAL"@ ==> r == (if old(o).group_at(name@) is Some && old(o).group_at(
            name@,
        )->0.members.contains(member@) {
            Update::Selected
        } else {
            Update::Refused
        }),
        r == Update::Selected ==> final(o).group_at(name@) == Some(
            GroupView { selected: member@, ..old(o).group_at(name@)->0 },
        ),
        r == Update::Refused ==> final(o).group_at(name@) == old(o).group_at(name@),
        forall|other: Seq<char>|
            other != name@ ==> #[trigger] final(o).group_at(other) == old(o).group_at(other),
{
    if text::same_text(name, "GLOBAL") {
        return if o.is_group(member) || o.resolve(member).is_some() {
            Update::Default
        } else {
            Update::Refused
        };
    }
    if o.select(name, member) {
        Update::Selected
    } else {
        Update::Refused
    }
}

/// What becomes of a change of the outbound under a name to a member.
pub open spec fn update_of(o: Outbounds, name: Seq<char>, member: Seq<char>) -> Update {
    if name == "GLOBAL"@ {
        if is_known(o, member) {
            Update::Default
        } else {
            Update::Refused
        }
    } else if o.group_at(name) matches Some(g) && g.members.contains(member) {
        Update::Selected
    } else {
        Update::Refused
    }
}

/// Changes an outbound as a body asks for: to its member `name`. The default outbound
/// is where the router goes where no rule decides. A body that is no JSON or names no
/// member is refused, and then nothing changes.
pub fn put_proxy(o: &mut Outbounds, router: &mut Router, name: &str, body: &[u8]) -> (r: Update)
    ensures
        old(o).wf() ==> final(o).wf(),
        r == (match json::text_member(body@, "name"@) {
            Some(Some(member)) => update_of(*old(o), name@, member),
            _ => Update::Refused,
        }),
        r == Update::Selected ==> final(o).group_at(name@) == Some(
            GroupView {
                selected: json::text_member(body@, "name"@)->0->0,
                ..old(o).group_at(name@)->0
            },
        ),
        r != Update::Selected ==> final(o).group_at(name@) == old(o).group_at(name@),
        forall|other: Seq<char>|
            other != name@ ==> #[trigger] final(o).group_at(other) == old(o).group_at(other),
        final(o).nodes == old(o).nodes,
        final(o).tags() == old(o).tags(),
        !(json::text_member(body@, "name"@) matches Some(Some(_))) ==> *final(o) == *old(o)
            && *final(router) == *old(router),
        final(router).fallback@ == (if r == Update::Default {
            json::text_member(body@, "name"@)->0->0
        } else {
            old(router).fallback@
        }),
        final(router).rules == old(router).rules,
        final(router).rule_sets == old(router).rule_sets,
        final(router).defaults == old(router).defaults,
{
    match json::read_member(body, "name") {
        Some(Some(member)) => {
            let r = update_proxy(o, name, member.as_str());
            match r {
                Update::Default => {
                    router.set_final_outbound(member.as_str());
                },
                _ => {},
            }
            r
        },
        _ => Update::Refused,
    }
}

// ---- the dashboard ----

/// Where the dashboard is downloaded from where no other address is given.
pub fn dashboard_url(config: &ClashApiConfig) -> (r: String)
    ensures
        r@ == text::text_or(
            text::opt_text(config.external_ui_download_url),
            "https://github.com/MetaCubeX/Yacd-meta/archive/gh-pages.zip"@,
        ),
{
    text::or_text(
        &config.external_ui_download_url,
        "https://github.com/MetaCubeX/Yacd-meta/archive/gh-pages.zip",
    )
}

/// The path of a file of an archive without the directory that holds everything.
pub open spec fn inner_path(name: Seq<char>) -> Seq<char> {
    text::join(text::split(name, '/').skip(1), '/')
}

/// The path of a file of an archive without the directory that holds everything;
/// nothing for that directory itself.
pub fn archive_path(name: &str) -> (r: Option<String>)
    ensures
        text::opt_text(r) == (if inner_path(name@).len() == 0 {
            None
        } else {
            Some(inner_path(name@))
        }),
{
    let mut parts = text::split_text(name, '/');
    proof {
        text::lemma_split_pieces(name@, '/');
        assert(text::texts(parts@).len() == parts@.len());
    }
    if parts.len() == 0 {
        return None;
    }
    let ghost all = text::texts(parts@);
    let _ = parts.remove(0);
    proof {
        assert(text::texts(parts@) =~= all.skip(1));
    }
    let joined = text::join_texts(&parts, '/');
    if text::to_chars(joined.as_str()).len() == 0 {
        None
    } else {
        Some(joined)
    }
}

/// An entry of an archive is a directory: its name ends in a slash, of either kind.
pub open spec fn is_directory(name: Seq<char>) -> bool {
    name.len() > 0 && (name.last() == '/' || name.last() == '\\')
}

/// Where an entry of an archive goes.
#[derive(Debug, Clone, PartialEq, Eq)]
pub enum EntryPlace {
    /// Nowhere: it is the directory that holds everything, or lies beside it.
    Nowhere,
    Directory(String),
    File(String),
}

/// Decides where an entry of an archive goes, by its name.
pub fn entry_place(name: &str) -> (r: EntryPlace)
    ensures
        match r {
            EntryPlace::Nowhere => inner_path(name@).len() == 0,
            EntryPlace::Directory(path) => path@ == inner_path(name@) && path@.len() > 0
                && is_directory(name@),
            EntryPlace::File(path) => path@ == inner_path(name@) && path@.len() > 0
                && !is_directory(name@),
        },
{
    match archive_path(name) {
        None => EntryPlace::Nowhere,
        Some(path) => {
            let letters = text::to_chars(name);
            if letters.len() > 0 && (letters[letters.len() - 1] == '/' || letters[letters.len() - 1]
                == '\\') {
                EntryPlace::Directory(path)
            } else {
                EntryPlace::File(path)
            }
        },
    }
}

/// How many entries an archive has, where bytes are one.
pub uninterp spec fn archive_count(bytes: Seq<u8>) -> Option<usize>;

/// The name of an entry of an archive, where it can be read.
pub uninterp spec fn archive_name(bytes: Seq<u8>, index: usize) -> Option<Seq<char>>;

/// The contents of an entry of an archive, where they can be read.
pub uninterp spec fn archive_data(bytes: Seq<u8>, index: usize) -> Option<Seq<u8>>;

/// Calls `ZipArchive::new` and `ZipArchive::len` of the crate `zip`. What makes bytes an
/// archive is not said here.
#[verifier::external_body]
fn count_entries(bytes: &[u8]) -> (r: Option<usize>)
    ensures
        r == archive_count(bytes@),
{
    zip::ZipArchive::new(std::io::Cursor::new(bytes)).ok().map(|archive| archive.len())
}

/// Calls `ZipArchive::by_index` and `ZipFile::name` of the crate `zip`.
#[verifier::external_body]
fn entry_name(bytes: &[u8], index: usize) -> (r: Option<String>)
    ensures
        text::opt_text(r) == archive_name(bytes@, index),
{
    let mut archive = zip::ZipArchive::new(std::io::Cursor::new(bytes)).ok()?;
    let file = archive.by_index(index).ok()?;
    Some(file.name().to_owned())
}

/// Calls `ZipArchive::by_index` of the crate `zip` and reads what the entry holds.
#[verifier::external_body]
fn entry_data(bytes: &[u8], index: usize) -> (r: Option<Vec<u8>>)
    ensures
        encoding::opt_bytes(r) == archive_data(bytes@, index),
{
    let mut archive = zip::ZipArchive::new(std::io::Cursor::new(bytes)).ok()?;
    let mut file = archive.by_index(index).ok()?;
    let mut data = Vec::new();
    std::io::Read::read_to_end(&mut file, &mut data).ok()?;
    Some(data)
}

/// A directory or a file of the dashboard; a directory has no contents.
#[derive(Debug, Clone, PartialEq, Eq)]
pub struct Unpacked {
    pub path: String,
    pub contents: Option<Vec<u8>>,
}

/// A directory or a file of the dashboard, with plain values.
#[verifier::ext_equal]
pub struct UnpackedView {
    pub path: Seq<char>,
    pub contents: Option<Seq<u8>>,
}

impl View for Unpacked {
    type V = UnpackedView;

    open spec fn view(&self) -> UnpackedView {
        UnpackedView { path: self.path@, contents: encoding::opt_bytes(self.contents) }
    }
}

/// Why an archive cannot be unpacked.
#[derive(Debug, Clone, Copy, PartialEq, Eq, Structural)]
pub enum ArchiveError {
    /// It is none.
    Archive,
    /// An entry cannot be read.
    Entry,
    /// The contents of an entry cannot be read.
    Contents,
}

/// What the first entries of an archive hold, up to the first that cannot be read, and
/// why it cannot.
pub open spec fn unpacked(bytes: Seq<u8>, n: nat) -> (Seq<UnpackedView>, Option<ArchiveError>)
    decreases n,
{
    if n == 0 {
        (Seq::empty(), None)
    } else {
        let (s, e) = unpacked(bytes, (n - 1) as nat);
        let index = (n - 1) as usize;
        match (e, archive_name(bytes, index)) {
            (Some(e), _) => (s, Some(e)),
            (None, None) => (s, Some(ArchiveError::Entry)),
            (None, Some(name)) => if inner_path(name).len() == 0 {
                (s, None)
            } else if is_directory(name) {
                (s.push(UnpackedView { path: inner_path(name), contents: None }), None)
            } else {
                match archive_data(bytes, index) {
                    None => (s, Some(ArchiveError::Contents)),
                    Some(data) => (
                        s.push(UnpackedView { path: inner_path(name), contents: Some(data) }),
                        None,
                    ),
                }
            },
        }
    }
}

proof fn lemma_unpacking_stops(bytes: Seq<u8>, n: nat, m: nat)
    requires
        n <= m,
        unpacked(bytes, n).1 is Some,
    ensures
        unpacked(bytes, m) == unpacked(bytes, n),
    decreases m - n,
{
    if n < m {
        lemma_unpacking_stops(bytes, n, (m - 1) as nat);
    }
}

/// What is unpacked, with plain values.
pub open spec fn unpacked_views(s: Seq<Unpacked>) -> Seq<UnpackedView> {
    s.map_values(|x: Unpacked| x@)
}

/// Unpacks the dashboard: its directories and files in the order of the archive, up to
/// the first entry that cannot be read.
pub fn unpack(bytes: &[u8]) -> (r: (Vec<Unpacked>, Option<ArchiveError>))
    ensures
        match archive_count(bytes@) {
            None => r.0@.len() == 0 && r.1 == Some(ArchiveError::Archive),
            Some(n) => (unpacked_views(r.0@), r.1) == unpacked(bytes@, n as nat),
        },
{
    let mut out: Vec<Unpacked> = Vec::new();
    let total: usize = match count_entries(bytes) {
        None => {
            return (out, Some(ArchiveError::Archive));
        },
        Some(n) => n,
    };
    let mut i: usize = 0;
    proof {
        assert(unpacked_views(out@) =~= Seq::<UnpackedView>::empty());
    }
    while i < total
        invariant
            i <= total,
            archive_count(bytes@) == Some(total),
            (unpacked_views(out@), None::<ArchiveError>) == unpacked(bytes@, i as nat),
        decreases total - i,
    {
        let ghost before = unpacked_views(out@);
        proof {
            if unpacked(bytes@, (i + 1) as nat).1 is Some {
                lemma_unpacking_stops(bytes@, (i + 1) as nat, total as nat);
            }
        }
        let name = match entry_name(bytes, i) {
            None => {
                return (out, Some(ArchiveError::Entry));
            },
            Some(name) => name,
        };
        let item = match entry_place(name.as_str()) {
            EntryPlace::Nowhere => None,
            EntryPlace::Directory(path) => Some(Unpacked { path, contents: None }),
            EntryPlace::File(path) => match entry_data(bytes, i) {
                None => {
                    return (out, Some(ArchiveError::Contents));
                },
                Some(data) => Some(Unpacked { path, contents: Some(data) }),
            },
        };
        match item {
            None => {},
            Some(item) => {
                let ghost view = item@;
                out.push(item);
                proof {
                    assert(unpacked_views(out@) =~= before.push(view));
                }
            },
        }
        i = i + 1;
    }
    (out, None)
}

/// A secret lets in the requests that carry it behind the word `Bearer` and no
/// others; without one every request is let in.
pub proof fn only_the_secret_lets_in(
    m: Map<Seq<char>, Seq<Seq<u8>>>,
    secret: Seq<char>,
    other: Seq<char>,
)
    ensures
        carries_secret(m, None),
        carries_secret(m, Some(secret)) <==> header::text_under(m, "authorization"@) == Some(
            "Bearer "@ + secret,
        ),
        carries_secret(m, Some(secret)) && carries_secret(m, Some(other)) ==> secret == other,
{
    let n = "Bearer "@.len() as int;
    assert(("Bearer "@ + secret).skip(n) =~= secret);
    assert(("Bearer "@ + other).skip(n) =~= other);
}

/// A group can be set only to one of its members, and the default only to an
/// outbound that is there; nothing else can be set.
pub proof fn only_members_can_be_chosen(o: Outbounds, name: Seq<char>, member: Seq<char>)
    ensures
        update_of(o, name, member) == Update::Selected <==> name != "GLOBAL"@ && o.group_at(name)
            is Some && o.group_at(name)->0.members.contains(member),
        update_of(o, name, member) == Update::Default <==> name == "GLOBAL"@ && (o.group_at(member)
            is Some || o.leads_to(member, 8) is Some),
{
}

/// A group is shown with its members and the one that is chosen, and another
/// outbound with what it leads through; the first entry stands for all of them.
pub proof fn outbounds_are_shown_as_they_are(o: Outbounds, tag: Seq<char>)
    ensures
        o.group_at(tag) matches Some(g) ==> (entry_of(o, tag) matches EntryView::Group {
            kind,
            name,
            now,
            all,
        } && name == tag && now == g.selected && all == g.members && (g.kind == GroupKind::Selector
            ==> kind == "Selector"@) && (g.kind == GroupKind::UrlTest ==> kind == "URLTest"@)),
        o.group_at(tag) is None ==> (entry_of(o, tag) matches EntryView::Leaf { kind, name } && name
            == tag && (o.leads_to(tag, 8) matches Some(DialerKind::Block) ==> kind == "Reject"@)
            && (o.leads_to(tag, 8) matches Some(DialerKind::AnyTls) ==> kind == "AnyTLS"@) && (
        o.leads_to(tag, 8) matches Some(DialerKind::Vless { .. }) ==> kind == "VLESS"@) && (
        o.leads_to(tag, 8) matches Some(DialerKind::Direct) ==> kind == "Direct"@)),
        all_entries(o).len() == 1 + o.tags().len(),
        forall|i: int|
            0 <= i < o.tags().len() ==> #[trigger] all_entries(o)[i + 1] == entry_of(o, o.tags()[i]),
        all_entries(o)[0] matches EntryView::Group { name, all, .. } && name == "GLOBAL"@ && all
            == o.tags(),
{
}

/// What an archive holds is unpacked without the directory that it all stands in.
pub proof fn archives_are_unpacked_without_their_top(top: Seq<char>, path: Seq<char>)
    requires
        !top.contains('/'),
    ensures
        inner_path(top + seq!['/'] + path) == path,
        inner_path(top).len() == 0,
{
    text::split_at_a_separator(top, '/', path);
    assert forall|i: int| 0 <= i < top.len() implies top[i] != '/' by {
        assert(top.contains(top[i]));
    }
    text::lemma_span(top, '/', top.len() as int);
    assert(text::split(top, '/') =~= seq![top]);
    assert((seq![top] + text::split(path, '/')).skip(1) =~= text::split(path, '/'));
    assert(seq![top].skip(1) =~= Seq::<Seq<char>>::empty());
    text::lemma_join_split(path, '/');
}

} // verus!
