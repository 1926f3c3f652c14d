//! Groups of outbounds, and which outbound a tag leads to.
use crate::proxy::relay::DialerKind;
use crate::text;
use crate::time::{self, Duration};
use vstd::prelude::*;

verus! {

/// How the member of a group is chosen.
#[derive(Debug, Clone, Copy, PartialEq, Eq, Structural)]
pub enum GroupKind {
    /// By hand.
    Selector,
    /// By how fast its members answer.
    UrlTest,
}

/// A group of outbounds of which one is selected.
#[derive(Debug)]
pub struct Group {
    kind: GroupKind,
    members: Vec<String>,
    selected: String,
    url: Option<String>,
    interval: Duration,
    tolerance: u16,
}

/// A group with plain values.
#[verifier::ext_equal]
pub struct GroupView {
    pub kind: GroupKind,
    pub members: Seq<Seq<char>>,
    pub selected: Seq<char>,
    pub url: Option<Seq<char>>,
    pub interval: nat,
    pub tolerance: u16,
}

/// A group has neither a member nor a default one.
#[derive(Debug, Clone, Copy, PartialEq, Eq, Structural)]
pub struct NoDefaultMember;

impl View for Group {
    type V = GroupView;

    closed spec fn view(&self) -> GroupView {
        GroupView {
            kind: self.kind,
            members: text::texts(self.members@),
            selected: self.selected@,
            url: text::opt_text(self.url),
            interval: self.interval.millis as nat,
            tolerance: self.tolerance,
        }
    }
}

impl Group {
    /// A group: its default member is selected, or else its first. It is probed no
    /// more than once a second, and a member has to be faster by 50 milliseconds
    /// where no other tolerance is given.
    pub fn new(
        kind: GroupKind,
        members: Vec<String>,
        default: Option<String>,
        url: Option<String>,
        interval: Option<String>,
        tolerance: Option<u16>,
    ) -> (r: Result<Group, NoDefaultMember>)
        ensures
            r is Err <==> default is None && members@.len() == 0,
            r matches Ok(g) ==> g@ == (GroupView {
                kind,
                members: text::texts(members@),
                selected: match default {
                    Some(d) => d@,
                    None => members@[0]@,
                },
                url: text::opt_text(url),
                interval: ({
                    let t = time::lenient_millis(text::opt_text(interval));
                    if t >= 1000 {
                        t
                    } else {
                        1000
                    }
                }),
                tolerance: match tolerance {
                    Some(t) => t,
                    None => 50,
                },
            }),
    {
        let selected = match default {
            Some(d) => d,
            None => {
                if members.len() == 0 {
                    return Err(NoDefaultMember);
                }
                text::copy_text(members[0].as_str())
            },
        };
        let interval = time::parse_duration_lenient(text::as_opt_str(&interval)).max(
            Duration::from_secs(1),
        );
        let tolerance: u16 = match tolerance {
            Some(t) => t,
            None => 50,
        };
        Ok(Group { kind, members, selected, url, interval, tolerance })
    }

    pub fn kind(&self) -> (r: GroupKind)
        ensures
            r == self@.kind,
    {
        self.kind
    }

    /// The member that is selected.
    pub fn now(&self) -> (r: String)
        ensures
            r@ == self@.selected,
    {
        text::copy_text(self.selected.as_str())
    }

    /// The members.
    pub fn all(&self) -> (r: &Vec<String>)
        ensures
            text::texts(r@) == self@.members,
    {
        &self.members
    }

    /// Selects a member; what is not one is not selected.
    pub fn select(&mut self, tag: &str) -> (r: bool)
        ensures
            r == old(self)@.members.contains(tag@),
            final(self)@ == (if r {
                GroupView { selected: tag@, ..old(self)@ }
            } else {
                old(self)@
            }),
    {
        let ghost all = text::texts(self.members@);
        let mut i: usize = 0;
        while i < self.members.len()
            invariant
                i <= self.members@.len(),
                *self == *old(self),
                all == text::texts(self.members@),
                forall|j: int| 0 <= j < i ==> all[j] != tag@,
            decreases self.members@.len() - i,
        {
            if text::same_text(self.members[i].as_str(), tag) {
                proof {
                    assert(all[i as int] == tag@);
                }
                self.selected = text::copy_text(tag);
                return true;
            }
            i = i + 1;
        }
        proof {
            assert(!all.contains(tag@));
        }
        false
    }

    pub fn url(&self) -> (r: Option<&str>)
        ensures
            text::opt_str(r) == self@.url,
    {
        text::as_opt_str(&self.url)
    }

    pub fn interval(&self) -> (r: Duration)
        ensures
            r.millis == self@.interval,
    {
        self.interval
    }

    pub fn tolerance(&self) -> (r: u16)
        ensures
            r == self@.tolerance,
    {
        self.tolerance
    }
}

// ---- probing ----

/// The best member so far, by its place, and how long it took.
pub type Best = Option<(usize, u16)>;

/// The best member with one more that was probed: that one, where it is faster by
/// more than the tolerance.
pub open spec fn better(best: Best, member: usize, delay: Option<u16>, tolerance: u16) -> Best {
    match delay {
        None => best,
        Some(d) => match best {
            Some((_, b)) if d + tolerance >= b => best,
            _ => Some((member, d)),
        },
    }
}

/// The best of the first members that were probed.
pub open spec fn best_of(delays: Seq<Option<u16>>, tolerance: u16) -> Best
    decreases delays.len(),
{
    if delays.len() == 0 {
        None
    } else {
        better(
            best_of(delays.drop_last(), tolerance),
            (delays.len() - 1) as usize,
            delays.last(),
            tolerance,
        )
    }
}

/// No sum of a delay and the tolerance leaves 16 bits where it is looked at.
pub open spec fn sums_fit(delays: Seq<Option<u16>>, tolerance: u16) -> bool {
    forall|i: int, j: int|
        0 <= i < j < delays.len() && (#[trigger] delays[i]) is Some && (#[trigger] delays[j])
            is Some ==> delays[j]->0 + tolerance <= u16::MAX
}

proof fn lemma_best(delays: Seq<Option<u16>>, tolerance: u16)
    requires
        delays.len() <= usize::MAX,
    ensures
        best_of(delays, tolerance) is Some <==> exists|i: int|
            0 <= i < delays.len() && (#[trigger] delays[i]) is Some,
        best_of(delays, tolerance) matches Some((m, d)) ==> m < delays.len() && delays[m as int]
            == Some(d) && forall|i: int|
            0 <= i < delays.len() && (#[trigger] delays[i]) is Some ==> delays[i]->0 + tolerance
                >= d,
    decreases delays.len(),
{
    if delays.len() > 0 {
        let before = delays.drop_last();
        lemma_best(before, tolerance);
        let last = delays.len() - 1;
        assert(delays[last] == delays.last());
        assert forall|i: int| 0 <= i < before.len() implies before[i] == delays[i] by {}
        if best_of(before, tolerance) is Some {
            let i = choose|i: int| 0 <= i < before.len() && (#[trigger] before[i]) is Some;
            assert(delays[i] is Some);
        } else {
            if delays.last() is None {
                assert forall|i: int| 0 <= i < delays.len() implies (#[trigger] delays[i])
                    is None by {
                    if i < last {
                        assert(before[i] is None);
                    }
                }
            }
        }
        if best_of(delays, tolerance) is Some {
            let (m, d) = best_of(delays, tolerance)->0;
            assert forall|i: int| 0 <= i < delays.len() && (#[trigger] delays[i])
                is Some implies delays[i]->0 + tolerance >= d by {
                if i < last {
                    assert(before[i] is Some);
                }
            }
        }
    }
}

/// A member is chosen exactly where one answered, and none is faster than it by
/// more than the tolerance.
pub proof fn chosen_is_fastest_but_for_tolerance(delays: Seq<Option<u16>>, tolerance: u16)
    requires
        delays.len() <= usize::MAX,
    ensures
        best_of(delays, tolerance) is Some <==> exists|i: int|
            0 <= i < delays.len() && (#[trigger] delays[i]) is Some,
        best_of(delays, tolerance) matches Some((m, d)) ==> delays[m as int] == Some(d) && forall|
            i: int,
        |
            0 <= i < delays.len() && (#[trigger] delays[i]) is Some ==> d <= delays[i]->0
                + tolerance,
{
    lemma_best(delays, tolerance);
}

/// Chooses the best member by how long each took to answer.
pub fn run_url_test(delays: &Vec<Option<u16>>, tolerance: u16) -> (r: Best)
    requires
        sums_fit(delays@, tolerance),
    ensures
        r == best_of(delays@, tolerance),
{
    let mut best: Best = None;
    let total: usize = delays.len();
    let mut i: usize = 0;
    proof {
        assert(delays@.take(0) =~= Seq::<Option<u16>>::empty());
    }
    while i < total
        invariant
            total == delays@.len(),
            i <= total,
            sums_fit(delays@, tolerance),
            best == best_of(delays@.take(i as int), tolerance),
        decreases total - i,
    {
        let ghost seen = delays@.take(i as int);
        proof {
            assert(delays@.take(i + 1).drop_last() =~= seen);
            assert(delays@.take(i + 1).last() == delays@[i as int]);
            lemma_best(seen, tolerance);
        }
        match delays[i] {
            None => {},
            Some(d) => {
                let keep = match best {
                    Some((m, b)) => {
                        proof {
                            assert(seen[m as int] == delays@[m as int]);
                            assert(delays@[m as int] is Some && delays@[i as int] is Some);
                        }
                        d + tolerance >= b
                    },
                    None => false,
                };
                if !keep {
                    best = Some((i, d));
                }
            },
        }
        i = i + 1;
    }
    proof {
        assert(delays@.take(i as int) =~= delays@);
    }
    best
}

/// Whether no sum leaves 16 bits.
pub fn delays_fit(delays: &Vec<Option<u16>>, tolerance: u16) -> (r: bool)
    ensures
        r == sums_fit(delays@, tolerance),
{
    let mut some: Option<usize> = None;
    let mut i: usize = 0;
    while i < delays.len()
        invariant
            i <= delays@.len(),
            match some {
                Some(k) => k < i && delays@[k as int] is Some,
                None => forall|j: int| 0 <= j < i ==> (#[trigger] delays@[j]) is None,
            },
            forall|j: int, k: int|
                0 <= j < k < i && (#[trigger] delays@[j]) is Some && (#[trigger] delays@[k])
                    is Some ==> delays@[k]->0 + tolerance <= u16::MAX,
        decreases delays@.len() - i,
    {
        match delays[i] {
            None => {},
            Some(d) => {
                match some {
                    Some(k) => {
                        if d as u32 + tolerance as u32 > 65535 {
                            proof {
                                assert(delays@[k as int] is Some && delays@[i as int] is Some);
                            }
                            return false;
                        }
                    },
                    None => {
                        some = Some(i);
                    },
                }
            },
        }
        i = i + 1;
    }
    true
}

/// How long an answer took, in milliseconds of 16 bits.
pub fn delay_of(elapsed: Duration) -> (r: u16)
    ensures
        r == (if elapsed.millis <= u16::MAX {
            elapsed.millis as int
        } else {
            u16::MAX as int
        }),
{
    if elapsed.millis <= 65535 {
        elapsed.millis as u16
    } else {
        65535
    }
}

// ---- outbounds ----

/// What stands under a tag.
#[derive(Debug, Clone, Copy, PartialEq, Eq, Structural)]
pub enum Node {
    Leaf(DialerKind),
    /// The group of that tag.
    Group,
}

/// An outbound under its tag.
#[derive(Debug)]
pub struct TaggedNode {
    pub tag: String,
    pub node: Node,
}

/// A group under its tag.
#[derive(Debug)]
pub struct TaggedGroup {
    pub tag: String,
    pub group: Group,
}

/// All outbounds.
#[derive(Debug)]
pub struct Outbounds {
    pub nodes: Vec<TaggedNode>,
    pub groups: Vec<TaggedGroup>,
}

/// The first place of a tag among outbounds, or their number.
pub open spec fn node_place(s: Seq<TaggedNode>, tag: Seq<char>) -> int
    decreases s.len(),
{
    if s.len() == 0 || s[0].tag@ == tag {
        0
    } else {
        1 + node_place(s.skip(1), tag)
    }
}

/// The first place of a tag among groups, or their number.
pub open spec fn group_place(s: Seq<TaggedGroup>, tag: Seq<char>) -> int
    decreases s.len(),
{
    if s.len() == 0 || s[0].tag@ == tag {
        0
    } else {
        1 + group_place(s.skip(1), tag)
    }
}

proof fn lemma_node_place(s: Seq<TaggedNode>, tag: Seq<char>, n: int)
    requires
        0 <= n <= s.len(),
        forall|i: int| 0 <= i < n ==> (#[trigger] s[i]).tag@ != tag,
        n < s.len() ==> s[n].tag@ == tag,
    ensures
        node_place(s, tag) == n,
    decreases n,
{
    if n > 0 {
        assert(s[0].tag@ != tag);
        assert forall|i: int| 0 <= i < n - 1 implies (#[trigger] s.skip(1)[i]).tag@ != tag by {
            assert(s.skip(1)[i] == s[i + 1]);
        }
        lemma_node_place(s.skip(1), tag, n - 1);
    }
}

proof fn lemma_node_found(s: Seq<TaggedNode>, tag: Seq<char>)
    ensures
        0 <= node_place(s, tag) <= s.len(),
        node_place(s, tag) < s.len() ==> s[node_place(s, tag)].tag@ == tag,
        forall|i: int| 0 <= i < node_place(s, tag) ==> (#[trigger] s[i]).tag@ != tag,
    decreases s.len(),
{
    if s.len() > 0 && s[0].tag@ != tag {
        lemma_node_found(s.skip(1), tag);
        let n = node_place(s.skip(1), tag);
        assert forall|i: int| 0 <= i < node_place(s, tag) implies (#[trigger] s[i]).tag@ != tag by {
            if i > 0 {
                assert(s.skip(1)[i - 1] == s[i]);
            }
        }
    }
}

proof fn lemma_group_place(s: Seq<TaggedGroup>, tag: Seq<char>, n: int)
    requires
        0 <= n <= s.len(),
        forall|i: int| 0 <= i < n ==> (#[trigger] s[i]).tag@ != tag,
        n < s.len() ==> s[n].tag@ == tag,
    ensures
        group_place(s, tag) == n,
    decreases n,
{
    if n > 0 {
        assert(s[0].tag@ != tag);
        assert forall|i: int| 0 <= i < n - 1 implies (#[trigger] s.skip(1)[i]).tag@ != tag by {
            assert(s.skip(1)[i] == s[i + 1]);
        }
        lemma_group_place(s.skip(1), tag, n - 1);
    }
}

proof fn lemma_group_found(s: Seq<TaggedGroup>, tag: Seq<char>)
    ensures
        0 <= group_place(s, tag) <= s.len(),
        group_place(s, tag) < s.len() ==> s[group_place(s, tag)].tag@ == tag,
        forall|i: int| 0 <= i < group_place(s, tag) ==> (#[trigger] s[i]).tag@ != tag,
    decreases s.len(),
{
    if s.len() > 0 && s[0].tag@ != tag {
        lemma_group_found(s.skip(1), tag);
        assert forall|i: int| 0 <= i < group_place(s, tag) implies (#[trigger] s[i]).tag@ != tag by {
            if i > 0 {
                assert(s.skip(1)[i - 1] == s[i]);
            }
        }
    }
}

impl Outbounds {
    /// Each tag stands for one outbound, and for one group at most.
    pub open spec fn wf(&self) -> bool {
        &&& forall|i: int, j: int|
            0 <= i < j < self.nodes@.len() ==> (#[trigger] self.nodes@[i]).tag@ != (
            #[trigger] self.nodes@[j]).tag@
        &&& forall|i: int, j: int|
            0 <= i < j < self.groups@.len() ==> (#[trigger] self.groups@[i]).tag@ != (
            #[trigger] self.groups@[j]).tag@
    }

    /// What stands under a tag.
    pub open spec fn node_at(&self, tag: Seq<char>) -> Option<Node> {
        let i = node_place(self.nodes@, tag);
        if i < self.nodes@.len() {
            Some(self.nodes@[i].node)
        } else {
            None
        }
    }

    /// The group under a tag.
    pub open spec fn group_at(&self, tag: Seq<char>) -> Option<GroupView> {
        let i = group_place(self.groups@, tag);
        if i < self.groups@.len() {
            Some(self.groups@[i].group@)
        } else {
            None
        }
    }

    /// No outbounds.
    pub fn new() -> (r: Outbounds)
        ensures
            forall|tag: Seq<char>|
                #![trigger r.node_at(tag)]
                #![trigger r.group_at(tag)]
                r.node_at(tag) is None && r.group_at(tag) is None,
            r.nodes@.len() == 0,
            r.groups@.len() == 0,
            r.wf(),
    {
        Outbounds { nodes: Vec::new(), groups: Vec::new() }
    }

    fn find_node(&self, tag: &str) -> (r: usize)
        ensures
            r == node_place(self.nodes@, tag@),
            r <= self.nodes@.len(),
    {
        let mut i: usize = 0;
        while i < self.nodes.len()
            invariant
                i <= self.nodes@.len(),
                forall|j: int| 0 <= j < i ==> (#[trigger] self.nodes@[j]).tag@ != tag@,
            decreases self.nodes@.len() - i,
        {
            if text::same_text(self.nodes[i].tag.as_str(), tag) {
                proof {
                    lemma_node_place(self.nodes@, tag@, i as int);
                }
                return i;
            }
            i = i + 1;
        }
        proof {
            lemma_node_place(self.nodes@, tag@, i as int);
        }
        i
    }

    fn find_group(&self, tag: &str) -> (r: usize)
        ensures
            r == group_place(self.groups@, tag@),
            r <= self.groups@.len(),
    {
        let mut i: usize = 0;
        while i < self.groups.len()
            invariant
                i <= self.groups@.len(),
                forall|j: int| 0 <= j < i ==> (#[trigger] self.groups@[j]).tag@ != tag@,
            decreases self.groups@.len() - i,
        {
            if text::same_text(self.groups[i].tag.as_str(), tag) {
                proof {
                    lemma_group_place(self.groups@, tag@, i as int);
                }
                return i;
            }
            i = i + 1;
        }
        proof {
            lemma_group_place(self.groups@, tag@, i as int);
        }
        i
    }

    fn set_node(&mut self, tag: &str, node: Node)
        ensures
            old(self).wf() ==> final(self).wf(),
            final(self).groups == old(self).groups,
            final(self).node_at(tag@) == Some(node),
            forall|other: Seq<char>|
                other != tag@ ==> #[trigger] final(self).node_at(other) == old(self).node_at(other),
    {
        let i: usize = self.find_node(tag);
        let ghost before = self.nodes@;
        let entry = TaggedNode { tag: text::copy_text(tag), node };
        proof {
            lemma_node_found(before, tag@);
        }
        if i < self.nodes.len() {
            self.nodes.set(i, entry);
        } else {
            self.nodes.push(entry);
        }
        proof {
            let after = self.nodes@;
            lemma_node_place(after, tag@, i as int);
            assert forall|other: Seq<char>| other != tag@ implies #[trigger] self.node_at(other)
                == old(self).node_at(other) by {
                lemma_node_found(before, other);
                let n = node_place(before, other);
                if n < before.len() {
                    assert(n != i);
                    lemma_node_place(after, other, n);
                } else {
                    assert forall|j: int| 0 <= j < after.len() implies (#[trigger] after[j]).tag@
                        != other by {
                        if j < before.len() && j != i {
                            assert(after[j] == before[j]);
                        }
                    }
                    lemma_node_place(after, other, after.len() as int);
                }
            }
        }
    }

    /// Puts an outbound under a tag, in place of what stood there. A group that
    /// stood there stays among the groups.
    pub fn add_leaf(&mut self, tag: &str, kind: DialerKind)
        ensures
            old(self).wf() ==> final(self).wf(),
            final(self).groups == old(self).groups,
            final(self).node_at(tag@) == Some(Node::Leaf(kind)),
            forall|other: Seq<char>|
                other != tag@ ==> #[trigger] final(self).node_at(other) == old(self).node_at(other),
    {
        self.set_node(tag, Node::Leaf(kind));
    }

    /// Puts a group under a tag, in place of what stood there.
    pub fn add_group(&mut self, tag: &str, group: Group)
        ensures
            old(self).wf() ==> final(self).wf(),
            final(self).node_at(tag@) == Some(Node::Group),
            final(self).group_at(tag@) == Some(group@),
            forall|other: Seq<char>|
                other != tag@ ==> #[trigger] final(self).node_at(other) == old(self).node_at(other),
            forall|other: Seq<char>|
                other != tag@ ==> #[trigger] final(self).group_at(other) == old(self).group_at(other),
    {
        let i: usize = self.find_group(tag);
        let ghost before = self.groups@;
        let entry = TaggedGroup { tag: text::copy_text(tag), group };
        proof {
            lemma_group_found(before, tag@);
        }
        if i < self.groups.len() {
            self.groups.set(i, entry);
        } else {
            self.groups.push(entry);
        }
        proof {
            let after = self.groups@;
            lemma_group_place(after, tag@, i as int);
            assert forall|other: Seq<char>| other != tag@ implies #[trigger] self.group_at(other)
                == old(self).group_at(other) by {
                lemma_group_found(before, other);
                let n = group_place(before, other);
                if n < before.len() {
                    assert(n != i);
                    lemma_group_place(after, other, n);
                } else {
                    assert forall|j: int| 0 <= j < after.len() implies (#[trigger] after[j]).tag@
                        != other by {
                        if j < before.len() && j != i {
                            assert(after[j] == before[j]);
                        }
                    }
                    lemma_group_place(after, other, after.len() as int);
                }
            }
        }
        let ghost between = *self;
        self.set_node(tag, Node::Group);
        proof {
            assert forall|other: Seq<char>| other != tag@ implies #[trigger] self.group_at(other)
                == old(self).group_at(other) by {
                assert(self.group_at(other) == between.group_at(other));
            }
        }
    }

    /// Puts the direct outbound under its tag where nothing stands there.
    pub fn add_direct(&mut self)
        ensures
            old(self).wf() ==> final(self).wf(),
            final(self).groups == old(self).groups,
            final(self).node_at("direct"@) == (match old(self).node_at("direct"@) {
                Some(n) => Some(n),
                None => Some(Node::Leaf(DialerKind::Direct)),
            }),
            forall|other: Seq<char>|
                other != "direct"@ ==> #[trigger] final(self).node_at(other) == old(self).node_at(
                    other,
                ),
    {
        let i: usize = self.find_node("direct");
        if i >= self.nodes.len() {
            self.set_node("direct", Node::Leaf(DialerKind::Direct));
        }
    }

    /// Whether a group stands under a tag.
    pub fn is_group(&self, tag: &str) -> (r: bool)
        ensures
            r == (self.group_at(tag@) is Some),
    {
        self.find_group(tag) < self.groups.len()
    }

    /// The group under a tag.
    pub fn group(&self, tag: &str) -> (r: Option<&Group>)
        ensures
            match r {
                Some(g) => self.group_at(tag@) == Some(g@),
                None => self.group_at(tag@) is None,
            },
    {
        let i: usize = self.find_group(tag);
        if i < self.groups.len() {
            Some(&self.groups[i].group)
        } else {
            None
        }
    }

    /// Selects a member of the group under a tag.
    pub fn select(&mut self, tag: &str, member: &str) -> (r: bool)
        ensures
            old(self).wf() ==> final(self).wf(),
            r == (old(self).group_at(tag@) matches Some(g) && g.members.contains(member@)),
            final(self).nodes == old(self).nodes,
            final(self).tags() == old(self).tags(),
            r ==> final(self).group_at(tag@) == Some(
                GroupView { selected: member@, ..old(self).group_at(tag@)->0 },
            ),
            !r ==> final(self).group_at(tag@) == old(self).group_at(tag@),
            forall|other: Seq<char>|
                other != tag@ ==> #[trigger] final(self).group_at(other) == old(self).group_at(other),
    {
        let i: usize = self.find_group(tag);
        let ghost before = self.groups@;
        proof {
            lemma_group_found(before, tag@);
        }
        if i >= self.groups.len() {
            return false;
        }
        let mut entry = self.groups.remove(i);
        let r = entry.group.select(member);
        self.groups.insert(i, entry);
        proof {
            let after = self.groups@;
            assert(after.len() == before.len());
            assert forall|j: int| 0 <= j < after.len() implies (#[trigger] after[j]).tag@
                == before[j].tag@ && (j != i ==> after[j] == before[j]) by {}
            lemma_group_place(after, tag@, i as int);
            assert forall|other: Seq<char>| other != tag@ implies #[trigger] self.group_at(other)
                == old(self).group_at(other) by {
                lemma_group_found(before, other);
                lemma_group_place(after, other, group_place(before, other));
            }
            assert(group_tags(after) =~= group_tags(before));
            lemma_same_other_tags(self.nodes@, before, after);
            if old(self).wf() {
                assert forall|a: int, b: int| 0 <= a < b < after.len() implies (
                #[trigger] after[a]).tag@ != (#[trigger] after[b]).tag@ by {
                    assert(before[a].tag@ != before[b].tag@);
                }
            }
        }
        r
    }

    /// The outbound that a tag leads to through so many steps: what stands there,
    /// or what the selected member of the group there leads to.
    pub open spec fn leads_to(&self, tag: Seq<char>, steps: nat) -> Option<DialerKind>
        decreases steps,
    {
        if steps == 0 {
            None
        } else {
            match self.node_at(tag) {
                None => None,
                Some(Node::Leaf(kind)) => Some(kind),
                Some(Node::Group) => match self.group_at(tag) {
                    None => None,
                    Some(g) => self.leads_to(g.selected, (steps - 1) as nat),
                },
            }
        }
    }

    /// The outbound that a tag leads to, through at most eight steps.
    pub fn resolve(&self, tag: &str) -> (r: Option<DialerKind>)
        ensures
            r == self.leads_to(tag@, 8),
    {
        let mut current = text::copy_text(tag);
        let mut left: u8 = 8;
        while left > 0
            invariant
                left <= 8,
                self.leads_to(tag@, 8) == self.leads_to(current@, left as nat),
            decreases left,
        {
            let i: usize = self.find_node(current.as_str());
            if i >= self.nodes.len() {
                return None;
            }
            match self.nodes[i].node {
                Node::Leaf(kind) => {
                    return Some(kind);
                },
                Node::Group => {
                    let next = match self.group(current.as_str()) {
                        None => {
                            return None;
                        },
                        Some(g) => g.now(),
                    };
                    current = next;
                },
            }
            left = left - 1;
        }
        None
    }

    /// All tags: those of the groups, then those of the outbounds that are none.
    pub open spec fn tags(&self) -> Seq<Seq<char>> {
        group_tags(self.groups@) + other_tags(self.nodes@, self.groups@)
    }

    /// All tags: those of the groups, then those of the outbounds that are none.
    pub fn outbound_tags(&self) -> (r: Vec<String>)
        ensures
            text::texts(r@) == self.tags(),
    {
        let mut r: Vec<String> = Vec::new();
        let mut i: usize = 0;
        while i < self.groups.len()
            invariant
                i <= self.groups@.len(),
                text::texts(r@) =~= group_tags(self.groups@).take(i as int),
            decreases self.groups@.len() - i,
        {
            let ghost before = text::texts(r@);
            r.push(text::copy_text(self.groups[i].tag.as_str()));
            proof {
                assert(text::texts(r@) =~= before.push(self.groups@[i as int].tag@));
            }
            i = i + 1;
        }
        let ghost front = group_tags(self.groups@);
        let mut k: usize = 0;
        proof {
            assert(text::texts(r@) =~= front);
            assert(self.nodes@.take(0) =~= Seq::<TaggedNode>::empty());
            assert(front + other_tags(self.nodes@.take(0), self.groups@) =~= front);
        }
        while k < self.nodes.len()
            invariant
                k <= self.nodes@.len(),
                front == group_tags(self.groups@),
                text::texts(r@) == front + other_tags(self.nodes@.take(k as int), self.groups@),
            decreases self.nodes@.len() - k,
        {
            let ghost before = text::texts(r@);
            proof {
                assert(self.nodes@.take(k + 1).drop_last() =~= self.nodes@.take(k as int));
                assert(self.nodes@.take(k + 1).last() == self.nodes@[k as int]);
            }
            let tag = self.nodes[k].tag.as_str();
            if !self.is_group(tag) {
                r.push(text::copy_text(tag));
                proof {
                    assert(text::texts(r@) =~= before.push(tag@));
                    assert(before.push(tag@) =~= front + other_tags(
                        self.nodes@.take(k as int),
                        self.groups@,
                    ).push(tag@));
                }
            }
            k = k + 1;
        }
        proof {
            assert(self.nodes@.take(k as int) =~= self.nodes@);
        }
        r
    }
}

/// The tags of groups.
pub open spec fn group_tags(s: Seq<TaggedGroup>) -> Seq<Seq<char>> {
    s.map_values(|g: TaggedGroup| g.tag@)
}

/// The tags of outbounds under which no group stands.
pub open spec fn other_tags(s: Seq<TaggedNode>, groups: Seq<TaggedGroup>) -> Seq<Seq<char>>
    decreases s.len(),
{
    if s.len() == 0 {
        Seq::empty()
    } else if group_place(groups, s.last().tag@) < groups.len() {
        other_tags(s.drop_last(), groups)
    } else {
        other_tags(s.drop_last(), groups).push(s.last().tag@)
    }
}

/// Where groups stand under the same tags, no group stands under the same others.
proof fn lemma_same_other_tags(
    nodes: Seq<TaggedNode>,
    before: Seq<TaggedGroup>,
    after: Seq<TaggedGroup>,
)
    requires
        group_tags(before) == group_tags(after),
    ensures
        other_tags(nodes, before) == other_tags(nodes, after),
    decreases nodes.len(),
{
    if nodes.len() > 0 {
        let tag = nodes.last().tag@;
        assert(before.len() == group_tags(before).len());
        assert(after.len() == group_tags(after).len());
        assert forall|j: int| 0 <= j < after.len() implies (#[trigger] after[j]).tag@
            == before[j].tag@ by {
            assert(group_tags(after)[j] == group_tags(before)[j]);
        }
        lemma_group_found(before, tag);
        lemma_group_place(after, tag, group_place(before, tag));
        lemma_same_other_tags(nodes.drop_last(), before, after);
    }
}

// ---- laws ----

proof fn lemma_other_tags(nodes: Seq<TaggedNode>, groups: Seq<TaggedGroup>)
    ensures
        forall|t: Seq<char>| #[trigger]
            other_tags(nodes, groups).contains(t) ==> group_place(groups, t) == groups.len()
                && exists|i: int| 0 <= i < nodes.len() && (#[trigger] nodes[i]).tag@ == t,
        (forall|i: int, j: int|
            0 <= i < j < nodes.len() ==> (#[trigger] nodes[i]).tag@ != (#[trigger] nodes[j]).tag@)
            ==> other_tags(nodes, groups).no_duplicates(),
    decreases nodes.len(),
{
    if nodes.len() > 0 {
        let rest = nodes.drop_last();
        let tag = nodes.last().tag@;
        let some = other_tags(rest, groups);
        let all = other_tags(nodes, groups);
        lemma_other_tags(rest, groups);
        lemma_group_found(groups, tag);
        assert forall|t: Seq<char>| #[trigger] all.contains(t) implies group_place(groups, t)
            == groups.len() && exists|i: int|
            0 <= i < nodes.len() && (#[trigger] nodes[i]).tag@ == t by {
            let k = choose|k: int| 0 <= k < all.len() && all[k] == t;
            if k < some.len() {
                assert(some[k] == t);
                assert(some.contains(t));
                let i = choose|i: int| 0 <= i < rest.len() && (#[trigger] rest[i]).tag@ == t;
                assert(nodes[i].tag@ == t);
            } else {
                assert(nodes[nodes.len() - 1].tag@ == t);
            }
        }
        if forall|i: int, j: int|
            0 <= i < j < nodes.len() ==> (#[trigger] nodes[i]).tag@ != (#[trigger] nodes[j]).tag@ {
            assert forall|i: int, j: int| 0 <= i < j < rest.len() implies (
            #[trigger] rest[i]).tag@ != (#[trigger] rest[j]).tag@ by {
                assert(nodes[i].tag@ != nodes[j].tag@);
            }
            assert(some.no_duplicates());
            assert(!some.contains(tag)) by {
                if some.contains(tag) {
                    let i = choose|i: int| 0 <= i < rest.len() && (#[trigger] rest[i]).tag@ == tag;
                    assert(nodes[i].tag@ != nodes[nodes.len() - 1].tag@);
                }
            }
            assert forall|i: int, j: int|
                0 <= i < all.len() && 0 <= j < all.len() && i != j implies all[i] != all[j] by {
                if i < some.len() && j < some.len() {
                    assert(some[i] != some[j]);
                } else if i < some.len() {
                    assert(some.contains(some[i]));
                } else if j < some.len() {
                    assert(some.contains(some[j]));
                }
            }
        }
    }
}

/// Each tag is listed once.
pub proof fn each_tag_is_listed_once(o: Outbounds)
    requires
        o.wf(),
    ensures
        o.tags().no_duplicates(),
{
    let front = group_tags(o.groups@);
    let back = other_tags(o.nodes@, o.groups@);
    lemma_other_tags(o.nodes@, o.groups@);
    assert forall|i: int, j: int|
        0 <= i < o.tags().len() && 0 <= j < o.tags().len() && i < j implies o.tags()[i]
        != o.tags()[j] by {
        if j < front.len() {
            assert(o.groups@[i].tag@ != o.groups@[j].tag@);
        } else if i < front.len() {
            let t = back[j - front.len()];
            assert(back.contains(t));
            lemma_group_found(o.groups@, t);
            assert(o.groups@[i].tag@ != t);
        } else {
            assert(back[i - front.len()] != back[j - front.len()]);
        }
    }
}

/// A group leads where its selected member leads.
pub proof fn a_group_leads_where_its_member_does(o: Outbounds, tag: Seq<char>, steps: nat)
    requires
        o.node_at(tag) == Some(Node::Group),
        o.group_at(tag) is Some,
    ensures
        o.leads_to(tag, steps + 1) == o.leads_to(o.group_at(tag)->0.selected, steps),
{
}

/// A group whose selected member is itself leads nowhere.
pub proof fn a_circle_leads_nowhere(o: Outbounds, tag: Seq<char>, steps: nat)
    requires
        o.node_at(tag) == Some(Node::Group),
        o.group_at(tag) matches Some(g) && g.selected == tag,
    ensures
        o.leads_to(tag, steps) is None,
    decreases steps,
{
    if steps > 0 {
        a_circle_leads_nowhere(o, tag, (steps - 1) as nat);
    }
}

/// What a tag leads to in some steps, it leads to in more of them.
pub proof fn more_steps_change_nothing(o: Outbounds, tag: Seq<char>, steps: nat, more: nat)
    requires
        o.leads_to(tag, steps) is Some,
        steps <= more,
    ensures
        o.leads_to(tag, more) == o.leads_to(tag, steps),
    decreases steps,
{
    match o.node_at(tag) {
        Some(Node::Group) => match o.group_at(tag) {
            Some(g) => {
                more_steps_change_nothing(
                    o,
                    g.selected,
                    (steps - 1) as nat,
                    (more - 1) as nat,
                );
            },
            None => {},
        },
        _ => {},
    }
}

/// A member that answers takes over from the best so far only where it is faster by
/// more than the tolerance; the first that answers is the best until then, and one
/// that does not answer changes nothing.
pub proof fn a_member_takes_over_only_if_it_is_much_faster(
    delays: Seq<Option<u16>>,
    delay: u16,
    tolerance: u16,
)
    requires
        delays.len() < usize::MAX,
    ensures
        best_of(delays.push(None), tolerance) == best_of(delays, tolerance),
        best_of(delays, tolerance) is None ==> best_of(delays.push(Some(delay)), tolerance) == Some(
            (delays.len() as usize, delay),
        ),
        best_of(delays, tolerance) matches Some((member, best)) ==> best_of(
            delays.push(Some(delay)),
            tolerance,
        ) == (if delay + tolerance < best {
            Some((delays.len() as usize, delay))
        } else {
            Some((member, best))
        }),
{
    assert(delays.push(None).drop_last() =~= delays);
    assert(delays.push(Some(delay)).drop_last() =~= delays);
}

/// Each tag leads to what was added under it, and no other tag leads anywhere.
pub proof fn tags_lead_to_their_own(o: Outbounds, i: int, steps: nat)
    requires
        o.wf(),
        0 <= i < o.nodes@.len(),
        steps > 0,
    ensures
        o.node_at(o.nodes@[i].tag@) == Some(o.nodes@[i].node),
        o.nodes@[i].node matches Node::Leaf(kind) ==> o.leads_to(o.nodes@[i].tag@, steps) == Some(
            kind,
        ),
{
    lemma_own_place(o.nodes@, i);
}

proof fn lemma_own_place(s: Seq<TaggedNode>, i: int)
    requires
        0 <= i < s.len(),
        forall|a: int, b: int|
            0 <= a < b < s.len() ==> (#[trigger] s[a]).tag@ != (#[trigger] s[b]).tag@,
    ensures
        node_place(s, s[i].tag@) == i,
    decreases i,
{
    if i > 0 {
        let rest = s.skip(1);
        assert(s[0].tag@ != s[i].tag@);
        assert forall|a: int, b: int| 0 <= a < b < rest.len() implies (#[trigger] rest[a]).tag@ != (
        #[trigger] rest[b]).tag@ by {
            assert(rest[a] == s[a + 1] && rest[b] == s[b + 1]);
        }
        assert(rest[i - 1] == s[i]);
        lemma_own_place(rest, i - 1);
    }
}

} // verus!
