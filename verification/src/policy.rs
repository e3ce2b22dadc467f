//! Where a broadcast message goes next.
use vstd::prelude::*;
use crate::json::{Json, JsonView};
use crate::node::texts;
use crate::strmap::{
    lemma_sorted_listing, lemma_sorted_unique, sorted_listing, sorted_texts, StrMap,
};
use crate::text::{lemma_text_lt_irreflexive, same_text, text_lt};

verus! {

/// The number of members of a group.
pub const GROUP_SIZE: usize = 5;

/// The nodes of a network, each with its neighbors.
pub type Topology = StrMap<Vec<String>>;

/// The neighbors of each node.
pub open spec fn neighbors_of(t: Topology) -> Map<Seq<char>, Seq<Seq<char>>> {
    t@.map_values(|v: Vec<String>| texts(v@))
}

/// The strings without those that are `me`.
pub open spec fn others(s: Seq<Seq<char>>, me: Seq<char>) -> Seq<Seq<char>>
    decreases s.len(),
{
    if s.len() == 0 {
        Seq::empty()
    } else if s.last() == me {
        others(s.drop_last(), me)
    } else {
        others(s.drop_last(), me).push(s.last())
    }
}

/// Hops to all of `dests` with the same metadata.
pub open spec fn hops_to(dests: Seq<Seq<char>>, meta: JsonView) -> Seq<(Seq<char>, JsonView)> {
    dests.map_values(|d: Seq<char>| (d, meta))
}

/// What hops are: destinations and metadata.
pub open spec fn hop_views(hops: Seq<(String, Json)>) -> Seq<(Seq<char>, JsonView)> {
    hops.map_values(|h: (String, Json)| (h.0@, h.1@))
}

/// The other members of the group of `me`: nodes are numbered in the order of
/// their names, and a group is `GROUP_SIZE` of them in a row.
pub open spec fn group_members_of(names: Seq<Seq<char>>, me: Seq<char>) -> Seq<Seq<char>> {
    let start = names.index_of(me) / (GROUP_SIZE as int) * GROUP_SIZE;
    let end = if start + GROUP_SIZE < names.len() {
        start + GROUP_SIZE
    } else {
        names.len() as int
    };
    others(names.subrange(start, end), me)
}

/// The first members of the first `count` groups but for the group `ours`.
pub open spec fn representatives(names: Seq<Seq<char>>, ours: int, count: nat) -> Seq<Seq<char>>
    decreases count,
{
    if count == 0 {
        Seq::empty()
    } else if count - 1 == ours {
        representatives(names, ours, (count - 1) as nat)
    } else {
        representatives(names, ours, (count - 1) as nat).push(names[(count - 1) * GROUP_SIZE])
    }
}

/// The number of groups of `n` nodes.
pub open spec fn group_count(n: nat) -> nat {
    (n + GROUP_SIZE - 1) as nat / (GROUP_SIZE as nat)
}

/// The first member of every group but that of `me`.
pub open spec fn other_group_reps_of(names: Seq<Seq<char>>, me: Seq<char>) -> Seq<Seq<char>> {
    representatives(
        names,
        names.index_of(me) / (GROUP_SIZE as int),
        group_count(names.len()),
    )
}

/// A policy for forwarding.
#[verifier::ext_equal]
pub enum PolicyView {
    Simple { node_id: Seq<char>, neighbors: Seq<Seq<char>> },
    Direct { node_id: Seq<char>, all_others: Seq<Seq<char>> },
    Group { group_members: Seq<Seq<char>>, other_group_reps: Seq<Seq<char>> },
}

impl PolicyView {
    /// The next hops of a message that came with the metadata `meta`.
    ///
    /// Simple: all neighbors but the sender, which the metadata names. Direct: all
    /// other nodes, unless a node relayed the message. Group: a message from a
    /// client goes to the own group and to the representatives of the other
    /// groups; one from another group goes to the own group; one from the own
    /// group goes nowhere.
    pub open spec fn hops(self, meta: JsonView) -> Seq<(Seq<char>, JsonView)> {
        match self {
            PolicyView::Simple { node_id, neighbors } => hops_to(
                others(neighbors, meta.text_or_empty()),
                JsonView::Text(node_id),
            ),
            PolicyView::Direct { node_id, all_others } => if meta is Text {
                Seq::empty()
            } else {
                hops_to(all_others, JsonView::Text(node_id))
            },
            PolicyView::Group { group_members, other_group_reps } => if meta == JsonView::Text(
                "intra"@,
            ) {
                Seq::empty()
            } else if meta == JsonView::Text("inter"@) {
                hops_to(group_members, JsonView::Text("intra"@))
            } else {
                hops_to(group_members, JsonView::Text("intra"@)) + hops_to(
                    other_group_reps,
                    JsonView::Text("inter"@),
                )
            },
        }
    }
}

/// Computes the next hops of a broadcast message from the metadata that it came
/// with: destinations, each with the metadata to send along.
pub trait ForwardPolicy {
    spec fn policy(&self) -> PolicyView;

    fn next_hops(&self, incoming_meta: &Json) -> (r: Vec<(String, Json)>)
        ensures
            hop_views(r@) == self.policy().hops(incoming_meta@),
    ;
}

/// Forwards to all neighbors but the immediate sender.
#[derive(Debug)]
pub struct SimplePolicy {
    pub node_id: String,
    pub neighbors: Vec<String>,
}

/// Sends a message of a client to every other node at once.
#[derive(Debug)]
pub struct DirectPolicy {
    pub node_id: String,
    pub all_others: Vec<String>,
}

/// Sends a message of a client to the own group and to one representative of each
/// other group, which passes it on to its group.
#[derive(Debug)]
pub struct GroupPolicy {
    /// The other nodes of our group.
    pub group_members: Vec<String>,
    /// The first node of every other group.
    pub other_group_reps: Vec<String>,
}

/// Appends hops to all of `dests` with the same metadata.
pub(crate) fn add_hops(hops: &mut Vec<(String, Json)>, dests: &Vec<String>, meta: &Json)
    ensures
        hop_views(final(hops)@) == hop_views(old(hops)@) + hops_to(texts(dests@), meta@),
{
    let ghost before = hop_views(hops@);
    let mut i: usize = 0;
    assert(before =~= before + hops_to(texts(dests@), meta@).take(0));
    while i < dests.len()
        invariant
            i <= dests@.len(),
            hop_views(hops@) == before + hops_to(texts(dests@), meta@).take(i as int),
        decreases dests@.len() - i,
    {
        let ghost done = hops@;
        hops.push((dests[i].clone(), meta.clone()));
        assert(hop_views(hops@) =~= hop_views(done).push((dests@[i as int]@, meta@)));
        assert(hop_views(hops@) =~= before + hops_to(texts(dests@), meta@).take(i + 1));
        i = i + 1;
    }
    assert(hops_to(texts(dests@), meta@).take(i as int) =~= hops_to(texts(dests@), meta@));
}

/// The strings of a part of a vector without those that are `me`.
pub(crate) fn collect_others(v: &Vec<String>, start: usize, end: usize, me: &str) -> (r: Vec<String>)
    requires
        start <= end <= v@.len(),
    ensures
        texts(r@) == others(texts(v@).subrange(start as int, end as int), me@),
{
    let mut r: Vec<String> = Vec::new();
    let mut i: usize = start;
    let ghost all = texts(v@);
    assert(texts(r@) =~= others(all.subrange(start as int, start as int), me@));
    while i < end
        invariant
            start <= i <= end <= v@.len(),
            all == texts(v@),
            texts(r@) == others(all.subrange(start as int, i as int), me@),
        decreases end - i,
    {
        let ghost upto = all.subrange(start as int, i + 1);
        assert(upto.drop_last() =~= all.subrange(start as int, i as int));
        assert(upto.last() == v@[i as int]@);
        if !same_text(v[i].as_str(), me) {
            let ghost done = r@;
            r.push(v[i].clone());
            assert(texts(r@) =~= texts(done).push(v@[i as int]@));
        }
        i = i + 1;
    }
    r
}

/// The names of the nodes in their order.
fn sorted_names(topology: &Topology) -> (r: Vec<String>)
    ensures
        texts(r@) == sorted_listing(topology@.dom()),
        sorted_texts(texts(r@)),
        texts(r@).to_set() == topology@.dom(),
{
    let mut r: Vec<String> = Vec::new();
    let mut i: usize = 0;
    while i < topology.len()
        invariant
            i <= topology.items().len(),
            r@.len() == i,
            forall|j: int| 0 <= j < i ==> #[trigger] r@[j]@ == topology.items()[j].0@,
        decreases topology.items().len() - i,
    {
        r.push(topology.key_at(i).clone());
        i = i + 1;
    }
    proof {
        use_type_invariant(topology);
        topology.lemma_names();
        assert(texts(r@) =~= topology.names());
    }
    r
}

impl SimplePolicy {
    /// Makes the policy of a node with these neighbors.
    pub fn new(neighbors: Vec<String>, node_id: &str) -> (r: Self)
        ensures
            r.policy() == (PolicyView::Simple {
                node_id: node_id@,
                neighbors: texts(neighbors@),
            }),
    {
        SimplePolicy { node_id: node_id.to_owned(), neighbors }
    }
}

impl ForwardPolicy for SimplePolicy {
    open spec fn policy(&self) -> PolicyView {
        PolicyView::Simple { node_id: self.node_id@, neighbors: texts(self.neighbors@) }
    }

    fn next_hops(&self, incoming_meta: &Json) -> (r: Vec<(String, Json)>) {
        let sender = incoming_meta.text_or_empty();
        let dests = collect_others(&self.neighbors, 0, self.neighbors.len(), sender.as_str());
        assert(texts(self.neighbors@).subrange(0, self.neighbors@.len() as int) =~= texts(
            self.neighbors@,
        ));
        let mut hops: Vec<(String, Json)> = Vec::new();
        add_hops(&mut hops, &dests, &Json::text(self.node_id.as_str()));
        assert(hop_views(hops@) =~= self.policy().hops(incoming_meta@));
        hops
    }
}

impl DirectPolicy {
    /// Makes the policy of a node of the network.
    pub fn new(topology: &Topology, node_id: &str) -> (r: Self)
        ensures
            r.policy() == direct_policy(sorted_listing(topology@.dom()), node_id@),
    {
        let names = sorted_names(topology);
        let all_others = collect_others(&names, 0, names.len(), node_id);
        assert(texts(names@).subrange(0, names@.len() as int) =~= texts(names@));
        DirectPolicy { node_id: node_id.to_owned(), all_others }
    }
}

impl ForwardPolicy for DirectPolicy {
    open spec fn policy(&self) -> PolicyView {
        PolicyView::Direct { node_id: self.node_id@, all_others: texts(self.all_others@) }
    }

    fn next_hops(&self, incoming_meta: &Json) -> (r: Vec<(String, Json)>) {
        let mut hops: Vec<(String, Json)> = Vec::new();
        if incoming_meta.as_text().is_none() {
            add_hops(&mut hops, &self.all_others, &Json::text(self.node_id.as_str()));
        }
        assert(hop_views(hops@) =~= self.policy().hops(incoming_meta@));
        hops
    }
}

/// The index of a name among names that hold it.
fn position_of(names: &Vec<String>, name: &str) -> (r: usize)
    requires
        texts(names@).contains(name@),
    ensures
        r < names@.len(),
        names@[r as int]@ == name@,
{
    let mut i: usize = 0;
    while !same_text(names[i].as_str(), name)
        invariant
            i < names@.len(),
            texts(names@).contains(name@),
            forall|j: int| 0 <= j < i ==> #[trigger] names@[j]@ != name@,
        decreases names@.len() - i,
    {
        proof {
            let k = texts(names@).index_of(name@);
            assert(names@[k]@ == name@);
            assert(i < k < names.len());
        }
        i = i + 1;
    }
    i
}

impl GroupPolicy {
    /// Makes the policy of a node of the network.
    pub fn new(topology: &Topology, node_id: &str) -> (r: Self)
        requires
            topology@.contains_key(node_id@),
        ensures
            r.policy() == group_policy(sorted_listing(topology@.dom()), node_id@),
    {
        let nodes = sorted_names(topology);
        let ghost names = texts(nodes@);
        let num_nodes = nodes.len();
        assert(names.to_set().contains(node_id@));

        let our_idx = position_of(&nodes, node_id);
        proof {
            lemma_index_unique(names, our_idx as int);
        }
        let our_group = our_idx / GROUP_SIZE;
        let group_start = our_group * GROUP_SIZE;
        let group_end = if num_nodes - group_start <= GROUP_SIZE {
            num_nodes
        } else {
            group_start + GROUP_SIZE
        };
        let group_members = collect_others(&nodes, group_start, group_end, node_id);

        let num_groups = if num_nodes % GROUP_SIZE == 0 {
            num_nodes / GROUP_SIZE
        } else {
            num_nodes / GROUP_SIZE + 1
        };
        let mut other_group_reps: Vec<String> = Vec::new();
        let mut g: usize = 0;
        assert(texts(other_group_reps@) =~= representatives(names, our_group as int, 0));
        while g < num_groups
            invariant
                g <= num_groups,
                num_nodes == nodes@.len(),
                num_groups == group_count(num_nodes as nat),
                names == texts(nodes@),
                texts(other_group_reps@) == representatives(names, our_group as int, g as nat),
            decreases num_groups - g,
        {
            if g != our_group {
                let ghost done = other_group_reps@;
                other_group_reps.push(nodes[g * GROUP_SIZE].clone());
                assert(texts(other_group_reps@) =~= texts(done).push(names[g * GROUP_SIZE]));
            }
            g = g + 1;
        }
        GroupPolicy { group_members, other_group_reps }
    }
}

impl ForwardPolicy for GroupPolicy {
    open spec fn policy(&self) -> PolicyView {
        PolicyView::Group {
            group_members: texts(self.group_members@),
            other_group_reps: texts(self.other_group_reps@),
        }
    }

    fn next_hops(&self, incoming_meta: &Json) -> (r: Vec<(String, Json)>) {
        let mut hops: Vec<(String, Json)> = Vec::new();
        if !incoming_meta.is_text("intra") {
            add_hops(&mut hops, &self.group_members, &Json::text("intra"));
            if !incoming_meta.is_text("inter") {
                add_hops(&mut hops, &self.other_group_reps, &Json::text("inter"));
            }
        }
        assert(hop_views(hops@) =~= self.policy().hops(incoming_meta@));
        hops
    }
}

/// The group policy of the node `me` among nodes of these names.
pub open spec fn group_policy(names: Seq<Seq<char>>, me: Seq<char>) -> PolicyView {
    PolicyView::Group {
        group_members: group_members_of(names, me),
        other_group_reps: other_group_reps_of(names, me),
    }
}

/// In sorted names each name has one index.
proof fn lemma_index_unique(names: Seq<Seq<char>>, i: int)
    requires
        sorted_texts(names),
        0 <= i < names.len(),
    ensures
        names.index_of(names[i]) == i,
{
    let j = names.index_of(names[i]);
    assert(names.contains(names[i]));
    assert(names[j] == names[i]);
    lemma_text_lt_irreflexive(names[i]);
    if i < j {
        assert(text_lt(names[i], names[j]));
    }
    if j < i {
        assert(text_lt(names[j], names[i]));
    }
}

/// The destinations of hops.
pub open spec fn dests_of(hops: Seq<(Seq<char>, JsonView)>) -> Seq<Seq<char>> {
    hops.map_values(|h: (Seq<char>, JsonView)| h.0)
}

/// The hops that follow hops: each destination forwards by its own group policy.
pub open spec fn group_wave(
    names: Seq<Seq<char>>,
    hops: Seq<(Seq<char>, JsonView)>,
) -> Seq<(Seq<char>, JsonView)>
    decreases hops.len(),
{
    if hops.len() == 0 {
        Seq::empty()
    } else {
        group_wave(names, hops.drop_last()) + group_policy(names, hops.last().0).hops(
            hops.last().1,
        )
    }
}

/// The members of the groups of nodes, but for these nodes.
spec fn members_of_all(names: Seq<Seq<char>>, nodes: Seq<Seq<char>>) -> Seq<Seq<char>>
    decreases nodes.len(),
{
    if nodes.len() == 0 {
        Seq::empty()
    } else {
        members_of_all(names, nodes.drop_last()) + group_members_of(names, nodes.last())
    }
}

/// What is left without `me` is all but `me`, and all of it where `me` is not there.
pub(crate) proof fn lemma_others(s: Seq<Seq<char>>, me: Seq<char>)
    ensures
        forall|x: Seq<char>| #[trigger] others(s, me).contains(x) <==> s.contains(x) && x != me,
        s.no_duplicates() ==> others(s, me).no_duplicates(),
        !s.contains(me) ==> others(s, me) == s,
    decreases s.len(),
{
    if s.len() > 0 {
        let rest = s.drop_last();
        lemma_others(rest, me);
        assert(s =~= rest.push(s.last()));
        assert forall|x: Seq<char>| #[trigger] others(s, me).contains(x) <==> s.contains(x) && x
            != me by {
            if s.contains(x) {
                let i = s.index_of(x);
                if i < rest.len() {
                    assert(rest[i] == x);
                }
            }
            if rest.contains(x) {
                assert(s[rest.index_of(x)] == x);
            }
            if others(rest, me).contains(x) && s.last() != me {
                assert(others(s, me)[others(rest, me).index_of(x)] == x);
            }
            if others(s, me).contains(x) && s.last() != me {
                let i = others(s, me).index_of(x);
                if i < others(rest, me).len() {
                    assert(others(rest, me)[i] == x);
                }
            }
            if x == s.last() && x != me {
                assert(others(s, me).last() == x);
            }
            assert(others(rest, me).contains(x) <==> rest.contains(x) && x != me);
        }
        if s.no_duplicates() {
            assert(rest.no_duplicates());
            assert(!rest.contains(s.last()));
            assert(!others(rest, me).contains(s.last()));
        }
        if !s.contains(me) {
            assert(s[s.len() - 1] != me);
            assert(!rest.contains(me)) by {
                if rest.contains(me) {
                    assert(s[rest.index_of(me)] == me);
                }
            }
        }
    }
}

proof fn lemma_sorted_no_duplicates(names: Seq<Seq<char>>)
    requires
        sorted_texts(names),
    ensures
        names.no_duplicates(),
{
    assert forall|i: int, j: int|
        0 <= i < names.len() && 0 <= j < names.len() && i != j implies names[i] != names[j] by {
        lemma_text_lt_irreflexive(names[i]);
        if i < j {
            assert(text_lt(names[i], names[j]));
        } else {
            assert(text_lt(names[j], names[i]));
        }
    }
}

proof fn lemma_group_members(names: Seq<Seq<char>>, i: int)
    requires
        sorted_texts(names),
        0 <= i < names.len(),
    ensures
        group_members_of(names, names[i]).no_duplicates(),
        forall|j: int|
            0 <= j < names.len() ==> (group_members_of(names, names[i]).contains(
                #[trigger] names[j],
            ) <==> j / 5 == i / 5 && j != i),
        forall|x: Seq<char>| #[trigger]
            group_members_of(names, names[i]).contains(x) ==> names.contains(x),
{
    lemma_index_unique(names, i);
    lemma_sorted_no_duplicates(names);
    let start = i / 5 * 5;
    let end = if start + 5 < names.len() {
        start + 5
    } else {
        names.len() as int
    };
    let group = names.subrange(start, end);
    lemma_others(group, names[i]);
    assert forall|j: int| 0 <= j < names.len() implies (group.contains(#[trigger] names[j]) <==> j
        / 5 == i / 5) by {
        if group.contains(names[j]) {
            let k = group.index_of(names[j]);
            assert(names[start + k] == names[j]);
        }
        if j / 5 == i / 5 {
            assert(group[j - start] == names[j]);
        }
    }
    assert forall|x: Seq<char>| #[trigger] group.contains(x) implies names.contains(x) by {
        assert(names[start + group.index_of(x)] == x);
    }
}

proof fn lemma_representatives(names: Seq<Seq<char>>, ours: int, count: nat)
    requires
        sorted_texts(names),
        count > 0 ==> (count - 1) * 5 < names.len(),
    ensures
        representatives(names, ours, count).no_duplicates(),
        forall|j: int|
            0 <= j < names.len() ==> (representatives(names, ours, count).contains(
                #[trigger] names[j],
            ) <==> j % 5 == 0 && j / 5 != ours && j / 5 < count),
        forall|x: Seq<char>| #[trigger]
            representatives(names, ours, count).contains(x) ==> names.contains(x),
        members_of_all(names, representatives(names, ours, count)).no_duplicates(),
        forall|j: int|
            0 <= j < names.len() ==> (members_of_all(
                names,
                representatives(names, ours, count),
            ).contains(#[trigger] names[j]) <==> j % 5 != 0 && j / 5 != ours && j / 5 < count),
        forall|x: Seq<char>| #[trigger]
            members_of_all(names, representatives(names, ours, count)).contains(x)
                ==> names.contains(x),
    decreases count,
{
    lemma_sorted_no_duplicates(names);
    if count > 0 {
        let before = (count - 1) as nat;
        lemma_representatives(names, ours, before);
        let g = count - 1;
        if g != ours {
            let rep = names[g * 5];
            let reps = representatives(names, ours, before);
            let more = representatives(names, ours, count);
            assert(more == reps.push(rep));
            assert(more.drop_last() =~= reps);
            let done = members_of_all(names, reps);
            let members = group_members_of(names, rep);
            assert(members_of_all(names, more) == done + members);
            lemma_group_members(names, g * 5);
            lemma_push_contains(reps, rep);
            lemma_concat_contains(done, members);
            assert(!reps.contains(names[g * 5]));
            assert forall|i: int, k: int| 0 <= i < done.len() && 0 <= k < members.len() implies done[i]
                != members[k] by {
                assert(done.contains(done[i]));
                assert(members.contains(members[k]));
                let a = names.index_of(done[i]);
                let b = names.index_of(members[k]);
                assert(done.contains(names[a]));
                assert(members.contains(names[b]));
            }
            vstd::seq_lib::lemma_no_dup_in_concat(done, members);
        }
    }
}

proof fn lemma_push_contains(s: Seq<Seq<char>>, x: Seq<char>)
    ensures
        forall|y: Seq<char>| #[trigger] s.push(x).contains(y) <==> s.contains(y) || y == x,
{
    assert forall|y: Seq<char>| #[trigger] s.push(x).contains(y) <==> s.contains(y) || y == x by {
        if s.push(x).contains(y) {
            let i = s.push(x).index_of(y);
            if i < s.len() {
                assert(s[i] == y);
            }
        }
        if s.contains(y) {
            assert(s.push(x)[s.index_of(y)] == y);
        }
        assert(s.push(x)[s.len() as int] == x);
    }
}

proof fn lemma_concat_contains(a: Seq<Seq<char>>, b: Seq<Seq<char>>)
    ensures
        forall|y: Seq<char>| #[trigger] (a + b).contains(y) <==> a.contains(y) || b.contains(y),
{
    assert forall|y: Seq<char>| #[trigger] (a + b).contains(y) <==> a.contains(y) || b.contains(y) by {
        if (a + b).contains(y) {
            let i = (a + b).index_of(y);
            if i < a.len() {
                assert(a[i] == y);
            } else {
                assert(b[i - a.len()] == y);
            }
        }
        if a.contains(y) {
            assert((a + b)[a.index_of(y)] == y);
        }
        if b.contains(y) {
            assert((a + b)[a.len() + b.index_of(y)] == y);
        }
    }
}

proof fn lemma_wave_concat(
    names: Seq<Seq<char>>,
    a: Seq<(Seq<char>, JsonView)>,
    b: Seq<(Seq<char>, JsonView)>,
)
    ensures
        group_wave(names, a + b) == group_wave(names, a) + group_wave(names, b),
    decreases b.len(),
{
    if b.len() == 0 {
        assert(a + b =~= a);
        assert(group_wave(names, a) + group_wave(names, b) =~= group_wave(names, a));
    } else {
        lemma_wave_concat(names, a, b.drop_last());
        assert((a + b).drop_last() =~= a + b.drop_last());
        assert((a + b).last() == b.last());
        let last = group_policy(names, b.last().0).hops(b.last().1);
        assert(group_wave(names, a) + group_wave(names, b.drop_last()) + last =~= group_wave(
            names,
            a,
        ) + (group_wave(names, b.drop_last()) + last));
    }
}

proof fn lemma_wave_intra(names: Seq<Seq<char>>, dests: Seq<Seq<char>>)
    ensures
        group_wave(names, hops_to(dests, JsonView::Text("intra"@))) == Seq::<
            (Seq<char>, JsonView),
        >::empty(),
    decreases dests.len(),
{
    let hops = hops_to(dests, JsonView::Text("intra"@));
    if dests.len() > 0 {
        lemma_wave_intra(names, dests.drop_last());
        assert(hops.drop_last() =~= hops_to(dests.drop_last(), JsonView::Text("intra"@)));
        assert(group_wave(names, hops) =~= Seq::empty());
    }
}

proof fn lemma_wave_inter(names: Seq<Seq<char>>, dests: Seq<Seq<char>>)
    ensures
        group_wave(names, hops_to(dests, JsonView::Text("inter"@))) == hops_to(
            members_of_all(names, dests),
            JsonView::Text("intra"@),
        ),
    decreases dests.len(),
{
    let hops = hops_to(dests, JsonView::Text("inter"@));
    let result = hops_to(members_of_all(names, dests), JsonView::Text("intra"@));
    reveal_strlit("inter");
    reveal_strlit("intra");
    assert("inter"@[3] != "intra"@[3]);
    if dests.len() > 0 {
        lemma_wave_inter(names, dests.drop_last());
        assert(hops.drop_last() =~= hops_to(dests.drop_last(), JsonView::Text("inter"@)));
        assert(hops.last() == (dests.last(), JsonView::Text("inter"@)));
        assert(group_wave(names, hops) =~= result);
    } else {
        assert(group_wave(names, hops) =~= result);
    }
}

/// A message of a client that reaches any node goes, by the group policy, to
/// every other node exactly once: to some at the first hop, to the rest at the
/// second, and then no further.
pub proof fn law_group_policy_reaches_every_node_once(
    names: Seq<Seq<char>>,
    entry: Seq<char>,
    meta: JsonView,
)
    requires
        sorted_texts(names),
        names.contains(entry),
        meta != JsonView::Text("intra"@),
        meta != JsonView::Text("inter"@),
    ensures
        ({
            let first = group_policy(names, entry).hops(meta);
            let second = group_wave(names, first);
            &&& dests_of(first + second).no_duplicates()
            &&& dests_of(first + second).to_set() == names.to_set().remove(entry)
            &&& group_wave(names, second) == Seq::<(Seq<char>, JsonView)>::empty()
        }),
{
    let i = names.index_of(entry);
    let ours = i / 5;
    let count = group_count(names.len());
    let members = group_members_of(names, entry);
    let reps = other_group_reps_of(names, entry);
    let relayed = members_of_all(names, reps);
    let first = group_policy(names, entry).hops(meta);
    let second = group_wave(names, first);
    lemma_index_unique(names, i);
    lemma_group_members(names, i);
    lemma_representatives(names, ours, count);
    let intra = hops_to(members, JsonView::Text("intra"@));
    let inter = hops_to(reps, JsonView::Text("inter"@));
    lemma_wave_concat(names, intra, inter);
    lemma_wave_intra(names, members);
    lemma_wave_inter(names, reps);
    lemma_wave_intra(names, relayed);
    assert(second =~= hops_to(relayed, JsonView::Text("intra"@)));
    let all = dests_of(first + second);
    assert(all =~= members + reps + relayed);
    lemma_concat_contains(members, reps);
    lemma_concat_contains(members + reps, relayed);
    assert forall|a: int, b: int| 0 <= a < members.len() && 0 <= b < reps.len() implies members[a]
        != reps[b] by {
        assert(members.contains(members[a]));
        assert(reps.contains(reps[b]));
        assert(members.contains(names[names.index_of(members[a])]));
        assert(reps.contains(names[names.index_of(reps[b])]));
    }
    vstd::seq_lib::lemma_no_dup_in_concat(members, reps);
    let both = members + reps;
    assert forall|a: int, b: int| 0 <= a < both.len() && 0 <= b < relayed.len() implies both[a]
        != relayed[b] by {
        assert(both.contains(both[a]));
        assert(relayed.contains(relayed[b]));
        assert(both.contains(names[names.index_of(both[a])]));
        assert(relayed.contains(names[names.index_of(relayed[b])]));
    }
    vstd::seq_lib::lemma_no_dup_in_concat(both, relayed);
    assert(all.to_set() =~= names.to_set().remove(entry)) by {
        assert forall|x: Seq<char>| #[trigger] all.to_set().contains(x) <==> names.to_set().remove(
            entry,
        ).contains(x) by {
            if names.contains(x) {
                let j = names.index_of(x);
                assert(names[j] == x);
                assert(members.contains(names[j]) <==> j / 5 == i / 5 && j != i);
                assert(reps.contains(names[j]) <==> j % 5 == 0 && j / 5 != ours && j / 5 < count);
                assert(j / 5 < count);
            }
        }
    }
}

/// A message of a client that reaches any node goes, by the direct policy, to
/// every other node exactly once, at one hop; what a node relayed goes no further.
pub proof fn law_direct_policy_reaches_every_node_once(
    names: Seq<Seq<char>>,
    entry: Seq<char>,
    meta: JsonView,
)
    requires
        sorted_texts(names),
        !(meta is Text),
    ensures
        ({
            let hops = direct_policy(names, entry).hops(meta);
            &&& dests_of(hops).no_duplicates()
            &&& dests_of(hops).to_set() == names.to_set().remove(entry)
            &&& forall|i: int, receiver: Seq<char>|
                0 <= i < hops.len() ==> (#[trigger] direct_policy(names, receiver).hops(
                    #[trigger] hops[i].1,
                )).len() == 0
        }),
{
    let hops = direct_policy(names, entry).hops(meta);
    lemma_sorted_no_duplicates(names);
    lemma_others(names, entry);
    assert(dests_of(hops) =~= others(names, entry));
    assert(dests_of(hops).to_set() =~= names.to_set().remove(entry));
}

/// By the simple policy a node forwards a message to each neighbor but the one
/// that sent it, and tells each that it is the sender, so that none returns it.
pub proof fn law_simple_policy_spares_the_sender(
    node_id: Seq<char>,
    neighbors: Seq<Seq<char>>,
    sender: Seq<char>,
    receiver: Seq<char>,
    receiver_neighbors: Seq<Seq<char>>,
)
    ensures
        ({
            let hops = (PolicyView::Simple { node_id, neighbors }).hops(JsonView::Text(sender));
            &&& forall|x: Seq<char>| #[trigger]
                dests_of(hops).contains(x) <==> neighbors.contains(x) && x != sender
            &&& forall|i: int|
                0 <= i < hops.len() ==> !dests_of(
                    (PolicyView::Simple {
                        node_id: receiver,
                        neighbors: receiver_neighbors,
                    }).hops(#[trigger] hops[i].1),
                ).contains(node_id)
        }),
{
    let hops = (PolicyView::Simple { node_id, neighbors }).hops(JsonView::Text(sender));
    lemma_others(neighbors, sender);
    assert(dests_of(hops) =~= others(neighbors, sender));
    lemma_others(receiver_neighbors, node_id);
    assert(dests_of(
        (PolicyView::Simple { node_id: receiver, neighbors: receiver_neighbors }).hops(
            JsonView::Text(node_id),
        ),
    ) =~= others(receiver_neighbors, node_id));
}

/// The direct policy of the node `me` among nodes of these names.
pub open spec fn direct_policy(names: Seq<Seq<char>>, me: Seq<char>) -> PolicyView {
    PolicyView::Direct { node_id: me, all_others: others(names, me) }
}

/// The kinds of policies.
#[derive(Debug, Clone, Copy, PartialEq, Eq)]
pub enum PolicyKind {
    Simple,
    Direct,
    Group,
}

/// A policy of any kind.
#[derive(Debug)]
pub enum Policy {
    Simple(SimplePolicy),
    Direct(DirectPolicy),
    Group(GroupPolicy),
}

impl ForwardPolicy for Policy {
    open spec fn policy(&self) -> PolicyView {
        match self {
            Policy::Simple(p) => p.policy(),
            Policy::Direct(p) => p.policy(),
            Policy::Group(p) => p.policy(),
        }
    }

    fn next_hops(&self, incoming_meta: &Json) -> (r: Vec<(String, Json)>) {
        match self {
            Policy::Simple(p) => p.next_hops(incoming_meta),
            Policy::Direct(p) => p.next_hops(incoming_meta),
            Policy::Group(p) => p.next_hops(incoming_meta),
        }
    }
}

/// The policy of a kind for the node `me` of a network. By the simple policy a
/// node that the network does not hold has no neighbors.
pub open spec fn policy_for(
    kind: PolicyKind,
    neighbors: Map<Seq<char>, Seq<Seq<char>>>,
    me: Seq<char>,
) -> PolicyView {
    match kind {
        PolicyKind::Simple => PolicyView::Simple {
            node_id: me,
            neighbors: if neighbors.contains_key(me) {
                neighbors[me]
            } else {
                Seq::empty()
            },
        },
        PolicyKind::Direct => direct_policy(sorted_listing(neighbors.dom()), me),
        PolicyKind::Group => group_policy(sorted_listing(neighbors.dom()), me),
    }
}

/// Makes a policy for a node of the network.
pub fn make_policy(kind: PolicyKind, topology: &Topology, node_id: &str) -> (r: Policy)
    requires
        kind is Group ==> topology@.contains_key(node_id@),
    ensures
        r.policy() == policy_for(kind, neighbors_of(*topology), node_id@),
{
    assert(neighbors_of(*topology).dom() =~= topology@.dom());
    match kind {
        PolicyKind::Simple => {
            let neighbors = match topology.get(node_id) {
                Some(v) => v.clone(),
                None => Vec::new(),
            };
            assert(texts(neighbors@) =~= (policy_for(
                kind,
                neighbors_of(*topology),
                node_id@,
            )->neighbors));
            Policy::Simple(SimplePolicy::new(neighbors, node_id))
        },
        PolicyKind::Direct => Policy::Direct(DirectPolicy::new(topology, node_id)),
        PolicyKind::Group => Policy::Group(GroupPolicy::new(topology, node_id)),
    }
}

/// All strings but `me` are left, each as often as it was there and in the same order.
pub proof fn law_others_keep_their_order(
    a: Seq<Seq<char>>,
    b: Seq<Seq<char>>,
    x: Seq<char>,
    me: Seq<char>,
)
    ensures
        others(a + b, me) == others(a, me) + others(b, me),
        x != me ==> others(seq![x], me) == seq![x],
        others(seq![me], me) == Seq::<Seq<char>>::empty(),
        others(Seq::empty(), me) == Seq::<Seq<char>>::empty(),
    decreases b.len(),
{
    reveal_with_fuel(others, 2);
    assert(seq![x].drop_last() =~= Seq::empty());
    assert(seq![me].drop_last() =~= Seq::empty());
    if x != me {
        assert(others(seq![x], me) =~= seq![x]);
    }
    if b.len() == 0 {
        assert(a + b =~= a);
        assert(others(a, me) + others(b, me) =~= others(a, me));
    } else {
        law_others_keep_their_order(a, b.drop_last(), x, me);
        assert((a + b).drop_last() =~= a + b.drop_last());
        assert((a + b).last() == b.last());
        assert(others(a + b, me) =~= others(a, me) + others(b, me));
    }
}

/// Strings that are left of sorted ones are sorted.
proof fn lemma_others_sorted(s: Seq<Seq<char>>, me: Seq<char>)
    requires
        sorted_texts(s),
    ensures
        sorted_texts(others(s, me)),
    decreases s.len(),
{
    if s.len() > 0 {
        let rest = s.drop_last();
        lemma_others_sorted(rest, me);
        lemma_others(rest, me);
        let o = others(rest, me);
        let all = o.push(s.last());
        assert(sorted_texts(all)) by {
            assert forall|i: int, j: int| 0 <= i < j < all.len() implies text_lt(
                #[trigger] all[i],
                #[trigger] all[j],
            ) by {
                if j < o.len() {
                    assert(text_lt(o[i], o[j]));
                } else {
                    assert(o.contains(o[i]));
                    let k = rest.index_of(o[i]);
                    assert(text_lt(s[k], s[s.len() - 1]));
                }
            }
        }
    }
}

/// Nodes are grouped by five in the order of their names. A node knows as members the
/// others of its five, and as representatives the first of every other five; both in
/// the order of their names, and no one else.
pub proof fn law_groups_are_five_in_a_row(names: Seq<Seq<char>>, i: int, j: int)
    requires
        sorted_texts(names),
        0 <= i < names.len(),
        0 <= j < names.len(),
    ensures
        group_policy(names, names[i]) is Group,
        ({
            let members = group_policy(names, names[i])->group_members;
            let reps = group_policy(names, names[i])->other_group_reps;
            &&& members.contains(names[j]) <==> j / 5 == i / 5 && j != i
            &&& reps.contains(names[j]) <==> j % 5 == 0 && j / 5 != i / 5
            &&& sorted_texts(members)
            &&& sorted_texts(reps)
            &&& forall|x: Seq<char>| #[trigger] members.contains(x) ==> names.contains(x)
            &&& forall|x: Seq<char>| #[trigger] reps.contains(x) ==> names.contains(x)
        }),
{
    let count = group_count(names.len());
    lemma_index_unique(names, i);
    lemma_group_members(names, i);
    lemma_representatives(names, i / 5, count);
    assert(j / 5 < count);
    let start = i / 5 * 5;
    let end = if start + 5 < names.len() {
        start + 5
    } else {
        names.len() as int
    };
    let group = names.subrange(start, end);
    assert(sorted_texts(group)) by {
        assert forall|a: int, b: int| 0 <= a < b < group.len() implies text_lt(
            #[trigger] group[a],
            #[trigger] group[b],
        ) by {
            assert(text_lt(names[start + a], names[start + b]));
        }
    }
    lemma_others_sorted(group, names[i]);
    lemma_representatives_sorted(names, i / 5, count);
}

proof fn lemma_representatives_sorted(names: Seq<Seq<char>>, ours: int, count: nat)
    requires
        sorted_texts(names),
        count > 0 ==> (count - 1) * 5 < names.len(),
    ensures
        sorted_texts(representatives(names, ours, count)),
    decreases count,
{
    if count > 0 {
        let before = (count - 1) as nat;
        lemma_representatives_sorted(names, ours, before);
        lemma_representatives(names, ours, before);
        let reps = representatives(names, ours, before);
        let more = representatives(names, ours, count);
        assert(sorted_texts(more)) by {
            assert forall|a: int, b: int| 0 <= a < b < more.len() implies text_lt(
                #[trigger] more[a],
                #[trigger] more[b],
            ) by {
                if b < reps.len() {
                    assert(text_lt(reps[a], reps[b]));
                } else {
                    assert(reps.contains(reps[a]));
                    let k = names.index_of(reps[a]);
                    assert(reps.contains(names[k]));
                    assert(text_lt(names[k], names[(count - 1) * 5]));
                }
            }
        }
    }
}

/// By the group policy what came from the own group goes nowhere; what came from
/// another group goes to each member once as from the own group; and what came from a
/// client goes to each member as from the own group and to each representative as from
/// another.
pub proof fn law_group_hops_depend_on_the_metadata(
    members: Seq<Seq<char>>,
    reps: Seq<Seq<char>>,
    meta: JsonView,
    k: int,
)
    ensures
        ({
            let p = PolicyView::Group { group_members: members, other_group_reps: reps };
            let intra = JsonView::Text("intra"@);
            let inter = JsonView::Text("inter"@);
            &&& p.hops(intra).len() == 0
            &&& p.hops(inter).len() == members.len()
            &&& 0 <= k < members.len() ==> p.hops(inter)[k] == (members[k], intra)
            &&& meta != intra && meta != inter ==> {
                &&& p.hops(meta).len() == members.len() + reps.len()
                &&& 0 <= k < members.len() ==> p.hops(meta)[k] == (members[k], intra)
                &&& 0 <= k < reps.len() ==> p.hops(meta)[members.len() + k] == (reps[k], inter)
            }
        }),
{
    reveal_strlit("inter");
    reveal_strlit("intra");
    assert("inter"@[3] != "intra"@[3]);
}

/// By the direct policy what a node relayed goes nowhere, and all else goes to each
/// other node once, under the name of the node; by the simple policy a message goes to
/// each neighbor but its sender, under the name of the node, in the same order.
pub proof fn law_direct_and_simple_hops(
    me: Seq<char>,
    nodes: Seq<Seq<char>>,
    meta: JsonView,
    k: int,
)
    ensures
        ({
            let direct = PolicyView::Direct { node_id: me, all_others: nodes };
            let simple = PolicyView::Simple { node_id: me, neighbors: nodes };
            let left = others(nodes, meta.text_or_empty());
            &&& meta is Text ==> direct.hops(meta).len() == 0
            &&& !(meta is Text) ==> direct.hops(meta).len() == nodes.len() && (0 <= k < nodes.len()
                ==> direct.hops(meta)[k] == (nodes[k], JsonView::Text(me)))
            &&& simple.hops(meta).len() == left.len()
            &&& 0 <= k < left.len() ==> simple.hops(meta)[k] == (left[k], JsonView::Text(me))
        }),
{
}

/// The policy of a node is made for the network that it is given: the simple one has
/// the neighbors of the node, the other two have all nodes in the order of their names.
pub proof fn law_policy_is_made_for_the_network(
    network: Map<Seq<char>, Seq<Seq<char>>>,
    me: Seq<char>,
    names: Seq<Seq<char>>,
)
    requires
        sorted_texts(names),
        names.to_set() == network.dom(),
    ensures
        network.contains_key(me) ==> policy_for(PolicyKind::Simple, network, me)
            == (PolicyView::Simple { node_id: me, neighbors: network[me] }),
        !network.contains_key(me) ==> policy_for(PolicyKind::Simple, network, me)
            == (PolicyView::Simple { node_id: me, neighbors: Seq::empty() }),
        policy_for(PolicyKind::Direct, network, me) == (PolicyView::Direct {
            node_id: me,
            all_others: others(names, me),
        }),
        policy_for(PolicyKind::Group, network, me) == group_policy(names, me),
{
    lemma_sorted_listing(network.dom());
    lemma_sorted_unique(names, sorted_listing(network.dom()));
}

/// Hops are seen as what they are: each with its destination and its metadata; and the
/// same metadata goes along to each of several destinations.
pub proof fn law_hops_are_seen_as_they_are(
    hops: Seq<(String, Json)>,
    dests: Seq<Seq<char>>,
    meta: JsonView,
    i: int,
)
    ensures
        hop_views(hops).len() == hops.len(),
        0 <= i < hops.len() ==> hop_views(hops)[i] == (hops[i].0@, hops[i].1@),
        hops_to(dests, meta).len() == dests.len(),
        0 <= i < dests.len() ==> hops_to(dests, meta)[i] == (dests[i], meta),
{
}

/// A network is seen as what it is: each node with the names of its neighbors.
pub proof fn law_network_is_seen_as_it_is(t: Topology, node: Seq<char>)
    ensures
        neighbors_of(t).dom() == t@.dom(),
        t@.contains_key(node) ==> neighbors_of(t)[node] == texts(t@[node]@),
{
    assert(neighbors_of(t).dom() =~= t@.dom());
}

} // verus!
