//! The broadcast workload: every value that one node is told reaches all nodes.
use vstd::prelude::*;
use crate::json::{
    alike, json_views, law_equality_is_reflexive, law_equality_is_transitive, lemma_object_view,
    object_view, typed, Json, JsonView,
};
use crate::node::{
    all_texts, collect_texts, holds_only_texts, law_list_of_strings_is_read_back, text_elements,
    texts, Message, MessageView,
};
use crate::policy::{
    dests_of, group_policy, group_wave, hop_views, law_group_policy_reaches_every_node_once,
    make_policy, neighbors_of, policy_for, ForwardPolicy, Policy, PolicyKind, PolicyView, Topology,
};
use crate::strmap::{key_index, lemma_sorted_listing, sorted_listing, StrMap};
use crate::text::same_text;

verus! {

/// The time after which a forwarding request without a reply is repeated, in
/// milliseconds.
pub const BROADCAST_TIMEOUT_MILLIS: u64 = 1000;

/// The policy that nodes forward by.
pub const POLICY: PolicyKind = PolicyKind::Group;

/// The kinds of executors.
#[derive(Debug, Clone, Copy, PartialEq, Eq)]
pub enum BroadcastExecutorKind {
    Immediate,
    Batched,
}

/// The executor that puts hops on the wire.
pub const EXECUTOR: BroadcastExecutorKind = BroadcastExecutorKind::Immediate;

/// The body of the message that forwards `message`.
pub open spec fn broadcast_body(message: JsonView, meta: JsonView) -> JsonView {
    typed("broadcast"@).with("message"@, message).with("meta"@, meta)
}

/// Sends each hop right away as a request of its own, and repeats it until it is
/// acknowledged.
#[derive(Debug)]
pub struct ImmediateExecutor;

impl ImmediateExecutor {
    /// The body of the request that forwards `message`.
    pub fn dispatch(&self, message: &Json, meta: Json) -> (r: Json)
        ensures
            r@ == broadcast_body(message@, meta@),
    {
        Json::typed("broadcast").with("message", message.clone()).with("meta", meta)
    }

    /// Whether the request is to be sent again: it is until any reply comes.
    pub fn repeats(&self, reply: &Option<Json>) -> (r: bool)
        ensures
            r == (reply is None),
    {
        reply.is_none()
    }
}

/// Makes the executor of a kind; there is one of one kind only.
pub fn make_executor(kind: BroadcastExecutorKind) -> (r: ImmediateExecutor)
    requires
        kind is Immediate,
    ensures
        r == ImmediateExecutor,
{
    ImmediateExecutor
}

/// What a node has seen, and how it forwards once it knows the network.
#[verifier::ext_equal]
pub struct StateView {
    pub seen: Seq<JsonView>,
    pub policy: Option<PolicyView>,
}

/// The state of a node that has seen nothing and does not know the network.
pub open spec fn new_state() -> StateView {
    StateView { seen: Seq::empty(), policy: None }
}

/// Whether an equal value is among those seen.
pub open spec fn has_seen(seen: Seq<JsonView>, message: JsonView) -> bool {
    exists|i: int| 0 <= i < seen.len() && alike(#[trigger] seen[i], message)
}

/// Whether no two of the values are equal.
pub open spec fn all_different(seen: Seq<JsonView>) -> bool {
    forall|i: int, j: int|
        0 <= i < j < seen.len() ==> !alike(#[trigger] seen[i], #[trigger] seen[j])
}

/// The state of a node.
pub struct NodeState {
    seen_messages: Vec<Json>,
    policy: Option<Policy>,
}

impl View for NodeState {
    type V = StateView;

    closed spec fn view(&self) -> StateView {
        StateView {
            seen: json_views(self.seen_messages@),
            policy: match self.policy {
                Some(p) => Some(p.policy()),
                None => None,
            },
        }
    }
}

/// The forwarding requests of a message: destinations and bodies.
pub open spec fn forwards(
    hops: Seq<(Seq<char>, JsonView)>,
    message: JsonView,
) -> Seq<(Seq<char>, JsonView)> {
    hops.map_values(|h: (Seq<char>, JsonView)| (h.0, broadcast_body(message, h.1)))
}

/// What a node that is told a value does: it keeps one that it had not seen, and
/// forwards it if it knows the network.
pub open spec fn broadcast_step(
    state: StateView,
    message: JsonView,
    meta: JsonView,
) -> (StateView, Seq<(Seq<char>, JsonView)>) {
    if has_seen(state.seen, message) {
        (state, Seq::empty())
    } else {
        (
            StateView { seen: state.seen.push(message), ..state },
            match state.policy {
                Some(p) => forwards(p.hops(meta), message),
                None => Seq::empty(),
            },
        )
    }
}

/// Whether a value describes a network: an object whose fields are arrays of strings.
pub open spec fn is_topology(value: JsonView) -> bool {
    value is Object && forall|k: Seq<char>|
        value->Object_0.contains_key(k) ==> all_texts(#[trigger] value->Object_0[k])
}

/// The neighbors of each node of a network.
pub open spec fn topology_of(value: JsonView) -> Map<Seq<char>, Seq<Seq<char>>> {
    value->Object_0.map_values(|v: JsonView| text_elements(v))
}

/// Whether a message can be handled: one that describes the network must do so
/// properly, and its network must hold the node.
pub open spec fn can_handle(node_id: Seq<char>, msg: MessageView) -> bool {
    msg.msg_type == "topology"@ ==> is_topology(msg.body.field("topology"@))
        && msg.body.field("topology"@)->Object_0.contains_key(node_id)
}

/// What a node does about a message: its new state, the answer, and the requests
/// to send.
pub open spec fn handle_step(state: StateView, node_id: Seq<char>, msg: MessageView) -> (
    StateView,
    Option<JsonView>,
    Seq<(Seq<char>, JsonView)>,
) {
    if msg.msg_type == "broadcast"@ {
        let (next, sent) = broadcast_step(
            state,
            msg.body.field("message"@),
            msg.body.field("meta"@),
        );
        (next, Some(typed("broadcast_ok"@)), sent)
    } else if msg.msg_type == "read"@ {
        (
            state,
            Some(typed("read_ok"@).with("messages"@, JsonView::Array(state.seen))),
            Seq::empty(),
        )
    } else if msg.msg_type == "topology"@ {
        (
            StateView {
                policy: Some(
                    policy_for(POLICY, topology_of(msg.body.field("topology"@)), node_id),
                ),
                ..state
            },
            Some(typed("topology_ok"@)),
            Seq::empty(),
        )
    } else {
        (state, None, Seq::empty())
    }
}

/// Reads the description of a network.
pub fn read_topology(value: &Json) -> (r: Option<Topology>)
    ensures
        r is Some <==> is_topology(value@),
        r matches Some(t) ==> neighbors_of(t) == topology_of(value@),
{
    match value.as_object() {
        Some(o) => {
            proof {
                use_type_invariant(o);
                o.lemma_items();
                lemma_object_view(*o);
            }
            let mut t: Topology = StrMap::new();
            let mut i: usize = 0;
            while i < o.len()
                invariant
                    i <= o.items().len(),
                    value@ == JsonView::Object(object_view(*o)),
                    object_view(*o).dom() == o@.dom(),
                    forall|k: Seq<char>| #[trigger]
                        object_view(*o).contains_key(k) ==> object_view(*o)[k] == o@[k]@,
                    forall|j: int|
                        0 <= j < o.items().len() ==> o@.contains_key(#[trigger] o.items()[j].0@)
                            && o@[o.items()[j].0@] == o.items()[j].1,
                    forall|j: int|
                        0 <= j < i ==> t@.contains_key(#[trigger] o.items()[j].0@) && all_texts(
                            o.items()[j].1@,
                        ),
                    forall|k: Seq<char>| #[trigger]
                        t@.contains_key(k) ==> o@.contains_key(k) && texts(t@[k]@)
                            == text_elements(o@[k]@),
                decreases o.items().len() - i,
            {
                let v = o.value_at(i);
                if !holds_only_texts(v) {
                    proof {
                        let k = o.items()[i as int].0@;
                        assert(object_view(*o).contains_key(k));
                        assert(!all_texts(value@->Object_0[k]));
                    }
                    return None;
                }
                assert(all_texts(o.items()[i as int].1@));
                let ghost done = t@;
                t.insert(o.key_at(i).clone(), collect_texts(v));
                assert forall|j: int| 0 <= j < i + 1 implies t@.contains_key(
                    #[trigger] o.items()[j].0@,
                ) by {
                    if j < i {
                        assert(done.contains_key(o.items()[j].0@));
                    }
                }
                i = i + 1;
            }
            proof {
                assert forall|k: Seq<char>| #[trigger] o@.contains_key(k) implies t@.contains_key(k)
                    && all_texts(o@[k]@) by {
                    let j = key_index(o.items(), k);
                    assert(t@.contains_key(o.items()[j].0@));
                }
                assert forall|k: Seq<char>| object_view(*o).contains_key(k) implies all_texts(
                    #[trigger] object_view(*o)[k],
                ) by {
                    assert(o@.contains_key(k));
                }
                assert(neighbors_of(t) =~= topology_of(value@)) by {
                    assert forall|k: Seq<char>| #[trigger]
                        object_view(*o).contains_key(k) implies neighbors_of(t)[k] == topology_of(
                        value@,
                    )[k] by {
                        assert(o@.contains_key(k));
                        assert(t@.contains_key(k));
                    }
                    assert forall|k: Seq<char>| #[trigger] t@.contains_key(k) <==> object_view(
                        *o,
                    ).contains_key(k) by {
                        if object_view(*o).contains_key(k) {
                            assert(o@.contains_key(k));
                        }
                    }
                }
            }
            Some(t)
        },
        None => None,
    }
}

impl NodeState {
    /// No value is kept twice.
    #[verifier::type_invariant]
    closed spec fn kept_once(self) -> bool {
        all_different(json_views(self.seen_messages@))
    }

    /// Makes the state of a node that has seen nothing and does not know the network.
    pub fn new() -> (r: Self)
        ensures
            r@ == new_state(),
            all_different(r@.seen),
    {
        let r = NodeState { seen_messages: Vec::new(), policy: None };
        assert(r@.seen =~= Seq::empty());
        r
    }

    /// Whether an equal value has been seen.
    fn has_seen(&self, message: &Json) -> (r: bool)
        ensures
            r == has_seen(self@.seen, message@),
    {
        let mut i: usize = 0;
        while i < self.seen_messages.len()
            invariant
                i <= self.seen_messages@.len(),
                forall|j: int| 0 <= j < i ==> !alike(#[trigger] self@.seen[j], message@),
            decreases self.seen_messages@.len() - i,
        {
            if self.seen_messages[i].same(message) {
                assert(alike(self@.seen[i as int], message@));
                return true;
            }
            i = i + 1;
        }
        false
    }

    /// Keeps a value unless an equal one has been seen, and tells whether it did.
    pub fn insert(&mut self, message: Json) -> (r: bool)
        ensures
            r == !has_seen(old(self)@.seen, message@),
            final(self)@ == (StateView {
                seen: if r {
                    old(self)@.seen.push(message@)
                } else {
                    old(self)@.seen
                },
                ..old(self)@
            }),
    {
        proof {
            use_type_invariant(&*self);
        }
        if self.has_seen(&message) {
            return false;
        }
        let ghost before = self@.seen;
        let mut seen: Vec<Json> = Vec::new();
        assert(json_views(seen@) =~= Seq::empty());
        std::mem::swap(&mut seen, &mut self.seen_messages);
        seen.push(message);
        assert(json_views(seen@) =~= before.push(message@));
        self.seen_messages = seen;
        true
    }

    /// The values seen, as a JSON array.
    fn seen_array(&self) -> (r: Json)
        ensures
            r@ == JsonView::Array(self@.seen),
    {
        let mut v: Vec<Json> = Vec::new();
        let mut i: usize = 0;
        assert(json_views(v@) =~= self@.seen.take(0));
        while i < self.seen_messages.len()
            invariant
                i <= self.seen_messages@.len(),
                json_views(v@) == self@.seen.take(i as int),
            decreases self.seen_messages@.len() - i,
        {
            let ghost done = v@;
            v.push(self.seen_messages[i].clone());
            assert(json_views(v@) =~= self@.seen.take(i + 1)) by {
                assert(json_views(v@) =~= json_views(done).push(self@.seen[i as int]));
            }
            i = i + 1;
        }
        assert(self@.seen.take(i as int) =~= self@.seen);
        Json::Array(v)
    }

    /// The next hops of a message, none while the network is not known.
    fn next_hops(&self, meta: &Json) -> (r: Vec<(String, Json)>)
        ensures
            hop_views(r@) == (match self@.policy {
                Some(p) => p.hops(meta@),
                None => Seq::empty(),
            }),
    {
        match &self.policy {
            Some(p) => p.next_hops(meta),
            None => {
                let r: Vec<(String, Json)> = Vec::new();
                assert(hop_views(r@) =~= Seq::empty());
                r
            },
        }
    }
}

/// Whether a message can be handled.
pub fn accepts(node_id: &str, msg: &Message) -> (r: bool)
    ensures
        r == can_handle(node_id@, msg@),
{
    if !same_text(msg.msg_type.as_str(), "topology") {
        return true;
    }
    match read_topology(msg.body.field("topology")) {
        Some(t) => {
            assert(neighbors_of(t).dom() =~= t@.dom());
            t.get(node_id).is_some()
        },
        None => false,
    }
}

/// Handles a message: gives the answer, and the requests to send with the nodes
/// to send them to.
pub fn handle(state: &mut NodeState, node_id: &str, msg: &Message) -> (r: (
    Option<Json>,
    Vec<(String, Json)>,
))
    requires
        can_handle(node_id@, msg@),
    ensures
        ({
            let (next, answer, sent) = handle_step(old(state)@, node_id@, msg@);
            &&& final(state)@ == next
            &&& r.0 is Some <==> answer is Some
            &&& r.0 matches Some(a) ==> answer == Some(a@)
            &&& hop_views(r.1@) == sent
        }),
{
    let kind = msg.msg_type.as_str();
    let mut sent: Vec<(String, Json)> = Vec::new();
    assert(hop_views(sent@) =~= Seq::empty());
    if same_text(kind, "broadcast") {
        let message = msg.body.field("message");
        let meta = msg.body.field("meta");
        if state.insert(message.clone()) {
            let executor = make_executor(EXECUTOR);
            let hops = state.next_hops(meta);
            let ghost all = forwards(hop_views(hops@), message@);
            let mut i: usize = 0;
            assert(hop_views(sent@) =~= all.take(0));
            while i < hops.len()
                invariant
                    i <= hops@.len(),
                    all == forwards(hop_views(hops@), message@),
                    hop_views(sent@) == all.take(i as int),
                decreases hops@.len() - i,
            {
                let ghost done = sent@;
                let body = executor.dispatch(message, hops[i].1.clone());
                sent.push((hops[i].0.clone(), body));
                assert(hop_views(sent@) =~= hop_views(done).push(all[i as int]));
                assert(hop_views(sent@) =~= all.take(i + 1));
                i = i + 1;
            }
            assert(all.take(i as int) =~= all);
            assert(state@.policy is None ==> all =~= Seq::empty());
        }
        (Some(Json::typed("broadcast_ok")), sent)
    } else if same_text(kind, "read") {
        (Some(Json::typed("read_ok").with("messages", state.seen_array())), sent)
    } else if same_text(kind, "topology") {
        proof {
            use_type_invariant(&*state);
        }
        match read_topology(msg.body.field("topology")) {
            Some(topology) => {
                assert(neighbors_of(topology).dom() =~= topology@.dom());
                state.policy = Some(make_policy(POLICY, &topology, node_id));
            },
            None => {},
        }
        (Some(Json::typed("topology_ok")), sent)
    } else {
        (None, sent)
    }
}

/// A node forwards a value once only: when it is told an equal one again, it
/// sends nothing and changes nothing.
pub proof fn law_value_is_forwarded_once(
    state: StateView,
    message: JsonView,
    meta: JsonView,
    again: JsonView,
    meta_again: JsonView,
)
    requires
        alike(message, again),
    ensures
        ({
            let after = broadcast_step(state, message, meta).0;
            broadcast_step(after, again, meta_again) == (
                after,
                Seq::<(Seq<char>, JsonView)>::empty(),
            )
        }),
{
    let after = broadcast_step(state, message, meta).0;
    lemma_told_is_seen(state, message, meta);
    let i = choose|i: int| 0 <= i < after.seen.len() && alike(#[trigger] after.seen[i], message);
    law_equality_is_transitive(after.seen[i], message, again);
}

proof fn lemma_told_is_seen(state: StateView, message: JsonView, meta: JsonView)
    ensures
        has_seen(broadcast_step(state, message, meta).0.seen, message),
{
    let after = broadcast_step(state, message, meta).0;
    if !has_seen(state.seen, message) {
        law_equality_is_reflexive(message);
        assert(alike(after.seen[after.seen.len() - 1], message));
    }
}

/// A node forgets no value, and keeps none twice, whatever message it handles.
pub proof fn law_seen_values_are_kept(state: StateView, node_id: Seq<char>, msg: MessageView)
    ensures
        state.seen.is_prefix_of(handle_step(state, node_id, msg).0.seen),
        all_different(state.seen) ==> all_different(handle_step(state, node_id, msg).0.seen),
{
    let next = handle_step(state, node_id, msg).0.seen;
    let message = msg.body.field("message"@);
    if next != state.seen {
        assert(next == state.seen.push(message));
        assert(forall|i: int| 0 <= i < state.seen.len() ==> next[i] == #[trigger] state.seen[i]);
        assert forall|i: int, j: int|
            all_different(state.seen) && 0 <= i < j < next.len() implies !alike(
            #[trigger] next[i],
            #[trigger] next[j],
        ) by {
            if j < state.seen.len() {
                assert(!alike(state.seen[i], state.seen[j]));
            } else {
                assert(!alike(state.seen[i], message));
            }
        }
    }
}

/// What a node was told it gives back: once it has been told a value, every
/// later answer to `read` has an equal one among its messages.
pub proof fn law_read_gives_back_what_was_told(
    state: StateView,
    message: JsonView,
    meta: JsonView,
    later: StateView,
    node_id: Seq<char>,
    read: MessageView,
)
    requires
        broadcast_step(state, message, meta).0.seen.is_prefix_of(later.seen),
        read.msg_type == "read"@,
    ensures
        ({
            let answer = handle_step(later, node_id, read).1;
            &&& answer is Some
            &&& answer->0.field("messages"@) is Array
            &&& has_seen(answer->0.field("messages"@)->Array_0, message)
        }),
{
    let told = broadcast_step(state, message, meta).0.seen;
    lemma_told_is_seen(state, message, meta);
    let i = choose|i: int| 0 <= i < told.len() && alike(#[trigger] told[i], message);
    assert(later.seen[i] == told[i]);
    reveal_strlit("broadcast");
    reveal_strlit("read");
    assert("broadcast"@.len() != "read"@.len());
}

/// The state after messages were handled one after another, each under the name that
/// the node had then.
pub open spec fn handled(state: StateView, calls: Seq<(Seq<char>, MessageView)>) -> StateView
    decreases calls.len(),
{
    if calls.len() == 0 {
        state
    } else {
        handle_step(
            handled(state, calls.drop_last()),
            calls.last().0,
            calls.last().1,
        ).0
    }
}

/// Whether a message tells a value.
pub open spec fn tells(msg: MessageView, message: JsonView) -> bool {
    msg.msg_type == "broadcast"@ && msg.body.field("message"@) == message
}

/// Whether one of the messages that were handled told a value.
pub open spec fn told(calls: Seq<(Seq<char>, MessageView)>, message: JsonView) -> bool {
    exists|j: int| 0 <= j < calls.len() && tells((#[trigger] calls[j]).1, message)
}

/// Whatever messages a new node has handled, `read` gives exactly the values that it
/// was told, each once: of every value told there is an equal one, every one given
/// was told, and no two are equal. The read changes nothing and sends nothing.
pub proof fn law_read_gives_exactly_what_was_told(
    calls: Seq<(Seq<char>, MessageView)>,
    node_id: Seq<char>,
    read: MessageView,
)
    requires
        read.msg_type == "read"@,
    ensures
        ({
            let state = handled(new_state(), calls);
            let given = state.seen;
            &&& handle_step(state, node_id, read) == (
                state,
                Some(typed("read_ok"@).with("messages"@, JsonView::Array(given))),
                Seq::<(Seq<char>, JsonView)>::empty(),
            )
            &&& all_different(given)
            &&& forall|i: int| 0 <= i < given.len() ==> told(calls, #[trigger] given[i])
            &&& forall|i: int, j: int|
                0 <= i < j < given.len() ==> !alike(#[trigger] given[i], #[trigger] given[j])
            &&& forall|message: JsonView| #[trigger]
                told(calls, message) ==> has_seen(given, message)
            &&& forall|message: JsonView| #[trigger]
                told(calls, message) ==> exists|i: int|
                    0 <= i < given.len() && alike(#[trigger] given[i], message)
        }),
{
    reveal_strlit("broadcast");
    reveal_strlit("read");
    assert("broadcast"@.len() != "read"@.len());
    lemma_handled(calls);
}

proof fn lemma_handled(calls: Seq<(Seq<char>, MessageView)>)
    ensures
        all_different(handled(new_state(), calls).seen),
        forall|i: int|
            0 <= i < handled(new_state(), calls).seen.len() ==> told(
                calls,
                #[trigger] handled(new_state(), calls).seen[i],
            ),
        forall|message: JsonView| #[trigger]
            told(calls, message) ==> has_seen(handled(new_state(), calls).seen, message),
    decreases calls.len(),
{
    let after = handled(new_state(), calls).seen;
    if calls.len() > 0 {
        let rest = calls.drop_last();
        let before = handled(new_state(), rest);
        let (id, msg) = calls.last();
        lemma_handled(rest);
        law_seen_values_are_kept(before, id, msg);
        let value = msg.body.field("message"@);
        assert forall|i: int| 0 <= i < after.len() implies told(calls, #[trigger] after[i]) by {
            if i < before.seen.len() {
                assert(after[i] == before.seen[i]);
                let j = choose|j: int|
                    0 <= j < rest.len() && tells((#[trigger] rest[j]).1, before.seen[i]);
                assert(tells(calls[j].1, after[i]));
            } else {
                assert(tells(calls[calls.len() - 1].1, after[i]));
            }
        }
        assert forall|message: JsonView| #[trigger] told(calls, message) implies has_seen(
            after,
            message,
        ) by {
            let j = choose|j: int| 0 <= j < calls.len() && tells((#[trigger] calls[j]).1, message);
            if j < rest.len() {
                assert(tells(rest[j].1, message));
                assert(told(rest, message));
                let i = choose|i: int|
                    0 <= i < before.seen.len() && alike(#[trigger] before.seen[i], message);
                assert(after[i] == before.seen[i]);
            } else {
                lemma_told_is_seen(before, value, msg.body.field("meta"@));
            }
        }
    }
}

/// A value that a client tells one node reaches every other node of the network
/// exactly once, where all know the network and none has seen the value: what
/// the node sends, and what its receivers send on, goes to each once, and no
/// receiver of that sends any more.
pub proof fn law_told_value_reaches_every_node_once(
    network: Map<Seq<char>, Seq<Seq<char>>>,
    entry: Seq<char>,
    state: StateView,
    message: JsonView,
    meta: JsonView,
)
    requires
        network.dom().finite(),
        network.contains_key(entry),
        state.policy == Some(policy_for(POLICY, network, entry)),
        !has_seen(state.seen, message),
        meta != JsonView::Text("intra"@),
        meta != JsonView::Text("inter"@),
    ensures
        ({
            let names = sorted_listing(network.dom());
            let first = policy_for(POLICY, network, entry).hops(meta);
            let second = group_wave(names, first);
            &&& broadcast_step(state, message, meta).1 == forwards(first, message)
            &&& forall|receiver: Seq<char>|
                policy_for(POLICY, network, receiver) == #[trigger] group_policy(names, receiver)
            &&& dests_of(first + second).no_duplicates()
            &&& dests_of(first + second).to_set() == network.dom().remove(entry)
            &&& group_wave(names, second) == Seq::<(Seq<char>, JsonView)>::empty()
        }),
{
    let names = sorted_listing(network.dom());
    lemma_sorted_listing(network.dom());
    assert(names.to_set().contains(entry));
    law_group_policy_reaches_every_node_once(names, entry, meta);
}

/// A forwarding request holds the value and the metadata of its hop, whatever they are,
/// and what kind of request it is; the receiver finds them where it looks for them.
pub proof fn law_forwarding_request_carries_the_hop(message: JsonView, meta: JsonView)
    ensures
        broadcast_body(message, meta) == JsonView::Object(
            map![
                "type"@ => JsonView::Text("broadcast"@),
                "message"@ => message,
                "meta"@ => meta
            ],
        ),
        broadcast_body(message, meta).field("type"@) == JsonView::Text("broadcast"@),
        broadcast_body(message, meta).field("message"@) == message,
        broadcast_body(message, meta).field("meta"@) == meta,
{
    reveal_strlit("type");
    reveal_strlit("message");
    reveal_strlit("meta");
    assert("type"@.len() == 4);
    assert("message"@.len() == 7);
    assert("meta"@.len() == 4);
    assert("type"@[0] != "meta"@[0]);
}

/// A value that was not seen is kept behind the others, and sent along every hop that
/// the policy gives for its metadata, with the metadata of that hop.
pub proof fn law_new_value_goes_along_every_hop(
    state: StateView,
    node_id: Seq<char>,
    msg: MessageView,
    policy: PolicyView,
    k: int,
)
    requires
        msg.msg_type == "broadcast"@,
        !has_seen(state.seen, msg.body.field("message"@)),
        state.policy == Some(policy),
    ensures
        ({
            let (next, answer, sent) = handle_step(state, node_id, msg);
            let (dest, meta) = policy.hops(msg.body.field("meta"@))[k];
            &&& next.seen == state.seen + seq![msg.body.field("message"@)]
            &&& next.policy == state.policy
            &&& answer == Some(
                JsonView::Object(map!["type"@ => JsonView::Text("broadcast_ok"@)]),
            )
            &&& sent.len() == policy.hops(msg.body.field("meta"@)).len()
            &&& 0 <= k < sent.len() ==> {
                &&& sent[k].0 == dest
                &&& sent[k].1.field("type"@) == JsonView::Text("broadcast"@)
                &&& sent[k].1.field("message"@) == msg.body.field("message"@)
                &&& sent[k].1.field("meta"@) == meta
            }
        }),
{
    let (_, meta) = policy.hops(msg.body.field("meta"@))[k];
    law_forwarding_request_carries_the_hop(msg.body.field("message"@), meta);
    assert(state.seen + seq![msg.body.field("message"@)] =~= state.seen.push(
        msg.body.field("message"@),
    ));
}

/// A value that was seen, or told before the network is known, is answered and sent
/// nowhere; the one that was seen changes nothing.
pub proof fn law_value_without_hops_is_answered(
    state: StateView,
    node_id: Seq<char>,
    msg: MessageView,
)
    requires
        msg.msg_type == "broadcast"@,
        has_seen(state.seen, msg.body.field("message"@)) || state.policy is None,
    ensures
        handle_step(state, node_id, msg).1 == Some(
            JsonView::Object(map!["type"@ => JsonView::Text("broadcast_ok"@)]),
        ),
        handle_step(state, node_id, msg).2.len() == 0,
        handle_step(state, node_id, msg).0.policy == state.policy,
        has_seen(state.seen, msg.body.field("message"@)) ==> handle_step(state, node_id, msg).0
            == state,
        !has_seen(state.seen, msg.body.field("message"@)) ==> handle_step(
            state,
            node_id,
            msg,
        ).0.seen == state.seen + seq![msg.body.field("message"@)],
{
    assert(state.seen + seq![msg.body.field("message"@)] =~= state.seen.push(
        msg.body.field("message"@),
    ));
}

/// The JSON value that describes a network.
pub open spec fn network_json(network: Map<Seq<char>, Seq<Seq<char>>>) -> JsonView {
    JsonView::Object(
        network.map_values(
            |names: Seq<Seq<char>>|
                JsonView::Array(names.map_values(|t: Seq<char>| JsonView::Text(t))),
        ),
    )
}

/// A node that is told the network forwards by the group policy for just that network
/// and its own name; what it has seen stays.
pub proof fn law_network_is_taken_as_described(
    state: StateView,
    node_id: Seq<char>,
    msg: MessageView,
    network: Map<Seq<char>, Seq<Seq<char>>>,
)
    requires
        msg.msg_type == "topology"@,
        msg.body.field("topology"@) == network_json(network),
        network.contains_key(node_id),
    ensures
        can_handle(node_id, msg),
        handle_step(state, node_id, msg).0.seen == state.seen,
        handle_step(state, node_id, msg).0.policy == Some(
            policy_for(PolicyKind::Group, network, node_id),
        ),
        handle_step(state, node_id, msg).1 == Some(
            JsonView::Object(map!["type"@ => JsonView::Text("topology_ok"@)]),
        ),
        handle_step(state, node_id, msg).2.len() == 0,
{
    reveal_strlit("broadcast");
    reveal_strlit("read");
    reveal_strlit("topology");
    assert("broadcast"@.len() == 9);
    assert("read"@.len() == 4);
    assert("topology"@.len() == 8);
    let value = network_json(network);
    let m = value->Object_0;
    assert forall|k: Seq<char>| m.contains_key(k) implies all_texts(#[trigger] m[k])
        && text_elements(m[k]) == network[k] by {
        law_list_of_strings_is_read_back(network[k], JsonView::Null);
    }
    assert(topology_of(value) =~= network);
}

/// A message of no known type changes nothing, and is neither answered nor sent on.
pub proof fn law_unknown_message_does_nothing(
    state: StateView,
    node_id: Seq<char>,
    msg: MessageView,
)
    requires
        msg.msg_type != "broadcast"@,
        msg.msg_type != "read"@,
        msg.msg_type != "topology"@,
    ensures
        can_handle(node_id, msg),
        handle_step(state, node_id, msg) == (
            state,
            None::<JsonView>,
            Seq::<(Seq<char>, JsonView)>::empty(),
        ),
{
}

/// The requests that nodes send when each handles the requests that were sent to it.
pub open spec fn relayed(
    states: Map<Seq<char>, StateView>,
    sent: Seq<(Seq<char>, JsonView)>,
    deliver: spec_fn(JsonView) -> MessageView,
) -> Seq<(Seq<char>, JsonView)>
    decreases sent.len(),
{
    if sent.len() == 0 {
        Seq::empty()
    } else {
        relayed(states, sent.drop_last(), deliver) + handle_step(
            states[sent.last().0],
            sent.last().0,
            deliver(sent.last().1),
        ).2
    }
}

/// Whether bodies are delivered as messages of their type, with the value and the
/// metadata that they hold.
pub open spec fn delivers(deliver: spec_fn(JsonView) -> MessageView) -> bool {
    forall|body: JsonView|
        {
            let msg = #[trigger] deliver(body);
            &&& body.field("type"@) == JsonView::Text(msg.msg_type)
                || !(body.field("type"@) is Text)
            &&& msg.body.field("message"@) == body.field("message"@)
            &&& msg.body.field("meta"@) == body.field("meta"@)
        }
}

/// A value that a client tells one node of a network gets to every node: the node sends
/// requests, and those who get them send what handling them asks for. All of these
/// together go to every other node exactly once, each receiver then has the value, and
/// the receivers of the second requests send no more.
pub proof fn law_requests_reach_every_node_once(
    network: Map<Seq<char>, Seq<Seq<char>>>,
    states: Map<Seq<char>, StateView>,
    entry: Seq<char>,
    msg: MessageView,
    deliver: spec_fn(JsonView) -> MessageView,
)
    requires
        network.dom().finite(),
        network.contains_key(entry),
        states.dom() == network.dom(),
        forall|n: Seq<char>| #[trigger]
            states.contains_key(n) ==> states[n].policy == Some(
                policy_for(PolicyKind::Group, network, n),
            ) && !has_seen(states[n].seen, msg.body.field("message"@)),
        msg.msg_type == "broadcast"@,
        msg.body.field("meta"@) == JsonView::Null,
        delivers(deliver),
    ensures
        ({
            let first = handle_step(states[entry], entry, msg).2;
            let second = relayed(states, first, deliver);
            let all = first + second;
            &&& dests_of(all).no_duplicates()
            &&& dests_of(all).to_set() == network.dom().remove(entry)
            &&& relayed(states, second, deliver).len() == 0
            &&& has_seen(handle_step(states[entry], entry, msg).0.seen, msg.body.field("message"@))
            &&& forall|k: int|
                0 <= k < all.len() ==> has_seen(
                    handle_step(
                        states[(#[trigger] all[k]).0],
                        all[k].0,
                        deliver(all[k].1),
                    ).0.seen,
                    msg.body.field("message"@),
                )
        }),
{
    let names = sorted_listing(network.dom());
    let message = msg.body.field("message"@);
    let meta = msg.body.field("meta"@);
    lemma_sorted_listing(network.dom());
    assert(names.to_set().contains(entry));
    law_group_policy_reaches_every_node_once(names, entry, meta);
    assert(states.contains_key(entry));
    let hops = group_policy(names, entry).hops(meta);
    let wave = group_wave(names, hops);
    let first = handle_step(states[entry], entry, msg).2;
    assert(first == forwards(hops, message));
    assert forall|k: int| 0 <= k < (hops + wave).len() implies network.contains_key(
        (#[trigger] (hops + wave)[k]).0,
    ) by {
        assert(dests_of(hops + wave)[k] == (hops + wave)[k].0);
        assert(dests_of(hops + wave).to_set().contains((hops + wave)[k].0));
    }
    assert forall|k: int| 0 <= k < hops.len() implies network.contains_key(
        (#[trigger] hops[k]).0,
    ) by {
        assert((hops + wave)[k] == hops[k]);
    }
    assert forall|k: int| 0 <= k < wave.len() implies network.contains_key(
        (#[trigger] wave[k]).0,
    ) by {
        assert((hops + wave)[hops.len() + k] == wave[k]);
    }
    lemma_relayed(network, states, hops, message, deliver);
    lemma_relayed(network, states, wave, message, deliver);
    let second = relayed(states, first, deliver);
    assert(second == forwards(wave, message));
    assert(forwards(group_wave(names, wave), message) =~= Seq::empty());
    let all = first + second;
    assert(all =~= forwards(hops + wave, message));
    assert(dests_of(all) =~= dests_of(hops + wave));
    lemma_told_is_seen(states[entry], message, meta);
    assert forall|k: int| 0 <= k < all.len() implies has_seen(
        handle_step(states[(#[trigger] all[k]).0], all[k].0, deliver(all[k].1)).0.seen,
        message,
    ) by {
        let hop = (hops + wave)[k];
        law_forwarding_request_carries_the_hop(message, hop.1);
        assert(all[k].1 == broadcast_body(message, hop.1));
        let got = deliver(all[k].1);
        assert(got.msg_type == "broadcast"@);
        lemma_told_is_seen(states[all[k].0], message, got.body.field("meta"@));
    }
}

/// Nodes that handle forwarding requests forward by their policies.
proof fn lemma_relayed(
    network: Map<Seq<char>, Seq<Seq<char>>>,
    states: Map<Seq<char>, StateView>,
    hops: Seq<(Seq<char>, JsonView)>,
    message: JsonView,
    deliver: spec_fn(JsonView) -> MessageView,
)
    requires
        states.dom() == network.dom(),
        forall|n: Seq<char>| #[trigger]
            states.contains_key(n) ==> states[n].policy == Some(
                policy_for(PolicyKind::Group, network, n),
            ) && !has_seen(states[n].seen, message),
        forall|k: int| 0 <= k < hops.len() ==> network.contains_key((#[trigger] hops[k]).0),
        delivers(deliver),
    ensures
        relayed(states, forwards(hops, message), deliver) == forwards(
            group_wave(sorted_listing(network.dom()), hops),
            message,
        ),
    decreases hops.len(),
{
    let names = sorted_listing(network.dom());
    let sent = forwards(hops, message);
    if hops.len() == 0 {
        assert(forwards(group_wave(names, hops), message) =~= Seq::empty());
    } else {
        let rest = hops.drop_last();
        let (dest, meta) = hops.last();
        assert(rest.push(hops.last()) =~= hops);
        assert forall|k: int| 0 <= k < rest.len() implies network.contains_key(
            (#[trigger] rest[k]).0,
        ) by {
            assert(rest[k] == hops[k]);
        }
        lemma_relayed(network, states, rest, message, deliver);
        assert(sent.drop_last() =~= forwards(rest, message));
        assert(sent.last() == (dest, broadcast_body(message, meta)));
        law_forwarding_request_carries_the_hop(message, meta);
        let msg = deliver(broadcast_body(message, meta));
        assert(msg.msg_type == "broadcast"@);
        assert(network.contains_key(hops[hops.len() - 1].0));
        assert(states.contains_key(dest));
        let mine = group_policy(names, dest).hops(meta);
        assert(handle_step(states[dest], dest, msg).2 == forwards(mine, message));
        assert(forwards(group_wave(names, hops), message) =~= forwards(
            group_wave(names, rest),
            message,
        ) + forwards(mine, message));
    }
}

/// All messages can be handled but those that describe a network without the node, or
/// describe none.
pub proof fn law_which_messages_are_handled(node_id: Seq<char>, msg: MessageView)
    ensures
        msg.msg_type != "topology"@ ==> can_handle(node_id, msg),
        msg.msg_type == "topology"@ && !(msg.body.field("topology"@) is Object) ==> !can_handle(
            node_id,
            msg,
        ),
        msg.msg_type == "topology"@ && msg.body.field("topology"@).field(node_id)
            == JsonView::Null ==> !can_handle(node_id, msg),
{
    let value = msg.body.field("topology"@);
    if msg.msg_type == "topology"@ && can_handle(node_id, msg) {
        assert(all_texts(value->Object_0[node_id]));
    }
}

/// A network with an entry that is no list of strings is not handled.
pub proof fn law_networks_are_lists_of_names(node_id: Seq<char>, msg: MessageView, node: Seq<char>)
    requires
        msg.msg_type == "topology"@,
        msg.body.field("topology"@) is Object,
        msg.body.field("topology"@)->Object_0.contains_key(node),
        !all_texts(msg.body.field("topology"@)->Object_0[node]),
    ensures
        !can_handle(node_id, msg),
{
}

/// A forwarding request is repeated after a second.
pub proof fn law_forwarding_waits_a_second()
    ensures
        BROADCAST_TIMEOUT_MILLIS == 1000,
        POLICY == PolicyKind::Group,
        EXECUTOR == BroadcastExecutorKind::Immediate,
{
}



} // verus!
