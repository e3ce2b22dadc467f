//! The counter workload: each node counts for itself and publishes its count in
//! the sequentially consistent store, and a read adds all of them up.
use vstd::prelude::*;
use crate::json::{number_json, typed, Json, JsonView, Numeral};
use crate::kv::{
    law_store_reads, law_store_writes, read_body, served, write_body, KVStore, Request, RequestView,
    SEQ_KV,
};
use crate::node::{texts, Message, MessageView};
use crate::policy::{collect_others, lemma_others, others};
use crate::text::same_text;

verus! {

/// The time between two looks at whether there is a count to publish, in
/// microseconds.
pub const PUBLISH_INTERVAL_MICROS: u64 = 500;

/// The counts of a node: its own, and the last one that it has published.
#[derive(Debug)]
pub struct State {
    pub local_val: i64,
    pub last_published: i64,
}

/// The count that the reply to a read of it holds, 0 where it holds none.
pub open spec fn int_of(reply: JsonView) -> i64 {
    match reply.field("value"@).as_i64() {
        Some(i) => i,
        None => 0,
    }
}

/// The count that the reply to a read of it holds; none without a reply, and the
/// request is then to be sent again.
pub fn read_int(reply: &Option<Json>) -> (r: Option<i64>)
    ensures
        r == (match *reply {
            Some(reply) => Some(int_of(reply@)),
            None => None,
        }),
{
    match reply {
        Some(reply) => match reply.field("value").as_i64() {
            Some(i) => Some(i),
            None => Some(0),
        },
        None => None,
    }
}

/// The request to write a count.
pub fn write_int(key: &str, val: i64) -> (r: Request)
    ensures
        r@ == (RequestView { dest: SEQ_KV@, body: write_body(key@, number_json(val as int)) }),
{
    KVStore::new(SEQ_KV).write(key, &Json::signed(val))
}

/// Adds what a request says to the count. It wraps around at the ends.
pub fn process_add(state: &mut State, msg: &Message)
    requires
        msg@.body.field("delta"@).as_i64() is Some,
    ensures
        final(state).local_val == old(state).local_val.wrapping_add(
            msg@.body.field("delta"@).as_i64()->0,
        ),
        final(state).last_published == old(state).last_published,
{
    if let Some(delta) = msg.body.field("delta").as_i64() {
        state.local_val = state.local_val.wrapping_add(delta);
    }
}

/// The requests that read the counts of the other nodes.
pub open spec fn reads_of(node_id: Seq<char>, node_ids: Seq<Seq<char>>) -> Seq<RequestView> {
    others(node_ids, node_id).map_values(
        |id: Seq<char>| RequestView { dest: SEQ_KV@, body: read_body(id) },
    )
}

/// What requests are.
pub open spec fn request_views(requests: Seq<Request>) -> Seq<RequestView> {
    requests.map_values(|r: Request| r@)
}

/// The requests that read the counts of the other nodes. Each is to be sent, and
/// repeated until a reply comes.
pub fn remote_reads(node_id: &str, node_ids: &Vec<String>) -> (r: Vec<Request>)
    ensures
        request_views(r@) == reads_of(node_id@, texts(node_ids@)),
{
    let ids = collect_others(node_ids, 0, node_ids.len(), node_id);
    assert(texts(node_ids@).subrange(0, node_ids@.len() as int) =~= texts(node_ids@));
    let kv_store = KVStore::new(SEQ_KV);
    let mut r: Vec<Request> = Vec::new();
    let mut i: usize = 0;
    while i < ids.len()
        invariant
            i <= ids@.len(),
            kv_store.name@ == SEQ_KV@,
            r@.len() == i,
            forall|j: int|
                0 <= j < i ==> #[trigger] r@[j]@ == (RequestView {
                    dest: SEQ_KV@,
                    body: read_body(ids@[j]@),
                }),
        decreases ids@.len() - i,
    {
        r.push(kv_store.read(ids[i].as_str()));
        i = i + 1;
    }
    assert(request_views(r@) =~= reads_of(node_id@, texts(node_ids@))) by {
        assert(texts(ids@).len() == r@.len());
        assert forall|j: int| 0 <= j < r@.len() implies #[trigger] request_views(r@)[j]
            == reads_of(node_id@, texts(node_ids@))[j] by {
            assert(texts(ids@)[j] == ids@[j]@);
        }
    }
    r
}

/// The sum of counts.
pub open spec fn sum_of(values: Seq<i64>) -> int
    decreases values.len(),
{
    if values.len() == 0 {
        0
    } else {
        sum_of(values.drop_last()) + values.last()
    }
}

/// Whether an `i64` holds a number.
pub open spec fn in_range(n: int) -> bool {
    i64::MIN <= n <= i64::MAX
}

/// Whether counts can be added up one after another, and the own one to them.
pub open spec fn can_sum(remote: Seq<i64>, local_val: i64) -> bool {
    &&& forall|n: int| 0 <= n <= remote.len() ==> in_range(#[trigger] sum_of(remote.take(n)))
    &&& in_range(sum_of(remote) + local_val)
}

/// The sum of counts, where they can be added up.
fn checked_sum(remote: &Vec<i64>, local_val: i64) -> (r: Option<i64>)
    ensures
        r is Some <==> can_sum(remote@, local_val),
        r matches Some(sum) ==> sum == sum_of(remote@) + local_val,
{
    let mut sum: i64 = 0;
    let mut i: usize = 0;
    assert(remote@.take(0) =~= Seq::empty());
    while i < remote.len()
        invariant
            i <= remote@.len(),
            sum == sum_of(remote@.take(i as int)),
            forall|n: int| 0 <= n <= i ==> in_range(#[trigger] sum_of(remote@.take(n))),
        decreases remote@.len() - i,
    {
        assert(remote@.take(i + 1).drop_last() =~= remote@.take(i as int));
        match sum.checked_add(remote[i]) {
            Some(next) => {
                sum = next;
            },
            None => {
                assert(!in_range(sum_of(remote@.take(i + 1))));
                return None;
            },
        }
        i = i + 1;
    }
    assert(remote@.take(i as int) =~= remote@);
    sum.checked_add(local_val)
}

/// Whether counts can be added up, and the own one to them.
pub fn accepts_sum(state: &State, remote: &Vec<i64>) -> (r: bool)
    ensures
        r == can_sum(remote@, state.local_val),
{
    checked_sum(remote, state.local_val).is_some()
}

/// The answer to a read, from the counts of the other nodes.
pub fn process_read(state: &State, remote: &Vec<i64>) -> (r: Json)
    requires
        can_sum(remote@, state.local_val),
    ensures
        r@ == typed("read_ok"@).with(
            "value"@,
            number_json(sum_of(remote@) + state.local_val),
        ),
{
    let sum = match checked_sum(remote, state.local_val) {
        Some(sum) => sum,
        None => 0,
    };
    Json::typed("read_ok").with("value", Json::signed(sum))
}

/// What is to be published: the count, and the request that writes it. It is where
/// it is larger than the last one.
pub fn publish_counter(state: &State, node_id: &str) -> (r: Option<(i64, Request)>)
    ensures
        r is Some <==> state.local_val > state.last_published,
        r matches Some(p) ==> p.0 == state.local_val && p.1@ == (RequestView {
            dest: SEQ_KV@,
            body: write_body(node_id@, number_json(state.local_val as int)),
        }),
{
    if state.local_val > state.last_published {
        Some((state.local_val, write_int(node_id, state.local_val)))
    } else {
        None
    }
}

/// What becomes of a count that was sent to be published: with any reply it is
/// published, without one it is not and will be sent again.
pub fn counter_published(state: &mut State, val: i64, reply: &Option<Json>)
    ensures
        final(state).local_val == old(state).local_val,
        final(state).last_published == (if *reply is Some {
            val
        } else {
            old(state).last_published
        }),
{
    if reply.is_some() {
        state.last_published = val;
    }
}

/// Whether a message can be handled: it is a read, or an addition of an integer.
pub open spec fn can_handle(msg: MessageView) -> bool {
    ||| msg.msg_type == "add"@ && msg.body.field("delta"@).as_i64() is Some
    ||| msg.msg_type == "read"@
}

/// What a node does about a message.
#[derive(Debug)]
pub enum Reaction {
    /// Answer it.
    Answer(Json),
    /// Send the requests, and answer from what they give.
    Gather(Vec<Request>),
}

impl State {
    /// Makes a state that has counted nothing.
    pub fn new() -> (r: State)
        ensures
            r == (State { local_val: 0, last_published: 0 }),
    {
        State { local_val: 0, last_published: 0 }
    }

    /// Whether a message can be handled.
    pub fn accepts(&self, msg: &Message) -> (r: bool)
        ensures
            r == can_handle(msg@),
    {
        let kind = msg.msg_type.as_str();
        (same_text(kind, "add") && msg.body.field("delta").as_i64().is_some()) || same_text(
            kind,
            "read",
        )
    }

    /// Handles a message: an addition is done and answered, a read gathers the
    /// counts of the other nodes.
    pub fn handle(&mut self, node_id: &str, node_ids: &Vec<String>, msg: &Message) -> (r: Reaction)
        requires
            can_handle(msg@),
        ensures
            final(self).last_published == old(self).last_published,
            msg@.msg_type == "add"@ ==> {
                &&& final(self).local_val == old(self).local_val.wrapping_add(
                    msg@.body.field("delta"@).as_i64()->0,
                )
                &&& r matches Reaction::Answer(j)
                &&& j@ == typed("add_ok"@)
            },
            msg@.msg_type == "read"@ ==> {
                &&& final(self).local_val == old(self).local_val
                &&& r matches Reaction::Gather(requests)
                &&& request_views(requests@) == reads_of(node_id@, texts(node_ids@))
            },
    {
        proof {
            reveal_strlit("add");
            reveal_strlit("read");
            assert("add"@.len() != "read"@.len());
        }
        if same_text(msg.msg_type.as_str(), "add") {
            process_add(self, msg);
            Reaction::Answer(Json::typed("add_ok"))
        } else {
            Reaction::Gather(remote_reads(node_id, node_ids))
        }
    }
}

/// The count that a store holds for a node, 0 where it holds none.
pub open spec fn published_of(kv: Map<Seq<char>, JsonView>, id: Seq<char>) -> i64 {
    if kv.contains_key(id) {
        match kv[id].as_i64() {
            Some(i) => i,
            None => 0,
        }
    } else {
        0
    }
}

/// The counts that a store holds for nodes.
pub open spec fn published(kv: Map<Seq<char>, JsonView>, ids: Seq<Seq<char>>) -> Seq<i64> {
    ids.map_values(|id: Seq<char>| published_of(kv, id))
}

/// What a read gathers is what each of the other nodes has published.
pub proof fn law_read_gathers_published_counts(
    kv: Map<Seq<char>, JsonView>,
    node_id: Seq<char>,
    node_ids: Seq<Seq<char>>,
    i: int,
)
    requires
        0 <= i < reads_of(node_id, node_ids).len(),
    ensures
        reads_of(node_id, node_ids).len() == published(kv, others(node_ids, node_id)).len(),
        int_of(served(kv, reads_of(node_id, node_ids)[i].body).1) == published(
            kv,
            others(node_ids, node_id),
        )[i],
{
    let id = others(node_ids, node_id)[i];
    law_store_reads(kv, id);
    lemma_value_of_reply(kv, id);
}

/// The value in the reply to a read is that of the key, and null without one.
proof fn lemma_value_of_reply(kv: Map<Seq<char>, JsonView>, id: Seq<char>)
    ensures
        served(kv, read_body(id)).1.field("value"@) == (if kv.contains_key(id) {
            kv[id]
        } else {
            JsonView::Null
        }),
{
    law_store_reads(kv, id);
    reveal_strlit("value");
    reveal_strlit("type");
    reveal_strlit("code");
    assert("value"@.len() == 5);
    assert("type"@.len() == 4);
    assert("code"@.len() == 4);
}

/// A count that is published is what the other nodes read of the node afterwards,
/// and the counts of the others stay as they are.
pub proof fn law_published_count_is_read(
    kv: Map<Seq<char>, JsonView>,
    node_id: Seq<char>,
    val: i64,
    id: Seq<char>,
)
    ensures
        ({
            let after = served(kv, write_body(node_id, number_json(val as int))).0;
            published_of(after, id) == (if id == node_id {
                val
            } else {
                published_of(kv, id)
            })
        }),
{
    law_store_writes(kv, node_id, number_json(val as int));
}

/// The sum of the counts of all nodes, each of which has published its count, is
/// what every node reads.
pub proof fn law_all_nodes_read_the_same(
    kv: Map<Seq<char>, JsonView>,
    node_ids: Seq<Seq<char>>,
    node_id: Seq<char>,
)
    requires
        node_ids.no_duplicates(),
        node_ids.contains(node_id),
    ensures
        sum_of(published(kv, others(node_ids, node_id))) + published_of(kv, node_id) == sum_of(
            published(kv, node_ids),
        ),
    decreases node_ids.len(),
{
    let last = node_ids.last();
    let rest = node_ids.drop_last();
    assert(published(kv, node_ids).drop_last() =~= published(kv, rest));
    assert(published(kv, node_ids).last() == published_of(kv, last));
    if last == node_id {
        assert(!rest.contains(node_id)) by {
            if rest.contains(node_id) {
                let i = rest.index_of(node_id);
                assert(node_ids[i] == node_ids[node_ids.len() - 1]);
            }
        }
        lemma_others(rest, node_id);
    } else {
        let i = node_ids.index_of(node_id);
        assert(rest[i] == node_id);
        law_all_nodes_read_the_same(kv, rest, node_id);
        let o = others(rest, node_id);
        assert(published(kv, o.push(last)).drop_last() =~= published(kv, o));
        assert(published(kv, o.push(last)).last() == published_of(kv, last));
    }
}

/// The reply to a read of a count gives the integer that it holds, and 0 without one.
pub proof fn law_reply_gives_its_integer(reply: JsonView, count: i64)
    ensures
        reply.field("value"@) == JsonView::Number(Numeral::Int(count as int)) ==> int_of(reply)
            == count,
        reply.field("value"@).as_i64() is None ==> int_of(reply) == 0,
{
}

/// A read asks the sequential store for the count of each other node, under the name of
/// that node, in the order of the nodes; and for nothing else.
pub proof fn law_read_asks_for_every_other_node(
    node_id: Seq<char>,
    node_ids: Seq<Seq<char>>,
    i: int,
)
    ensures
        reads_of(node_id, node_ids).len() == others(node_ids, node_id).len(),
        0 <= i < others(node_ids, node_id).len() ==> reads_of(node_id, node_ids)[i] == (RequestView {
            dest: "seq-kv"@,
            body: read_body(others(node_ids, node_id)[i]),
        }),
        forall|id: Seq<char>| #[trigger]
            others(node_ids, node_id).contains(id) <==> node_ids.contains(id) && id != node_id,
{
    lemma_others(node_ids, node_id);
}

/// Every count is added, once.
pub proof fn law_sum_counts_every_value(a: Seq<i64>, b: Seq<i64>, x: i64)
    ensures
        sum_of(a + b) == sum_of(a) + sum_of(b),
        sum_of(seq![x]) == x,
        sum_of(Seq::empty()) == 0,
    decreases b.len(),
{
    reveal_with_fuel(sum_of, 2);
    assert(seq![x].drop_last() =~= Seq::empty());
    if b.len() == 0 {
        assert(a + b =~= a);
    } else {
        law_sum_counts_every_value(a, b.drop_last(), x);
        assert((a + b).drop_last() =~= a + b.drop_last());
        assert((a + b).last() == b.last());
    }
}

/// Counts can be added up if and only if the sum of the first of them is in range
/// whenever one is added, and so is the whole with the own count.
pub proof fn law_which_counts_can_be_added(remote: Seq<i64>, local_val: i64)
    ensures
        can_sum(remote, local_val) ==> i64::MIN <= sum_of(remote) + local_val <= i64::MAX,
        (forall|i: int| 0 <= i < remote.len() ==> #[trigger] remote[i] >= 0) && 0 <= local_val
            && sum_of(remote) + local_val <= i64::MAX ==> can_sum(remote, local_val),
        can_sum(remote, local_val) <==> i64::MIN <= sum_of(remote) + local_val <= i64::MAX
            && forall|n: int|
            0 <= n <= remote.len() ==> i64::MIN <= #[trigger] sum_of(remote.take(n)) <= i64::MAX,
{
    if (forall|i: int| 0 <= i < remote.len() ==> #[trigger] remote[i] >= 0) && 0 <= local_val
        && sum_of(remote) + local_val <= i64::MAX {
        lemma_sum_of_naturals(remote);
        assert forall|n: int| 0 <= n <= remote.len() implies in_range(
            #[trigger] sum_of(remote.take(n)),
        ) by {
            let rest = remote.skip(n);
            assert(remote =~= remote.take(n) + rest);
            law_sum_counts_every_value(remote.take(n), rest, 0);
            assert forall|i: int| 0 <= i < rest.len() implies #[trigger] rest[i] >= 0 by {
                assert(remote[n + i] >= 0);
            }
            lemma_sum_of_naturals(rest);
            assert forall|i: int| 0 <= i < n implies #[trigger] remote.take(n)[i] >= 0 by {
                assert(remote[i] >= 0);
            }
            lemma_sum_of_naturals(remote.take(n));
        }
    }
}

proof fn lemma_sum_of_naturals(values: Seq<i64>)
    requires
        forall|i: int| 0 <= i < values.len() ==> #[trigger] values[i] >= 0,
    ensures
        sum_of(values) >= 0,
    decreases values.len(),
{
    if values.len() > 0 {
        assert(values[values.len() - 1] >= 0);
        assert forall|i: int| 0 <= i < values.drop_last().len() implies #[trigger] values.drop_last()[i]
            >= 0 by {
            assert(values[i] >= 0);
        }
        lemma_sum_of_naturals(values.drop_last());
    }
}

/// Reads can be handled, and additions of an integer that fits, and nothing else.
pub proof fn law_which_messages_are_handled(msg: MessageView, delta: i64)
    ensures
        msg.msg_type == "read"@ ==> can_handle(msg),
        msg.msg_type == "add"@ && msg.body.field("delta"@) == JsonView::Number(
            Numeral::Int(delta as int),
        ) ==> can_handle(msg),
        msg.msg_type == "add"@ && msg.body.field("delta"@).as_i64() is None ==> !can_handle(msg),
        msg.msg_type != "read"@ && msg.msg_type != "add"@ ==> !can_handle(msg),
{
    reveal_strlit("add");
    reveal_strlit("read");
    assert("add"@.len() != "read"@.len());
}

/// What the answer to a read gives is the sum of what all nodes have counted, where each
/// other node has published its count and the own one is added.
pub proof fn law_read_gives_the_sum_of_all_counts(
    kv: Map<Seq<char>, JsonView>,
    node_id: Seq<char>,
    node_ids: Seq<Seq<char>>,
    counts: Map<Seq<char>, i64>,
    remote: Seq<i64>,
)
    requires
        node_ids.no_duplicates(),
        node_ids.contains(node_id),
        forall|id: Seq<char>| #[trigger]
            node_ids.contains(id) && id != node_id ==> kv.contains_key(id) && kv[id]
                == JsonView::Number(Numeral::Int(counts[id] as int)),
        remote.len() == reads_of(node_id, node_ids).len(),
        forall|i: int|
            0 <= i < remote.len() ==> #[trigger] remote[i] == int_of(
                served(kv, reads_of(node_id, node_ids)[i].body).1,
            ),
    ensures
        sum_of(remote) + counts[node_id] == sum_of(
            node_ids.map_values(|id: Seq<char>| counts[id]),
        ),
{
    let own = kv.insert(node_id, number_json(counts[node_id] as int));
    let ids = others(node_ids, node_id);
    lemma_others(node_ids, node_id);
    assert(remote =~= published(own, ids)) by {
        assert forall|i: int| 0 <= i < remote.len() implies #[trigger] remote[i] == published(
            own,
            ids,
        )[i] by {
            law_read_gathers_published_counts(kv, node_id, node_ids, i);
            assert(ids.contains(ids[i]));
            assert(node_ids.contains(ids[i]));
        }
    }
    law_all_nodes_read_the_same(own, node_ids, node_id);
    assert(published_of(own, node_id) == counts[node_id]);
    assert(published(own, node_ids) =~= node_ids.map_values(|id: Seq<char>| counts[id])) by {
        assert forall|i: int| 0 <= i < node_ids.len() implies #[trigger] published(
            own,
            node_ids,
        )[i] == counts[node_ids[i]] by {
            assert(node_ids.contains(node_ids[i]));
        }
    }
}

/// Requests are seen as what they are, one by one. A node looks twice in a millisecond
/// for a count to publish.
pub proof fn law_reads_are_seen_as_they_are(requests: Seq<Request>, i: int)
    ensures
        request_views(requests).len() == requests.len(),
        0 <= i < requests.len() ==> request_views(requests)[i] == requests[i]@,
        PUBLISH_INTERVAL_MICROS == 500,
{
}

} // verus!
