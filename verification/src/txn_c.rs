//! The transaction workload on many nodes: the writes of a transaction take effect
//! together, and are then replicated to every other node.
use vstd::prelude::*;
use crate::json::{json_views, number_json, typed, Json, JsonView, Numeral};
use crate::node::{texts, Message, MessageView};
use crate::policy::{add_hops, collect_others, hop_views, hops_to, lemma_others, others};
use crate::text::same_text;
use crate::txn::{
    is_txn, last_write, law_statement_means_what_it_says, leave_key, lemma_last_write, make_result,
    op_of, optional_json, ops_of, process_read, read_txn, reads_key, result_json, value_json,
    writes_key, Key, Op, State, Val,
};

verus! {

/// The time after which a replication request without a reply is repeated, in
/// milliseconds.
pub const RPC_TIMEOUT_MILLIS: u64 = 1000;

/// The results of statements that all find the same database.
pub open spec fn results(db: Map<Key, Val>, ops: Seq<Op>) -> Seq<JsonView> {
    Seq::new(
        ops.len(),
        |i: int|
            match ops[i] {
                Op::Read(k) => result_json("r"@, k, value_json(db, k)),
                Op::Write(k, v) => result_json("w"@, k, number_json(v as int)),
            },
    )
}

/// The writes among statements, in their order.
pub open spec fn writes_of(ops: Seq<Op>) -> Seq<(Key, Val)>
    decreases ops.len(),
{
    if ops.len() == 0 {
        Seq::empty()
    } else {
        match ops.last() {
            Op::Read(_) => writes_of(ops.drop_last()),
            Op::Write(k, v) => writes_of(ops.drop_last()).push((k, v)),
        }
    }
}

/// The database after writes.
pub open spec fn applied(db: Map<Key, Val>, writes: Seq<(Key, Val)>) -> Map<Key, Val>
    decreases writes.len(),
{
    if writes.len() == 0 {
        db
    } else {
        applied(db, writes.drop_last()).insert(writes.last().0, writes.last().1)
    }
}

/// Applies writes one after another.
pub fn commit_writes(state: &mut State, write_buffer: &Vec<(Key, Val)>)
    ensures
        final(state).db@ == applied(old(state).db@, write_buffer@),
{
    broadcast use vstd::std_specs::hash::group_hash_axioms;

    let ghost before = state.db@;
    let mut i: usize = 0;
    assert(write_buffer@.take(0) =~= Seq::empty());
    while i < write_buffer.len()
        invariant
            i <= write_buffer@.len(),
            state.db@ == applied(before, write_buffer@.take(i as int)),
        decreases write_buffer@.len() - i,
    {
        assert(write_buffer@.take(i + 1).drop_last() =~= write_buffer@.take(i as int));
        let (k, v) = write_buffer[i];
        state.db.insert(k, v);
        i = i + 1;
    }
    assert(write_buffer@.take(i as int) =~= write_buffer@);
}

/// A write as it is replicated.
pub open spec fn write_json(write: (Key, Val)) -> JsonView {
    JsonView::Array(seq![number_json(write.0 as int), number_json(write.1 as int)])
}

/// The body of a replication request.
pub open spec fn repl_body(writes: Seq<(Key, Val)>) -> JsonView {
    typed("repl"@).with("repl"@, JsonView::Array(writes.map_values(|w: (Key, Val)| write_json(w))))
}

/// Makes the body of a replication request.
fn make_repl_body(writes: &Vec<(Key, Val)>) -> (r: Json)
    ensures
        r@ == repl_body(writes@),
{
    let ghost all = writes@.map_values(|w: (Key, Val)| write_json(w));
    let mut v: Vec<Json> = Vec::new();
    let mut i: usize = 0;
    assert(json_views(v@) =~= all.take(0));
    while i < writes.len()
        invariant
            i <= writes@.len(),
            all == writes@.map_values(|w: (Key, Val)| write_json(w)),
            json_views(v@) == all.take(i as int),
        decreases writes@.len() - i,
    {
        let (key, val) = writes[i];
        let mut pair: Vec<Json> = Vec::new();
        pair.push(Json::number(key));
        pair.push(Json::number(val));
        assert(json_views(pair@) =~= write_json(writes@[i as int])->Array_0);
        let ghost done = v@;
        v.push(Json::Array(pair));
        assert(json_views(v@) =~= json_views(done).push(all[i as int]));
        assert(json_views(v@) =~= all.take(i + 1));
        i = i + 1;
    }
    assert(all.take(i as int) =~= all);
    Json::typed("repl").with("repl", Json::Array(v))
}

/// The replication requests of writes: one for every other node. Each is to be
/// sent, and repeated until a reply comes.
pub fn schedule_replicate_txn(
    node_id: &str,
    node_ids: &Vec<String>,
    writes: &Vec<(Key, Val)>,
) -> (r: Vec<(String, Json)>)
    ensures
        hop_views(r@) == hops_to(others(texts(node_ids@), node_id@), repl_body(writes@)),
{
    let dests = collect_others(node_ids, 0, node_ids.len(), node_id);
    assert(texts(node_ids@).subrange(0, node_ids@.len() as int) =~= texts(node_ids@));
    let body = make_repl_body(writes);
    let mut r: Vec<(String, Json)> = Vec::new();
    assert(hop_views(r@) =~= Seq::empty());
    add_hops(&mut r, &dests, &body);
    assert(hop_views(r@) =~= hops_to(others(texts(node_ids@), node_id@), repl_body(writes@)));
    r
}

/// Whether a replication request is to be sent again: it is until any reply comes.
pub fn repeats(reply: &Option<Json>) -> (r: bool)
    ensures
        r == (reply is None),
{
    reply.is_none()
}

/// Runs the transaction of a message: gives the results of its statements, which
/// find the database as it was before the transaction, and the requests that
/// replicate its writes.
pub fn process_txn(
    state: &mut State,
    msg: &Message,
    node_id: &str,
    node_ids: &Vec<String>,
) -> (r: (Json, Vec<(String, Json)>))
    requires
        is_txn(msg@.body.field("txn"@)),
    ensures
        ({
            let ops = ops_of(msg@.body.field("txn"@));
            &&& final(state).db@ == applied(old(state).db@, writes_of(ops))
            &&& r.0@ == JsonView::Array(results(old(state).db@, ops))
            &&& hop_views(r.1@) == hops_to(
                others(texts(node_ids@), node_id@),
                repl_body(writes_of(ops)),
            )
        }),
{
    let mut res: Vec<Json> = Vec::new();
    let mut write_buffer: Vec<(Key, Val)> = Vec::new();
    let ghost before = state.db@;
    match read_txn(msg.body.field("txn")) {
        Some(txn) => {
            let mut i: usize = 0;
            assert(json_views(res@) =~= results(before, txn@).take(0));
            assert(txn@.take(0) =~= Seq::empty());
            while i < txn.len()
                invariant
                    i <= txn@.len(),
                    state.db@ == before,
                    json_views(res@) == results(before, txn@).take(i as int),
                    write_buffer@ == writes_of(txn@.take(i as int)),
                decreases txn@.len() - i,
            {
                let ghost done = res@;
                assert(txn@.take(i + 1).drop_last() =~= txn@.take(i as int));
                assert(txn@.take(i + 1).last() == txn@[i as int]);
                match txn[i] {
                    Op::Read(key) => {
                        let val = process_read(state, key);
                        res.push(make_result("r", key, optional_json(val)));
                    },
                    Op::Write(key, val) => {
                        write_buffer.push((key, val));
                        res.push(make_result("w", key, Json::number(val)));
                    },
                }
                assert(json_views(res@) =~= json_views(done).push(res@.last()@));
                assert(json_views(res@) =~= results(before, txn@).take(i + 1));
                i = i + 1;
            }
            assert(txn@.take(i as int) =~= txn@);
            assert(results(before, txn@).take(i as int) =~= results(before, txn@));
        },
        None => {},
    }
    commit_writes(state, &write_buffer);
    let sent = schedule_replicate_txn(node_id, node_ids, &write_buffer);
    (Json::Array(res), sent)
}

/// The write that a JSON value stands for: an array of a key and a value.
pub open spec fn write_of(value: JsonView) -> Option<(Key, Val)> {
    match value {
        JsonView::Array(s) => if s.len() != 2 {
            None
        } else {
            match (s[0].as_u64(), s[1].as_u64()) {
                (Some(k), Some(v)) => Some((k, v)),
                _ => None,
            }
        },
        _ => None,
    }
}

/// Whether a JSON value is a replication: an array of writes.
pub open spec fn is_repl(value: JsonView) -> bool {
    value is Array && forall|i: int|
        0 <= i < value->Array_0.len() ==> write_of(#[trigger] value->Array_0[i]) is Some
}

/// The writes of a replication.
pub open spec fn repl_of(value: JsonView) -> Seq<(Key, Val)> {
    Seq::new(value->Array_0.len(), |i: int| write_of(value->Array_0[i])->0)
}

/// Reads a write.
fn read_write(value: &Json) -> (r: Option<(Key, Val)>)
    ensures
        r == write_of(value@),
{
    match value.as_array() {
        Some(v) => {
            if v.len() != 2 {
                return None;
            }
            assert(json_views(v@)[0] == v@[0]@);
            assert(json_views(v@)[1] == v@[1]@);
            match (v[0].as_u64(), v[1].as_u64()) {
                (Some(key), Some(val)) => Some((key, val)),
                _ => None,
            }
        },
        None => None,
    }
}

/// Reads a replication.
pub fn read_repl(value: &Json) -> (r: Option<Vec<(Key, Val)>>)
    ensures
        r is Some <==> is_repl(value@),
        r matches Some(writes) ==> writes@ == repl_of(value@),
{
    match value.as_array() {
        Some(v) => {
            let mut writes: Vec<(Key, Val)> = Vec::new();
            let mut i: usize = 0;
            while i < v.len()
                invariant
                    i <= v@.len(),
                    value@ == JsonView::Array(json_views(v@)),
                    writes@.len() == i,
                    forall|j: int|
                        0 <= j < i ==> write_of(#[trigger] value@->Array_0[j]) == Some(writes@[j]),
                decreases v@.len() - i,
            {
                assert(value@->Array_0[i as int] == v@[i as int]@);
                match read_write(&v[i]) {
                    Some(write) => {
                        writes.push(write);
                    },
                    None => {
                        return None;
                    },
                }
                i = i + 1;
            }
            assert(writes@ =~= repl_of(value@));
            Some(writes)
        },
        None => None,
    }
}

/// Applies the writes that another node replicates.
pub fn process_repl(state: &mut State, msg: &Message)
    requires
        is_repl(msg@.body.field("repl"@)),
    ensures
        final(state).db@ == applied(old(state).db@, repl_of(msg@.body.field("repl"@))),
{
    if let Some(writes) = read_repl(msg.body.field("repl")) {
        commit_writes(state, &writes);
    }
}

/// Whether a message can be handled: it is a transaction or a replication.
pub open spec fn can_handle(msg: MessageView) -> bool {
    ||| msg.msg_type == "txn"@ && is_txn(msg.body.field("txn"@))
    ||| msg.msg_type == "repl"@ && is_repl(msg.body.field("repl"@))
}

/// Whether a message can be handled.
pub fn accepts(msg: &Message) -> (r: bool)
    ensures
        r == can_handle(msg@),
{
    (same_text(msg.msg_type.as_str(), "txn") && read_txn(msg.body.field("txn")).is_some()) || (
    same_text(msg.msg_type.as_str(), "repl") && read_repl(msg.body.field("repl")).is_some())
}

/// What a node does about a message: its new database, the answer, and the
/// requests to send.
pub open spec fn handle_step(
    db: Map<Key, Val>,
    node_id: Seq<char>,
    node_ids: Seq<Seq<char>>,
    msg: MessageView,
) -> (Map<Key, Val>, JsonView, Seq<(Seq<char>, JsonView)>) {
    if msg.msg_type == "txn"@ {
        let ops = ops_of(msg.body.field("txn"@));
        (
            applied(db, writes_of(ops)),
            typed("txn_ok"@).with("txn"@, JsonView::Array(results(db, ops))),
            hops_to(others(node_ids, node_id), repl_body(writes_of(ops))),
        )
    } else {
        (applied(db, repl_of(msg.body.field("repl"@))), typed("repl_ok"@), Seq::empty())
    }
}

/// Handles a message.
pub fn handle(
    state: &mut State,
    node_id: &str,
    node_ids: &Vec<String>,
    msg: &Message,
) -> (r: (Json, Vec<(String, Json)>))
    requires
        can_handle(msg@),
    ensures
        (final(state).db@, r.0@, hop_views(r.1@)) == handle_step(
            old(state).db@,
            node_id@,
            texts(node_ids@),
            msg@,
        ),
{
    proof {
        reveal_strlit("txn");
        reveal_strlit("repl");
        assert("txn"@.len() != "repl"@.len());
    }
    if same_text(msg.msg_type.as_str(), "txn") {
        let (res, sent) = process_txn(state, msg, node_id, node_ids);
        (Json::typed("txn_ok").with("txn", res), sent)
    } else {
        process_repl(state, msg);
        let sent: Vec<(String, Json)> = Vec::new();
        assert(hop_views(sent@) =~= Seq::empty());
        (Json::typed("repl_ok"), sent)
    }
}

/// No read of a transaction sees a write of the same transaction: it gives what
/// was committed before.
pub proof fn law_reads_give_committed_values(db: Map<Key, Val>, ops: Seq<Op>, i: int)
    requires
        0 <= i < ops.len(),
    ensures
        results(db, ops).len() == ops.len(),
        ops[i] matches Op::Read(k) ==> results(db, ops)[i] == result_json(
            "r"@,
            k,
            value_json(db, k),
        ),
{
}

/// What is replicated of writes is read back as the same writes.
pub proof fn law_replication_carries_the_writes(writes: Seq<(Key, Val)>)
    ensures
        is_repl(repl_body(writes).field("repl"@)),
        repl_of(repl_body(writes).field("repl"@)) == writes,
        repl_body(writes).field("type"@) == JsonView::Text("repl"@),
{
    reveal_strlit("type");
    reveal_strlit("repl");
    assert("type"@[0] != "repl"@[0]);
    let value = repl_body(writes).field("repl"@);
    assert forall|i: int| 0 <= i < value->Array_0.len() implies write_of(
        #[trigger] value->Array_0[i],
    ) == Some(writes[i]) by {
        let s = write_json(writes[i])->Array_0;
        assert(s[0].as_u64() == Some(writes[i].0));
        assert(s[1].as_u64() == Some(writes[i].1));
    }
    assert(repl_of(value) =~= writes);
}

/// A node with the same database as the node that ran a transaction has the same
/// database again once it has handled the replication request, and answers it.
pub proof fn law_replicas_agree(
    db: Map<Key, Val>,
    node_id: Seq<char>,
    node_ids: Seq<Seq<char>>,
    msg: MessageView,
    replica: Seq<char>,
    request: MessageView,
    i: int,
)
    requires
        msg.msg_type == "txn"@,
        is_txn(msg.body.field("txn"@)),
        0 <= i < handle_step(db, node_id, node_ids, msg).2.len(),
        request.body.field("repl"@) == handle_step(db, node_id, node_ids, msg).2[i].1.field(
            "repl"@,
        ),
        request.msg_type == "repl"@,
    ensures
        can_handle(request),
        handle_step(db, replica, node_ids, request) == (
            handle_step(db, node_id, node_ids, msg).0,
            typed("repl_ok"@),
            Seq::<(Seq<char>, JsonView)>::empty(),
        ),
{
    reveal_strlit("txn");
    reveal_strlit("repl");
    assert("txn"@.len() != "repl"@.len());
    law_replication_carries_the_writes(writes_of(ops_of(msg.body.field("txn"@))));
}

/// Replication requests go to every other node, and none to the node itself.
pub proof fn law_replication_reaches_every_other_node(
    node_id: Seq<char>,
    node_ids: Seq<Seq<char>>,
    writes: Seq<(Key, Val)>,
    id: Seq<char>,
)
    ensures
        (exists|i: int|
            0 <= i < hops_to(others(node_ids, node_id), repl_body(writes)).len()
                && #[trigger] hops_to(others(node_ids, node_id), repl_body(writes))[i] == (
                id,
                repl_body(writes),
            )) <==> node_ids.contains(id) && id != node_id,
{
    let dests = others(node_ids, node_id);
    let sent = hops_to(dests, repl_body(writes));
    lemma_others(node_ids, node_id);
    if dests.contains(id) {
        assert(sent[dests.index_of(id)] == (id, repl_body(writes)));
    }
    assert forall|i: int| 0 <= i < sent.len() && #[trigger] sent[i] == (
        id,
        repl_body(writes),
    ) implies dests.contains(id) by {
        assert(dests[i] == id);
    }
}

/// Applying the same writes again changes nothing, so that a repeated replication
/// request does no harm where no other write came between.
pub proof fn law_repeated_replication_changes_nothing(db: Map<Key, Val>, writes: Seq<(Key, Val)>)
    ensures
        applied(applied(db, writes), writes) == applied(db, writes),
{
    let once = applied(db, writes);
    let twice = applied(once, writes);
    assert forall|k: Key| #[trigger] twice.contains_key(k) == once.contains_key(k) by {
        law_keys_hold_last_writes(db, writes, k);
        law_keys_hold_last_writes(once, writes, k);
    }
    assert forall|k: Key| once.contains_key(k) implies #[trigger] twice[k] == once[k] by {
        law_keys_hold_last_writes(db, writes, k);
        law_keys_hold_last_writes(once, writes, k);
    }
    assert(twice =~= once);
}

/// The value that writes leave at a key, where they write to it.
pub open spec fn last_value(writes: Seq<(Key, Val)>, key: Key) -> Option<Val>
    decreases writes.len(),
{
    if writes.len() == 0 {
        None
    } else if writes.last().0 == key {
        Some(writes.last().1)
    } else {
        last_value(writes.drop_last(), key)
    }
}

/// After writes a key holds the last value that they wrote to it, or what it held
/// before where they did not.
pub proof fn law_keys_hold_last_writes(db: Map<Key, Val>, writes: Seq<(Key, Val)>, key: Key)
    ensures
        match last_value(writes, key) {
            Some(v) => applied(db, writes).contains_key(key) && applied(db, writes)[key] == v,
            None => applied(db, writes).contains_key(key) == db.contains_key(key) && (
            db.contains_key(key) ==> applied(db, writes)[key] == db[key]),
        },
    decreases writes.len(),
{
    if writes.len() > 0 {
        law_keys_hold_last_writes(db, writes.drop_last(), key);
    }
}

/// The writes of statements are just those that they ask for: none is lost or added,
/// and they come in the same order.
pub proof fn law_writes_are_those_asked_for(a: Seq<Op>, b: Seq<Op>, key: Key, val: Val)
    ensures
        writes_of(a + b) == writes_of(a) + writes_of(b),
        writes_of(seq![Op::Write(key, val)]) == seq![(key, val)],
        writes_of(seq![Op::Read(key)]) == Seq::<(Key, Val)>::empty(),
        writes_of(Seq::empty()) == Seq::<(Key, Val)>::empty(),
    decreases b.len(),
{
    reveal_with_fuel(writes_of, 2);
    assert(seq![Op::Write(key, val)].drop_last() =~= Seq::empty());
    assert(seq![Op::Read(key)].drop_last() =~= Seq::empty());
    assert(writes_of(seq![Op::Write(key, val)]) =~= seq![(key, val)]);
    if b.len() == 0 {
        assert(a + b =~= a);
        assert(writes_of(a) + writes_of(b) =~= writes_of(a));
    } else {
        law_writes_are_those_asked_for(a, b.drop_last(), key, val);
        assert((a + b).drop_last() =~= a + b.drop_last());
        assert((a + b).last() == b.last());
        assert(writes_of(a + b) =~= writes_of(a) + writes_of(b));
    }
}

/// After a transaction each key holds the value of the last write statement to it, or
/// what it held before where none writes to it.
pub proof fn law_transaction_commits_its_writes(db: Map<Key, Val>, ops: Seq<Op>, key: Key)
    ensures
        ({
            let after = applied(db, writes_of(ops));
            match last_write(ops, key) {
                Some(val) => after.contains_key(key) && after[key] == val,
                None => after.contains_key(key) == db.contains_key(key) && (db.contains_key(key)
                    ==> after[key] == db[key]),
            }
        }),
    decreases ops.len(),
{
    if ops.len() > 0 {
        law_transaction_commits_its_writes(db, ops.drop_last(), key);
        let before = writes_of(ops.drop_last());
        if let Op::Write(k, v) = ops.last() {
            assert(before.push((k, v)).drop_last() =~= before);
        }
    }
}

/// A replicated transaction does what its statements say. There is one result for each:
/// a write is confirmed with its key and value, and a read gives what the database held
/// before the transaction. Afterwards each key holds what was written to it last, or
/// what it held before; and the requests go to every other node in the order of the
/// nodes.
pub proof fn law_replicated_transaction_takes_effect(
    db: Map<Key, Val>,
    node_id: Seq<char>,
    node_ids: Seq<Seq<char>>,
    msg: MessageView,
    i: int,
    j: int,
    key: Key,
    val: Val,
)
    requires
        msg.msg_type == "txn"@,
        is_txn(msg.body.field("txn"@)),
        0 <= i < msg.body.field("txn"@)->Array_0.len(),
        0 <= j < msg.body.field("txn"@)->Array_0.len(),
    ensures
        ({
            let stmts = msg.body.field("txn"@)->Array_0;
            let (after, answer, sent) = handle_step(db, node_id, node_ids, msg);
            let results = answer.field("txn"@)->Array_0;
            let result = |op: Seq<char>, v: JsonView|
                JsonView::Array(
                    seq![JsonView::Text(op), JsonView::Number(Numeral::Int(key as int)), v],
                );
            let number = JsonView::Number(Numeral::Int(val as int));
            let held = if db.contains_key(key) {
                JsonView::Number(Numeral::Int(db[key] as int))
            } else {
                JsonView::Null
            };
            &&& can_handle(msg)
            &&& answer == JsonView::Object(
                map!["type"@ => JsonView::Text("txn_ok"@), "txn"@ => JsonView::Array(results)],
            )
            &&& results.len() == stmts.len()
            &&& writes_key(stmts[i], key, val) ==> results[i] == result("w"@, number)
            &&& reads_key(stmts[i], key) ==> results[i] == result("r"@, held)
            &&& writes_key(stmts[j], key, val) && leave_key(
                stmts,
                j + 1,
                stmts.len() as int,
                key,
            ) ==> after.contains_key(key) && after[key] == val
            &&& leave_key(stmts, 0, stmts.len() as int, key) ==> after.contains_key(key)
                == db.contains_key(key) && (db.contains_key(key) ==> after[key] == db[key])
            &&& sent.len() == others(node_ids, node_id).len()
            &&& forall|n: int|
                0 <= n < sent.len() ==> (#[trigger] sent[n]).0 == others(node_ids, node_id)[n]
                    && sent[n].1 == replication(writes_of(ops_of(msg.body.field("txn"@))))
        }),
{
    let value = msg.body.field("txn"@);
    let stmts = value->Array_0;
    let ops = ops_of(value);
    reveal_strlit("type");
    reveal_strlit("txn");
    assert("type"@.len() != "txn"@.len());
    law_statement_means_what_it_says(stmts[i], key, val);
    assert(op_of(stmts[i]) == Some(ops[i]));
    law_transaction_commits_its_writes(db, ops, key);
    assert(ops.take(stmts.len() as int) =~= ops);
    if leave_key(stmts, 0, stmts.len() as int, key) {
        lemma_last_write(value, stmts.len() as int, -1, key, val);
    }
    if writes_key(stmts[j], key, val) && leave_key(stmts, j + 1, stmts.len() as int, key) {
        lemma_last_write(value, stmts.len() as int, j, key, val);
    }
    law_replication_holds_the_writes(writes_of(ops));
}

/// The request that replicates writes: a list of them, each a key and a value.
pub open spec fn replication(writes: Seq<(Key, Val)>) -> JsonView {
    JsonView::Object(
        map![
            "type"@ => JsonView::Text("repl"@),
            "repl"@ => JsonView::Array(
                Seq::new(
                    writes.len(),
                    |i: int| pair_json(writes[i].0, writes[i].1),
                ),
            )
        ],
    )
}

/// A replication request holds the writes, each as its key and its value, in their
/// order; and no more.
pub proof fn law_replication_holds_the_writes(writes: Seq<(Key, Val)>)
    ensures
        repl_body(writes) == replication(writes),
{
    let list = replication(writes)->Object_0["repl"@]->Array_0;
    assert(writes.map_values(|w: (Key, Val)| write_json(w)) =~= list);
}

/// A value is read as a write if and only if it is a list of just its key and its value.
pub proof fn law_replicated_write_means_what_it_says(value: JsonView, key: Key, val: Val)
    ensures
        write_of(value) == Some((key, val)) <==> value == pair_json(key, val),
{
    let pair = seq![
        JsonView::Number(Numeral::Int(key as int)),
        JsonView::Number(Numeral::Int(val as int)),
    ];
    if write_of(value) == Some((key, val)) {
        assert(value->Array_0 =~= pair);
    }
    assert(pair[0].as_u64() == Some(key));
    assert(pair[1].as_u64() == Some(val));
}

/// Writes are applied one after another: first those that come first, and each to its
/// own key alone.
pub proof fn law_writes_are_applied_in_order(
    db: Map<Key, Val>,
    a: Seq<(Key, Val)>,
    b: Seq<(Key, Val)>,
    key: Key,
    val: Val,
)
    ensures
        applied(db, a + b) == applied(applied(db, a), b),
        applied(db, seq![(key, val)]) == db.insert(key, val),
        applied(db, Seq::empty()) == db,
    decreases b.len(),
{
    reveal_with_fuel(applied, 2);
    assert(seq![(key, val)].drop_last() =~= Seq::empty());
    if b.len() == 0 {
        assert(a + b =~= a);
    } else {
        law_writes_are_applied_in_order(db, a, b.drop_last(), key, val);
        assert((a + b).drop_last() =~= a + b.drop_last());
        assert((a + b).last() == b.last());
    }
}

/// A replication is handled if and only if it is a list of writes; each is applied in
/// turn, it is acknowledged, and nothing is sent on.
pub proof fn law_replication_is_applied(
    db: Map<Key, Val>,
    node_id: Seq<char>,
    node_ids: Seq<Seq<char>>,
    msg: MessageView,
    writes: Seq<(Key, Val)>,
)
    requires
        msg.msg_type == "repl"@,
        msg.body.field("repl"@) == replication(writes).field("repl"@),
    ensures
        can_handle(msg),
        handle_step(db, node_id, node_ids, msg).0 == applied(db, writes),
        handle_step(db, node_id, node_ids, msg).1 == JsonView::Object(
            map!["type"@ => JsonView::Text("repl_ok"@)],
        ),
        handle_step(db, node_id, node_ids, msg).2.len() == 0,
{
    reveal_strlit("txn");
    reveal_strlit("repl");
    assert("txn"@.len() != "repl"@.len());
    law_replication_carries_the_writes(writes);
    law_replication_holds_the_writes(writes);
}

/// A key and a value as a list of the two.
pub open spec fn pair_json(key: Key, val: Val) -> JsonView {
    JsonView::Array(
        seq![
            JsonView::Number(Numeral::Int(key as int)),
            JsonView::Number(Numeral::Int(val as int)),
        ],
    )
}

/// Whether a value is a list of a key and a value.
pub open spec fn is_pair(value: JsonView) -> bool {
    exists|key: Key, val: Val| value == #[trigger] pair_json(key, val)
}

/// Transactions can be handled, and lists of keys and values that are replicated, and
/// nothing else.
pub proof fn law_which_messages_are_handled(msg: MessageView)
    ensures
        msg.msg_type == "txn"@ ==> (can_handle(msg) <==> is_txn(msg.body.field("txn"@))),
        msg.msg_type == "repl"@ ==> (can_handle(msg) <==> msg.body.field("repl"@) is Array
            && forall|i: int|
            0 <= i < msg.body.field("repl"@)->Array_0.len() ==> is_pair(
                #[trigger] msg.body.field("repl"@)->Array_0[i],
            )),
        msg.msg_type != "txn"@ && msg.msg_type != "repl"@ ==> !can_handle(msg),
{
    reveal_strlit("txn");
    reveal_strlit("repl");
    assert("txn"@.len() != "repl"@.len());
    let value = msg.body.field("repl"@);
    if value is Array {
        assert forall|i: int| 0 <= i < value->Array_0.len() implies (write_of(
            #[trigger] value->Array_0[i],
        ) is Some <==> is_pair(value->Array_0[i])) by {
            let v = value->Array_0[i];
            if let Some((key, val)) = write_of(v) {
                law_replicated_write_means_what_it_says(v, key, val);
                assert(v == pair_json(key, val));
            }
            if is_pair(v) {
                let (key, val) = choose|key: Key, val: Val| v == #[trigger] pair_json(key, val);
                law_replicated_write_means_what_it_says(v, key, val);
            }
        }
        if is_repl(value) {
            assert forall|i: int| 0 <= i < value->Array_0.len() implies is_pair(
                #[trigger] value->Array_0[i],
            ) by {
                assert(write_of(value->Array_0[i]) is Some);
            }
        }
        if forall|i: int|
            0 <= i < value->Array_0.len() ==> is_pair(#[trigger] value->Array_0[i]) {
            assert forall|i: int| 0 <= i < value->Array_0.len() implies write_of(
                #[trigger] value->Array_0[i],
            ) is Some by {
                assert(is_pair(value->Array_0[i]));
            }
        }
    }
}

/// A replication request is repeated after a second.
pub proof fn law_replication_waits_a_second()
    ensures
        RPC_TIMEOUT_MILLIS == 1000,
{
}

/// Every transaction, also one without statements or without writes, is answered with
/// one result for each statement, and its writes are sent to every other node.
pub proof fn law_every_transaction_is_answered_and_replicated(
    db: Map<Key, Val>,
    node_id: Seq<char>,
    node_ids: Seq<Seq<char>>,
    msg: MessageView,
    n: int,
)
    requires
        msg.msg_type == "txn"@,
        is_txn(msg.body.field("txn"@)),
    ensures
        ({
            let (after, answer, sent) = handle_step(db, node_id, node_ids, msg);
            let writes = writes_of(ops_of(msg.body.field("txn"@)));
            &&& can_handle(msg)
            &&& answer == JsonView::Object(
                map!["type"@ => JsonView::Text("txn_ok"@), "txn"@ => answer.field("txn"@)],
            )
            &&& answer.field("txn"@) is Array
            &&& answer.field("txn"@)->Array_0.len() == msg.body.field("txn"@)->Array_0.len()
            &&& after == applied(db, writes)
            &&& sent.len() == others(node_ids, node_id).len()
            &&& 0 <= n < sent.len() ==> sent[n] == (
                others(node_ids, node_id)[n],
                replication(writes),
            )
        }),
{
    reveal_strlit("type");
    reveal_strlit("txn");
    assert("type"@.len() != "txn"@.len());
    law_replication_holds_the_writes(writes_of(ops_of(msg.body.field("txn"@))));
}

/// A write is replicated as a list of its key and its value, in this order, and read back
/// as it was.
pub proof fn law_replicated_write_is_key_then_value(key: Key, val: Val)
    ensures
        write_json((key, val)) == JsonView::Array(
            seq![
                JsonView::Number(Numeral::Int(key as int)),
                JsonView::Number(Numeral::Int(val as int)),
            ],
        ),
        write_of(
            JsonView::Array(
                seq![
                    JsonView::Number(Numeral::Int(key as int)),
                    JsonView::Number(Numeral::Int(val as int)),
                ],
            ),
        ) == Some((key, val)),
{
    law_replicated_write_means_what_it_says(write_json((key, val)), key, val);
}

} // verus!
