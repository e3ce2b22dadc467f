//! The transaction workload on one node: statements take effect one after another.
use vstd::prelude::*;
use crate::json::{json_views, number_json, typed, Json, JsonView, Numeral};
use crate::node::{Message, MessageView};
use crate::text::same_text;
use std::collections::HashMap;

verus! {

broadcast use vstd::std_specs::hash::group_hash_axioms;

/// A key of the database.
pub type Key = u64;

/// A value of the database.
pub type Val = u64;

/// A statement of a transaction.
#[derive(Debug, Clone, Copy)]
pub enum Op {
    Read(Key),
    Write(Key, Val),
}

/// The statement that a JSON value stands for: `["r", key, _]` or `["w", key, value]`.
pub open spec fn op_of(stmt: JsonView) -> Option<Op> {
    match stmt {
        JsonView::Array(s) => if s.len() < 3 {
            None
        } else {
            match (s[0].as_text(), s[1].as_u64(), s[2].as_u64()) {
                (Some(op), Some(key), arg) => if op == "r"@ {
                    Some(Op::Read(key))
                } else if op == "w"@ && arg is Some {
                    Some(Op::Write(key, arg->0))
                } else {
                    None
                },
                _ => None,
            }
        },
        _ => None,
    }
}

/// Whether a JSON value is a transaction: an array of statements.
pub open spec fn is_txn(value: JsonView) -> bool {
    value is Array && forall|i: int|
        0 <= i < value->Array_0.len() ==> op_of(#[trigger] value->Array_0[i]) is Some
}

/// The statements of a transaction.
pub open spec fn ops_of(value: JsonView) -> Seq<Op> {
    Seq::new(value->Array_0.len(), |i: int| op_of(value->Array_0[i])->0)
}

/// Reads a statement.
pub fn read_op(stmt: &Json) -> (r: Option<Op>)
    ensures
        r == op_of(stmt@),
{
    match stmt.as_array() {
        Some(v) => {
            if v.len() < 3 {
                return None;
            }
            assert(json_views(v@)[0] == v@[0]@);
            assert(json_views(v@)[1] == v@[1]@);
            assert(json_views(v@)[2] == v@[2]@);
            match (v[0].as_text(), v[1].as_u64(), v[2].as_u64()) {
                (Some(op), Some(key), arg) => {
                    if same_text(op.as_str(), "r") {
                        Some(Op::Read(key))
                    } else if same_text(op.as_str(), "w") {
                        match arg {
                            Some(val) => Some(Op::Write(key, val)),
                            None => None,
                        }
                    } else {
                        None
                    }
                },
                _ => None,
            }
        },
        None => None,
    }
}

/// Reads a transaction.
pub fn read_txn(value: &Json) -> (r: Option<Vec<Op>>)
    ensures
        r is Some <==> is_txn(value@),
        r matches Some(ops) ==> ops@ == ops_of(value@),
{
    match value.as_array() {
        Some(v) => {
            let mut ops: Vec<Op> = Vec::new();
            let mut i: usize = 0;
            while i < v.len()
                invariant
                    i <= v@.len(),
                    value@ == JsonView::Array(json_views(v@)),
                    ops@.len() == i,
                    forall|j: int|
                        0 <= j < i ==> op_of(#[trigger] value@->Array_0[j]) == Some(ops@[j]),
                decreases v@.len() - i,
            {
                assert(value@->Array_0[i as int] == v@[i as int]@);
                match read_op(&v[i]) {
                    Some(op) => {
                        ops.push(op);
                    },
                    None => {
                        return None;
                    },
                }
                i = i + 1;
            }
            assert(ops@ =~= ops_of(value@));
            Some(ops)
        },
        None => None,
    }
}

/// The value of a key as JSON, null where the key has none.
pub open spec fn value_json(db: Map<Key, Val>, key: Key) -> JsonView {
    if db.contains_key(key) {
        number_json(db[key] as int)
    } else {
        JsonView::Null
    }
}

/// The result of a statement.
pub open spec fn result_json(op: Seq<char>, key: Key, value: JsonView) -> JsonView {
    JsonView::Array(seq![JsonView::Text(op), number_json(key as int), value])
}

/// Makes the result of a statement.
pub(crate) fn make_result(op: &str, key: Key, value: Json) -> (r: Json)
    ensures
        r@ == result_json(op@, key, value@),
{
    let mut v: Vec<Json> = Vec::new();
    v.push(Json::text(op));
    v.push(Json::number(key));
    v.push(value);
    assert(json_views(v@) =~= result_json(op@, key, value@)->Array_0);
    Json::Array(v)
}

/// The database after statements, and their results: each statement finds what
/// those before it have written.
pub open spec fn run(db: Map<Key, Val>, ops: Seq<Op>) -> (Map<Key, Val>, Seq<JsonView>)
    decreases ops.len(),
{
    if ops.len() == 0 {
        (db, Seq::empty())
    } else {
        let (now, results) = run(db, ops.drop_last());
        match ops.last() {
            Op::Read(k) => (now, results.push(result_json("r"@, k, value_json(now, k)))),
            Op::Write(k, v) => (
                now.insert(k, v),
                results.push(result_json("w"@, k, number_json(v as int))),
            ),
        }
    }
}

/// The database of a node.
pub struct State {
    pub db: HashMap<Key, Val>,
}

/// Reads a key.
pub fn process_read(state: &State, key: Key) -> (r: Option<Val>)
    ensures
        r == (if state.db@.contains_key(key) {
            Some(state.db@[key])
        } else {
            None
        }),
{
    match state.db.get(&key) {
        Some(v) => Some(*v),
        None => None,
    }
}

/// Writes a key.
pub fn process_write(state: &mut State, key: Key, val: Val)
    ensures
        final(state).db@ == old(state).db@.insert(key, val),
{
    state.db.insert(key, val);
}

/// The JSON value of a value that may be missing.
pub(crate) fn optional_json(value: Option<Val>) -> (r: Json)
    ensures
        r@ == (match value {
            Some(v) => number_json(v as int),
            None => JsonView::Null,
        }),
{
    match value {
        Some(v) => Json::number(v),
        None => Json::Null,
    }
}

/// Runs the transaction of a message, and gives the results of its statements.
pub fn process_txn(state: &mut State, msg: &Message) -> (r: Json)
    requires
        is_txn(msg@.body.field("txn"@)),
    ensures
        final(state).db@ == run(old(state).db@, ops_of(msg@.body.field("txn"@))).0,
        r@ == JsonView::Array(run(old(state).db@, ops_of(msg@.body.field("txn"@))).1),
{
    let mut res: Vec<Json> = Vec::new();
    match read_txn(msg.body.field("txn")) {
        Some(txn) => {
            let ghost before = state.db@;
            let mut i: usize = 0;
            assert(txn@.take(0) =~= Seq::empty());
            assert(json_views(res@) =~= Seq::empty());
            while i < txn.len()
                invariant
                    i <= txn@.len(),
                    state.db@ == run(before, txn@.take(i as int)).0,
                    json_views(res@) == run(before, txn@.take(i as int)).1,
                decreases txn@.len() - i,
            {
                let ghost done = res@;
                assert(txn@.take(i + 1).drop_last() =~= txn@.take(i as int));
                assert(txn@.take(i + 1).last() == txn@[i as int]);
                match txn[i] {
                    Op::Read(key) => {
                        let val = process_read(state, key);
                        res.push(make_result("r", key, optional_json(val)));
                    },
                    Op::Write(key, val) => {
                        process_write(state, key, val);
                        res.push(make_result("w", key, Json::number(val)));
                    },
                }
                assert(json_views(res@) =~= json_views(done).push(res@.last()@));
                i = i + 1;
            }
            assert(txn@.take(i as int) =~= txn@);
        },
        None => {},
    }
    Json::Array(res)
}

/// Whether a message can be handled: it is a transaction.
pub open spec fn can_handle(msg: MessageView) -> bool {
    msg.msg_type == "txn"@ && is_txn(msg.body.field("txn"@))
}

impl State {
    /// Makes an empty database.
    pub fn new() -> (r: State)
        ensures
            r.db@ == Map::<Key, Val>::empty(),
    {
        State { db: HashMap::new() }
    }

    /// Whether a message can be handled.
    pub fn accepts(&self, msg: &Message) -> (r: bool)
        ensures
            r == can_handle(msg@),
    {
        same_text(msg.msg_type.as_str(), "txn") && read_txn(msg.body.field("txn")).is_some()
    }

    /// Handles a message.
    pub fn handle(&mut self, msg: &Message) -> (r: Json)
        requires
            can_handle(msg@),
        ensures
            final(self).db@ == run(old(self).db@, ops_of(msg@.body.field("txn"@))).0,
            r@ == typed("txn_ok"@).with(
                "txn"@,
                JsonView::Array(run(old(self).db@, ops_of(msg@.body.field("txn"@))).1),
            ),
    {
        let res = process_txn(self, msg);
        Json::typed("txn_ok").with("txn", res)
    }
}

/// The value that statements write last to a key, where they write to it.
pub open spec fn last_write(ops: Seq<Op>, key: Key) -> Option<Val>
    decreases ops.len(),
{
    if ops.len() == 0 {
        None
    } else {
        match ops.last() {
            Op::Write(k, v) if k == key => Some(v),
            _ => last_write(ops.drop_last(), key),
        }
    }
}

/// What a key holds after statements is what was written to it last, or what it
/// held before where nothing was.
pub proof fn law_database_holds_last_writes(db: Map<Key, Val>, ops: Seq<Op>, key: Key)
    ensures
        ({
            let after = run(db, ops).0;
            match last_write(ops, key) {
                Some(v) => after.contains_key(key) && after[key] == v,
                None => after.contains_key(key) == db.contains_key(key) && (db.contains_key(key)
                    ==> after[key] == db[key]),
            }
        }),
    decreases ops.len(),
{
    if ops.len() > 0 {
        law_database_holds_last_writes(db, ops.drop_last(), key);
    }
}

/// Each statement has one result. A read gives what was written last to its key
/// before it, in the transaction or else before the transaction; a write is
/// confirmed as it was asked for.
pub proof fn law_reads_give_last_writes(db: Map<Key, Val>, ops: Seq<Op>, i: int)
    requires
        0 <= i < ops.len(),
    ensures
        run(db, ops).1.len() == ops.len(),
        match ops[i] {
            Op::Read(k) => run(db, ops).1[i] == result_json(
                "r"@,
                k,
                match last_write(ops.take(i), k) {
                    Some(v) => number_json(v as int),
                    None => value_json(db, k),
                },
            ),
            Op::Write(k, v) => run(db, ops).1[i] == result_json("w"@, k, number_json(v as int)),
        },
    decreases ops.len(),
{
    let before = ops.drop_last();
    lemma_result_count(db, before);
    if i < before.len() {
        law_reads_give_last_writes(db, before, i);
        assert(before.take(i) =~= ops.take(i));
    } else {
        assert(ops.take(i) =~= before);
        if let Op::Read(k) = ops[i] {
            law_database_holds_last_writes(db, before, k);
        }
    }
}

proof fn lemma_result_count(db: Map<Key, Val>, ops: Seq<Op>)
    ensures
        run(db, ops).1.len() == ops.len(),
    decreases ops.len(),
{
    if ops.len() > 0 {
        lemma_result_count(db, ops.drop_last());
    }
}

/// Two transactions one after the other do what one of all their statements does.
pub proof fn law_transactions_compose(db: Map<Key, Val>, a: Seq<Op>, b: Seq<Op>)
    ensures
        run(db, a + b).0 == run(run(db, a).0, b).0,
        run(db, a + b).1 == run(db, a).1 + run(run(db, a).0, b).1,
    decreases b.len(),
{
    if b.len() == 0 {
        assert(a + b =~= a);
        assert(run(db, a).1 + Seq::<JsonView>::empty() =~= run(db, a).1);
    } else {
        law_transactions_compose(db, a, b.drop_last());
        assert((a + b).drop_last() =~= a + b.drop_last());
        assert((a + b).last() == b.last());
        assert(run(db, a + b).1 =~= run(db, a).1 + run(run(db, a).0, b).1);
    }
}

/// Whether a JSON value is a statement that reads a key: `["r", key, ..]`.
pub open spec fn reads_key(stmt: JsonView, key: Key) -> bool {
    &&& stmt is Array
    &&& stmt->Array_0.len() >= 3
    &&& stmt->Array_0[0] == JsonView::Text("r"@)
    &&& stmt->Array_0[1] == JsonView::Number(Numeral::Int(key as int))
}

/// Whether a JSON value is a statement that writes a value to a key: `["w", key, value]`.
pub open spec fn writes_key(stmt: JsonView, key: Key, val: Val) -> bool {
    &&& stmt is Array
    &&& stmt->Array_0.len() >= 3
    &&& stmt->Array_0[0] == JsonView::Text("w"@)
    &&& stmt->Array_0[1] == JsonView::Number(Numeral::Int(key as int))
    &&& stmt->Array_0[2] == JsonView::Number(Numeral::Int(val as int))
}

/// A statement is read as what it says: the key stands before the value, and there is
/// no other statement.
pub proof fn law_statement_means_what_it_says(stmt: JsonView, key: Key, val: Val)
    ensures
        op_of(stmt) == Some(Op::Read(key)) <==> reads_key(stmt, key),
        op_of(stmt) == Some(Op::Write(key, val)) <==> writes_key(stmt, key, val),
        op_of(
            JsonView::Array(
                seq![
                    JsonView::Text("w"@),
                    JsonView::Number(Numeral::Int(key as int)),
                    JsonView::Number(Numeral::Int(val as int)),
                ],
            ),
        ) == Some(Op::Write(key, val)),
        op_of(
            JsonView::Array(
                seq![
                    JsonView::Text("r"@),
                    JsonView::Number(Numeral::Int(key as int)),
                    stmt,
                ],
            ),
        ) == Some(Op::Read(key)),
{
    reveal_strlit("r");
    reveal_strlit("w");
    assert("r"@[0] != "w"@[0]);
}

/// A result is told apart from all others: it has the statement, the key and the value,
/// in this order.
pub proof fn law_result_holds_the_statement(op: Seq<char>, key: Key, value: JsonView)
    ensures
        result_json(op, key, value) == JsonView::Array(
            seq![JsonView::Text(op), JsonView::Number(Numeral::Int(key as int)), value],
        ),
{
}

/// A list is a transaction if and only if each of its elements reads or writes a key.
pub proof fn law_transactions_are_lists_of_statements(value: JsonView)
    ensures
        is_txn(value) <==> value is Array && forall|i: int|
            0 <= i < value->Array_0.len() ==> is_statement(#[trigger] value->Array_0[i]),
{
    if value is Array {
        assert forall|i: int| 0 <= i < value->Array_0.len() implies (op_of(
            #[trigger] value->Array_0[i],
        ) is Some <==> is_statement(value->Array_0[i])) by {
            lemma_statement(value->Array_0[i]);
        }
        if is_txn(value) {
            assert forall|i: int| 0 <= i < value->Array_0.len() implies is_statement(
                #[trigger] value->Array_0[i],
            ) by {
                assert(op_of(value->Array_0[i]) is Some);
            }
        }
        if forall|i: int|
            0 <= i < value->Array_0.len() ==> is_statement(#[trigger] value->Array_0[i]) {
            assert forall|i: int| 0 <= i < value->Array_0.len() implies op_of(
                #[trigger] value->Array_0[i],
            ) is Some by {
                assert(is_statement(value->Array_0[i]));
            }
        }
    }
}

/// Whether a JSON value reads or writes a key.
pub open spec fn is_statement(stmt: JsonView) -> bool {
    ||| exists|key: Key| reads_key(stmt, key)
    ||| exists|key: Key, val: Val| writes_key(stmt, key, val)
}

proof fn lemma_statement(stmt: JsonView)
    ensures
        op_of(stmt) is Some <==> is_statement(stmt),
{
    match op_of(stmt) {
        Some(Op::Read(key)) => {
            law_statement_means_what_it_says(stmt, key, 0);
            assert(reads_key(stmt, key));
        },
        Some(Op::Write(key, val)) => {
            law_statement_means_what_it_says(stmt, key, val);
            assert(writes_key(stmt, key, val));
        },
        None => {
            if exists|key: Key| reads_key(stmt, key) {
                let key = choose|key: Key| reads_key(stmt, key);
                law_statement_means_what_it_says(stmt, key, 0);
            }
            if exists|key: Key, val: Val| writes_key(stmt, key, val) {
                let (key, val) = choose|key: Key, val: Val| writes_key(stmt, key, val);
                law_statement_means_what_it_says(stmt, key, val);
            }
        },
    }
}

/// Whether none of the statements from one to before another writes to a key.
pub open spec fn leave_key(stmts: Seq<JsonView>, from: int, to: int, key: Key) -> bool {
    forall|l: int, val: Val| from <= l < to ==> !(#[trigger] writes_key(stmts[l], key, val))
}

/// A transaction does what its statements say, one after another. There is one result
/// for each. A write is confirmed with its key and value; a read gives the value of the
/// write to its key that came last before it, or without one what the database held. And
/// afterwards each key holds what was written to it last, or what it held before.
pub proof fn law_transaction_takes_effect_in_order(
    db: Map<Key, Val>,
    value: JsonView,
    i: int,
    j: int,
    key: Key,
    val: Val,
)
    requires
        is_txn(value),
        0 <= i < value->Array_0.len(),
        0 <= j < value->Array_0.len(),
    ensures
        ({
            let stmts = value->Array_0;
            let (after, results) = run(db, ops_of(value));
            let result = |op: Seq<char>, v: JsonView|
                JsonView::Array(
                    seq![JsonView::Text(op), JsonView::Number(Numeral::Int(key as int)), v],
                );
            let number = JsonView::Number(Numeral::Int(val as int));
            let held = if db.contains_key(key) {
                JsonView::Number(Numeral::Int(db[key] as int))
            } else {
                JsonView::Null
            };
            &&& results.len() == stmts.len()
            &&& writes_key(stmts[i], key, val) ==> results[i] == result("w"@, number)
            &&& reads_key(stmts[i], key) && j < i && writes_key(stmts[j], key, val) && leave_key(
                stmts,
                j + 1,
                i,
                key,
            ) ==> results[i] == result("r"@, number)
            &&& reads_key(stmts[i], key) && leave_key(stmts, 0, i, key) ==> results[i] == result(
                "r"@,
                held,
            )
            &&& writes_key(stmts[j], key, val) && leave_key(
                stmts,
                j + 1,
                stmts.len() as int,
                key,
            ) ==> after.contains_key(key) && after[key] == val
            &&& leave_key(stmts, 0, stmts.len() as int, key) ==> after.contains_key(key)
                == db.contains_key(key) && (db.contains_key(key) ==> after[key] == db[key])
        }),
{
    let stmts = value->Array_0;
    let ops = ops_of(value);
    law_reads_give_last_writes(db, ops, i);
    law_database_holds_last_writes(db, ops, key);
    law_statement_means_what_it_says(stmts[i], key, val);
    law_statement_means_what_it_says(stmts[j], key, val);
    assert(op_of(stmts[i]) == Some(ops[i]));
    assert(ops.take(stmts.len() as int) =~= ops);
    if leave_key(stmts, 0, i, key) {
        lemma_last_write(value, i, -1, key, val);
    }
    if leave_key(stmts, 0, stmts.len() as int, key) {
        lemma_last_write(value, stmts.len() as int, -1, key, val);
    }
    if writes_key(stmts[j], key, val) {
        if j < i && leave_key(stmts, j + 1, i, key) {
            lemma_last_write(value, i, j, key, val);
        }
        if leave_key(stmts, j + 1, stmts.len() as int, key) {
            lemma_last_write(value, stmts.len() as int, j, key, val);
        }
    }
}

/// The last write to a key among the first statements is that at `j`, or there is none
/// where `j` is before all.
pub(crate) proof fn lemma_last_write(value: JsonView, n: int, j: int, key: Key, val: Val)
    requires
        is_txn(value),
        -1 <= j < n <= value->Array_0.len() || (j == -1 && n == 0),
        0 <= j ==> writes_key(value->Array_0[j], key, val),
        leave_key(value->Array_0, j + 1, n, key),
    ensures
        last_write(ops_of(value).take(n), key) == (if j < 0 {
            None
        } else {
            Some(val)
        }),
    decreases n,
{
    let stmts = value->Array_0;
    let ops = ops_of(value).take(n);
    if n > 0 {
        let last = stmts[n - 1];
        assert(ops.drop_last() =~= ops_of(value).take(n - 1));
        assert(op_of(last) == Some(ops.last()));
        if j == n - 1 {
            law_statement_means_what_it_says(last, key, val);
        } else {
            if let Op::Write(k, v) = ops.last() {
                law_statement_means_what_it_says(last, k, v);
                assert(writes_key(stmts[n - 1], k, v));
            }
            lemma_last_write(value, n - 1, j, key, val);
        }
    }
}

/// A transaction without statements does nothing and has no results; transactions can be
/// handled, and nothing else.
pub proof fn law_which_messages_are_handled(db: Map<Key, Val>, msg: MessageView)
    ensures
        run(db, Seq::empty()) == (db, Seq::<JsonView>::empty()),
        msg.msg_type == "txn"@ ==> (can_handle(msg) <==> is_txn(msg.body.field("txn"@))),
        msg.msg_type != "txn"@ ==> !can_handle(msg),
        ops_of(JsonView::Array(Seq::empty())) == Seq::<Op>::empty(),
{
    assert(ops_of(JsonView::Array(Seq::empty())) =~= Seq::<Op>::empty());
}

} // verus!
