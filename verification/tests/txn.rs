use flyio::counter::{
    accepts_sum, counter_published, process_read, publish_counter, read_int, Reaction,
};
use flyio::json::Json;
use flyio::node::Message;
use flyio::txn::State;
use flyio::txn_c::{accepts, handle, repeats};
use flyio::wire::{parse, render};

fn statement(kind: &str, body: &str) -> Message {
    Message { src: "c1".to_string(), msg_type: kind.to_string(), body: parse(body).unwrap() }
}

fn ids() -> Vec<String> {
    ["n1", "n2", "n3"].map(|s| s.to_string()).to_vec()
}

#[test]
fn reads_see_earlier_writes_of_the_transaction() {
    let mut state = State::new();
    let msg = statement("txn", r#"{"txn":[["r",1,null],["w",1,6],["r",1,null],["w",2,9],["w",1,7]]}"#);
    assert!(state.accepts(&msg));
    assert_eq!(
        render(&state.handle(&msg)),
        r#"{"txn":[["r",1,null],["w",1,6],["r",1,6],["w",2,9],["w",1,7]],"type":"txn_ok"}"#
    );
    let next = statement("txn", r#"{"txn":[["r",1,null],["r",2,0]]}"#);
    assert_eq!(
        render(&state.handle(&next)),
        r#"{"txn":[["r",1,7],["r",2,9]],"type":"txn_ok"}"#
    );
}

#[test]
fn empty_transaction_has_no_results() {
    let mut state = State::new();
    let msg = statement("txn", r#"{"txn":[]}"#);
    assert!(state.accepts(&msg));
    assert_eq!(render(&state.handle(&msg)), r#"{"txn":[],"type":"txn_ok"}"#);
}

#[test]
fn improper_transactions_are_refused() {
    let state = State::new();
    for body in [
        r#"{}"#,
        r#"{"txn":[["r",1]]}"#,
        r#"{"txn":[["x",1,2]]}"#,
        r#"{"txn":[["w",1,null]]}"#,
        r#"{"txn":[["w","1",2]]}"#,
        r#"{"txn":[[1,1,2]]}"#,
        r#"{"txn":["r"]}"#,
    ] {
        assert!(!state.accepts(&statement("txn", body)), "{body}");
        assert!(!accepts(&statement("txn", body)), "{body}");
    }
    assert!(!state.accepts(&statement("query", r#"{"txn":[]}"#)));
    assert!(state.accepts(&statement("txn", r#"{"txn":[["r",1,2,3]]}"#)));
}

#[test]
fn replicated_transaction_reads_what_was_committed() {
    let mut state = State::new();
    let msg = statement("txn", r#"{"txn":[["w",1,6],["r",1,null],["w",1,7],["w",2,8]]}"#);
    assert!(accepts(&msg));
    let (answer, sent) = handle(&mut state, "n2", &ids(), &msg);
    assert_eq!(
        render(&answer),
        r#"{"txn":[["w",1,6],["r",1,null],["w",1,7],["w",2,8]],"type":"txn_ok"}"#
    );
    let sent: Vec<(String, String)> = sent.into_iter().map(|(d, b)| (d, render(&b))).collect();
    let body = r#"{"repl":[[1,6],[1,7],[2,8]],"type":"repl"}"#.to_string();
    assert_eq!(sent, [("n1".to_string(), body.clone()), ("n3".to_string(), body)]);
}

#[test]
fn replica_has_the_same_database() {
    let mut state = State::new();
    let mut replica = State::new();
    let msg = statement("txn", r#"{"txn":[["w",1,6],["w",1,7],["w",2,8]]}"#);
    let (_, sent) = handle(&mut state, "n1", &ids(), &msg);
    for _ in 0..2 {
        let repl = statement("repl", &render(&sent[0].1));
        assert!(accepts(&repl));
        let (answer, more) = handle(&mut replica, "n2", &ids(), &repl);
        assert_eq!(render(&answer), r#"{"type":"repl_ok"}"#);
        assert!(more.is_empty());
    }
    let reads = statement("txn", r#"{"txn":[["r",1,0],["r",2,0],["r",3,0]]}"#);
    let (mine, _) = handle(&mut state, "n1", &ids(), &reads);
    let (theirs, _) = handle(&mut replica, "n2", &ids(), &reads);
    assert_eq!(render(&mine), r#"{"txn":[["r",1,7],["r",2,8],["r",3,null]],"type":"txn_ok"}"#);
    assert_eq!(render(&theirs), render(&mine));
}

#[test]
fn improper_replications_are_refused() {
    assert!(!accepts(&statement("repl", r#"{"repl":[[1]]}"#)));
    assert!(!accepts(&statement("repl", r#"{"repl":[[1,2,3]]}"#)));
    assert!(!accepts(&statement("repl", r#"{"repl":[[1,"2"]]}"#)));
    assert!(!accepts(&statement("repl", r#"{"repl":{}}"#)));
    assert!(!accepts(&statement("gossip", r#"{"repl":[]}"#)));
    assert!(accepts(&statement("repl", r#"{"repl":[]}"#)));
}

#[test]
fn replication_is_repeated_until_a_reply_comes() {
    assert!(repeats(&None));
    assert!(!repeats(&Some(Json::typed("repl_ok"))));
}

#[test]
fn additions_are_counted_and_read() {
    let mut state = flyio::counter::State::new();
    for delta in [5, -2] {
        let msg = statement("add", &format!(r#"{{"delta":{delta}}}"#));
        assert!(state.accepts(&msg));
        match state.handle("n1", &ids(), &msg) {
            Reaction::Answer(answer) => assert_eq!(render(&answer), r#"{"type":"add_ok"}"#),
            other => panic!("{other:?}"),
        }
    }
    assert_eq!(state.local_val, 3);
    match state.handle("n1", &ids(), &statement("read", "{}")) {
        Reaction::Gather(requests) => {
            let shown: Vec<(String, String)> =
                requests.into_iter().map(|r| (r.dest, render(&r.body))).collect();
            assert_eq!(
                shown,
                [
                    ("seq-kv".to_string(), r#"{"key":"n2","type":"read"}"#.to_string()),
                    ("seq-kv".to_string(), r#"{"key":"n3","type":"read"}"#.to_string()),
                ]
            );
        }
        other => panic!("{other:?}"),
    }
    let remote = vec![10, -4];
    assert!(accepts_sum(&state, &remote));
    assert_eq!(render(&process_read(&state, &remote)), r#"{"type":"read_ok","value":9}"#);
}

#[test]
fn count_wraps_around() {
    let mut state = flyio::counter::State { local_val: i64::MAX, last_published: 0 };
    state.handle("n1", &ids(), &statement("add", r#"{"delta":1}"#));
    assert_eq!(state.local_val, i64::MIN);
}

#[test]
fn sums_that_do_not_fit_are_refused() {
    let state = flyio::counter::State { local_val: 1, last_published: 0 };
    assert!(!accepts_sum(&state, &vec![i64::MAX]));
    assert!(!accepts_sum(&state, &vec![i64::MAX, 1, -5]));
    assert!(accepts_sum(&state, &vec![i64::MAX, -1]));
    assert!(accepts_sum(&state, &Vec::new()));
}

#[test]
fn reply_holds_a_count_or_none() {
    assert_eq!(read_int(&None), None);
    assert_eq!(read_int(&Some(parse(r#"{"type":"read_ok","value":-7}"#).unwrap())), Some(-7));
    assert_eq!(read_int(&Some(parse(r#"{"type":"error","code":20}"#).unwrap())), Some(0));
    assert_eq!(read_int(&Some(parse(r#"{"value":"7"}"#).unwrap())), Some(0));
}

#[test]
fn larger_count_is_published_until_acknowledged() {
    let mut state = flyio::counter::State { local_val: 4, last_published: 0 };
    let (val, request) = publish_counter(&state, "n1").unwrap();
    assert_eq!(val, 4);
    assert_eq!(request.dest, "seq-kv");
    assert_eq!(render(&request.body), r#"{"key":"n1","type":"write","value":4}"#);
    counter_published(&mut state, val, &None);
    assert!(publish_counter(&state, "n1").is_some());
    counter_published(&mut state, val, &Some(Json::Null));
    assert_eq!(state.last_published, 4);
    assert!(publish_counter(&state, "n1").is_none());
}

#[test]
fn improper_counter_requests_are_refused() {
    let state = flyio::counter::State::new();
    assert!(!state.accepts(&statement("add", r#"{"delta":1.5}"#)));
    assert!(!state.accepts(&statement("add", r#"{"delta":9223372036854775808}"#)));
    assert!(!state.accepts(&statement("sub", r#"{"delta":1}"#)));
    assert!(state.accepts(&statement("read", "{}")));
}
