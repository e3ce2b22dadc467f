use flyio::json::Json;
use flyio::kafka_b::Task;
use flyio::kafka_c::{log_wanted, run_batcher, Batch};
use flyio::kv::{KVStore, KVStoreError, Request};
use flyio::kv_log::{make_committed_key, make_entry_key, make_next_key, LogRead};
use flyio::node::Message;
use flyio::offsets::{accepts, read_offsets};
use flyio::wire::{parse, render};
use std::collections::BTreeMap;

/// A store that answers as the services of the network do.
struct Store {
    values: BTreeMap<String, Json>,
    requests: usize,
}

impl Store {
    fn new() -> Store {
        Store { values: BTreeMap::new(), requests: 0 }
    }

    fn set(&mut self, key: &str, text: &str) {
        self.values.insert(key.to_string(), parse(text).unwrap());
    }

    fn shown(&self, key: &str) -> Option<String> {
        self.values.get(key).map(render)
    }

    fn serve(&mut self, request: &Request) -> Json {
        self.requests += 1;
        let body = &request.body;
        let key = body.field("key").text_or_empty();
        if body.field("type").is_text("read") {
            match self.values.get(&key) {
                Some(v) => Json::typed("read_ok").with("value", v.clone()),
                None => Json::typed("error").with("code", Json::number(20)),
            }
        } else if body.field("type").is_text("write") {
            self.values.insert(key, body.field("value").clone());
            Json::typed("write_ok")
        } else {
            match self.values.get(&key) {
                Some(v) if !v.same(body.field("from")) => {
                    Json::typed("error").with("code", Json::number(22))
                }
                _ => {
                    self.values.insert(key, body.field("to").clone());
                    Json::typed("cas_ok")
                }
            }
        }
    }
}

fn request_of(kind: &str, body: &str) -> Message {
    Message { src: "c1".to_string(), msg_type: kind.to_string(), body: parse(body).unwrap() }
}

fn run_b(store: &mut Store, kind: &str, body: &str) -> String {
    let msg = request_of(kind, body);
    assert!(accepts(&msg));
    let mut task = Task::new(&msg);
    while let Some(request) = task.request() {
        assert_eq!(request.dest, "lin-kv");
        let reply = store.serve(&request);
        assert!(task.accepts(&reply));
        task.deliver(&Some(reply));
    }
    render(&task.answer())
}

fn run_c(store: &mut Store, kind: &str, body: &str, offset: u64) -> String {
    let msg = request_of(kind, body);
    assert!(accepts(&msg));
    let mut task = flyio::kafka_c::Task::new(&msg, offset);
    while let Some(request) = task.request() {
        assert_eq!(request.dest, "seq-kv");
        let reply = store.serve(&request);
        assert!(task.accepts(&reply));
        task.deliver(&Some(reply));
    }
    render(&task.answer())
}

fn run_batch(store: &mut Store, batch: Batch) -> Batch {
    let mut batch = batch;
    while let Some(request) = batch.request() {
        assert_eq!(request.dest, "lin-kv");
        let reply = store.serve(&request);
        assert!(batch.accepts(&reply));
        batch = batch.delivered(&Some(reply));
    }
    batch
}

#[test]
fn store_requests_have_their_bodies() {
    let store = KVStore::new("lin-kv");
    let read = store.read("k");
    assert_eq!(read.dest, "lin-kv");
    assert_eq!(render(&read.body), r#"{"key":"k","type":"read"}"#);
    let write = store.write("k", &Json::number(3));
    assert_eq!(render(&write.body), r#"{"key":"k","type":"write","value":3}"#);
    let cas = store.cas("k", &Json::number(3), &Json::number(4), true);
    assert_eq!(
        render(&cas.body),
        r#"{"create_if_not_exists":true,"from":3,"key":"k","to":4,"type":"cas"}"#
    );
}

#[test]
fn store_replies_are_understood() {
    let found = parse(r#"{"type":"read_ok","value":5}"#).unwrap();
    assert_eq!(KVStore::read_result(&found).unwrap().as_u64(), Some(5));
    let missing = parse(r#"{"type":"error","code":20}"#).unwrap();
    assert!(matches!(KVStore::read_result(&missing), Err(KVStoreError::KeyNotFound)));
    let other = parse(r#"{"type":"error","code":13}"#).unwrap();
    assert!(matches!(KVStore::read_result(&other), Ok(Json::Null)));
    let float = parse(r#"{"type":"error","code":20.0}"#).unwrap();
    assert!(matches!(KVStore::read_result(&float), Ok(Json::Null)));
    assert!(!KVStore::accepts_read(&parse("[]").unwrap()));
    let done = parse(r#"{"type":"cas_ok"}"#).unwrap();
    assert!(KVStore::cas_result(&done).is_ok());
    let mismatch = parse(r#"{"type":"error","code":22}"#).unwrap();
    assert!(matches!(
        KVStore::cas_result(&mismatch),
        Err(KVStoreError::ExpectationMismatch)
    ));
    assert!(!KVStore::accepts_cas(&missing));
    assert!(KVStore::accepts_write(&parse(r#"{"type":"write_ok"}"#).unwrap()));
    assert!(!KVStore::accepts_write(&missing));
}

#[test]
fn keys_of_a_log_differ() {
    assert_eq!(make_next_key("k"), "k_next");
    assert_eq!(make_entry_key("k", 10), "k_10");
    assert_eq!(make_committed_key("k"), "k_committed");
    assert_ne!(make_entry_key("k_1", 2), make_entry_key("k", 12));
}

#[test]
fn offsets_are_read_in_the_order_of_their_logs() {
    let offsets = read_offsets(&parse(r#"{"b":2,"a":1}"#).unwrap()).unwrap();
    assert_eq!(offsets, [("a".to_string(), 1), ("b".to_string(), 2)]);
    assert!(read_offsets(&parse(r#"{"a":"1"}"#).unwrap()).is_none());
    assert!(read_offsets(&parse("null").unwrap()).is_none());
}

#[test]
fn sent_messages_are_polled_back() {
    let mut store = Store::new();
    for i in 0..12 {
        assert_eq!(
            run_b(&mut store, "send", &format!(r#"{{"key":"k","msg":"m{i}"}}"#)),
            format!(r#"{{"offset":{i},"type":"send_ok"}}"#)
        );
    }
    assert_eq!(store.requests, 36);
    assert_eq!(store.shown("k_next").unwrap(), "12");
    assert_eq!(store.shown("k_11").unwrap(), "\"m11\"");
    assert_eq!(
        run_b(&mut store, "poll", r#"{"offsets":{"k":10,"x":0}}"#),
        r#"{"msgs":{"k":[[10,"m10"],[11,"m11"]],"x":[]},"type":"poll_ok"}"#
    );
}

#[test]
fn poll_gives_ten_messages_at_most() {
    let mut store = Store::new();
    for i in 0..12 {
        store.set(&format!("k_{i}"), &i.to_string());
    }
    assert_eq!(
        run_b(&mut store, "poll", r#"{"offsets":{"k":1}}"#),
        r#"{"msgs":{"k":[[1,1],[2,2],[3,3],[4,4],[5,5],[6,6],[7,7],[8,8],[9,9],[10,10]]},"type":"poll_ok"}"#
    );
    assert_eq!(store.requests, 10);
}

#[test]
fn poll_ends_at_a_gap() {
    let mut store = Store::new();
    store.set("k_0", "0");
    store.set("k_2", "2");
    assert_eq!(
        run_b(&mut store, "poll", r#"{"offsets":{"k":0}}"#),
        r#"{"msgs":{"k":[[0,0]]},"type":"poll_ok"}"#
    );
    assert_eq!(run_b(&mut store, "poll", r#"{"offsets":{}}"#), r#"{"msgs":{},"type":"poll_ok"}"#);
}

#[test]
fn message_at_the_largest_offset_is_refused() {
    let mut task = Task::new(&request_of("poll", r#"{"offsets":{"k":18446744073709551615}}"#));
    assert!(!task.accepts(&parse(r#"{"type":"read_ok","value":1}"#).unwrap()));
    let missing = parse(r#"{"type":"error","code":20}"#).unwrap();
    assert!(task.accepts(&missing));
    task.deliver(&Some(missing));
    assert_eq!(render(&task.answer()), r#"{"msgs":{"k":[]},"type":"poll_ok"}"#);
}

#[test]
fn poll_is_filled_before_the_largest_offset() {
    let mut store = Store::new();
    for i in 0..11 {
        store.set(&format!("k_{}", u64::MAX - i), "7");
    }
    let body = format!(r#"{{"offsets":{{"k":{}}}}}"#, u64::MAX - 10);
    let answer = run_b(&mut store, "poll", &body);
    assert!(answer.contains(&format!("[{},7]]", u64::MAX - 1)));
    assert_eq!(store.requests, 10);
}

#[test]
fn reading_takes_one_message_before_it_looks_at_the_limit() {
    let store = KVStore::new("lin-kv");
    let found = Some(parse(r#"{"type":"read_ok","value":"m"}"#).unwrap());
    let mut reading = LogRead::read_log(&store, "k", 3, 0);
    assert_eq!(render(&reading.request().unwrap().body), r#"{"key":"k_3","type":"read"}"#);
    reading.deliver(&found);
    assert!(reading.request().is_none());
    reading.deliver(&found);
    assert!(reading.request().is_none());
    let entries: Vec<String> = reading.into_entries().iter().map(render).collect();
    assert_eq!(entries, [r#"[3,"m"]"#]);
}

#[test]
fn timeout_repeats_the_request() {
    let mut task = Task::new(&request_of("send", r#"{"key":"k","msg":1}"#));
    let first = render(&task.request().unwrap().body);
    task.deliver(&None);
    assert_eq!(render(&task.request().unwrap().body), first);
}

#[test]
fn disturbed_reservation_starts_again() {
    let mut store = Store::new();
    let mut slow = Task::new(&request_of("send", r#"{"key":"k","msg":"slow"}"#));
    let reply = store.serve(&slow.request().unwrap());
    slow.deliver(&Some(reply));
    assert_eq!(
        run_b(&mut store, "send", r#"{"key":"k","msg":"quick"}"#),
        r#"{"offset":0,"type":"send_ok"}"#
    );
    while let Some(request) = slow.request() {
        let reply = store.serve(&request);
        assert!(slow.accepts(&reply));
        slow.deliver(&Some(reply));
    }
    assert_eq!(render(&slow.answer()), r#"{"offset":1,"type":"send_ok"}"#);
    assert_eq!(store.shown("k_0").unwrap(), "\"quick\"");
    assert_eq!(store.shown("k_1").unwrap(), "\"slow\"");
}

#[test]
fn exhausted_log_is_refused() {
    let task = Task::new(&request_of("send", r#"{"key":"k","msg":1}"#));
    assert!(!task.accepts(&parse(r#"{"type":"read_ok","value":18446744073709551615}"#).unwrap()));
    assert!(task.accepts(&parse(r#"{"type":"read_ok","value":18446744073709551614}"#).unwrap()));
}

#[test]
fn value_that_is_no_offset_counts_as_zero() {
    let mut store = Store::new();
    store.set("k_next", "\"none\"");
    assert_eq!(
        run_b(&mut store, "send", r#"{"key":"k","msg":1}"#),
        r#"{"offset":0,"type":"send_ok"}"#
    );
    assert_eq!(store.shown("k_next").unwrap(), "1");
}

#[test]
fn committed_offsets_are_never_lowered() {
    let mut store = Store::new();
    let ok = r#"{"type":"commit_offsets_ok"}"#;
    assert_eq!(run_b(&mut store, "commit_offsets", r#"{"offsets":{"a":3,"b":0}}"#), ok);
    assert_eq!(store.shown("a_committed").unwrap(), "3");
    assert_eq!(store.shown("b_committed"), None);
    assert_eq!(run_b(&mut store, "commit_offsets", r#"{"offsets":{"a":2}}"#), ok);
    assert_eq!(store.shown("a_committed").unwrap(), "3");
    assert_eq!(run_b(&mut store, "commit_offsets", r#"{"offsets":{"a":5}}"#), ok);
    assert_eq!(
        run_b(&mut store, "list_committed_offsets", r#"{"keys":["a","b"]}"#),
        r#"{"offsets":{"a":5,"b":0},"type":"list_committed_offsets_ok"}"#
    );
}

#[test]
fn disturbed_commit_starts_again() {
    let mut store = Store::new();
    let mut slow = Task::new(&request_of("commit_offsets", r#"{"offsets":{"a":3}}"#));
    let reply = store.serve(&slow.request().unwrap());
    slow.deliver(&Some(reply));
    run_b(&mut store, "commit_offsets", r#"{"offsets":{"a":9}}"#);
    while let Some(request) = slow.request() {
        let reply = store.serve(&request);
        slow.deliver(&Some(reply));
    }
    assert_eq!(store.shown("a_committed").unwrap(), "9");
}

#[test]
fn committed_value_that_is_no_offset_is_refused() {
    let strange = parse(r#"{"type":"read_ok","value":"x"}"#).unwrap();
    let commit = Task::new(&request_of("commit_offsets", r#"{"offsets":{"a":3}}"#));
    assert!(!commit.accepts(&strange));
    let list = Task::new(&request_of("list_committed_offsets", r#"{"keys":["a"]}"#));
    assert!(!list.accepts(&strange));
}

#[test]
fn messages_are_batched_by_their_logs() {
    let mut store = Store::new();
    store.set("b_next", "4");
    let waiting: Vec<(String, u64)> =
        [("b", 0), ("a", 1), ("b", 2), ("b", 3)].map(|(l, t)| (l.to_string(), t)).to_vec();
    let batches = run_batcher(&waiting);
    assert_eq!(batches.len(), 2);
    assert!(batches[0].assigned().is_none());
    let assigned: Vec<Vec<(u64, u64)>> = batches
        .into_iter()
        .map(|b| run_batch(&mut store, b).assigned().unwrap())
        .collect();
    assert_eq!(assigned, [vec![(1, 0)], vec![(0, 4), (2, 5), (3, 6)]]);
    assert_eq!(store.shown("a_next").unwrap(), "1");
    assert_eq!(store.shown("b_next").unwrap(), "7");
    assert!(run_batcher(&Vec::new()).is_empty());
}

#[test]
fn later_batches_get_later_offsets() {
    let mut store = Store::new();
    let waiting = vec![("a".to_string(), 0), ("a".to_string(), 1)];
    for start in [0, 2, 4] {
        let batch = run_batcher(&waiting).remove(0);
        let assigned = run_batch(&mut store, batch).assigned().unwrap();
        assert_eq!(assigned, [(0, start), (1, start + 1)]);
    }
}

#[test]
fn batch_without_a_reply_asks_again() {
    let batch = run_batcher(&vec![("a".to_string(), 0)]).remove(0);
    let first = render(&batch.request().unwrap().body);
    assert_eq!(render(&batch.delivered(&None).request().unwrap().body), first);
}

#[test]
fn batched_message_is_stored_and_polled_back() {
    let mut store = Store::new();
    let send = r#"{"key":"k","msg":"hello"}"#;
    assert_eq!(log_wanted(&request_of("send", send)), Some("k".to_string()));
    assert_eq!(log_wanted(&request_of("poll", r#"{"offsets":{}}"#)), None);
    assert_eq!(run_c(&mut store, "send", send, 6), r#"{"offset":6,"type":"send_ok"}"#);
    assert_eq!(
        run_c(&mut store, "poll", r#"{"offsets":{"k":6}}"#, 0),
        r#"{"msgs":{"k":[[6,"hello"]]},"type":"poll_ok"}"#
    );
}

#[test]
fn sequential_commit_replaces_the_offset() {
    let mut store = Store::new();
    let ok = r#"{"type":"commit_offsets_ok"}"#;
    assert_eq!(run_c(&mut store, "commit_offsets", r#"{"offsets":{"a":3,"b":1}}"#, 0), ok);
    assert_eq!(run_c(&mut store, "commit_offsets", r#"{"offsets":{"a":2}}"#, 0), ok);
    assert_eq!(
        run_c(&mut store, "list_committed_offsets", r#"{"keys":["a","b","c"]}"#, 0),
        r#"{"offsets":{"a":2,"b":1,"c":0},"type":"list_committed_offsets_ok"}"#
    );
}

#[test]
fn sequential_write_must_be_acknowledged() {
    let mut task = flyio::kafka_c::Task::new(&request_of("send", r#"{"key":"k","msg":1}"#), 0);
    assert!(!task.accepts(&parse(r#"{"type":"error","code":13}"#).unwrap()));
    let first = render(&task.request().unwrap().body);
    assert_eq!(first, r#"{"key":"k_0","type":"write","value":1}"#);
    task.deliver(&None);
    assert_eq!(render(&task.request().unwrap().body), first);
}

#[test]
fn unknown_log_requests_are_refused() {
    assert!(!accepts(&request_of("drop", "{}")));
    assert!(!accepts(&request_of("send", "{}")));
    assert!(!accepts(&request_of("poll", r#"{"offsets":{"a":1.5}}"#)));
    assert!(!accepts(&request_of("list_committed_offsets", r#"{"keys":{}}"#)));
}
