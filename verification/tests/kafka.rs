use flyio::kafka::State;
use flyio::node::Message;
use flyio::wire::{parse, render};

fn asked(kind: &str, body: &str) -> Message {
    Message { src: "c1".to_string(), msg_type: kind.to_string(), body: parse(body).unwrap() }
}

fn answered(state: &mut State, kind: &str, body: &str) -> String {
    let msg = asked(kind, body);
    assert!(state.accepts(&msg));
    render(&state.handle(&msg))
}

#[test]
fn offsets_of_a_log_begin_at_one_and_grow() {
    let mut state = State::new();
    assert_eq!(
        answered(&mut state, "send", r#"{"key":"a","msg":7}"#),
        r#"{"offset":1,"type":"send_ok"}"#
    );
    assert_eq!(
        answered(&mut state, "send", r#"{"key":"a","msg":8}"#),
        r#"{"offset":2,"type":"send_ok"}"#
    );
    assert_eq!(
        answered(&mut state, "send", r#"{"key":"b","msg":null}"#),
        r#"{"offset":1,"type":"send_ok"}"#
    );
}

#[test]
fn poll_gives_messages_from_an_offset_on() {
    let mut state = State::new();
    for msg in 7..10 {
        answered(&mut state, "send", &format!(r#"{{"key":"a","msg":{msg}}}"#));
    }
    assert_eq!(
        answered(&mut state, "poll", r#"{"offsets":{"a":2,"z":0}}"#),
        r#"{"msgs":{"a":[[2,8],[3,9]],"z":[]},"type":"poll_ok"}"#
    );
    assert_eq!(
        answered(&mut state, "poll", r#"{"offsets":{"a":0}}"#),
        r#"{"msgs":{"a":[[1,7],[2,8],[3,9]]},"type":"poll_ok"}"#
    );
    assert_eq!(
        answered(&mut state, "poll", r#"{"offsets":{"a":4}}"#),
        r#"{"msgs":{"a":[]},"type":"poll_ok"}"#
    );
    assert_eq!(
        answered(&mut state, "poll", r#"{"offsets":{"a":18446744073709551615}}"#),
        r#"{"msgs":{"a":[]},"type":"poll_ok"}"#
    );
    assert_eq!(answered(&mut state, "poll", r#"{"offsets":{}}"#), r#"{"msgs":{},"type":"poll_ok"}"#);
}

#[test]
fn committed_offset_is_listed_under_the_text_of_its_name() {
    let mut state = State::new();
    answered(&mut state, "send", r#"{"key":"a","msg":7}"#);
    answered(&mut state, "send", r#"{"key":"a","msg":8}"#);
    assert_eq!(
        answered(&mut state, "commit_offsets", r#"{"offsets":{"a":2,"unknown":9}}"#),
        r#"{"type":"commit_offsets_ok"}"#
    );
    assert_eq!(
        answered(&mut state, "list_committed_offsets", r#"{"keys":["a","unknown"]}"#),
        r#"{"offsets":{"\"a\"":2,"\"unknown\"":0},"type":"list_committed_offsets_ok"}"#
    );
    answered(&mut state, "commit_offsets", r#"{"offsets":{"a":1}}"#);
    assert_eq!(
        answered(&mut state, "list_committed_offsets", r#"{"keys":["a"]}"#),
        r#"{"offsets":{"\"a\"":1},"type":"list_committed_offsets_ok"}"#
    );
}

#[test]
fn improper_log_requests_are_refused() {
    let mut state = State::new();
    answered(&mut state, "send", r#"{"key":"a","msg":7}"#);
    assert!(!state.accepts(&asked("send", r#"{"key":1,"msg":7}"#)));
    assert!(!state.accepts(&asked("poll", r#"{"offsets":[]}"#)));
    assert!(!state.accepts(&asked("poll", r#"{"offsets":{"a":-1}}"#)));
    assert!(!state.accepts(&asked("commit_offsets", r#"{"offsets":{"a":2}}"#)));
    assert!(state.accepts(&asked("commit_offsets", r#"{"offsets":{"a":1}}"#)));
    assert!(!state.accepts(&asked("list_committed_offsets", r#"{"keys":["a",1]}"#)));
    assert!(!state.accepts(&asked("delete", "{}")));
}
