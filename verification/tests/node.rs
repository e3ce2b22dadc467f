use flyio::echo::EchoNode;
use flyio::json::Json;
use flyio::node::{collect_texts, holds_only_texts, Action, Message, Node};
use flyio::unique_ids::Generator;
use flyio::wire::{parse, render};

fn named_node() -> Node {
    let mut node = Node::new();
    let line = r#"{"src":"c0","dest":"n1","body":{"type":"init","msg_id":1,"node_id":"n1","node_ids":["n1",7,"n2"]}}"#;
    node.process_line(line);
    node
}

#[test]
fn init_names_the_nodes_and_is_acknowledged() {
    let mut node = Node::new();
    assert_eq!(node.id(), "");
    assert!(node.node_ids().is_empty());
    let line = r#"{"src":"c0","dest":"n1","body":{"type":"init","msg_id":1,"node_id":"n1","node_ids":["n1",7,"n2"]}}"#;
    match node.process_line(line) {
        Action::Send(dest, body) => {
            assert_eq!(dest, "c0");
            assert_eq!(render(&body), r#"{"in_reply_to":1,"type":"init_ok"}"#);
            let (id, line) = node.send(&dest, body);
            assert_eq!(id, 1);
            assert_eq!(
                line,
                r#"{"body":{"in_reply_to":1,"msg_id":1,"type":"init_ok"},"dest":"c0","src":"n1"}"#
            );
        }
        other => panic!("{other:?}"),
    }
    assert_eq!(node.id(), "n1");
    assert_eq!(node.node_ids(), ["n1", "n2"]);
}

#[test]
fn init_without_names_leaves_them_empty() {
    let mut node = named_node();
    node.process_line(r#"{"body":{"type":"init","node_ids":"n1"}}"#);
    assert_eq!(node.id(), "");
    assert!(node.node_ids().is_empty());
}

#[test]
fn malformed_line_is_ignored() {
    let mut node = named_node();
    assert!(matches!(node.process_line("{\"src\":"), Action::Ignore));
    assert_eq!(node.id(), "n1");
}

#[test]
fn other_messages_are_for_the_handler() {
    let mut node = named_node();
    match node.process_line(r#"{"src":"c1","dest":"n1","body":{"type":"echo","msg_id":4,"echo":"x"}}"#) {
        Action::Handle(msg, number) => {
            assert_eq!(msg.src, "c1");
            assert_eq!(msg.msg_type, "echo");
            assert_eq!(render(&msg.body), r#"{"echo":"x","msg_id":4,"type":"echo"}"#);
            assert_eq!(number.as_u64(), Some(4));
        }
        other => panic!("{other:?}"),
    }
    assert!(matches!(node.process_line("[]"), Action::Handle(_, Json::Null)));
}

#[test]
fn reply_is_delivered_once() {
    let mut node = named_node();
    let (id, line) = node.rpc("n2", Json::typed("ping"));
    assert_eq!(id, 1);
    assert_eq!(line, r#"{"body":{"msg_id":1,"type":"ping"},"dest":"n2","src":"n1"}"#);
    let reply = r#"{"src":"n2","dest":"n1","body":{"type":"pong","in_reply_to":1}}"#;
    match node.process_line(reply) {
        Action::Deliver(to, body) => {
            assert_eq!(to, 1);
            assert!(body.field("type").is_text("pong"));
        }
        other => panic!("{other:?}"),
    }
    assert!(matches!(node.process_line(reply), Action::Handle(_, _)));
}

#[test]
fn timed_out_request_gets_no_reply() {
    let mut node = named_node();
    let (first, _) = node.rpc("n2", Json::typed("ping"));
    assert!(node.rpc_timeout(first, None).is_none());
    let reply = r#"{"src":"n2","dest":"n1","body":{"type":"pong","in_reply_to":1}}"#;
    assert!(matches!(node.process_line(reply), Action::Handle(_, _)));
    let (second, _) = node.rpc("n2", Json::typed("ping"));
    assert_eq!(second, first + 1);
    let got = node.rpc_timeout(second, Some(Json::typed("pong"))).unwrap();
    assert!(got.field("type").is_text("pong"));
}

#[test]
fn messages_are_numbered_from_one() {
    let mut node = Node::new();
    assert!(node.can_send());
    assert_eq!(node.next_msg_id(), 1);
    assert_eq!(node.next_msg_id(), 2);
    assert_eq!(node.send("a", Json::Null).0, 3);
}

#[test]
fn answer_names_the_message_that_it_answers() {
    let mut node = named_node();
    let (_, line) = node.reply("c1", Json::typed("echo_ok"), Json::number(9));
    assert_eq!(
        line,
        r#"{"body":{"in_reply_to":9,"msg_id":1,"type":"echo_ok"},"dest":"c1","src":"n1"}"#
    );
}

#[test]
fn sent_message_is_what_the_receiver_handles() {
    let mut sender = named_node();
    let (id, line) = sender.send("n2", Json::typed("hello").with("x", Json::text("a\nb")));
    let mut receiver = Node::new();
    match receiver.process_line(&line) {
        Action::Handle(msg, number) => {
            assert_eq!(msg.src, "n1");
            assert_eq!(msg.msg_type, "hello");
            assert!(msg.body.field("x").is_text("a\nb"));
            assert_eq!(number.as_u64(), Some(id));
        }
        other => panic!("{other:?}"),
    }
}

#[test]
fn strings_are_picked_from_arrays() {
    assert_eq!(collect_texts(&parse(r#"["a",1,null,"b"]"#).unwrap()), ["a", "b"]);
    assert!(collect_texts(&parse(r#"{"a":1}"#).unwrap()).is_empty());
    assert!(holds_only_texts(&parse(r#"["a","b"]"#).unwrap()));
    assert!(holds_only_texts(&parse("[]").unwrap()));
    assert!(!holds_only_texts(&parse(r#"["a",1]"#).unwrap()));
    assert!(!holds_only_texts(&parse(r#""a""#).unwrap()));
}

#[test]
fn echo_gives_back_what_was_sent() {
    let msg = Message {
        src: "c1".to_string(),
        msg_type: "echo".to_string(),
        body: parse(r#"{"type":"echo","echo":[1,{"a":null}]}"#).unwrap(),
    };
    let answer = flyio::echo::handle(&msg).unwrap();
    assert_eq!(render(&answer), r#"{"echo":[1,{"a":null}],"type":"echo_ok"}"#);
    let other = Message { msg_type: "ohce".to_string(), ..msg };
    assert!(flyio::echo::handle(&other).is_none());
}

#[test]
fn standalone_node_answers_init_and_echo() {
    let mut node = EchoNode::new();
    let init = r#"{"src":"c0","dest":"n3","body":{"type":"init","msg_id":1,"node_id":"n3"}}"#;
    assert_eq!(
        node.process_line(init).unwrap().unwrap(),
        r#"{"body":{"in_reply_to":1,"msg_id":1,"type":"init_ok"},"dest":"c0","src":"n3"}"#
    );
    assert_eq!(node.node_id, "n3");
    assert!(node.process_line(r#"{"body":{"type":"other"}}"#).unwrap().is_none());
    let echo = r#"{"src":"c1","dest":"n3","body":{"type":"echo","msg_id":2,"echo":"hi"}}"#;
    assert_eq!(
        node.process_line(echo).unwrap().unwrap(),
        r#"{"body":{"echo":"hi","in_reply_to":2,"msg_id":3,"type":"echo_ok"},"dest":"c1","src":"n3"}"#
    );
    assert!(node.process_line("oops").is_err());
    assert_eq!(node.msg_id, 3);
}

#[test]
fn generated_ids_differ() {
    let mut generator = Generator::new();
    assert_eq!(generator.generate("n1"), "n1-0");
    assert_eq!(generator.generate("n1"), "n1-1");
    let msg = Message {
        src: "c1".to_string(),
        msg_type: "generate".to_string(),
        body: Json::typed("generate"),
    };
    let answer = generator.handle("n1", &msg).unwrap();
    assert_eq!(render(&answer), r#"{"id":"n1-2","type":"generate_ok"}"#);
    let other = Message { msg_type: "degenerate".to_string(), ..msg };
    assert!(generator.handle("n1", &other).is_none());
    assert_eq!(generator.counter, 3);
}

#[test]
fn generator_starts_anew_after_the_last_number() {
    let mut generator = Generator { counter: u64::MAX };
    assert_eq!(generator.generate("n"), "n-18446744073709551615");
    assert_eq!(generator.generate("n"), "n-0");
}
