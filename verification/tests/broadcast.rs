use flyio::broadcast::{
    accepts, handle, make_executor, read_topology, BroadcastExecutorKind, NodeState, EXECUTOR,
};
use flyio::json::Json;
use flyio::node::Message;
use flyio::policy::{
    make_policy, DirectPolicy, ForwardPolicy, GroupPolicy, PolicyKind, SimplePolicy, Topology,
};
use flyio::wire::{parse, render};

fn network(n: usize) -> Topology {
    let mut t: Topology = Topology::new();
    for i in 0..n {
        t.insert(format!("n{i:02}"), vec![format!("n{:02}", (i + 1) % n)]);
    }
    t
}

fn shown(hops: Vec<(String, Json)>) -> Vec<(String, String)> {
    hops.into_iter().map(|(d, m)| (d, render(&m))).collect()
}

fn told(kind: &str, body: &str) -> Message {
    Message { src: "c1".to_string(), msg_type: kind.to_string(), body: parse(body).unwrap() }
}

#[test]
fn simple_policy_spares_the_sender() {
    let p = SimplePolicy::new(vec!["a".into(), "b".into(), "c".into()], "me");
    let hops = shown(p.next_hops(&Json::text("b")));
    assert_eq!(hops, [("a".into(), "\"me\"".into()), ("c".into(), "\"me\"".into())]);
    assert_eq!(p.next_hops(&Json::Null).len(), 3);
}

#[test]
fn direct_policy_sends_to_all_others_once() {
    let p = DirectPolicy::new(&network(3), "n01");
    let hops = shown(p.next_hops(&Json::Null));
    assert_eq!(hops, [("n00".into(), "\"n01\"".into()), ("n02".into(), "\"n01\"".into())]);
    assert!(p.next_hops(&Json::text("n00")).is_empty());
}

#[test]
fn group_policy_fans_out_by_groups() {
    let p = GroupPolicy::new(&network(12), "n06");
    assert_eq!(p.group_members, ["n05", "n07", "n08", "n09"]);
    assert_eq!(p.other_group_reps, ["n00", "n10"]);
    let first = shown(p.next_hops(&Json::Null));
    assert_eq!(first.len(), 6);
    assert_eq!(first[0], ("n05".to_string(), "\"intra\"".to_string()));
    assert_eq!(first[5], ("n10".to_string(), "\"inter\"".to_string()));
    assert_eq!(p.next_hops(&Json::text("inter")).len(), 4);
    assert!(p.next_hops(&Json::text("intra")).is_empty());
}

#[test]
fn last_group_may_be_smaller() {
    let p = GroupPolicy::new(&network(12), "n11");
    assert_eq!(p.group_members, ["n10"]);
    assert_eq!(p.other_group_reps, ["n00", "n05"]);
    let alone = GroupPolicy::new(&network(1), "n00");
    assert!(alone.group_members.is_empty());
    assert!(alone.other_group_reps.is_empty());
}

#[test]
fn every_node_is_reached_once() {
    let t = network(13);
    let entry = GroupPolicy::new(&t, "n07");
    let mut reached: Vec<String> = Vec::new();
    for (dest, meta) in entry.next_hops(&Json::Null) {
        for (next, last) in GroupPolicy::new(&t, &dest).next_hops(&meta) {
            assert!(GroupPolicy::new(&t, &next).next_hops(&last).is_empty());
            reached.push(next);
        }
        reached.push(dest);
    }
    reached.sort();
    let expected: Vec<String> =
        (0..13).filter(|&i| i != 7).map(|i| format!("n{i:02}")).collect();
    assert_eq!(reached, expected);
}

#[test]
fn policies_are_made_by_kind() {
    let t = network(3);
    let simple = make_policy(PolicyKind::Simple, &t, "n00");
    assert_eq!(shown(simple.next_hops(&Json::Null)), [("n01".into(), "\"n00\"".into())]);
    let direct = make_policy(PolicyKind::Direct, &t, "n00");
    assert_eq!(direct.next_hops(&Json::Null).len(), 2);
    let group = make_policy(PolicyKind::Group, &t, "n00");
    assert_eq!(shown(group.next_hops(&Json::Null))[0].1, "\"intra\"");
    let unknown = make_policy(PolicyKind::Simple, &t, "zz");
    assert!(unknown.next_hops(&Json::Null).is_empty());
}

#[test]
fn networks_are_read_from_objects_of_arrays() {
    let t = read_topology(&parse(r#"{"b":["a"],"a":["b","c"]}"#).unwrap()).unwrap();
    assert_eq!(t.get("a").unwrap(), &["b", "c"]);
    assert!(read_topology(&parse(r#"{"b":["a",1]}"#).unwrap()).is_none());
    assert!(read_topology(&parse(r#"{"b":"a"}"#).unwrap()).is_none());
    assert!(read_topology(&parse("[]").unwrap()).is_none());
}

#[test]
fn network_must_hold_the_node() {
    let msg = told("topology", r#"{"topology":{"n1":["n2"],"n2":["n1"]}}"#);
    assert!(accepts("n1", &msg));
    assert!(!accepts("n3", &msg));
    assert!(!accepts("n1", &told("topology", r#"{"topology":[]}"#)));
    assert!(accepts("n1", &told("whatever", "{}")));
}

#[test]
fn told_value_is_forwarded_once_and_read_back() {
    let mut state = NodeState::new();
    let topology = told("topology", r#"{"topology":{"n1":["n2"],"n2":["n1"],"n3":[]}}"#);
    let (answer, sent) = handle(&mut state, "n1", &topology);
    assert_eq!(render(&answer.unwrap()), r#"{"type":"topology_ok"}"#);
    assert!(sent.is_empty());

    let msg = told("broadcast", r#"{"type":"broadcast","message":17}"#);
    let (answer, sent) = handle(&mut state, "n1", &msg);
    assert_eq!(render(&answer.unwrap()), r#"{"type":"broadcast_ok"}"#);
    let body = r#"{"message":17,"meta":"intra","type":"broadcast"}"#.to_string();
    assert_eq!(shown(sent), [("n2".into(), body.clone()), ("n3".into(), body)]);

    let (_, sent) = handle(&mut state, "n1", &msg);
    assert!(sent.is_empty());
    let (answer, _) = handle(&mut state, "n1", &told("read", "{}"));
    assert_eq!(render(&answer.unwrap()), r#"{"messages":[17],"type":"read_ok"}"#);
}

#[test]
fn read_gives_exactly_the_values_told() {
    let mut state = NodeState::new();
    let topology = told("topology", r#"{"topology":{"n1":["n2"],"n2":["n1"]}}"#);
    for msg in [
        told("broadcast", r#"{"message":1}"#),
        told("read", r#"{"message":9}"#),
        told("broadcast", r#"{"message":{"a":[2]}}"#),
        topology,
        told("broadcast", r#"{"message":1,"meta":"intra"}"#),
        told("rumor", r#"{"message":8}"#),
        told("broadcast", r#"{}"#),
    ] {
        assert!(accepts("n1", &msg));
        handle(&mut state, "n1", &msg);
    }
    for _ in 0..2 {
        let (answer, sent) = handle(&mut state, "n1", &told("read", "{}"));
        assert_eq!(
            render(&answer.unwrap()),
            r#"{"messages":[1,{"a":[2]},null],"type":"read_ok"}"#
        );
        assert!(sent.is_empty());
    }
}

#[test]
fn value_is_kept_while_the_network_is_unknown() {
    let mut state = NodeState::new();
    let (_, sent) = handle(&mut state, "n1", &told("broadcast", r#"{"message":"x"}"#));
    assert!(sent.is_empty());
    let (_, sent) = handle(&mut state, "n1", &told("broadcast", r#"{"message":0.0}"#));
    assert!(sent.is_empty());
    handle(&mut state, "n1", &told("broadcast", r#"{"message":-0.0}"#));
    let (answer, _) = handle(&mut state, "n1", &told("read", "{}"));
    assert_eq!(render(&answer.unwrap()), r#"{"messages":["x",0.0],"type":"read_ok"}"#);
}

#[test]
fn unknown_message_is_not_answered() {
    let mut state = NodeState::new();
    let (answer, sent) = handle(&mut state, "n1", &told("rumor", "{}"));
    assert!(answer.is_none());
    assert!(sent.is_empty());
}

#[test]
fn request_is_repeated_until_a_reply_comes() {
    assert_eq!(EXECUTOR, BroadcastExecutorKind::Immediate);
    let executor = make_executor(EXECUTOR);
    assert!(executor.repeats(&None));
    assert!(!executor.repeats(&Some(Json::Null)));
}
