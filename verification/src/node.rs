//! The message protocol of a node: framing, message numbers, requests that wait
//! for a reply, and what becomes of each line that comes in.
use vstd::prelude::*;
use crate::json::{empty_object, json_views, number_json, typed, Json, JsonView, Numeral};
use crate::text::same_text;
use crate::wire::{line_of, parse, parsed, plain, render, MAX_DEPTH};
use std::collections::HashSet;

verus! {

broadcast use vstd::std_specs::hash::group_hash_axioms;

/// A message for the handler of a workload.
#[derive(Debug)]
pub struct Message {
    pub src: String,
    pub msg_type: String,
    pub body: Json,
}

/// What a message is.
#[verifier::ext_equal]
pub struct MessageView {
    pub src: Seq<char>,
    pub msg_type: Seq<char>,
    pub body: JsonView,
}

impl View for Message {
    type V = MessageView;

    open spec fn view(&self) -> MessageView {
        MessageView { src: self.src@, msg_type: self.msg_type@, body: self.body@ }
    }
}

/// What a node knows: its own name, the names of all nodes, the number of its
/// last message, and the numbers of the requests that wait for a reply.
#[verifier::ext_equal]
pub struct NodeView {
    pub id: Seq<char>,
    pub node_ids: Seq<Seq<char>>,
    pub msg_id: u64,
    pub pending: Set<u64>,
}

/// A node.
pub struct Node {
    id: String,
    node_ids: Vec<String>,
    msg_id: u64,
    pending: HashSet<u64>,
}

/// The views of strings.
pub open spec fn texts(s: Seq<String>) -> Seq<Seq<char>> {
    s.map_values(|t: String| t@)
}

impl View for Node {
    type V = NodeView;

    closed spec fn view(&self) -> NodeView {
        NodeView {
            id: self.id@,
            node_ids: texts(self.node_ids@),
            msg_id: self.msg_id,
            pending: self.pending@,
        }
    }
}

/// What is to be done about a line that came in.
#[derive(Debug)]
pub enum Action {
    /// The line is not JSON: nothing.
    Ignore,
    /// Hand the body to the caller that waits for the reply to this request.
    Deliver(u64, Json),
    /// Send the body to the node.
    Send(String, Json),
    /// Run the handler; what it returns answers the message of the given number.
    Handle(Message, Json),
}

/// What an action is.
#[verifier::ext_equal]
pub enum ActionView {
    Ignore,
    Deliver(u64, JsonView),
    Send(Seq<char>, JsonView),
    Handle(MessageView, JsonView),
}

impl View for Action {
    type V = ActionView;

    open spec fn view(&self) -> ActionView {
        match self {
            Action::Ignore => ActionView::Ignore,
            Action::Deliver(id, body) => ActionView::Deliver(*id, body@),
            Action::Send(dest, body) => ActionView::Send(dest@, body@),
            Action::Handle(msg, number) => ActionView::Handle(msg@, number@),
        }
    }
}

/// The message that a line holds: its sender, its type and its body.
pub open spec fn message_of(msg: JsonView) -> MessageView {
    MessageView {
        src: msg.field("src"@).text_or_empty(),
        msg_type: msg.field("body"@).field("type"@).text_or_empty(),
        body: msg.field("body"@),
    }
}

/// The strings among values.
pub open spec fn texts_among(values: Seq<JsonView>) -> Seq<Seq<char>>
    decreases values.len(),
{
    if values.len() == 0 {
        Seq::empty()
    } else {
        match values.last() {
            JsonView::Text(t) => texts_among(values.drop_last()).push(t),
            _ => texts_among(values.drop_last()),
        }
    }
}

/// Whether a value is an array of strings.
pub open spec fn all_texts(value: JsonView) -> bool {
    value is Array && forall|i: int|
        0 <= i < value->Array_0.len() ==> #[trigger] value->Array_0[i] is Text
}

/// The strings of an array; none where the value is no array.
pub open spec fn text_elements(value: JsonView) -> Seq<Seq<char>> {
    match value {
        JsonView::Array(s) => texts_among(s),
        _ => Seq::empty(),
    }
}

/// The request that a body answers, where a caller waits for the reply to it.
pub open spec fn answered(node: NodeView, body: JsonView) -> Option<u64> {
    match body.field("in_reply_to"@).as_u64() {
        Some(id) => if node.pending.contains(id) {
            Some(id)
        } else {
            None
        },
        None => None,
    }
}

/// The answer to the message that tells a node its name.
pub open spec fn init_ok(msg_id: JsonView) -> JsonView {
    typed("init_ok"@).with("in_reply_to"@, msg_id)
}

/// What a node does about a message: a reply goes to the caller that waits for
/// it, who then waits no more; `init` names the nodes and is acknowledged; all
/// else is for the handler.
pub open spec fn message_step(node: NodeView, msg: JsonView) -> (NodeView, ActionView) {
    let m = message_of(msg);
    match answered(node, m.body) {
        Some(id) => (
            NodeView { pending: node.pending.remove(id), ..node },
            ActionView::Deliver(id, m.body),
        ),
        None => if m.msg_type == "init"@ {
            (
                NodeView {
                    id: m.body.field("node_id"@).text_or_empty(),
                    node_ids: text_elements(m.body.field("node_ids"@)),
                    ..node
                },
                ActionView::Send(m.src, init_ok(m.body.field("msg_id"@))),
            )
        } else {
            (node, ActionView::Handle(m, m.body.field("msg_id"@)))
        },
    }
}

/// What a node does about a line: one that is not JSON is ignored.
pub open spec fn line_step(node: NodeView, line: Option<JsonView>) -> (NodeView, ActionView) {
    match line {
        Some(msg) => message_step(node, msg),
        None => (node, ActionView::Ignore),
    }
}

/// A message as it stands on the wire.
pub open spec fn frame(src: Seq<char>, dest: Seq<char>, body: JsonView) -> JsonView {
    empty_object().with("src"@, JsonView::Text(src)).with("dest"@, JsonView::Text(dest)).with(
        "body"@,
        body,
    )
}

/// A body with the number of its message.
pub open spec fn stamped(body: JsonView, msg_id: u64) -> JsonView {
    body.with("msg_id"@, number_json(msg_id as int))
}

impl Node {
    /// The numbers of waiting requests have been given out.
    #[verifier::type_invariant]
    closed spec fn numbered(self) -> bool {
        forall|p: u64| #[trigger] self.pending@.contains(p) ==> 0 < p <= self.msg_id
    }

    /// The name of the node, empty until it was told.
    pub fn id(&self) -> (r: String)
        ensures
            r@ == self@.id,
    {
        self.id.clone()
    }

    /// The names of all nodes, none until they were told.
    pub fn node_ids(&self) -> (r: Vec<String>)
        ensures
            texts(r@) == self@.node_ids,
    {
        let mut r: Vec<String> = Vec::new();
        let mut i: usize = 0;
        while i < self.node_ids.len()
            invariant
                i <= self.node_ids@.len(),
                r@.len() == i,
                forall|j: int| 0 <= j < i ==> #[trigger] r@[j]@ == self.node_ids@[j]@,
            decreases self.node_ids@.len() - i,
        {
            r.push(self.node_ids[i].clone());
            i = i + 1;
        }
        assert(texts(r@) =~= self@.node_ids);
        r
    }

    /// Makes a node that knows no names, has sent nothing and waits for nothing.
    pub fn new() -> (r: Node)
        ensures
            r@ == (NodeView {
                id: Seq::empty(),
                node_ids: Seq::empty(),
                msg_id: 0,
                pending: Set::empty(),
            }),
    {
        let r = Node {
            id: String::new(),
            node_ids: Vec::new(),
            msg_id: 0,
            pending: HashSet::new(),
        };
        assert(r@.node_ids =~= Seq::empty());
        r
    }

    /// Whether there is a number for one more message.
    pub fn can_send(&self) -> (r: bool)
        ensures
            r == (self@.msg_id < u64::MAX),
    {
        self.msg_id < u64::MAX
    }

    /// Gives out the number of the next message.
    pub fn next_msg_id(&mut self) -> (r: u64)
        requires
            old(self)@.msg_id < u64::MAX,
        ensures
            r == old(self)@.msg_id + 1,
            final(self)@ == (NodeView { msg_id: r, ..old(self)@ }),
    {
        proof {
            use_type_invariant(&*self);
        }
        self.msg_id = self.msg_id + 1;
        self.msg_id
    }

    /// Writes the message of the given number to `dest`, as one line.
    pub fn write_message(&self, dest: &str, body: Json, msg_id: u64) -> (r: String)
        requires
            body@.is_settable(),
        ensures
            line_of(r@, frame(self@.id, dest@, stamped(body@, msg_id))),
    {
        let body = body.with("msg_id", Json::number(msg_id));
        let msg = Json::object().with("src", Json::text(self.id.as_str())).with(
            "dest",
            Json::text(dest),
        ).with("body", body);
        render(&msg)
    }

    /// Sends `body` to `dest`: gives the number of the message and its line.
    pub fn send(&mut self, dest: &str, body: Json) -> (r: (u64, String))
        requires
            old(self)@.msg_id < u64::MAX,
            body@.is_settable(),
        ensures
            r.0 == old(self)@.msg_id + 1,
            final(self)@ == (NodeView { msg_id: r.0, ..old(self)@ }),
            line_of(r.1@, frame(old(self)@.id, dest@, stamped(body@, r.0))),
    {
        let id = self.next_msg_id();
        let line = self.write_message(dest, body, id);
        (id, line)
    }

    /// Sends the request `body` to `dest`. The request waits for its reply before
    /// the line is there to be written.
    pub fn rpc(&mut self, dest: &str, body: Json) -> (r: (u64, String))
        requires
            old(self)@.msg_id < u64::MAX,
            body@.is_settable(),
        ensures
            r.0 == old(self)@.msg_id + 1,
            final(self)@ == (NodeView {
                msg_id: r.0,
                pending: old(self)@.pending.insert(r.0),
                ..old(self)@
            }),
            !old(self)@.pending.contains(r.0),
            line_of(r.1@, frame(old(self)@.id, dest@, stamped(body@, r.0))),
    {
        proof {
            use_type_invariant(&*self);
        }
        let id = self.next_msg_id();
        let mut pending: HashSet<u64> = HashSet::new();
        std::mem::swap(&mut pending, &mut self.pending);
        pending.insert(id);
        self.pending = pending;
        let line = self.write_message(dest, body, id);
        (id, line)
    }

    /// What a request with a time limit comes to: the reply, where one arrived in
    /// time; else nothing, and the request waits no more.
    pub fn rpc_timeout(&mut self, id: u64, reply: Option<Json>) -> (r: Option<Json>)
        ensures
            r == reply,
            final(self)@ == (if reply is Some {
                old(self)@
            } else {
                NodeView { pending: old(self)@.pending.remove(id), ..old(self)@ }
            }),
    {
        match reply {
            Some(body) => Some(body),
            None => {
                self.forget(id);
                None
            },
        }
    }

    /// Lets a request wait no more, and tells whether it was waiting.
    fn forget(&mut self, id: u64) -> (r: bool)
        ensures
            r == old(self)@.pending.contains(id),
            final(self)@ == (NodeView { pending: old(self)@.pending.remove(id), ..old(self)@ }),
    {
        proof {
            use_type_invariant(&*self);
        }
        let mut pending: HashSet<u64> = HashSet::new();
        std::mem::swap(&mut pending, &mut self.pending);
        let r = pending.remove(&id);
        self.pending = pending;
        assert(self@.pending =~= old(self)@.pending.remove(id));
        r
    }

    /// Answers a message with what its handler returned.
    pub fn reply(&mut self, dest: &str, body: Json, msg_id: Json) -> (r: (u64, String))
        requires
            old(self)@.msg_id < u64::MAX,
            body@.is_settable(),
        ensures
            r.0 == old(self)@.msg_id + 1,
            final(self)@ == (NodeView { msg_id: r.0, ..old(self)@ }),
            line_of(
                r.1@,
                frame(
                    old(self)@.id,
                    dest@,
                    stamped(body@.with("in_reply_to"@, msg_id@), r.0),
                ),
            ),
    {
        self.send(dest, body.with("in_reply_to", msg_id))
    }

    /// Decides about a message that came in.
    pub fn process_message(&mut self, msg: &Json) -> (r: Action)
        ensures
            (final(self)@, r@) == message_step(old(self)@, msg@),
    {
        let src = msg.field("src").text_or_empty();
        let body = msg.field("body").clone();
        let msg_type = body.field("type").text_or_empty();

        if let Some(reply_id) = body.field("in_reply_to").as_u64() {
            let ghost before = self@;
            if self.forget(reply_id) {
                return Action::Deliver(reply_id, body);
            }
            assert(before.pending.remove(reply_id) =~= before.pending);
        }
        let msg_id = body.field("msg_id").clone();
        if same_text(msg_type.as_str(), "init") {
            proof {
                use_type_invariant(&*self);
            }
            self.id = body.field("node_id").text_or_empty();
            self.node_ids = collect_texts(body.field("node_ids"));
            return Action::Send(src, Json::typed("init_ok").with("in_reply_to", msg_id));
        }
        Action::Handle(Message { src, msg_type, body }, msg_id)
    }

    /// Decides about a line that came in.
    pub fn process_line(&mut self, line: &str) -> (r: Action)
        ensures
            (final(self)@, r@) == line_step(old(self)@, parsed(line@)),
    {
        match parse(line) {
            Ok(msg) => self.process_message(&msg),
            Err(_) => Action::Ignore,
        }
    }
}

/// Whether a value is an array of strings.
pub fn holds_only_texts(value: &Json) -> (r: bool)
    ensures
        r == all_texts(value@),
{
    match value.as_array() {
        Some(v) => {
            let mut i: usize = 0;
            while i < v.len()
                invariant
                    i <= v@.len(),
                    value@ == JsonView::Array(json_views(v@)),
                    forall|j: int| 0 <= j < i ==> #[trigger] json_views(v@)[j] is Text,
                decreases v@.len() - i,
            {
                if v[i].as_text().is_none() {
                    assert(!(value@->Array_0[i as int] is Text));
                    return false;
                }
                i = i + 1;
            }
            true
        },
        None => false,
    }
}

/// The strings of an array; none where the value is no array.
pub fn collect_texts(value: &Json) -> (r: Vec<String>)
    ensures
        texts(r@) == text_elements(value@),
{
    let mut r: Vec<String> = Vec::new();
    match value.as_array() {
        Some(v) => {
            let mut i: usize = 0;
            assert(texts(r@) =~= texts_among(json_views(v@).take(0)));
            while i < v.len()
                invariant
                    i <= v@.len(),
                    texts(r@) == texts_among(json_views(v@).take(i as int)),
                decreases v@.len() - i,
            {
                let ghost upto = json_views(v@).take(i + 1);
                assert(upto.drop_last() =~= json_views(v@).take(i as int));
                assert(upto.last() == v@[i as int]@);
                if let Some(t) = v[i].as_text() {
                    let ghost done = r@;
                    r.push(t.clone());
                    assert(texts(r@) =~= texts(done).push(t@));
                }
                i = i + 1;
            }
            assert(json_views(v@).take(i as int) =~= json_views(v@));
        },
        None => {
            assert(texts(r@) =~= Seq::empty());
        },
    }
    r
}

/// A message that a node sends is the message that its receiver handles: the
/// same sender, type and body, under the number that the sender gave it. (It is
/// another matter where the receiver waits for it as a reply, or is told its name.)
pub proof fn law_sent_message_is_handled(
    line: Seq<char>,
    src: Seq<char>,
    dest: Seq<char>,
    body: JsonView,
    msg_id: u64,
    receiver: NodeView,
)
    requires
        line_of(line, frame(src, dest, stamped(body, msg_id))),
        plain(frame(src, dest, stamped(body, msg_id)), MAX_DEPTH as nat),
        body.is_settable(),
        answered(receiver, body) is None,
        body.field("type"@) != JsonView::Text("init"@),
    ensures
        line_step(receiver, parsed(line)) == (
            receiver,
            ActionView::Handle(
                MessageView {
                    src,
                    msg_type: body.field("type"@).text_or_empty(),
                    body: stamped(body, msg_id),
                },
                number_json(msg_id as int),
            ),
        ),
{
    lemma_frame_fields(src, dest, stamped(body, msg_id));
    lemma_stamped_fields(body, msg_id);
    reveal_strlit("init");
    assert("init"@.len() == 4);
    assert(body.field("type"@).text_or_empty() != "init"@);
}

/// The reply to a request reaches the caller that waits for it, and it then
/// waits no more.
pub proof fn law_reply_is_delivered(
    line: Seq<char>,
    replier: Seq<char>,
    requester: Seq<char>,
    body: JsonView,
    request_id: u64,
    reply_id: u64,
    node: NodeView,
)
    requires
        line_of(
            line,
            frame(
                replier,
                requester,
                stamped(body.with("in_reply_to"@, number_json(request_id as int)), reply_id),
            ),
        ),
        plain(
            frame(
                replier,
                requester,
                stamped(body.with("in_reply_to"@, number_json(request_id as int)), reply_id),
            ),
            MAX_DEPTH as nat,
        ),
        body.is_settable(),
        node.pending.contains(request_id),
    ensures
        line_step(node, parsed(line)) == (
            NodeView { pending: node.pending.remove(request_id), ..node },
            ActionView::Deliver(
                request_id,
                stamped(body.with("in_reply_to"@, number_json(request_id as int)), reply_id),
            ),
        ),
{
    let answer = body.with("in_reply_to"@, number_json(request_id as int));
    lemma_frame_fields(replier, requester, stamped(answer, reply_id));
    lemma_stamped_fields(answer, reply_id);
}

/// No reply is delivered to a request that does not wait: neither a second time,
/// nor after the request timed out.
pub proof fn law_only_waiting_requests_get_replies(node: NodeView, msg: JsonView, id: u64)
    requires
        !node.pending.contains(id),
    ensures
        !(message_step(node, msg).1 is Deliver && message_step(node, msg).1->Deliver_0 == id),
        !message_step(node, msg).0.pending.contains(id),
{
}

/// A request that timed out leaves nothing behind but its number, so that it can
/// be repeated any number of times.
pub proof fn law_timed_out_request_leaves_nothing(node: NodeView, id: u64)
    requires
        !node.pending.contains(id),
    ensures
        node.pending.insert(id).remove(id) == node.pending,
{
    assert(node.pending.insert(id).remove(id) =~= node.pending);
}

/// The fields of a message on the wire are its parts.
proof fn lemma_frame_fields(src: Seq<char>, dest: Seq<char>, body: JsonView)
    ensures
        frame(src, dest, body).field("src"@) == JsonView::Text(src),
        frame(src, dest, body).field("dest"@) == JsonView::Text(dest),
        frame(src, dest, body).field("body"@) == body,
{
    reveal_strlit("src");
    reveal_strlit("dest");
    reveal_strlit("body");
    assert("src"@.len() != "dest"@.len());
    assert("src"@.len() != "body"@.len());
    assert("dest"@[0] != "body"@[0]);
}

/// Numbering a body changes no field but the number.
proof fn lemma_stamped_fields(body: JsonView, msg_id: u64)
    ensures
        stamped(body, msg_id).field("msg_id"@) == number_json(msg_id as int),
        stamped(body, msg_id).field("type"@) == body.field("type"@),
        stamped(body, msg_id).field("in_reply_to"@) == body.field("in_reply_to"@),
{
    reveal_strlit("msg_id");
    reveal_strlit("type");
    reveal_strlit("in_reply_to");
    assert("msg_id"@.len() != "type"@.len());
    assert("msg_id"@.len() != "in_reply_to"@.len());
}

/// The strings among values are picked one after another: those of the first come
/// before those of the second, each string as it is, and nothing else.
pub proof fn law_strings_are_picked_in_order(a: Seq<JsonView>, b: Seq<JsonView>, v: JsonView)
    ensures
        texts_among(a + b) == texts_among(a) + texts_among(b),
        v matches JsonView::Text(t) ==> texts_among(seq![v]) == seq![t],
        !(v is Text) ==> texts_among(seq![v]) == Seq::<Seq<char>>::empty(),
        texts_among(Seq::empty()) == Seq::<Seq<char>>::empty(),
    decreases b.len(),
{
    reveal_with_fuel(texts_among, 2);
    assert(seq![v].drop_last() =~= Seq::empty());
    assert(texts_among(seq![v].drop_last()) =~= Seq::empty());
    if let JsonView::Text(t) = v {
        assert(texts_among(seq![v]) =~= seq![t]);
    }
    if b.len() == 0 {
        assert(a + b =~= a);
        assert(texts_among(a) + texts_among(b) =~= texts_among(a));
    } else {
        law_strings_are_picked_in_order(a, b.drop_last(), v);
        assert((a + b).drop_last() =~= a + b.drop_last());
        assert((a + b).last() == b.last());
        assert(texts_among(a + b) =~= texts_among(a) + texts_among(b));
    }
}

/// A list of strings is read as these strings in their order; what is no list has none.
pub proof fn law_list_of_strings_is_read_back(names: Seq<Seq<char>>, v: JsonView)
    ensures
        all_texts(JsonView::Array(names.map_values(|t: Seq<char>| JsonView::Text(t)))),
        text_elements(JsonView::Array(names.map_values(|t: Seq<char>| JsonView::Text(t))))
            == names,
        !(v is Array) ==> !all_texts(v) && text_elements(v) == Seq::<Seq<char>>::empty(),
        v matches JsonView::Array(s) ==> text_elements(v) == texts_among(s) && (all_texts(v)
            <==> !exists|i: int| 0 <= i < s.len() && !(#[trigger] s[i] is Text)),
    decreases names.len(),
{
    let list = names.map_values(|t: Seq<char>| JsonView::Text(t));
    if names.len() > 0 {
        let rest = names.drop_last();
        law_list_of_strings_is_read_back(rest, v);
        assert(list.drop_last() =~= rest.map_values(|t: Seq<char>| JsonView::Text(t)));
        assert(list.last() == JsonView::Text(names.last()));
        assert(rest.push(names.last()) =~= names);
    }
    assert(text_elements(JsonView::Array(list)) =~= names);
}

/// On the wire a message holds its sender, its receiver and its body, and no more; and
/// numbering a body sets its number and changes no other field.
pub proof fn law_message_on_the_wire(
    src: Seq<char>,
    dest: Seq<char>,
    body: JsonView,
    msg_id: u64,
    key: Seq<char>,
)
    requires
        body is Object || body is Null,
    ensures
        frame(src, dest, body) == JsonView::Object(
            map![
                "src"@ => JsonView::Text(src),
                "dest"@ => JsonView::Text(dest),
                "body"@ => body
            ],
        ),
        frame(src, dest, body).field("src"@) == JsonView::Text(src),
        frame(src, dest, body).field("dest"@) == JsonView::Text(dest),
        frame(src, dest, body).field("body"@) == body,
        stamped(body, msg_id) is Object,
        stamped(body, msg_id).field("msg_id"@) == JsonView::Number(Numeral::Int(msg_id as int)),
        key != "msg_id"@ ==> stamped(body, msg_id).field(key) == body.field(key),
{
    lemma_frame_fields(src, dest, body);
}

/// A message with the number of a waiting request is delivered to that request, with
/// all that its body holds; that request waits no more, and nothing else changes.
pub proof fn law_waiting_request_gets_the_body(node: NodeView, msg: JsonView, id: u64)
    requires
        node.pending.contains(id),
        msg.field("body"@).field("in_reply_to"@) == JsonView::Number(Numeral::Int(id as int)),
    ensures
        message_step(node, msg).1 == ActionView::Deliver(id, msg.field("body"@)),
        message_step(node, msg).0.id == node.id,
        message_step(node, msg).0.node_ids == node.node_ids,
        message_step(node, msg).0.msg_id == node.msg_id,
        forall|p: u64| #[trigger]
            message_step(node, msg).0.pending.contains(p) <==> node.pending.contains(p) && p != id,
{
}

/// Whether a value is read as a string: it is that string, or it is none and the string
/// is empty.
pub open spec fn reads_as(v: JsonView, s: Seq<char>) -> bool {
    v == JsonView::Text(s) || (!(v is Text) && s.len() == 0)
}

pub(crate) proof fn lemma_reads_as(v: JsonView, s: Seq<char>)
    requires
        reads_as(v, s),
    ensures
        v.text_or_empty() == s,
{
    assert(s.len() == 0 ==> s =~= Seq::empty());
}

/// Where no request waits for a message, `init` gives the node its name and the names
/// of all nodes, and is answered under its number; numbers and waiting requests stay.
pub proof fn law_init_names_the_nodes(
    node: NodeView,
    msg: JsonView,
    src: Seq<char>,
    name: Seq<char>,
    names: Seq<Seq<char>>,
)
    requires
        forall|p: u64| #[trigger]
            node.pending.contains(p) ==> msg.field("body"@).field("in_reply_to"@)
                != JsonView::Number(Numeral::Int(p as int)),
        reads_as(msg.field("src"@), src),
        msg.field("body"@).field("type"@) == JsonView::Text("init"@),
        reads_as(msg.field("body"@).field("node_id"@), name),
    ensures
        message_step(node, msg).0.id == name,
        msg.field("body"@).field("node_ids"@) == JsonView::Array(
            names.map_values(|t: Seq<char>| JsonView::Text(t)),
        ) ==> message_step(node, msg).0.node_ids == names,
        message_step(node, msg).0.node_ids == text_elements(msg.field("body"@).field("node_ids"@)),
        message_step(node, msg).0.msg_id == node.msg_id,
        message_step(node, msg).0.pending == node.pending,
        message_step(node, msg).1 == ActionView::Send(
            src,
            JsonView::Object(
                map![
                    "type"@ => JsonView::Text("init_ok"@),
                    "in_reply_to"@ => msg.field("body"@).field("msg_id"@)
                ],
            ),
        ),
{
    lemma_reads_as(msg.field("src"@), src);
    lemma_reads_as(msg.field("body"@).field("node_id"@), name);
    law_list_of_strings_is_read_back(names, JsonView::Null);
}

/// Where no request waits for a message, one of another type is for the handler, with
/// its sender, its type, its body and its number, and the node stays as it is.
pub proof fn law_other_messages_are_for_the_handler(
    node: NodeView,
    msg: JsonView,
    src: Seq<char>,
    kind: Seq<char>,
)
    requires
        forall|p: u64| #[trigger]
            node.pending.contains(p) ==> msg.field("body"@).field("in_reply_to"@)
                != JsonView::Number(Numeral::Int(p as int)),
        reads_as(msg.field("src"@), src),
        reads_as(msg.field("body"@).field("type"@), kind),
        kind != "init"@,
    ensures
        message_step(node, msg).0 == node,
        message_step(node, msg).1 == ActionView::Handle(
            MessageView { src, msg_type: kind, body: msg.field("body"@) },
            msg.field("body"@).field("msg_id"@),
        ),
{
    lemma_reads_as(msg.field("src"@), src);
    lemma_reads_as(msg.field("body"@).field("type"@), kind);
}

/// A line that is no JSON changes nothing; what another holds is a message.
pub proof fn law_malformed_line_is_ignored(node: NodeView, msg: JsonView)
    ensures
        line_step(node, None) == (node, ActionView::Ignore),
        line_step(node, Some(msg)) == message_step(node, msg),
{
}



/// Messages, actions and strings are seen as what they are, part by part.
pub proof fn law_messages_are_seen_as_they_are(
    msg: Message,
    number: Json,
    id: u64,
    dest: String,
    strings: Seq<String>,
    i: int,
)
    ensures
        msg@.src == msg.src@,
        msg@.msg_type == msg.msg_type@,
        msg@.body == msg.body@,
        Action::Ignore@ == ActionView::Ignore,
        Action::Deliver(id, number)@ == ActionView::Deliver(id, number@),
        Action::Send(dest, number)@ == ActionView::Send(dest@, number@),
        Action::Handle(msg, number)@ == ActionView::Handle(msg@, number@),
        texts(strings).len() == strings.len(),
        0 <= i < strings.len() ==> texts(strings)[i] == strings[i]@,
{
}

} // verus!
