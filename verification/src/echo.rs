//! The echo workload: a node answers with what it was sent.
use vstd::prelude::*;
use crate::json::{number_json, typed, Json, JsonView, Numeral};
use crate::node::{frame, lemma_reads_as, reads_as, Message, MessageView};
use crate::text::same_text;
use crate::wire::{line_of, parse, parsed, render, Malformed};

verus! {

/// The answer to a message: an echo of what it holds, or none where it is of
/// another type.
pub open spec fn echo_answer(msg: MessageView) -> Option<JsonView> {
    if msg.msg_type == "echo"@ {
        Some(typed("echo_ok"@).with("echo"@, msg.body.field("echo"@)))
    } else {
        None
    }
}

/// Handles a message.
pub fn handle(msg: &Message) -> (r: Option<Json>)
    ensures
        r is Some <==> echo_answer(msg@) is Some,
        r matches Some(a) ==> echo_answer(msg@) == Some(a@),
{
    if same_text(msg.msg_type.as_str(), "echo") {
        Some(Json::typed("echo_ok").with("echo", msg.body.field("echo").clone()))
    } else {
        None
    }
}

/// A node on its own that answers `init` and `echo`, one line after another.
#[derive(Debug)]
pub struct EchoNode {
    pub msg_id: u64,
    pub node_id: String,
}

/// The body of the answer to the body of a message, where its type is known.
pub open spec fn standalone_answer(body: JsonView, msg_id: u64) -> Option<JsonView> {
    if body.field("type"@) == JsonView::Text("init"@) {
        Some(
            typed("init_ok"@).with("in_reply_to"@, body.field("msg_id"@)).with(
                "msg_id"@,
                number_json(msg_id as int),
            ),
        )
    } else if body.field("type"@) == JsonView::Text("echo"@) {
        Some(
            typed("echo_ok"@).with("in_reply_to"@, body.field("msg_id"@)).with(
                "msg_id"@,
                number_json(msg_id as int),
            ).with("echo"@, body.field("echo"@)),
        )
    } else {
        None
    }
}

/// The name of the node after a message: the one that `init` gives it.
pub open spec fn standalone_name(name: Seq<char>, body: JsonView) -> Seq<char> {
    if body.field("type"@) == JsonView::Text("init"@) {
        body.field("node_id"@).text_or_empty()
    } else {
        name
    }
}

/// The message that answers a message, where its type is known: it goes back to
/// the sender in the name that the message was sent to.
pub open spec fn standalone_reply(msg: JsonView, msg_id: u64) -> Option<JsonView> {
    match standalone_answer(msg.field("body"@), msg_id) {
        Some(body) => Some(
            frame(msg.field("dest"@).text_or_empty(), msg.field("src"@).text_or_empty(), body),
        ),
        None => None,
    }
}

impl EchoNode {
    /// Makes a node that has no name and has seen no message.
    pub fn new() -> (r: EchoNode)
        ensures
            r.msg_id == 0,
            r.node_id@ == Seq::<char>::empty(),
    {
        EchoNode { msg_id: 0, node_id: String::new() }
    }

    /// Handles a message: gives the line of the answer, where there is one. Every
    /// message counts, also one that is not answered.
    pub fn process_message(&mut self, msg: &Json) -> (r: Option<String>)
        requires
            old(self).msg_id < u64::MAX,
        ensures
            final(self).msg_id == old(self).msg_id + 1,
            final(self).node_id@ == standalone_name(old(self).node_id@, msg@.field("body"@)),
            r is Some <==> standalone_reply(msg@, final(self).msg_id) is Some,
            r matches Some(line) ==> line_of(
                line@,
                standalone_reply(msg@, final(self).msg_id)->0,
            ),
    {
        proof {
            reveal_strlit("init");
            reveal_strlit("echo");
            assert("init"@[0] != "echo"@[0]);
        }
        let src = msg.field("src").text_or_empty();
        let dest = msg.field("dest").text_or_empty();
        let body = msg.field("body");
        self.msg_id = self.msg_id + 1;
        let answer = if body.field("type").is_text("init") {
            self.node_id = body.field("node_id").text_or_empty();
            Json::typed("init_ok").with("in_reply_to", body.field("msg_id").clone()).with(
                "msg_id",
                Json::number(self.msg_id),
            )
        } else if body.field("type").is_text("echo") {
            Json::typed("echo_ok").with("in_reply_to", body.field("msg_id").clone()).with(
                "msg_id",
                Json::number(self.msg_id),
            ).with("echo", body.field("echo").clone())
        } else {
            return None;
        };
        let reply = Json::object().with("src", Json::text(dest.as_str())).with(
            "dest",
            Json::text(src.as_str()),
        ).with("body", answer);
        Some(render(&reply))
    }

    /// Handles a line: fails where it is not JSON.
    pub fn process_line(&mut self, line: &str) -> (r: Result<Option<String>, Malformed>)
        requires
            old(self).msg_id < u64::MAX,
        ensures
            r is Ok <==> parsed(line@) is Some,
            r is Err ==> *final(self) == *old(self),
            r matches Ok(answer) ==> {
                let msg = parsed(line@)->0;
                &&& final(self).msg_id == old(self).msg_id + 1
                &&& final(self).node_id@ == standalone_name(
                    old(self).node_id@,
                    msg.field("body"@),
                )
                &&& answer is Some <==> standalone_reply(msg, final(self).msg_id) is Some
                &&& answer matches Some(text) ==> line_of(
                    text@,
                    standalone_reply(msg, final(self).msg_id)->0,
                )
            },
    {
        match parse(line) {
            Ok(msg) => Ok(self.process_message(&msg)),
            Err(e) => Err(e),
        }
    }
}

/// An echo holds what was sent, whatever it is.
pub proof fn law_echo_returns_what_was_sent(msg: MessageView)
    requires
        msg.msg_type == "echo"@,
    ensures
        echo_answer(msg) is Some,
        echo_answer(msg)->0.field("echo"@) == msg.body.field("echo"@),
        echo_answer(msg)->0.field("type"@) == JsonView::Text("echo_ok"@),
{
    reveal_strlit("type");
    reveal_strlit("echo");
    assert("type"@[0] != "echo"@[0]);
}

/// The answer to an echo is just an echo; nothing else is answered.
pub proof fn law_echo_answer_is_an_echo_alone(msg: MessageView)
    ensures
        msg.msg_type == "echo"@ ==> echo_answer(msg) == Some(
            JsonView::Object(
                map![
                    "type"@ => JsonView::Text("echo_ok"@),
                    "echo"@ => msg.body.field("echo"@)
                ],
            ),
        ),
        msg.msg_type != "echo"@ ==> echo_answer(msg) is None,
{
}

/// A node on its own answers an echo, and the message that names it, to the sender, in
/// the name that the message was sent to and under the number of the message; it
/// answers nothing else, and takes its name from `init` alone.
pub proof fn law_standalone_node_answers_the_sender(
    msg: JsonView,
    src: Seq<char>,
    dest: Seq<char>,
    msg_id: u64,
    name: Seq<char>,
)
    requires
        reads_as(msg.field("src"@), src),
        reads_as(msg.field("dest"@), dest),
    ensures
        ({
            let body = msg.field("body"@);
            let kind = body.field("type"@);
            let number = JsonView::Number(Numeral::Int(msg_id as int));
            let reply = standalone_reply(msg, msg_id);
            let framed = |answer: JsonView|
                JsonView::Object(
                    map![
                        "src"@ => JsonView::Text(dest),
                        "dest"@ => JsonView::Text(src),
                        "body"@ => answer
                    ],
                );
            &&& kind == JsonView::Text("init"@) ==> reply == Some(
                framed(
                    JsonView::Object(
                        map![
                            "type"@ => JsonView::Text("init_ok"@),
                            "in_reply_to"@ => body.field("msg_id"@),
                            "msg_id"@ => number
                        ],
                    ),
                ),
            )
            &&& kind == JsonView::Text("echo"@) ==> reply == Some(
                framed(
                    JsonView::Object(
                        map![
                            "type"@ => JsonView::Text("echo_ok"@),
                            "in_reply_to"@ => body.field("msg_id"@),
                            "msg_id"@ => number,
                            "echo"@ => body.field("echo"@)
                        ],
                    ),
                ),
            )
            &&& kind != JsonView::Text("init"@) && kind != JsonView::Text("echo"@)
                ==> reply is None
            &&& kind == JsonView::Text("init"@) ==> reads_as(
                body.field("node_id"@),
                standalone_name(name, body),
            )
            &&& kind != JsonView::Text("init"@) ==> standalone_name(name, body) == name
        }),
{
    reveal_strlit("init");
    reveal_strlit("echo");
    assert("init"@[0] != "echo"@[0]);
    lemma_reads_as(msg.field("src"@), src);
    lemma_reads_as(msg.field("dest"@), dest);
}

} // verus!
