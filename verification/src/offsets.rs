//! The requests on logs, and the logs and offsets that they name.
use vstd::prelude::*;
use crate::json::{lemma_object_view, number_json, object_view, Json, JsonView, Numeral};
use crate::node::{all_texts, holds_only_texts, Message, MessageView};
use crate::strmap::{key_index, lemma_sorted_listing, sorted_listing, sorted_texts};
use crate::text::{lemma_text_lt_irreflexive, same_text, text_lt};

verus! {

/// The name of a log.
pub type LogId = String;

/// The place of a message in its log.
pub type Offset = u64;

/// A message of a log as a poll gives it: its offset, and the message.
pub open spec fn entry_json(offset: Offset, value: JsonView) -> JsonView {
    JsonView::Array(seq![number_json(offset as int), value])
}

/// Whether a value maps logs to offsets: it is an object whose fields are
/// natural numbers.
pub open spec fn is_offsets(value: JsonView) -> bool {
    value is Object && forall|k: Seq<char>|
        value->Object_0.contains_key(k) ==> (#[trigger] value->Object_0[k]).as_u64() is Some
}

/// The logs of such a value with their offsets, in the order of their names.
pub open spec fn offsets_of(value: JsonView) -> Seq<(Seq<char>, Offset)> {
    sorted_listing(value->Object_0.dom()).map_values(
        |k: Seq<char>| (k, value->Object_0[k].as_u64()->0),
    )
}

/// What logs with offsets are.
pub open spec fn offset_views(offsets: Seq<(LogId, Offset)>) -> Seq<(Seq<char>, Offset)> {
    offsets.map_values(|e: (LogId, Offset)| (e.0@, e.1))
}

/// Reads logs with their offsets.
pub fn read_offsets(value: &Json) -> (r: Option<Vec<(LogId, Offset)>>)
    ensures
        r is Some <==> is_offsets(value@),
        r matches Some(offsets) ==> offset_views(offsets@) == offsets_of(value@),
{
    match value.as_object() {
        Some(o) => {
            proof {
                use_type_invariant(o);
                o.lemma_items();
                o.lemma_names();
                lemma_object_view(*o);
            }
            let mut r: Vec<(LogId, Offset)> = Vec::new();
            let mut i: usize = 0;
            while i < o.len()
                invariant
                    i <= o.items().len(),
                    value@ == JsonView::Object(object_view(*o)),
                    object_view(*o).dom() == o@.dom(),
                    forall|k: Seq<char>| #[trigger]
                        object_view(*o).contains_key(k) ==> object_view(*o)[k] == o@[k]@,
                    forall|j: int|
                        0 <= j < o.items().len() ==> o@.contains_key(#[trigger] o.items()[j].0@)
                            && o@[o.items()[j].0@] == o.items()[j].1,
                    r@.len() == i,
                    forall|j: int|
                        0 <= j < i ==> (#[trigger] r@[j]).0@ == o.items()[j].0@
                            && o.items()[j].1@.as_u64() == Some(r@[j].1),
                decreases o.items().len() - i,
            {
                match o.value_at(i).as_u64() {
                    Some(offset) => {
                        r.push((o.key_at(i).clone(), offset));
                    },
                    None => {
                        proof {
                            let k = o.items()[i as int].0@;
                            assert(object_view(*o).contains_key(k));
                            assert(value@->Object_0[k].as_u64() is None);
                        }
                        return None;
                    },
                }
                i = i + 1;
            }
            proof {
                assert forall|k: Seq<char>| object_view(*o).contains_key(k) implies (
                #[trigger] object_view(*o)[k]).as_u64() is Some by {
                    assert(o@.contains_key(k));
                    let j = key_index(o.items(), k);
                    assert(o.items()[j].1@.as_u64() == Some(r@[j].1));
                }
                assert forall|j: int| 0 <= j < r@.len() implies #[trigger] offset_views(r@)[j]
                    == offsets_of(value@)[j] by {
                    assert(o.names()[j] == r@[j].0@);
                    assert(o@.contains_key(o.items()[j].0@));
                    assert(object_view(*o).contains_key(o.items()[j].0@));
                }
                assert(o.names().len() == r@.len());
                assert(offset_views(r@) =~= offsets_of(value@));
            }
            Some(r)
        },
        None => None,
    }
}

/// A value that maps logs to offsets names each of its logs once.
pub proof fn law_each_log_is_named_once(value: JsonView)
    requires
        is_offsets(value),
        value->Object_0.dom().finite(),
    ensures
        forall|i: int, j: int|
            0 <= i < j < offsets_of(value).len() ==> (#[trigger] offsets_of(value)[i]).0 != (
            #[trigger] offsets_of(value)[j]).0,
        forall|k: Seq<char>|
            value->Object_0.contains_key(k) ==> #[trigger] offsets_of(value).contains(
                (k, value->Object_0[k].as_u64()->0),
            ),
{
    let names = sorted_listing(value->Object_0.dom());
    lemma_sorted_listing(value->Object_0.dom());
    assert forall|i: int, j: int| 0 <= i < j < offsets_of(value).len() implies (
    #[trigger] offsets_of(value)[i]).0 != (#[trigger] offsets_of(value)[j]).0 by {
        assert(text_lt(names[i], names[j]));
        lemma_text_lt_irreflexive(names[i]);
    }
    assert forall|k: Seq<char>| value->Object_0.contains_key(k) implies #[trigger] offsets_of(
        value,
    ).contains((k, value->Object_0[k].as_u64()->0)) by {
        assert(names.to_set().contains(k));
        assert(offsets_of(value)[names.index_of(k)] == (k, value->Object_0[k].as_u64()->0));
    }
}

/// Whether a message can be handled: it is of a known type, and its fields are
/// what that type asks for.
pub open spec fn can_handle(msg: MessageView) -> bool {
    ||| msg.msg_type == "send"@ && msg.body.field("key"@) is Text
    ||| msg.msg_type == "poll"@ && is_offsets(msg.body.field("offsets"@))
    ||| msg.msg_type == "commit_offsets"@ && is_offsets(msg.body.field("offsets"@))
    ||| msg.msg_type == "list_committed_offsets"@ && all_texts(msg.body.field("keys"@))
}

/// The types of messages are all different.
pub(crate) proof fn lemma_kinds()
    ensures
        "send"@ != "poll"@,
        "send"@ != "commit_offsets"@,
        "send"@ != "list_committed_offsets"@,
        "poll"@ != "commit_offsets"@,
        "poll"@ != "list_committed_offsets"@,
        "commit_offsets"@ != "list_committed_offsets"@,
{
    reveal_strlit("send");
    reveal_strlit("poll");
    reveal_strlit("commit_offsets");
    reveal_strlit("list_committed_offsets");
    assert("send"@[0] == 's');
    assert("poll"@[0] == 'p');
    assert("commit_offsets"@[0] == 'c');
    assert("list_committed_offsets"@[0] == 'l');
}

/// Whether a message can be handled.
pub fn accepts(msg: &Message) -> (r: bool)
    ensures
        r == can_handle(msg@),
{
    let kind = msg.msg_type.as_str();
    (same_text(kind, "send") && msg.body.field("key").as_text().is_some()) || ((same_text(
        kind,
        "poll",
    ) || same_text(kind, "commit_offsets")) && read_offsets(msg.body.field("offsets")).is_some())
        || (same_text(kind, "list_committed_offsets") && holds_only_texts(msg.body.field("keys")))
}

/// The offsets of logs are read as they stand in the object: each log with its offset,
/// in the order of the names of the logs, and nothing else.
pub proof fn law_offsets_are_read_as_they_stand(value: JsonView, log: Seq<char>, offset: Offset)
    requires
        value is Object,
        value->Object_0.dom().finite(),
    ensures
        is_offsets(value) <==> forall|k: Seq<char>|
            value->Object_0.contains_key(k) ==> is_offset(#[trigger] value->Object_0[k]),
        is_offsets(value) ==> (offsets_of(value).contains((log, offset)) <==> value.field(log)
            == JsonView::Number(Numeral::Int(offset as int))),
        is_offsets(value) ==> sorted_texts(
            offsets_of(value).map_values(|e: (Seq<char>, Offset)| e.0),
        ),
{
    let m = value->Object_0;
    assert forall|k: Seq<char>| m.contains_key(k) implies ((#[trigger] m[k]).as_u64() is Some
        <==> is_offset(m[k])) by {
        if let Some(o) = m[k].as_u64() {
            assert(m[k] == offset_json(o));
        }
        if is_offset(m[k]) {
            let o = choose|o: Offset| m[k] == #[trigger] offset_json(o);
            assert(offset_json(o).as_u64() == Some(o));
        }
    }
    if is_offsets(value) {
        assert forall|k: Seq<char>| m.contains_key(k) implies is_offset(#[trigger] m[k]) by {
            assert(m[k].as_u64() is Some);
        }
        law_each_log_is_named_once(value);
        lemma_sorted_listing(m.dom());
        let names = sorted_listing(m.dom());
        let offsets = offsets_of(value);
        if offsets.contains((log, offset)) {
            let i = offsets.index_of((log, offset));
            assert(names.to_set().contains(names[i]));
            assert(m.contains_key(log));
            assert(m[log].as_u64() is Some);
        }
        if value.field(log) == JsonView::Number(Numeral::Int(offset as int)) {
            assert(m[log].as_u64() == Some(offset));
            assert(offsets.contains((log, m[log].as_u64()->0)));
        }
        assert(offsets.map_values(|e: (Seq<char>, Offset)| e.0) =~= names);
    } else if forall|k: Seq<char>| m.contains_key(k) ==> is_offset(#[trigger] m[k]) {
        let k = choose|k: Seq<char>|
            m.contains_key(k) && !((#[trigger] m[k]).as_u64() is Some);
        assert(is_offset(m[k]));
    }
}

/// The JSON value of an offset.
pub open spec fn offset_json(offset: Offset) -> JsonView {
    JsonView::Number(Numeral::Int(offset as int))
}

/// Whether a value is an offset.
pub open spec fn is_offset(value: JsonView) -> bool {
    exists|offset: Offset| value == #[trigger] offset_json(offset)
}

/// A message of a log is given as its offset and itself, and no more.
pub proof fn law_entry_holds_offset_and_message(offset: Offset, value: JsonView)
    ensures
        entry_json(offset, value) == JsonView::Array(
            seq![JsonView::Number(Numeral::Int(offset as int)), value],
        ),
{
}

/// A request on logs can be handled if its type is one of four and it names its logs in
/// the way of that type, and no other message can.
pub proof fn law_which_requests_are_handled(msg: MessageView)
    ensures
        msg.msg_type == "send"@ ==> (can_handle(msg) <==> msg.body.field("key"@) is Text),
        msg.msg_type == "poll"@ || msg.msg_type == "commit_offsets"@ ==> (can_handle(msg)
            <==> is_offsets(msg.body.field("offsets"@))),
        msg.msg_type == "list_committed_offsets"@ ==> (can_handle(msg) <==> all_texts(
            msg.body.field("keys"@),
        )),
        is_offsets(msg.body.field("offsets"@)) ==> msg.body.field("offsets"@) is Object,
        can_handle(msg) ==> msg.msg_type == "send"@ || msg.msg_type == "poll"@ || msg.msg_type
            == "commit_offsets"@ || msg.msg_type == "list_committed_offsets"@,
{
    lemma_kinds();
}



/// Logs with offsets are seen as what they are: each with its name and its offset.
pub proof fn law_offsets_are_seen_as_they_are(offsets: Seq<(LogId, Offset)>, i: int)
    ensures
        offset_views(offsets).len() == offsets.len(),
        0 <= i < offsets.len() ==> offset_views(offsets)[i] == (offsets[i].0@, offsets[i].1),
{
}

} // verus!
