//! The log workload on one node: all is kept in memory.
use vstd::prelude::*;
use crate::json::{
    json_views, lemma_object_view, number_json, object_view, typed, Json, JsonView, Numeral,
};
use crate::node::{
    all_texts, collect_texts, law_list_of_strings_is_read_back, text_elements, texts, Message,
    MessageView,
};
use crate::offsets::{
    entry_json, is_offsets, law_each_log_is_named_once, law_offsets_are_read_as_they_stand,
    lemma_kinds, offset_views, offsets_of, read_offsets, LogId, Offset,
};
use crate::strmap::StrMap;
use crate::text::same_text;
use crate::wire::{line_of, parsed, render, rendered};

verus! {

/// What a log is: its messages, of which the first has the offset 1, and its
/// committed offset.
#[verifier::ext_equal]
pub struct LogView {
    pub messages: Seq<JsonView>,
    pub committed: Offset,
}

/// A log.
#[derive(Debug)]
pub struct LogHolder {
    pub log: Vec<Json>,
    pub commited_offset: Offset,
}

impl View for LogHolder {
    type V = LogView;

    open spec fn view(&self) -> LogView {
        LogView { messages: json_views(self.log@), committed: self.commited_offset }
    }
}

impl LogHolder {
    /// A log without messages.
    fn new() -> (r: LogHolder)
        ensures
            r@ == empty_log(),
    {
        let r = LogHolder { log: Vec::new(), commited_offset: 0 };
        assert(r@.messages =~= Seq::empty());
        r
    }

    /// The offset of the last message, 0 where there is none.
    pub fn last_offset(&self) -> (r: Offset)
        ensures
            r == self@.messages.len(),
    {
        self.log.len() as u64
    }
}

/// A log without messages.
pub open spec fn empty_log() -> LogView {
    LogView { messages: Seq::empty(), committed: 0 }
}

/// The logs of a node.
pub struct State {
    pub logs: StrMap<LogHolder>,
}

impl View for State {
    type V = Map<Seq<char>, LogView>;

    open spec fn view(&self) -> Map<Seq<char>, LogView> {
        self.logs@.map_values(|h: LogHolder| h@)
    }
}

/// A log, empty where there is none of the name.
pub open spec fn log_of(logs: Map<Seq<char>, LogView>, log: Seq<char>) -> LogView {
    if logs.contains_key(log) {
        logs[log]
    } else {
        empty_log()
    }
}

/// The logs once a message was appended to one of them.
pub open spec fn send_step(
    logs: Map<Seq<char>, LogView>,
    log: Seq<char>,
    value: JsonView,
) -> Map<Seq<char>, LogView> {
    let l = log_of(logs, log);
    logs.insert(log, LogView { messages: l.messages.push(value), ..l })
}

/// Appends the message of a request to its log, and gives its offset.
pub fn process_send(state: &mut State, msg: &Message) -> (r: Offset)
    requires
        msg@.body.field("key"@) is Text,
        log_of(old(state)@, msg@.body.field("key"@)->Text_0).messages.len() < u64::MAX,
    ensures
        ({
            let log = msg@.body.field("key"@)->Text_0;
            &&& r == log_of(old(state)@, log).messages.len() + 1
            &&& final(state)@ == send_step(old(state)@, log, msg@.body.field("msg"@))
        }),
{
    let log_id = msg.body.field("key").text_or_empty();
    let val = msg.body.field("msg");
    let ghost before = state@;
    let mut log_holder = match state.logs.remove(log_id.as_str()) {
        Some(log_holder) => log_holder,
        None => LogHolder::new(),
    };
    let ghost l = log_holder;
    assert(l@ == log_of(before, log_id@));
    let offset = log_holder.last_offset() + 1;
    log_holder.log.push(val.clone());
    assert(json_views(log_holder.log@) =~= l@.messages.push(val@));
    state.logs.insert(log_id, log_holder);
    assert(state@ =~= send_step(before, log_id@, val@));
    offset
}

/// The messages of a log from an offset on, each with its offset.
pub open spec fn entries_from(messages: Seq<JsonView>, offset: Offset) -> Seq<JsonView> {
    let skipped = if offset <= 1 {
        0
    } else if offset - 1 < messages.len() {
        offset - 1
    } else {
        messages.len() as int
    };
    Seq::new(
        (messages.len() - skipped) as nat,
        |i: int| entry_json((skipped + i + 1) as u64, messages[skipped + i]),
    )
}

/// What a poll gives: for each log the messages from its offset on.
pub open spec fn polled(
    logs: Map<Seq<char>, LogView>,
    offsets: Seq<(Seq<char>, Offset)>,
) -> Map<Seq<char>, JsonView>
    decreases offsets.len(),
{
    if offsets.len() == 0 {
        Map::empty()
    } else {
        let (log, offset) = offsets.last();
        polled(logs, offsets.drop_last()).insert(
            log,
            JsonView::Array(entries_from(log_of(logs, log).messages, offset)),
        )
    }
}

/// The messages of a log from an offset on.
fn collect_from(log: &Vec<Json>, offset: Offset) -> (r: Vec<Json>)
    ensures
        json_views(r@) == entries_from(json_views(log@), offset),
{
    let n = log.len();
    let skipped: usize = if offset <= 1 {
        0
    } else if offset - 1 < n as u64 {
        (offset - 1) as usize
    } else {
        n
    };
    let ghost all = entries_from(json_views(log@), offset);
    let mut r: Vec<Json> = Vec::new();
    let mut i: usize = skipped;
    assert(json_views(r@) =~= all.take(0));
    while i < n
        invariant
            skipped <= i <= n,
            n == log@.len(),
            skipped == (if offset <= 1 {
                0
            } else if offset - 1 < n {
                offset - 1
            } else {
                n as int
            }),
            all == entries_from(json_views(log@), offset),
            json_views(r@) == all.take(i - skipped),
        decreases n - i,
    {
        let mut entry: Vec<Json> = Vec::new();
        entry.push(Json::number((i + 1) as u64));
        entry.push(log[i].clone());
        let ghost done = r@;
        assert(json_views(entry@) =~= entry_json((i + 1) as u64, log@[i as int]@)->Array_0);
        r.push(Json::Array(entry));
        assert(all[i - skipped] == entry_json((i + 1) as u64, log@[i as int]@));
        assert(json_views(r@) =~= json_views(done).push(all[i - skipped]));
        assert(json_views(r@) =~= all.take(i + 1 - skipped));
        i = i + 1;
    }
    assert(all.take(n - skipped) =~= all);
    r
}

/// Gives of each log that a request names the messages from its offset on.
pub fn process_poll(state: &State, msg: &Message) -> (r: Json)
    requires
        is_offsets(msg@.body.field("offsets"@)),
    ensures
        r@ == JsonView::Object(polled(state@, offsets_of(msg@.body.field("offsets"@)))),
{
    let mut res: StrMap<Json> = StrMap::new();
    proof {
        lemma_object_view(res);
    }
    if let Some(offsets) = read_offsets(msg.body.field("offsets")) {
        let ghost all = offset_views(offsets@);
        let mut i: usize = 0;
        assert(object_view(res) =~= polled(state@, all.take(0)));
        while i < offsets.len()
            invariant
                i <= offsets@.len(),
                all == offset_views(offsets@),
                object_view(res) == polled(state@, all.take(i as int)),
            decreases offsets@.len() - i,
        {
            let log_name = &offsets[i].0;
            let offset = offsets[i].1;
            let msgs: Vec<Json> = match state.logs.get(log_name.as_str()) {
                Some(log_holder) => collect_from(&log_holder.log, offset),
                None => Vec::new(),
            };
            let ghost before = res;
            proof {
                assert(json_views(msgs@) =~= entries_from(
                    log_of(state@, log_name@).messages,
                    offset,
                ));
                assert(all.take(i + 1).drop_last() =~= all.take(i as int));
                assert(all.take(i + 1).last() == (log_name@, offset));
            }
            res.insert(log_name.clone(), Json::Array(msgs));
            proof {
                lemma_object_view(before);
                lemma_object_view(res);
                assert(object_view(res) =~= polled(state@, all.take(i + 1)));
            }
            i = i + 1;
        }
        assert(all.take(i as int) =~= all);
    }
    Json::Object(res)
}

/// The offset that is given for a log, where one is.
pub open spec fn offset_for(offsets: Seq<(Seq<char>, Offset)>, log: Seq<char>) -> Option<Offset>
    decreases offsets.len(),
{
    if offsets.len() == 0 {
        None
    } else if offsets.last().0 == log {
        Some(offsets.last().1)
    } else {
        offset_for(offsets.drop_last(), log)
    }
}

/// Whether no offset lies behind the end of its log.
pub open spec fn can_commit(
    logs: Map<Seq<char>, LogView>,
    offsets: Seq<(Seq<char>, Offset)>,
) -> bool {
    forall|i: int|
        0 <= i < offsets.len() && logs.contains_key((#[trigger] offsets[i]).0) ==> offsets[i].1
            <= logs[offsets[i].0].messages.len()
}

/// The logs once offsets were committed; those of unknown logs are ignored.
pub open spec fn commit_step(
    logs: Map<Seq<char>, LogView>,
    offsets: Seq<(Seq<char>, Offset)>,
) -> Map<Seq<char>, LogView> {
    Map::new(
        |log: Seq<char>| logs.contains_key(log),
        |log: Seq<char>|
            match offset_for(offsets, log) {
                Some(offset) => LogView { committed: offset, ..logs[log] },
                None => logs[log],
            },
    )
}

/// Commits the offsets of a request.
pub fn process_commited_offsets(state: &mut State, msg: &Message)
    requires
        is_offsets(msg@.body.field("offsets"@)),
        can_commit(old(state)@, offsets_of(msg@.body.field("offsets"@))),
    ensures
        final(state)@ == commit_step(old(state)@, offsets_of(msg@.body.field("offsets"@))),
{
    if let Some(offsets) = read_offsets(msg.body.field("offsets")) {
        let ghost all = offset_views(offsets@);
        let ghost before = state@;
        let mut i: usize = 0;
        assert(state@ =~= commit_step(before, all.take(0)));
        while i < offsets.len()
            invariant
                i <= offsets@.len(),
                all == offset_views(offsets@),
                state@ == commit_step(before, all.take(i as int)),
            decreases offsets@.len() - i,
        {
            let log_name = offsets[i].0.as_str();
            let ghost current = state@;
            proof {
                assert(all.take(i + 1).drop_last() =~= all.take(i as int));
                assert(all.take(i + 1).last() == (log_name@, offsets@[i as int].1));
            }
            match state.logs.remove(log_name) {
                Some(mut log_holder) => {
                    log_holder.commited_offset = offsets[i].1;
                    state.logs.insert(offsets[i].0.clone(), log_holder);
                    assert(state@ =~= current.insert(
                        log_name@,
                        LogView { committed: offsets@[i as int].1, ..current[log_name@] },
                    ));
                },
                None => {
                    assert(state@ =~= current);
                },
            }
            assert(state@ =~= commit_step(before, all.take(i + 1)));
            i = i + 1;
        }
        assert(all.take(i as int) =~= all);
    }
}

/// What a listing gives: for each log its committed offset, under the JSON text of
/// its name.
pub open spec fn listed(
    logs: Map<Seq<char>, LogView>,
    keys: Seq<Seq<char>>,
) -> Map<Seq<char>, JsonView>
    decreases keys.len(),
{
    if keys.len() == 0 {
        Map::empty()
    } else {
        listed(logs, keys.drop_last()).insert(
            rendered(JsonView::Text(keys.last())),
            number_json(log_of(logs, keys.last()).committed as int),
        )
    }
}

/// Gives the committed offset of each log that a request names, 0 for a log that
/// is not known. An offset stands under the JSON text of the name of its log, and
/// no two logs have the same.
pub fn process_list_commited_offsets(state: &State, msg: &Message) -> (r: Json)
    requires
        all_texts(msg@.body.field("keys"@)),
    ensures
        r@ == JsonView::Object(listed(state@, text_elements(msg@.body.field("keys"@)))),
        forall|i: int|
            0 <= i < text_elements(msg@.body.field("keys"@)).len() ==> r@.field(
                rendered(JsonView::Text(#[trigger] text_elements(msg@.body.field("keys"@))[i])),
            ) == number_json(
                log_of(state@, text_elements(msg@.body.field("keys"@))[i]).committed as int,
            ),
{
    let keys = collect_texts(msg.body.field("keys"));
    let ghost all = texts(keys@);
    let mut res: StrMap<Json> = StrMap::new();
    let mut i: usize = 0;
    proof {
        lemma_object_view(res);
        assert(object_view(res) =~= listed(state@, all.take(0)));
    }
    while i < keys.len()
        invariant
            i <= keys@.len(),
            all == texts(keys@),
            object_view(res) == listed(state@, all.take(i as int)),
            forall|j: int|
                0 <= j < i ==> line_of(
                    rendered(JsonView::Text(#[trigger] all[j])),
                    JsonView::Text(all[j]),
                ),
            forall|j: int|
                0 <= j < i ==> object_view(res).contains_key(
                    rendered(JsonView::Text(#[trigger] all[j])),
                ) && object_view(res)[rendered(JsonView::Text(all[j]))] == number_json(
                    log_of(state@, all[j]).committed as int,
                ),
        decreases keys@.len() - i,
    {
        let offset = match state.logs.get(keys[i].as_str()) {
            Some(log_holder) => log_holder.commited_offset,
            None => 0,
        };
        let name = render(&Json::text(keys[i].as_str()));
        let ghost before = res;
        proof {
            assert(all.take(i + 1).drop_last() =~= all.take(i as int));
            assert(all.take(i + 1).last() == all[i as int]);
        }
        res.insert(name, Json::number(offset));
        proof {
            lemma_object_view(before);
            lemma_object_view(res);
            assert(object_view(res) =~= listed(state@, all.take(i + 1)));
            assert forall|j: int| 0 <= j < i + 1 implies object_view(res).contains_key(
                rendered(JsonView::Text(#[trigger] all[j])),
            ) && object_view(res)[rendered(JsonView::Text(all[j]))] == number_json(
                log_of(state@, all[j]).committed as int,
            ) by {
                if j < i && rendered(JsonView::Text(all[j])) == name@ {
                    assert(line_of(name@, JsonView::Text(all[j])));
                    assert(JsonView::Text(all[j]) == JsonView::Text(all[i as int]));
                }
            }
        }
        i = i + 1;
    }
    assert(all.take(i as int) =~= all);
    Json::Object(res)
}

/// Whether a message can be handled: it is a proper request, there is an offset
/// for a message to be sent, and none is committed behind the end of its log.
pub open spec fn can_handle(logs: Map<Seq<char>, LogView>, msg: MessageView) -> bool {
    &&& crate::offsets::can_handle(msg)
    &&& msg.msg_type == "send"@ ==> log_of(
        logs,
        msg.body.field("key"@).text_or_empty(),
    ).messages.len() < u64::MAX
    &&& msg.msg_type == "commit_offsets"@ ==> can_commit(
        logs,
        offsets_of(msg.body.field("offsets"@)),
    )
}

/// What a node does about a message: its new logs, and the answer.
pub open spec fn handle_step(logs: Map<Seq<char>, LogView>, msg: MessageView) -> (
    Map<Seq<char>, LogView>,
    JsonView,
) {
    if msg.msg_type == "send"@ {
        let log = msg.body.field("key"@).text_or_empty();
        (
            send_step(logs, log, msg.body.field("msg"@)),
            typed("send_ok"@).with(
                "offset"@,
                number_json(log_of(logs, log).messages.len() as int + 1),
            ),
        )
    } else if msg.msg_type == "poll"@ {
        (
            logs,
            typed("poll_ok"@).with(
                "msgs"@,
                JsonView::Object(polled(logs, offsets_of(msg.body.field("offsets"@)))),
            ),
        )
    } else if msg.msg_type == "commit_offsets"@ {
        (
            commit_step(logs, offsets_of(msg.body.field("offsets"@))),
            typed("commit_offsets_ok"@),
        )
    } else {
        (
            logs,
            typed("list_committed_offsets_ok"@).with(
                "offsets"@,
                JsonView::Object(listed(logs, text_elements(msg.body.field("keys"@)))),
            ),
        )
    }
}

impl State {
    /// Makes a state without logs.
    pub fn new() -> (r: State)
        ensures
            r@ == Map::<Seq<char>, LogView>::empty(),
    {
        let r = State { logs: StrMap::new() };
        assert(r@ =~= Map::empty());
        r
    }

    /// Whether no offset lies behind the end of its log.
    fn may_commit(&self, offsets: &Vec<(LogId, Offset)>) -> (r: bool)
        ensures
            r == can_commit(self@, offset_views(offsets@)),
    {
        let ghost all = offset_views(offsets@);
        let mut i: usize = 0;
        while i < offsets.len()
            invariant
                i <= offsets@.len(),
                all == offset_views(offsets@),
                can_commit(self@, all.take(i as int)),
            decreases offsets@.len() - i,
        {
            assert(all[i as int] == (offsets@[i as int].0@, offsets@[i as int].1));
            match self.logs.get(offsets[i].0.as_str()) {
                Some(log_holder) => {
                    if offsets[i].1 > log_holder.last_offset() {
                        assert(!can_commit(self@, all)) by {
                            assert(self@.contains_key(all[i as int].0));
                        }
                        return false;
                    }
                },
                None => {},
            }
            assert(can_commit(self@, all.take(i + 1))) by {
                assert forall|j: int| 0 <= j < i + 1 && self@.contains_key(
                    (#[trigger] all.take(i + 1)[j]).0,
                ) implies all.take(i + 1)[j].1 <= self@[all.take(i + 1)[j].0].messages.len() by {
                    if j < i {
                        assert(all.take(i as int)[j] == all.take(i + 1)[j]);
                    }
                }
            }
            i = i + 1;
        }
        assert(all.take(i as int) =~= all);
        true
    }

    /// Whether a message can be handled.
    pub fn accepts(&self, msg: &Message) -> (r: bool)
        ensures
            r == can_handle(self@, msg@),
    {
        proof {
            lemma_kinds();
        }
        if !crate::offsets::accepts(msg) {
            return false;
        }
        let kind = msg.msg_type.as_str();
        if same_text(kind, "send") {
            let log_id = msg.body.field("key").text_or_empty();
            match self.logs.get(log_id.as_str()) {
                Some(log_holder) => log_holder.last_offset() < u64::MAX,
                None => true,
            }
        } else if same_text(kind, "commit_offsets") {
            match read_offsets(msg.body.field("offsets")) {
                Some(offsets) => self.may_commit(&offsets),
                None => false,
            }
        } else {
            true
        }
    }

    /// Handles a message.
    pub fn handle(&mut self, msg: &Message) -> (r: Json)
        requires
            can_handle(old(self)@, msg@),
        ensures
            (final(self)@, r@) == handle_step(old(self)@, msg@),
    {
        proof {
            lemma_kinds();
        }
        let kind = msg.msg_type.as_str();
        if same_text(kind, "send") {
            let offset = process_send(self, msg);
            Json::typed("send_ok").with("offset", Json::number(offset))
        } else if same_text(kind, "poll") {
            let msgs = process_poll(self, msg);
            Json::typed("poll_ok").with("msgs", msgs)
        } else if same_text(kind, "commit_offsets") {
            process_commited_offsets(self, msg);
            Json::typed("commit_offsets_ok")
        } else {
            let offsets = process_list_commited_offsets(self, msg);
            Json::typed("list_committed_offsets_ok").with("offsets", offsets)
        }
    }
}

/// A message that is sent gets an offset above all others of its log, and is
/// polled back under it: from that offset on there is this message alone, and from
/// a smaller one on it comes last.
pub proof fn law_sent_message_is_polled(
    logs: Map<Seq<char>, LogView>,
    log: Seq<char>,
    value: JsonView,
    from: Offset,
)
    requires
        log_of(logs, log).messages.len() < u64::MAX,
        from <= log_of(logs, log).messages.len() + 1,
    ensures
        ({
            let offset = (log_of(logs, log).messages.len() + 1) as u64;
            let messages = log_of(send_step(logs, log, value), log).messages;
            &&& entries_from(messages, offset) == seq![entry_json(offset, value)]
            &&& entries_from(messages, from).last() == entry_json(offset, value)
        }),
{
    let offset = (log_of(logs, log).messages.len() + 1) as u64;
    let messages = log_of(send_step(logs, log, value), log).messages;
    assert(entries_from(messages, offset) =~= seq![entry_json(offset, value)]);
}

/// A poll gives the messages from an offset on in the order of their offsets and
/// without a gap, up to the end of the log.
pub proof fn law_poll_gives_consecutive_messages(
    messages: Seq<JsonView>,
    from: Offset,
    offset: Offset,
)
    requires
        messages.len() <= u64::MAX,
        1 <= offset <= messages.len(),
        from <= offset,
    ensures
        ({
            let first = if from == 0 {
                1
            } else {
                from
            };
            entries_from(messages, from)[offset - first] == entry_json(
                offset,
                messages[offset - 1],
            ) && entries_from(messages, from).len() == messages.len() - first + 1
        }),
{
}

/// A poll gives of each log that it names the messages from the offset on, and
/// nothing of other logs.
pub proof fn law_poll_gives_each_log(
    logs: Map<Seq<char>, LogView>,
    offsets: Seq<(Seq<char>, Offset)>,
    i: int,
)
    requires
        0 <= i < offsets.len(),
        forall|i: int, j: int|
            0 <= i < j < offsets.len() ==> (#[trigger] offsets[i]).0 != (#[trigger] offsets[j]).0,
    ensures
        polled(logs, offsets).contains_key(offsets[i].0),
        polled(logs, offsets)[offsets[i].0] == JsonView::Array(
            entries_from(log_of(logs, offsets[i].0).messages, offsets[i].1),
        ),
        forall|log: Seq<char>| #[trigger]
            polled(logs, offsets).contains_key(log) ==> exists|j: int|
                0 <= j < offsets.len() && (#[trigger] offsets[j]).0 == log,
    decreases offsets.len(),
{
    lemma_polled_logs(logs, offsets);
    if i < offsets.len() - 1 {
        law_poll_gives_each_log(logs, offsets.drop_last(), i);
        assert(offsets.drop_last()[i] == offsets[i]);
        assert(offsets[i].0 != offsets[offsets.len() - 1].0);
    }
}

proof fn lemma_polled_logs(logs: Map<Seq<char>, LogView>, offsets: Seq<(Seq<char>, Offset)>)
    ensures
        forall|log: Seq<char>| #[trigger]
            polled(logs, offsets).contains_key(log) ==> exists|j: int|
                0 <= j < offsets.len() && (#[trigger] offsets[j]).0 == log,
    decreases offsets.len(),
{
    if offsets.len() > 0 {
        let rest = offsets.drop_last();
        lemma_polled_logs(logs, rest);
        assert forall|log: Seq<char>| #[trigger]
            polled(logs, offsets).contains_key(log) implies exists|j: int|
            0 <= j < offsets.len() && (#[trigger] offsets[j]).0 == log by {
            if offsets.last().0 == log {
                assert(offsets[offsets.len() - 1].0 == log);
            } else {
                assert(polled(logs, rest).contains_key(log));
                let j = choose|j: int| 0 <= j < rest.len() && (#[trigger] rest[j]).0 == log;
                assert(offsets[j].0 == log);
            }
        }
    }
}

/// Whatever message is handled, no message of a log is lost or changed, and the
/// committed offset of no log lies behind its end.
pub proof fn law_logs_only_grow(
    logs: Map<Seq<char>, LogView>,
    msg: MessageView,
    log: Seq<char>,
)
    requires
        can_handle(logs, msg),
        log_of(logs, log).committed <= log_of(logs, log).messages.len(),
    ensures
        ({
            let before = log_of(logs, log);
            let after = log_of(handle_step(logs, msg).0, log);
            &&& before.messages.len() <= after.messages.len()
            &&& after.messages.take(before.messages.len() as int) == before.messages
            &&& after.committed <= after.messages.len()
        }),
{
    let before = log_of(logs, log);
    let after = log_of(handle_step(logs, msg).0, log);
    assert(after.messages.take(before.messages.len() as int) =~= before.messages);
    if msg.msg_type == "commit_offsets"@ {
        lemma_kinds();
        lemma_offset_for(offsets_of(msg.body.field("offsets"@)), log);
    }
}

/// An offset that is committed for a known log is the one that is listed for it.
pub proof fn law_committed_offset_is_listed(
    logs: Map<Seq<char>, LogView>,
    offsets: Seq<(Seq<char>, Offset)>,
    i: int,
)
    requires
        0 <= i < offsets.len(),
        logs.contains_key(offsets[i].0),
        forall|i: int, j: int|
            0 <= i < j < offsets.len() ==> (#[trigger] offsets[i]).0 != (#[trigger] offsets[j]).0,
    ensures
        listed(commit_step(logs, offsets), seq![offsets[i].0])
            == map![rendered(JsonView::Text(offsets[i].0)) => number_json(offsets[i].1 as int)],
{
    let log = offsets[i].0;
    lemma_offset_for(offsets, log);
    assert(offset_for(offsets, log) == Some(offsets[i].1));
    let keys = seq![log];
    let after = commit_step(logs, offsets);
    assert(keys.drop_last() =~= Seq::empty());
    assert(listed(after, keys.drop_last()) =~= Map::empty());
    assert(listed(after, keys)
        =~= map![rendered(JsonView::Text(log)) => number_json(offsets[i].1 as int)]);
}

/// The offset that is given for a log is one of those given with its name.
proof fn lemma_offset_for(offsets: Seq<(Seq<char>, Offset)>, log: Seq<char>)
    ensures
        match offset_for(offsets, log) {
            Some(offset) => offsets.contains((log, offset)),
            None => forall|i: int| 0 <= i < offsets.len() ==> (#[trigger] offsets[i]).0 != log,
        },
    decreases offsets.len(),
{
    if offsets.len() > 0 {
        let rest = offsets.drop_last();
        lemma_offset_for(rest, log);
        if offsets.last().0 == log {
            assert(offsets[offsets.len() - 1] == (log, offsets.last().1));
        } else {
            match offset_for(rest, log) {
                Some(offset) => {
                    assert(offsets[rest.index_of((log, offset))] == (log, offset));
                },
                None => {
                    assert forall|i: int| 0 <= i < offsets.len() implies (
                    #[trigger] offsets[i]).0 != log by {
                        if i < rest.len() {
                            assert(rest[i].0 != log);
                        }
                    }
                },
            }
        }
    }
}

/// Sending a message appends it to its log and gives it the next offset, counted from 1.
/// No committed offset changes, and no other log.
pub proof fn law_send_changes_its_log_alone(
    logs: Map<Seq<char>, LogView>,
    msg: MessageView,
    log: Seq<char>,
    other: Seq<char>,
)
    requires
        msg.msg_type == "send"@,
        msg.body.field("key"@) == JsonView::Text(log),
    ensures
        ({
            let (after, answer) = handle_step(logs, msg);
            let before = if logs.contains_key(log) {
                logs[log].messages
            } else {
                Seq::empty()
            };
            &&& after.contains_key(log)
            &&& after[log].messages == before + seq![msg.body.field("msg"@)]
            &&& after[log].committed == (if logs.contains_key(log) {
                logs[log].committed
            } else {
                0
            })
            &&& other != log ==> after.contains_key(other) == logs.contains_key(other) && (
            logs.contains_key(other) ==> after[other] == logs[other])
            &&& answer == JsonView::Object(
                map![
                    "type"@ => JsonView::Text("send_ok"@),
                    "offset"@ => JsonView::Number(Numeral::Int(before.len() as int + 1))
                ],
            )
        }),
{
    let before = log_of(logs, log).messages;
    assert(before + seq![msg.body.field("msg"@)] =~= before.push(msg.body.field("msg"@)));
}

/// Committing sets the committed offset of each known log that is named to the offset
/// named for it. It changes no other log and no message, and makes no log.
pub proof fn law_commit_sets_the_offsets_named(
    logs: Map<Seq<char>, LogView>,
    msg: MessageView,
    log: Seq<char>,
    offset: Offset,
)
    requires
        msg.msg_type == "commit_offsets"@,
        is_offsets(msg.body.field("offsets"@)),
        msg.body.field("offsets"@)->Object_0.dom().finite(),
    ensures
        ({
            let (after, answer) = handle_step(logs, msg);
            let named = msg.body.field("offsets"@).field(log);
            &&& answer == JsonView::Object(
                map!["type"@ => JsonView::Text("commit_offsets_ok"@)],
            )
            &&& after.contains_key(log) == logs.contains_key(log)
            &&& logs.contains_key(log) ==> after[log].messages == logs[log].messages
            &&& logs.contains_key(log) && named == JsonView::Number(Numeral::Int(offset as int))
                ==> after[log].committed == offset
            &&& logs.contains_key(log) && named == JsonView::Null ==> after[log].committed
                == logs[log].committed
        }),
{
    lemma_kinds();
    let value = msg.body.field("offsets"@);
    let offsets = offsets_of(value);
    lemma_offset_for(offsets, log);
    law_each_log_is_named_once(value);
    if let Some(o) = offset_for(offsets, log) {
        law_offsets_are_read_as_they_stand(value, log, o);
        assert(number_json(o as int) != JsonView::Null);
    }
    law_offsets_are_read_as_they_stand(value, log, offset);
    if value.field(log) == JsonView::Number(Numeral::Int(offset as int)) {
        assert(offsets.contains((log, offset)));
        let i = offsets.index_of((log, offset));
        assert(offsets[i].0 == log);
        let o = offset_for(offsets, log)->0;
        assert(offsets.contains((log, o)));
    }
}

/// A poll changes nothing, and gives of each log that it names, and of no other, its
/// messages from the offset named on: each with its offset, up to the end of the log.
pub proof fn law_poll_gives_what_is_there(
    logs: Map<Seq<char>, LogView>,
    msg: MessageView,
    log: Seq<char>,
    from: Offset,
    k: int,
)
    requires
        msg.msg_type == "poll"@,
        is_offsets(msg.body.field("offsets"@)),
        msg.body.field("offsets"@)->Object_0.dom().finite(),
    ensures
        ({
            let (after, answer) = handle_step(logs, msg);
            let given = answer.field("msgs"@);
            let named = msg.body.field("offsets"@);
            let messages = if logs.contains_key(log) {
                logs[log].messages
            } else {
                Seq::empty()
            };
            let first = if from == 0 {
                1
            } else {
                from as int
            };
            let entries = given.field(log)->Array_0;
            &&& after == logs
            &&& answer == JsonView::Object(
                map!["type"@ => JsonView::Text("poll_ok"@), "msgs"@ => given],
            )
            &&& given is Object
            &&& given->Object_0.dom() == named->Object_0.dom()
            &&& named.field(log) == JsonView::Number(Numeral::Int(from as int)) ==> {
                &&& given.field(log) is Array
                &&& entries.len() == (if first <= messages.len() {
                    messages.len() - first + 1
                } else {
                    0
                })
                &&& 0 <= k < entries.len() && messages.len() <= u64::MAX ==> entries[k]
                    == JsonView::Array(
                    seq![
                        JsonView::Number(Numeral::Int(first + k)),
                        messages[first + k - 1],
                    ],
                )
            }
        }),
{
    lemma_kinds();
    reveal_strlit("type");
    reveal_strlit("msgs");
    assert("type"@[0] != "msgs"@[0]);
    let value = msg.body.field("offsets"@);
    let offsets = offsets_of(value);
    let found = polled(logs, offsets);
    law_each_log_is_named_once(value);
    assert forall|name: Seq<char>| #[trigger] found.contains_key(name) <==> value->Object_0.contains_key(
        name,
    ) by {
        lemma_polled_logs(logs, offsets);
        if found.contains_key(name) {
            let j = choose|j: int| 0 <= j < offsets.len() && (#[trigger] offsets[j]).0 == name;
            assert(offsets.contains((name, offsets[j].1)));
            law_offsets_are_read_as_they_stand(value, name, offsets[j].1);
        }
        if value->Object_0.contains_key(name) {
            let o = value->Object_0[name].as_u64()->0;
            assert(offsets.contains((name, o)));
            law_poll_gives_each_log(logs, offsets, offsets.index_of((name, o)));
        }
    }
    assert(found.dom() =~= value->Object_0.dom());
    law_offsets_are_read_as_they_stand(value, log, from);
    if value.field(log) == JsonView::Number(Numeral::Int(from as int)) {
        law_poll_gives_each_log(logs, offsets, offsets.index_of((log, from)));
        let messages = log_of(logs, log).messages;
        let first = if from == 0 {
            1
        } else {
            from as int
        };
        let entries = entries_from(messages, from);
        if 0 <= k < entries.len() && messages.len() <= u64::MAX {
            law_poll_gives_consecutive_messages(messages, from, (first + k) as u64);
        }
    }
}

/// A listing changes nothing, and gives for each log that it names the committed offset,
/// 0 where the log is not known, and nothing else; under the JSON text of its name, by
/// which names are told apart.
pub proof fn law_listing_gives_what_was_committed(
    logs: Map<Seq<char>, LogView>,
    msg: MessageView,
    keys: Seq<Seq<char>>,
    i: int,
)
    requires
        msg.msg_type == "list_committed_offsets"@,
        msg.body.field("keys"@) == JsonView::Array(
            keys.map_values(|t: Seq<char>| JsonView::Text(t)),
        ),
        forall|j: int|
            0 <= j < keys.len() ==> parsed(rendered(JsonView::Text(#[trigger] keys[j]))) == Some(
                JsonView::Text(keys[j]),
            ),
    ensures
        ({
            let (after, answer) = handle_step(logs, msg);
            let given = answer.field("offsets"@);
            &&& after == logs
            &&& answer == JsonView::Object(
                map![
                    "type"@ => JsonView::Text("list_committed_offsets_ok"@),
                    "offsets"@ => given
                ],
            )
            &&& given is Object
            &&& 0 <= i < keys.len() ==> given.field(rendered(JsonView::Text(keys[i])))
                == JsonView::Number(
                Numeral::Int(
                    if logs.contains_key(keys[i]) {
                        logs[keys[i]].committed as int
                    } else {
                        0
                    },
                ),
            )
            &&& forall|name: Seq<char>| #[trigger]
                given->Object_0.contains_key(name) ==> exists|j: int|
                    0 <= j < keys.len() && name == rendered(JsonView::Text(#[trigger] keys[j]))
        }),
{
    lemma_kinds();
    reveal_strlit("type");
    reveal_strlit("offsets");
    assert("type"@.len() != "offsets"@.len());
    law_list_of_strings_is_read_back(keys, JsonView::Null);
    lemma_listed(logs, keys);
    if 0 <= i < keys.len() {
        assert(listed(logs, keys).contains_key(rendered(JsonView::Text(keys[i]))));
    }
}

proof fn lemma_listed(logs: Map<Seq<char>, LogView>, keys: Seq<Seq<char>>)
    requires
        forall|j: int|
            0 <= j < keys.len() ==> parsed(rendered(JsonView::Text(#[trigger] keys[j]))) == Some(
                JsonView::Text(keys[j]),
            ),
    ensures
        forall|j: int|
            0 <= j < keys.len() ==> listed(logs, keys).contains_key(
                rendered(JsonView::Text(#[trigger] keys[j])),
            ) && listed(logs, keys)[rendered(JsonView::Text(keys[j]))] == number_json(
                log_of(logs, keys[j]).committed as int,
            ),
        forall|name: Seq<char>| #[trigger]
            listed(logs, keys).contains_key(name) ==> exists|j: int|
                0 <= j < keys.len() && name == rendered(JsonView::Text(#[trigger] keys[j])),
    decreases keys.len(),
{
    if keys.len() > 0 {
        let rest = keys.drop_last();
        let last = rendered(JsonView::Text(keys.last()));
        assert(forall|j: int| 0 <= j < rest.len() ==> #[trigger] rest[j] == keys[j]);
        lemma_listed(logs, rest);
        assert forall|j: int| 0 <= j < keys.len() implies listed(logs, keys).contains_key(
            rendered(JsonView::Text(#[trigger] keys[j])),
        ) && listed(logs, keys)[rendered(JsonView::Text(keys[j]))] == number_json(
            log_of(logs, keys[j]).committed as int,
        ) by {
            if j < rest.len() {
                assert(rest[j] == keys[j]);
                if rendered(JsonView::Text(keys[j])) == last {
                    assert(parsed(last) == Some(JsonView::Text(keys[keys.len() - 1])));
                    assert(JsonView::Text(keys[j]) == JsonView::Text(keys.last()));
                }
            }
        }
        assert forall|name: Seq<char>| #[trigger] listed(logs, keys).contains_key(
            name,
        ) implies exists|j: int|
            0 <= j < keys.len() && name == rendered(JsonView::Text(#[trigger] keys[j])) by {
            if name == last {
                assert(name == rendered(JsonView::Text(keys[keys.len() - 1])));
            } else {
                assert(listed(logs, rest).contains_key(name));
                let j = choose|j: int|
                    0 <= j < rest.len() && name == rendered(JsonView::Text(#[trigger] rest[j]));
                assert(name == rendered(JsonView::Text(keys[j])));
            }
        }
    }
}

/// Requests can be handled where they are proper, but for a commit behind the end of a
/// known log, and a message for which there is no offset.
pub proof fn law_which_requests_are_handled(logs: Map<Seq<char>, LogView>, msg: MessageView)
    requires
        msg.body.field("offsets"@) is Object ==> msg.body.field(
            "offsets"@,
        )->Object_0.dom().finite(),
    ensures
        msg.msg_type == "poll"@ || msg.msg_type == "list_committed_offsets"@ ==> (can_handle(
            logs,
            msg,
        ) <==> crate::offsets::can_handle(msg)),
        msg.msg_type == "send"@ ==> (can_handle(logs, msg) <==> msg.body.field("key"@) is Text && (
        logs.contains_key(msg.body.field("key"@)->Text_0)
            ==> logs[msg.body.field("key"@)->Text_0].messages.len() < u64::MAX)),
        msg.msg_type == "commit_offsets"@ && is_offsets(msg.body.field("offsets"@)) ==> (can_handle(
            logs,
            msg,
        ) <==> forall|log: Seq<char>, offset: Offset|
            logs.contains_key(log) && #[trigger] offsets_of(msg.body.field("offsets"@)).contains(
                (log, offset),
            ) ==> offset <= logs[log].messages.len()),
{
    lemma_kinds();
    let value = msg.body.field("offsets"@);
    if msg.msg_type == "commit_offsets"@ && is_offsets(value) {
        let offsets = offsets_of(value);
        if can_commit(logs, offsets) {
            assert forall|log: Seq<char>, offset: Offset|
                logs.contains_key(log) && #[trigger] offsets.contains((log, offset)) implies offset
                <= logs[log].messages.len() by {
                let i = offsets.index_of((log, offset));
                assert(offsets[i] == (log, offset));
            }
        }
        if forall|log: Seq<char>, offset: Offset|
            logs.contains_key(log) && #[trigger] offsets.contains((log, offset)) ==> offset
                <= logs[log].messages.len() {
            assert forall|i: int|
                0 <= i < offsets.len() && logs.contains_key(
                    (#[trigger] offsets[i]).0,
                ) implies offsets[i].1 <= logs[offsets[i].0].messages.len() by {
                assert(offsets.contains((offsets[i].0, offsets[i].1)));
            }
        }
    }
}



/// Logs are seen as what they are: each with its messages and its committed offset.
pub proof fn law_logs_are_seen_as_they_are(state: State, log: Seq<char>, i: int)
    ensures
        state@.dom() == state.logs@.dom(),
        state.logs@.contains_key(log) ==> {
            let holder = state.logs@[log];
            &&& state@[log].committed == holder.commited_offset
            &&& state@[log].messages.len() == holder.log@.len()
            &&& 0 <= i < holder.log@.len() ==> state@[log].messages[i] == holder.log@[i]@
        },
{
    assert(state@.dom() =~= state.logs@.dom());
}

} // verus!
