//! The log workload on many nodes: all is kept in the linearizable store.
use vstd::prelude::*;
use crate::json::{alike, law_equality_is_reflexive, number_json, typed, Json, JsonView, Numeral};
use crate::kv::{
    cas_body, cas_understood, is_cas_ok, law_replies_say_what_happened, law_store_reads,
    law_store_replaces, law_store_writes, read_body, read_understood, read_value, request_view,
    served, write_body, KVStore, Request, RequestView, LIN_KV,
};
use crate::kv_log::{
    committed_key, committed_of, ends_in_time, entry_key, is_run, law_keys_are_different,
    law_keys_are_named_after_the_log, law_poll_gives_consecutive_messages,
    law_listing_gives_committed_offsets, law_reservation_takes_fresh_offsets,
    law_stored_message_is_polled, law_undisturbed_reservation_succeeds, lemma_alike_offsets,
    list_all, make_committed_key, make_entry_key, next_key, next_of, offset_of, poll_all, poll_of,
    List, ListView, Poll, PollView, Reservation, ReserveStep, ReserveView, MAX_ITEMS_PER_POLL,
};
use crate::node::{
    collect_texts, law_list_of_strings_is_read_back, text_elements, Message, MessageView,
};
use crate::offsets::{
    can_handle, entry_json, is_offsets, law_each_log_is_named_once,
    law_offsets_are_read_as_they_stand, lemma_kinds, offset_views, offsets_of, read_offsets, LogId,
    Offset,
};
use crate::text::same_text;

verus! {

/// Where the sending of a message stands: it reserves an offset, or writes the
/// message, or is done.
#[verifier::ext_equal]
pub enum SendStep {
    Reserve(ReserveView),
    Write(Offset),
    Done(Offset),
}

/// What the sending of a message to a log is.
#[verifier::ext_equal]
pub struct SendView {
    pub store: Seq<char>,
    pub log: Seq<char>,
    pub value: JsonView,
    pub step: SendStep,
}

impl SendView {
    /// The request that the sending waits on.
    pub open spec fn request(self) -> Option<RequestView> {
        match self.step {
            SendStep::Reserve(r) => r.request(),
            SendStep::Write(offset) => Some(
                RequestView {
                    dest: self.store,
                    body: write_body(entry_key(self.log, offset), self.value),
                },
            ),
            SendStep::Done(_) => None,
        }
    }

    /// Whether a reply can be understood; any reply to the write is.
    pub open spec fn understands(self, reply: JsonView) -> bool {
        self.step matches SendStep::Reserve(r) ==> r.understands(reply)
    }

    /// The sending once a reply came.
    pub open spec fn after(self, reply: JsonView) -> Self {
        SendView {
            step: match self.step {
                SendStep::Reserve(r) => match r.after(reply).step {
                    ReserveStep::Done(start) => SendStep::Write(start),
                    _ => SendStep::Reserve(r.after(reply)),
                },
                SendStep::Write(offset) => SendStep::Done(offset),
                SendStep::Done(offset) => SendStep::Done(offset),
            },
            ..self
        }
    }
}

/// A sending that has not begun.
pub open spec fn send_of(store: Seq<char>, log: Seq<char>, value: JsonView) -> SendView {
    SendView {
        store,
        log,
        value,
        step: SendStep::Reserve(ReserveView { store, log, count: 1, step: ReserveStep::Read }),
    }
}

/// Where the sending of a message stands.
#[derive(Debug)]
enum Sending {
    Reserve(Reservation),
    Write(Offset),
    Done(Offset),
}

/// The sending of a message to a log.
#[derive(Debug)]
pub struct Send {
    store: KVStore,
    log_id: LogId,
    val: Json,
    step: Sending,
}

impl View for Send {
    type V = SendView;

    closed spec fn view(&self) -> SendView {
        SendView {
            store: self.store.name@,
            log: self.log_id@,
            value: self.val@,
            step: match self.step {
                Sending::Reserve(r) => SendStep::Reserve(r@),
                Sending::Write(offset) => SendStep::Write(offset),
                Sending::Done(offset) => SendStep::Done(offset),
            },
        }
    }
}

impl Send {
    /// An offset that is reserved is written to.
    #[verifier::type_invariant]
    closed spec fn reserving(self) -> bool {
        self.step matches Sending::Reserve(r) ==> !(r@.step is Done)
    }

    /// Begins to send a message to a log.
    pub fn process_send(store: &str, log_id: &str, val: &Json) -> (r: Send)
        ensures
            r@ == send_of(store@, log_id@, val@),
    {
        Send {
            store: KVStore::new(store),
            log_id: log_id.to_owned(),
            val: val.clone(),
            step: Sending::Reserve(Reservation::reserve_offsets(KVStore::new(store), log_id, 1)),
        }
    }

    /// The request that the sending waits on, none once it is done.
    pub fn request(&self) -> (r: Option<Request>)
        ensures
            request_view(r) == self@.request(),
    {
        match &self.step {
            Sending::Reserve(r) => r.request(),
            Sending::Write(offset) => {
                let key = make_entry_key(self.log_id.as_str(), *offset);
                Some(self.store.write(key.as_str(), &self.val))
            },
            Sending::Done(_) => None,
        }
    }

    /// Whether a reply can be understood.
    pub fn accepts(&self, reply: &Json) -> (r: bool)
        ensures
            r == self@.understands(reply@),
    {
        match &self.step {
            Sending::Reserve(r) => r.accepts(reply),
            _ => true,
        }
    }

    /// Goes on with the reply to the request, or without one.
    pub fn deliver(&mut self, reply: &Option<Json>)
        requires
            *reply matches Some(reply) ==> old(self)@.understands(reply@),
        ensures
            final(self)@ == (match *reply {
                Some(reply) => old(self)@.after(reply@),
                None => old(self)@,
            }),
    {
        if reply.is_none() {
            return;
        }
        let mut step = Sending::Done(0);
        std::mem::swap(&mut step, &mut self.step);
        self.step = match step {
            Sending::Reserve(mut r) => {
                r.deliver(reply);
                match r.start() {
                    Some(start) => Sending::Write(start),
                    None => Sending::Reserve(r),
                }
            },
            Sending::Write(offset) => Sending::Done(offset),
            Sending::Done(offset) => Sending::Done(offset),
        };
    }

    /// The offset of the message, once it is written.
    pub fn offset(&self) -> (r: Option<Offset>)
        ensures
            r == (match self@.step {
                SendStep::Done(offset) => Some(offset),
                _ => None,
            }),
    {
        match &self.step {
            Sending::Done(offset) => Some(*offset),
            _ => None,
        }
    }
}

/// What a commit of offsets is: the logs still to commit, and the value that the
/// first of them has and that is to be replaced, once it is known.
#[verifier::ext_equal]
pub struct CommitView {
    pub store: Seq<char>,
    pub queue: Seq<(Seq<char>, Offset)>,
    pub current: Option<JsonView>,
}

impl CommitView {
    /// The request that the commit waits on.
    pub open spec fn request(self) -> Option<RequestView> {
        if self.queue.len() == 0 {
            None
        } else {
            let key = committed_key(self.queue[0].0);
            Some(
                RequestView {
                    dest: self.store,
                    body: match self.current {
                        None => read_body(key),
                        Some(current) => cas_body(
                            key,
                            current,
                            number_json(self.queue[0].1 as int),
                            true,
                        ),
                    },
                },
            )
        }
    }

    /// Whether a reply can be understood: a value that was read is an offset.
    pub open spec fn understands(self, reply: JsonView) -> bool {
        match self.current {
            None => read_understood(reply) && (read_value(reply) matches Some(v)
                ==> v.as_u64() is Some),
            Some(_) => cas_understood(reply),
        }
    }

    /// The commit with the first log done.
    pub open spec fn first_done(self) -> Self {
        CommitView { queue: self.queue.drop_first(), current: None, ..self }
    }

    /// The commit once a reply came: an offset that is not above the committed one
    /// is left alone, and where another commit came first all starts again.
    pub open spec fn after(self, reply: JsonView) -> Self {
        match self.current {
            None => {
                let current = match read_value(reply) {
                    Some(v) => v,
                    None => number_json(0),
                };
                if self.queue[0].1 <= current.as_u64()->0 {
                    self.first_done()
                } else {
                    CommitView { current: Some(current), ..self }
                }
            },
            Some(_) => if is_cas_ok(reply) {
                self.first_done()
            } else {
                CommitView { current: None, ..self }
            },
        }
    }
}

/// A commit of offsets.
#[derive(Debug)]
pub struct Commit {
    store: KVStore,
    queue: Vec<(LogId, Offset)>,
    current: Option<Json>,
}

impl View for Commit {
    type V = CommitView;

    closed spec fn view(&self) -> CommitView {
        CommitView {
            store: self.store.name@,
            queue: offset_views(self.queue@),
            current: match self.current {
                Some(current) => Some(current@),
                None => None,
            },
        }
    }
}

impl Commit {
    /// Begins to commit offsets.
    pub fn process_commited_offsets(store: &str, offsets: Vec<(LogId, Offset)>) -> (r: Commit)
        ensures
            r@ == (CommitView { store: store@, queue: offset_views(offsets@), current: None }),
    {
        Commit { store: KVStore::new(store), queue: offsets, current: None }
    }

    /// The request that the commit waits on, none once it is done.
    pub fn request(&self) -> (r: Option<Request>)
        ensures
            request_view(r) == self@.request(),
    {
        if self.queue.len() == 0 {
            return None;
        }
        let key = make_committed_key(self.queue[0].0.as_str());
        match &self.current {
            None => Some(self.store.read(key.as_str())),
            Some(current) => Some(
                self.store.cas(key.as_str(), current, &Json::number(self.queue[0].1), true),
            ),
        }
    }

    /// Whether a reply can be understood.
    pub fn accepts(&self, reply: &Json) -> (r: bool)
        ensures
            r == self@.understands(reply@),
    {
        match &self.current {
            None => {
                if !KVStore::accepts_read(reply) {
                    return false;
                }
                match KVStore::read_result(reply) {
                    Ok(value) => value.as_u64().is_some(),
                    Err(_) => true,
                }
            },
            Some(_) => KVStore::accepts_cas(reply),
        }
    }

    /// Goes on with the reply to the request, or without one.
    pub fn deliver(&mut self, reply: &Option<Json>)
        requires
            old(self)@.queue.len() > 0,
            *reply matches Some(reply) ==> old(self)@.understands(reply@),
        ensures
            final(self)@ == (match *reply {
                Some(reply) => old(self)@.after(reply@),
                None => old(self)@,
            }),
    {
        if let Some(reply) = reply {
            let ghost logs = self.queue@;
            let new_offset = self.queue[0].1;
            match &self.current {
                None => {
                    let current = match KVStore::read_result(reply) {
                        Ok(value) => value,
                        Err(_) => Json::number(0),
                    };
                    match current.as_u64() {
                        Some(offset) if offset < new_offset => {
                            self.current = Some(current);
                        },
                        _ => {
                            self.queue.remove(0);
                            assert(offset_views(self.queue@) =~= offset_views(logs).drop_first());
                        },
                    }
                },
                Some(_) => {
                    if KVStore::cas_result(reply).is_ok() {
                        self.queue.remove(0);
                        assert(offset_views(self.queue@) =~= offset_views(logs).drop_first());
                    }
                    self.current = None;
                },
            }
        }
    }
}

/// What the work on a request of a client is.
#[verifier::ext_equal]
pub enum TaskView {
    Send(SendView),
    Poll(PollView),
    Commit(CommitView),
    List(ListView),
}

impl TaskView {
    /// The request to the store that the work waits on.
    pub open spec fn request(self) -> Option<RequestView> {
        match self {
            TaskView::Send(t) => t.request(),
            TaskView::Poll(t) => t.request(),
            TaskView::Commit(t) => t.request(),
            TaskView::List(t) => t.request(),
        }
    }

    /// Whether a reply of the store can be understood.
    pub open spec fn understands(self, reply: JsonView) -> bool {
        match self {
            TaskView::Send(t) => t.understands(reply),
            TaskView::Poll(t) => t.understands(reply),
            TaskView::Commit(t) => t.understands(reply),
            TaskView::List(t) => t.understands(reply),
        }
    }

    /// The work once a reply of the store came.
    pub open spec fn after(self, reply: JsonView) -> Self {
        match self {
            TaskView::Send(t) => TaskView::Send(t.after(reply)),
            TaskView::Poll(t) => TaskView::Poll(t.after(reply)),
            TaskView::Commit(t) => TaskView::Commit(t.after(reply)),
            TaskView::List(t) => TaskView::List(t.after(reply)),
        }
    }

    /// The answer to the client, once the work is done.
    pub open spec fn answer(self) -> JsonView {
        match self {
            TaskView::Send(t) => typed("send_ok"@).with(
                "offset"@,
                number_json(t.step->Done_0 as int),
            ),
            TaskView::Poll(t) => typed("poll_ok"@).with("msgs"@, JsonView::Object(t.found)),
            TaskView::Commit(_) => typed("commit_offsets_ok"@),
            TaskView::List(t) => typed("list_committed_offsets_ok"@).with(
                "offsets"@,
                JsonView::Object(t.found),
            ),
        }
    }
}

/// The work that a message asks for.
pub open spec fn task_of(store: Seq<char>, msg: MessageView) -> TaskView {
    if msg.msg_type == "send"@ {
        TaskView::Send(
            send_of(store, msg.body.field("key"@).text_or_empty(), msg.body.field("msg"@)),
        )
    } else if msg.msg_type == "poll"@ {
        TaskView::Poll(poll_of(store, offsets_of(msg.body.field("offsets"@)), Map::empty()))
    } else if msg.msg_type == "commit_offsets"@ {
        TaskView::Commit(
            CommitView { store, queue: offsets_of(msg.body.field("offsets"@)), current: None },
        )
    } else {
        TaskView::List(
            ListView {
                store,
                queue: text_elements(msg.body.field("keys"@)),
                found: Map::empty(),
            },
        )
    }
}

/// The work on a request of a client.
#[derive(Debug)]
pub enum Task {
    Send(Send),
    Poll(Poll),
    Commit(Commit),
    List(List),
}

impl View for Task {
    type V = TaskView;

    open spec fn view(&self) -> TaskView {
        match self {
            Task::Send(t) => TaskView::Send(t@),
            Task::Poll(t) => TaskView::Poll(t@),
            Task::Commit(t) => TaskView::Commit(t@),
            Task::List(t) => TaskView::List(t@),
        }
    }
}

impl Task {
    /// Begins the work that a message asks for.
    pub fn new(msg: &Message) -> (r: Task)
        requires
            can_handle(msg@),
        ensures
            r@ == task_of(LIN_KV@, msg@),
    {
        proof {
            lemma_kinds();
        }
        let kind = msg.msg_type.as_str();
        if same_text(kind, "send") {
            let log_id = msg.body.field("key").text_or_empty();
            return Task::Send(Send::process_send(LIN_KV, log_id.as_str(), msg.body.field("msg")));
        }
        if same_text(kind, "list_committed_offsets") {
            let keys = collect_texts(msg.body.field("keys"));
            return Task::List(List::process_list_commited_offsets(KVStore::new(LIN_KV), keys));
        }
        let offsets = match read_offsets(msg.body.field("offsets")) {
            Some(offsets) => offsets,
            None => Vec::new(),
        };
        if same_text(kind, "poll") {
            Task::Poll(Poll::process_poll(KVStore::new(LIN_KV), offsets))
        } else {
            Task::Commit(Commit::process_commited_offsets(LIN_KV, offsets))
        }
    }

    /// The request to the store that the work waits on, none once it is done.
    pub fn request(&self) -> (r: Option<Request>)
        ensures
            request_view(r) == self@.request(),
    {
        match self {
            Task::Send(t) => t.request(),
            Task::Poll(t) => t.request(),
            Task::Commit(t) => t.request(),
            Task::List(t) => t.request(),
        }
    }

    /// Whether a reply of the store can be understood.
    pub fn accepts(&self, reply: &Json) -> (r: bool)
        ensures
            r == self@.understands(reply@),
    {
        match self {
            Task::Send(t) => t.accepts(reply),
            Task::Poll(t) => t.accepts(reply),
            Task::Commit(t) => t.accepts(reply),
            Task::List(t) => t.accepts(reply),
        }
    }

    /// Goes on with the reply to the request; without one all stays as it is, and
    /// the request is to be sent again.
    pub fn deliver(&mut self, reply: &Option<Json>)
        requires
            old(self)@.request() is Some,
            *reply matches Some(reply) ==> old(self)@.understands(reply@),
        ensures
            final(self)@ == (match *reply {
                Some(reply) => old(self)@.after(reply@),
                None => old(self)@,
            }),
    {
        match self {
            Task::Send(t) => t.deliver(reply),
            Task::Poll(t) => t.deliver(reply),
            Task::Commit(t) => t.deliver(reply),
            Task::List(t) => t.deliver(reply),
        }
    }

    /// The answer to the client, once the work is done.
    pub fn answer(self) -> (r: Json)
        requires
            self@.request() is None,
        ensures
            r@ == self@.answer(),
    {
        match self {
            Task::Send(t) => {
                proof {
                    use_type_invariant(&t);
                }
                let offset = match t.offset() {
                    Some(offset) => offset,
                    None => 0,
                };
                Json::typed("send_ok").with("offset", Json::number(offset))
            },
            Task::Poll(t) => Json::typed("poll_ok").with("msgs", t.into_found()),
            Task::Commit(_) => Json::typed("commit_offsets_ok"),
            Task::List(t) => Json::typed("list_committed_offsets_ok").with(
                "offsets",
                t.into_found(),
            ),
        }
    }
}

/// The work and the store once the store, at first with the values `kv`, has
/// answered `n` requests of it and no one else's.
pub open spec fn answered(t: TaskView, kv: Map<Seq<char>, JsonView>, n: nat) -> (
    TaskView,
    Map<Seq<char>, JsonView>,
)
    decreases n,
{
    if n == 0 || t.request() is None {
        (t, kv)
    } else {
        let (after, reply) = served(kv, t.request()->0.body);
        answered(t.after(reply), after, (n - 1) as nat)
    }
}

/// A message that is sent while no one else is at work gets the next free offset,
/// and is then in the store under that offset; nothing else changes but that the
/// next offset is one more.
pub proof fn law_undisturbed_send_stores_the_message(
    kv: Map<Seq<char>, JsonView>,
    store: Seq<char>,
    log: Seq<char>,
    value: JsonView,
)
    requires
        next_of(kv, log) < u64::MAX,
    ensures
        ({
            let offset = next_of(kv, log);
            let (t, after) = answered(TaskView::Send(send_of(store, log, value)), kv, 3);
            &&& t.request() is None
            &&& t.answer() == typed("send_ok"@).with("offset"@, number_json(offset as int))
            &&& after == kv.insert(next_key(log), number_json(offset + 1)).insert(
                entry_key(log, offset),
                value,
            )
        }),
{
    let s = send_of(store, log, value);
    let r = s.step->Reserve_0;
    let offset = next_of(kv, log);
    law_undisturbed_reservation_succeeds(kv, r);
    law_store_reads(kv, next_key(log));
    let (kv1, found) = served(kv, r.request()->0.body);
    let s1 = s.after(found);
    assert(s1.step == SendStep::Reserve(r.after(found)));
    let (kv2, reply) = served(kv1, s1.request()->0.body);
    let s2 = s1.after(reply);
    assert(s2.step == SendStep::Write(offset));
    law_store_writes(kv2, entry_key(log, offset), value);
    let (kv3, done) = served(kv2, s2.request()->0.body);
    let s3 = s2.after(done);
    assert(answered(TaskView::Send(s3), kv3, 0) == (TaskView::Send(s3), kv3));
    assert(answered(TaskView::Send(s2), kv2, 1) == (TaskView::Send(s3), kv3));
    assert(answered(TaskView::Send(s1), kv1, 2) == (TaskView::Send(s3), kv3));
    assert(answered(TaskView::Send(s), kv, 3) == (TaskView::Send(s3), kv3));
}

/// Whether a commit that tries to replace an offset does so by a larger one; every
/// commit that was begun and went on with replies that it understands does.
pub open spec fn raises(c: CommitView) -> bool {
    c.current matches Some(current) ==> c.queue.len() > 0 && current.as_u64() is Some
        && current.as_u64()->0 < c.queue[0].1
}

/// A commit raises offsets, whatever replies it goes on with.
pub proof fn law_commits_raise(c: CommitView, reply: JsonView)
    requires
        raises(c),
        c.request() is Some,
        c.understands(reply),
    ensures
        raises(c.after(reply)),
{
}

/// A committed offset is never lowered, and when a log is done its committed
/// offset is at least the one that was to be committed.
pub proof fn law_committed_offsets_never_decrease(
    kv: Map<Seq<char>, JsonView>,
    c: CommitView,
    log: Seq<char>,
)
    requires
        raises(c),
        c.request() is Some,
        c.current is None && kv.contains_key(committed_key(c.queue[0].0))
            ==> kv[committed_key(c.queue[0].0)].as_u64() is Some,
    ensures
        ({
            let (after, reply) = served(kv, c.request()->0.body);
            &&& c.understands(reply)
            &&& committed_of(kv, log) <= committed_of(after, log)
            &&& c.after(reply).queue != c.queue ==> committed_of(after, c.queue[0].0) >= c.queue[0].1
        }),
{
    let first = c.queue[0].0;
    let key = committed_key(first);
    law_keys_are_different(first, log, 0, 0);
    law_store_reads(kv, key);
    if let Some(current) = c.current {
        let new = number_json(c.queue[0].1 as int);
        law_store_replaces(kv, key, current, new);
        assert(new.as_u64() == Some(c.queue[0].1));
        if kv.contains_key(key) && alike(kv[key], current) {
            lemma_alike_offsets(kv[key], current);
        }
    }
}

/// A message in the store stays as it is, whatever request of whatever work the
/// store answers, but for that which sends a message under the same offset; and of
/// those there is one only, because no offset is reserved twice.
pub proof fn law_messages_are_not_overwritten(
    kv: Map<Seq<char>, JsonView>,
    t: TaskView,
    log: Seq<char>,
    offset: Offset,
)
    requires
        t.request() is Some,
        kv.contains_key(entry_key(log, offset)),
        !(t matches TaskView::Send(s) && s.log == log && s.step == SendStep::Write(offset)),
    ensures
        ({
            let after = served(kv, t.request()->0.body).0;
            after.contains_key(entry_key(log, offset)) && after[entry_key(log, offset)]
                == kv[entry_key(log, offset)]
        }),
{
    match t {
        TaskView::Send(s) => {
            match s.step {
                SendStep::Reserve(r) => {
                    law_keys_are_different(r.log, log, offset, offset);
                    law_store_reads(kv, next_key(r.log));
                    if let ReserveStep::Cas(current) = r.step {
                        law_store_replaces(
                            kv,
                            next_key(r.log),
                            current,
                            number_json(offset_of(current) + r.count),
                        );
                    }
                },
                SendStep::Write(o) => {
                    law_keys_are_different(s.log, log, o, offset);
                    law_store_writes(kv, entry_key(s.log, o), s.value);
                },
                SendStep::Done(_) => {},
            }
        },
        TaskView::Poll(p) => {
            let r = p.reading->0;
            law_store_reads(kv, entry_key(r.log, r.offset()));
        },
        TaskView::Commit(c) => {
            let key = committed_key(c.queue[0].0);
            law_keys_are_different(log, c.queue[0].0, offset, offset);
            law_keys_are_different(c.queue[0].0, log, offset, offset);
            law_store_reads(kv, key);
            if let Some(current) = c.current {
                law_store_replaces(kv, key, current, number_json(c.queue[0].1 as int));
            }
        },
        TaskView::List(l) => {
            law_store_reads(kv, committed_key(l.queue[0]));
        },
    }
}

/// Polls and listings change nothing in the store.
pub proof fn law_polls_and_listings_change_nothing(
    kv: Map<Seq<char>, JsonView>,
    t: TaskView,
)
    requires
        t is Poll || t is List,
        t.request() is Some,
    ensures
        served(kv, t.request()->0.body).0 == kv,
{
    match t {
        TaskView::Poll(p) => {
            let r = p.reading->0;
            law_store_reads(kv, entry_key(r.log, r.offset()));
        },
        TaskView::List(l) => {
            law_store_reads(kv, committed_key(l.queue[0]));
        },
        _ => {},
    }
}

/// A message that is sent is polled back: a poll from the offset of the answer on
/// begins with the message. (The messages that follow end before the largest offset,
/// or fill the poll before it.)
pub proof fn law_sent_message_is_polled(
    kv: Map<Seq<char>, JsonView>,
    store: Seq<char>,
    log: Seq<char>,
    value: JsonView,
)
    requires
        next_of(kv, log) < u64::MAX,
        ends_in_time(
            kv,
            log,
            (next_of(kv, log) + 1) as u64,
            (MAX_ITEMS_PER_POLL - 1) as u64,
        ),
    ensures
        ({
            let offset = next_of(kv, log);
            let (t, after) = answered(TaskView::Send(send_of(store, log, value)), kv, 3);
            let found = poll_all(poll_of(store, seq![(log, offset)], Map::empty()), after).found;
            &&& t.answer().field("offset"@) == number_json(offset as int)
            &&& found.contains_key(log)
            &&& found[log] is Array
            &&& found[log]->Array_0.len() > 0
            &&& found[log]->Array_0[0] == entry_json(offset, value)
        }),
{
    let offset = next_of(kv, log);
    let after = answered(TaskView::Send(send_of(store, log, value)), kv, 3).1;
    law_undisturbed_send_stores_the_message(kv, store, log, value);
    let queue = seq![(log, offset)];
    assert(queue[0] == (log, offset));
    assert(ends_in_time(after, log, offset, MAX_ITEMS_PER_POLL)) by {
        if offset + MAX_ITEMS_PER_POLL > u64::MAX {
            let o = choose|o: Offset|
                offset + 1 <= o && !kv.contains_key(#[trigger] entry_key(log, o));
            law_keys_are_different(log, log, o, offset);
            assert(!after.contains_key(entry_key(log, o)));
        }
    }
    law_stored_message_is_polled(after, store, log, offset, queue, 0);
}

/// The next free offset of a log is never lowered, whatever request of whatever
/// work the store answers.
pub proof fn law_next_offset_never_decreases(
    kv: Map<Seq<char>, JsonView>,
    t: TaskView,
    log: Seq<char>,
)
    requires
        t.request() is Some,
        t matches TaskView::Send(s) ==> s.step matches SendStep::Reserve(r)
            ==> r.step matches ReserveStep::Cas(current) ==> offset_of(current) + r.count
            <= u64::MAX,
    ensures
        next_of(kv, log) <= next_of(served(kv, t.request()->0.body).0, log),
{
    match t {
        TaskView::Send(s) => {
            match s.step {
                SendStep::Reserve(r) => {
                    law_reservation_takes_fresh_offsets(kv, r, log);
                },
                SendStep::Write(o) => {
                    law_keys_are_different(log, s.log, o, o);
                    law_store_writes(kv, entry_key(s.log, o), s.value);
                },
                SendStep::Done(_) => {},
            }
        },
        TaskView::Commit(c) => {
            let key = committed_key(c.queue[0].0);
            law_keys_are_different(log, c.queue[0].0, 0, 0);
            law_store_reads(kv, key);
            if let Some(current) = c.current {
                law_store_replaces(kv, key, current, number_json(c.queue[0].1 as int));
            }
        },
        _ => {
            law_polls_and_listings_change_nothing(kv, t);
        },
    }
}

/// An offset that is committed while no one else is at work is listed: the larger
/// of it and the one that was committed before.
pub proof fn law_committed_offset_is_listed(
    kv: Map<Seq<char>, JsonView>,
    store: Seq<char>,
    log: Seq<char>,
    offset: Offset,
)
    requires
        kv.contains_key(committed_key(log)) ==> kv[committed_key(log)].as_u64() is Some,
    ensures
        ({
            let commit = CommitView { store, queue: seq![(log, offset)], current: None };
            let (t, after) = answered(TaskView::Commit(commit), kv, 2);
            let listed = list_all(
                ListView { store, queue: seq![log], found: Map::empty() },
                after,
            ).found;
            &&& t.request() is None
            &&& t.answer() == typed("commit_offsets_ok"@)
            &&& listed.contains_key(log)
            &&& listed[log] == number_json(
                if offset <= committed_of(kv, log) {
                    committed_of(kv, log) as int
                } else {
                    offset as int
                },
            )
        }),
{
    let key = committed_key(log);
    let c = CommitView { store, queue: seq![(log, offset)], current: None };
    assert(c.queue[0] == (log, offset));
    assert(c.queue.drop_first() =~= Seq::empty());
    law_store_reads(kv, key);
    let (kv1, found) = served(kv, c.request()->0.body);
    let c1 = c.after(found);
    let after = answered(TaskView::Commit(c), kv, 2).1;
    assert(after == answered(TaskView::Commit(c1), kv1, 1).1);
    if offset > committed_of(kv, log) {
        let current = c1.current->0;
        let new = number_json(offset as int);
        law_store_replaces(kv, key, current, new);
        law_equality_is_reflexive(current);
        assert(new.as_u64() == Some(offset));
        let (kv2, reply) = served(kv1, c1.request()->0.body);
        assert(answered(TaskView::Commit(c1.after(reply)), kv2, 0).1 == kv2);
        assert(after == kv.insert(key, new));
    }
    let logs = seq![log];
    assert(logs[0] == log);
    assert(logs.contains(log));
    law_listing_gives_committed_offsets(after, store, logs);
}

/// How a sending goes on. It reserves one offset of its log, writes the message under
/// that offset, and is done with it once any reply to the write came.
pub proof fn law_sending_goes_on(s: SendView, reply: JsonView)
    ensures
        s.after(reply).store == s.store,
        s.after(reply).log == s.log,
        s.after(reply).value == s.value,
        s.step matches SendStep::Reserve(r) ==> s.request() == r.request() && (s.understands(reply)
            <==> r.understands(reply)) && (match r.after(reply).step {
            ReserveStep::Done(start) => s.after(reply).step == SendStep::Write(start)
                && s.after(reply).request() == Some(
                RequestView {
                    dest: s.store,
                    body: write_body(entry_key(s.log, start), s.value),
                },
            ),
            _ => s.after(reply).step == SendStep::Reserve(r.after(reply)),
        }),
        s.step matches SendStep::Write(offset) ==> s.understands(reply) && s.after(reply).step
            == SendStep::Done(offset) && s.after(reply).request() is None,
{
}

/// A sending begins with the reservation of one offset of its log, in the same store.
pub proof fn law_sending_begins_with_a_reservation(
    store: Seq<char>,
    log: Seq<char>,
    value: JsonView,
)
    ensures
        send_of(store, log, value) == (SendView {
            store,
            log,
            value,
            step: SendStep::Reserve(
                ReserveView { store, log, count: 1, step: ReserveStep::Read },
            ),
        }),
{
}

/// How a commit goes on. It reads the committed offset of its first log; one that is not
/// above it is done with, and else it tries to replace what it has read by its own, and
/// is done with the log if that was done. If another came first it reads again. When it
/// is done with a log it goes on with all the others.
pub proof fn law_commit_goes_on(c: CommitView, reply: JsonView)
    requires
        c.queue.len() > 0,
    ensures
        ({
            let next = c.after(reply);
            let (log, offset) = c.queue[0];
            let key = log + "_committed"@;
            let read = RequestView { dest: c.store, body: read_body(key) };
            let tries = |current: JsonView|
                RequestView {
                    dest: c.store,
                    body: cas_body(
                        key,
                        current,
                        JsonView::Number(Numeral::Int(offset as int)),
                        true,
                    ),
                };
            let found = match read_value(reply) {
                Some(v) => v,
                None => JsonView::Number(Numeral::Int(0)),
            };
            &&& next.store == c.store
            &&& c.current is None ==> {
                &&& c.request() == Some(read)
                &&& c.understands(reply) <==> (reply is Object || reply is Null)
                    && found.as_u64() is Some
                &&& found.as_u64() matches Some(o) ==> {
                    &&& offset <= o ==> next.queue == c.queue.skip(1) && next.current is None
                    &&& offset > o ==> next.queue == c.queue && next.request() == Some(
                        tries(found),
                    )
                }
            }
            &&& c.current matches Some(current) ==> {
                &&& c.request() == Some(tries(current))
                &&& c.understands(reply) <==> cas_understood(reply)
                &&& is_cas_ok(reply) ==> next.queue == c.queue.skip(1) && next.current is None
                &&& !is_cas_ok(reply) ==> next.queue == c.queue && next.request() == Some(read)
            }
        }),
{
    law_keys_are_named_after_the_log(c.queue[0].0, 0);
    law_replies_say_what_happened(reply);
    assert(c.queue.drop_first() =~= c.queue.skip(1));
}

/// The larger of two offsets.
pub open spec fn larger(a: Offset, b: Offset) -> Offset {
    if a <= b {
        b
    } else {
        a
    }
}

/// A commit of any number of logs that is served to its end leaves each of them with the
/// larger of its offset and the one that was committed before, and all other logs as
/// they were.
pub proof fn law_commit_serves_every_log(
    kv: Map<Seq<char>, JsonView>,
    store: Seq<char>,
    queue: Seq<(Seq<char>, Offset)>,
    n: nat,
)
    requires
        forall|i: int, j: int|
            0 <= i < j < queue.len() ==> (#[trigger] queue[i]).0 != (#[trigger] queue[j]).0,
        forall|i: int|
            0 <= i < queue.len() && kv.contains_key(committed_key((#[trigger] queue[i]).0))
                ==> kv[committed_key(queue[i].0)].as_u64() is Some,
        n >= 2 * queue.len(),
    ensures
        ({
            let commit = CommitView { store, queue, current: None };
            let (t, after) = answered(TaskView::Commit(commit), kv, n);
            &&& t is Commit
            &&& t.request() is None
            &&& forall|i: int|
                0 <= i < queue.len() ==> committed_of(after, (#[trigger] queue[i]).0) == larger(
                    queue[i].1,
                    committed_of(kv, queue[i].0),
                )
            &&& forall|log: Seq<char>|
                (forall|i: int| 0 <= i < queue.len() ==> (#[trigger] queue[i]).0 != log)
                    ==> #[trigger] committed_of(after, log) == committed_of(kv, log)
        }),
    decreases queue.len(),
{
    let c = CommitView { store, queue, current: None };
    if queue.len() > 0 {
        let (log, offset) = queue[0];
        let rest = queue.drop_first();
        let key = committed_key(log);
        let d = CommitView { store, queue: rest, current: None };
        assert(forall|i: int| 0 <= i < rest.len() ==> rest[i] == #[trigger] queue[i + 1]);
        assert(kv.contains_key(committed_key(queue[0].0)) ==> kv[key].as_u64() is Some);
        law_store_reads(kv, key);
        let (kv1, found) = served(kv, c.request()->0.body);
        let c1 = c.after(found);
        let end = answered(TaskView::Commit(c), kv, n);
        assert(end == answered(TaskView::Commit(c1), kv, (n - 1) as nat));
        let new = number_json(offset as int);
        let after = if offset <= committed_of(kv, log) {
            kv
        } else {
            kv.insert(key, new)
        };
        let m = if offset <= committed_of(kv, log) {
            (n - 1) as nat
        } else {
            (n - 2) as nat
        };
        assert(new.as_u64() == Some(offset));
        if offset > committed_of(kv, log) {
            let current = c1.current->0;
            law_store_replaces(kv, key, current, new);
            law_equality_is_reflexive(current);
            let (kv2, reply) = served(kv, c1.request()->0.body);
            assert(answered(TaskView::Commit(c1), kv, (n - 1) as nat) == answered(
                TaskView::Commit(c1.after(reply)),
                kv2,
                (n - 2) as nat,
            ));
            assert(c1.after(reply) == d);
        } else {
            assert(c1 == d);
        }
        assert(end == answered(TaskView::Commit(d), after, m));
        assert forall|other: Seq<char>| other != log implies #[trigger] committed_of(after, other)
            == committed_of(kv, other) && (after.contains_key(committed_key(other))
            ==> kv.contains_key(committed_key(other)) && after[committed_key(other)]
            == kv[committed_key(other)]) by {
            law_keys_are_different(log, other, 0, 0);
        }
        assert forall|i: int, j: int| 0 <= i < j < rest.len() implies (#[trigger] rest[i]).0 != (
        #[trigger] rest[j]).0 by {
            assert(queue[i + 1].0 != queue[j + 1].0);
        }
        assert forall|i: int| 0 <= i < rest.len() implies (#[trigger] rest[i]).0 != log by {
            assert(queue[0].0 != queue[i + 1].0);
        }
        assert forall|i: int|
            0 <= i < rest.len() && after.contains_key(
                committed_key((#[trigger] rest[i]).0),
            ) implies after[committed_key(rest[i].0)].as_u64() is Some by {
            assert(committed_of(after, rest[i].0) == committed_of(kv, rest[i].0));
            assert(queue[i + 1] == rest[i]);
        }
        law_commit_serves_every_log(after, store, rest, m);
        let last = end.1;
        assert forall|i: int| 0 <= i < queue.len() implies committed_of(
            last,
            (#[trigger] queue[i]).0,
        ) == larger(queue[i].1, committed_of(kv, queue[i].0)) by {
            if i > 0 {
                assert(rest[i - 1] == queue[i]);
                assert(committed_of(after, queue[i].0) == committed_of(kv, queue[i].0));
            } else {
                assert(committed_of(last, log) == committed_of(after, log));
            }
        }
        assert forall|other: Seq<char>|
            (forall|i: int|
                0 <= i < queue.len() ==> (#[trigger] queue[i]).0 != other) implies #[trigger] committed_of(
            last,
            other,
        ) == committed_of(kv, other) by {
            assert(queue[0].0 != other);
            assert forall|i: int| 0 <= i < rest.len() implies (#[trigger] rest[i]).0 != other by {
                assert(queue[i + 1].0 != other);
            }
            assert(committed_of(after, other) == committed_of(kv, other));
        }
    }
}

/// The work on a request to send reserves an offset of the log that it names for the
/// message that it holds; it is answered with that offset.
pub proof fn law_send_request_is_served(
    kv: Map<Seq<char>, JsonView>,
    store: Seq<char>,
    msg: MessageView,
    log: Seq<char>,
)
    requires
        msg.msg_type == "send"@,
        msg.body.field("key"@) == JsonView::Text(log),
        next_of(kv, log) < u64::MAX,
    ensures
        ({
            let offset = next_of(kv, log);
            let (t, after) = answered(task_of(store, msg), kv, 3);
            &&& t.request() is None
            &&& t.answer() == JsonView::Object(
                map![
                    "type"@ => JsonView::Text("send_ok"@),
                    "offset"@ => JsonView::Number(Numeral::Int(offset as int))
                ],
            )
            &&& after == kv.insert(
                log + "_next"@,
                JsonView::Number(Numeral::Int(offset + 1)),
            ).insert(entry_key(log, offset), msg.body.field("msg"@))
        }),
{
    law_keys_are_named_after_the_log(log, 0);
    law_undisturbed_send_stores_the_message(kv, store, log, msg.body.field("msg"@));
}

/// The work on a request to poll gives of each log that it names, and of no other, the
/// messages in the store from its offset on, without a gap and ten at most.
pub proof fn law_poll_request_is_served(
    kv: Map<Seq<char>, JsonView>,
    store: Seq<char>,
    msg: MessageView,
    log: Seq<char>,
    from: Offset,
)
    requires
        msg.msg_type == "poll"@,
        is_offsets(msg.body.field("offsets"@)),
        msg.body.field("offsets"@)->Object_0.dom().finite(),
        forall|i: int|
            0 <= i < offsets_of(msg.body.field("offsets"@)).len() ==> ends_in_time(
                kv,
                (#[trigger] offsets_of(msg.body.field("offsets"@))[i]).0,
                offsets_of(msg.body.field("offsets"@))[i].1,
                MAX_ITEMS_PER_POLL,
            ),
    ensures
        task_of(store, msg) is Poll,
        ({
            let named = msg.body.field("offsets"@);
            let end = TaskView::Poll(poll_all(task_of(store, msg)->Poll_0, kv));
            let given = end.answer().field("msgs"@);
            &&& end.request() is None
            &&& end.answer() == JsonView::Object(
                map!["type"@ => JsonView::Text("poll_ok"@), "msgs"@ => given],
            )
            &&& given is Object
            &&& given->Object_0.dom() == named->Object_0.dom()
            &&& named.field(log) == JsonView::Number(Numeral::Int(from as int)) ==> given.field(
                log,
            ) is Array && is_run(kv, log, from, 10, given.field(log)->Array_0)
        }),
{
    lemma_kinds();
    reveal_strlit("type");
    reveal_strlit("msgs");
    assert("type"@[0] != "msgs"@[0]);
    let value = msg.body.field("offsets"@);
    let offsets = offsets_of(value);
    law_each_log_is_named_once(value);
    law_poll_gives_consecutive_messages(kv, store, offsets);
    let found = poll_all(poll_of(store, offsets, Map::empty()), kv).found;
    assert forall|name: Seq<char>| #[trigger] found.contains_key(name) <==> value->Object_0.contains_key(
        name,
    ) by {
        if found.contains_key(name) {
            let i = choose|i: int| 0 <= i < offsets.len() && (#[trigger] offsets[i]).0 == name;
            assert(offsets.contains((name, offsets[i].1)));
            law_offsets_are_read_as_they_stand(value, name, offsets[i].1);
        }
        if value->Object_0.contains_key(name) {
            let o = value->Object_0[name].as_u64()->0;
            assert(offsets.contains((name, o)));
            let i = offsets.index_of((name, o));
            assert(found.contains_key(offsets[i].0));
        }
    }
    assert(found.dom() =~= value->Object_0.dom());
    law_offsets_are_read_as_they_stand(value, log, from);
    if value.field(log) == JsonView::Number(Numeral::Int(from as int)) {
        let i = offsets.index_of((log, from));
        assert(offsets[i] == (log, from));
        assert(found.contains_key(offsets[i].0));
    }
}

/// The work on a request to commit leaves each log that it names with the larger of the
/// offset named for it and the one that was committed before, and all others as they
/// were.
pub proof fn law_commit_request_is_served(
    kv: Map<Seq<char>, JsonView>,
    store: Seq<char>,
    msg: MessageView,
    log: Seq<char>,
    offset: Offset,
    n: nat,
)
    requires
        msg.msg_type == "commit_offsets"@,
        is_offsets(msg.body.field("offsets"@)),
        msg.body.field("offsets"@)->Object_0.dom().finite(),
        forall|name: Seq<char>|
            kv.contains_key(#[trigger] committed_key(name)) ==> kv[committed_key(
                name,
            )].as_u64() is Some,
        n >= 2 * offsets_of(msg.body.field("offsets"@)).len(),
    ensures
        ({
            let named = msg.body.field("offsets"@).field(log);
            let (t, after) = answered(task_of(store, msg), kv, n);
            &&& t.request() is None
            &&& t.answer() == JsonView::Object(
                map!["type"@ => JsonView::Text("commit_offsets_ok"@)],
            )
            &&& named == JsonView::Number(Numeral::Int(offset as int)) ==> committed_of(after, log)
                == larger(offset, committed_of(kv, log))
            &&& named == JsonView::Null ==> committed_of(after, log) == committed_of(kv, log)
        }),
{
    lemma_kinds();
    let value = msg.body.field("offsets"@);
    let offsets = offsets_of(value);
    law_each_log_is_named_once(value);
    law_commit_serves_every_log(kv, store, offsets, n);
    law_offsets_are_read_as_they_stand(value, log, offset);
    if value.field(log) == JsonView::Number(Numeral::Int(offset as int)) {
        let i = offsets.index_of((log, offset));
        assert(offsets[i] == (log, offset));
    }
    if value.field(log) == JsonView::Null {
        assert forall|i: int| 0 <= i < offsets.len() implies (#[trigger] offsets[i]).0 != log by {
            if offsets[i].0 == log {
                assert(offsets.contains((log, offsets[i].1)));
                law_offsets_are_read_as_they_stand(value, log, offsets[i].1);
            }
        }
    }
}

/// The work on a request to list gives of each log that it names, and of no other, the
/// committed offset, 0 where there is none.
pub proof fn law_list_request_is_served(
    kv: Map<Seq<char>, JsonView>,
    store: Seq<char>,
    msg: MessageView,
    keys: Seq<Seq<char>>,
)
    requires
        msg.msg_type == "list_committed_offsets"@,
        msg.body.field("keys"@) == JsonView::Array(
            keys.map_values(|t: Seq<char>| JsonView::Text(t)),
        ),
        forall|name: Seq<char>|
            kv.contains_key(#[trigger] committed_key(name)) ==> kv[committed_key(
                name,
            )].as_u64() is Some,
    ensures
        task_of(store, msg) is List,
        ({
            let end = TaskView::List(list_all(task_of(store, msg)->List_0, kv));
            let given = end.answer().field("offsets"@);
            &&& end.request() is None
            &&& end.answer() == JsonView::Object(
                map![
                    "type"@ => JsonView::Text("list_committed_offsets_ok"@),
                    "offsets"@ => given
                ],
            )
            &&& given is Object
            &&& forall|log: Seq<char>| #[trigger]
                given->Object_0.contains_key(log) <==> keys.contains(log)
            &&& forall|log: Seq<char>|
                keys.contains(log) ==> #[trigger] given.field(log) == JsonView::Number(
                    Numeral::Int(committed_of(kv, log) as int),
                )
        }),
{
    lemma_kinds();
    reveal_strlit("type");
    reveal_strlit("offsets");
    assert("type"@.len() != "offsets"@.len());
    law_list_of_strings_is_read_back(keys, JsonView::Null);
    law_listing_gives_committed_offsets(kv, store, keys);
    let found = list_all(ListView { store, queue: keys, found: Map::empty() }, kv).found;
    assert forall|log: Seq<char>| keys.contains(log) implies #[trigger] JsonView::Object(
        found,
    ).field(log) == JsonView::Number(Numeral::Int(committed_of(kv, log) as int)) by {
        assert(found.contains_key(log));
        assert(found[log] == number_json(committed_of(kv, log) as int));
    }
}

/// What a store holds of a log: the next offset and the committed one under the name of
/// the log, each 0 where it holds none.
pub proof fn law_store_holds_offsets_by_name(
    kv: Map<Seq<char>, JsonView>,
    log: Seq<char>,
    offset: Offset,
)
    ensures
        kv.contains_key(log + "_next"@) && kv[log + "_next"@] == JsonView::Number(
            Numeral::Int(offset as int),
        ) ==> next_of(kv, log) == offset,
        !kv.contains_key(log + "_next"@) ==> next_of(kv, log) == 0,
        kv.contains_key(log + "_committed"@) && kv[log + "_committed"@] == JsonView::Number(
            Numeral::Int(offset as int),
        ) ==> committed_of(kv, log) == offset,
        !kv.contains_key(log + "_committed"@) ==> committed_of(kv, log) == 0,
{
    law_keys_are_named_after_the_log(log, 0);
}

/// The work on a request goes on as its part does, whatever the reply.
pub proof fn law_work_goes_on_as_its_part(t: TaskView, reply: JsonView)
    ensures
        t matches TaskView::Send(s) ==> t.request() == s.request() && t.after(reply)
            == TaskView::Send(s.after(reply)) && t.understands(reply) == s.understands(reply),
        t matches TaskView::Poll(p) ==> t.request() == p.request() && t.after(reply)
            == TaskView::Poll(p.after(reply)) && t.understands(reply) == p.understands(reply),
        t matches TaskView::Commit(c) ==> t.request() == c.request() && t.after(reply)
            == TaskView::Commit(c.after(reply)) && t.understands(reply) == c.understands(reply),
        t matches TaskView::List(l) ==> t.request() == l.request() && t.after(reply)
            == TaskView::List(l.after(reply)) && t.understands(reply) == l.understands(reply),
{
}

/// Work that is done is answered with what it has come to: a sending with the offset of
/// the message, a poll with what it found, a commit with no more than that it is done,
/// and a listing with the offsets that it found.
pub proof fn law_answers_give_what_was_done(t: TaskView, offset: Offset)
    ensures
        t matches TaskView::Send(s) ==> s.step == SendStep::Done(offset) ==> t.request() is None
            && t.answer() == JsonView::Object(
            map![
                "type"@ => JsonView::Text("send_ok"@),
                "offset"@ => JsonView::Number(Numeral::Int(offset as int))
            ],
        ),
        t matches TaskView::Poll(p) ==> t.answer() == JsonView::Object(
            map!["type"@ => JsonView::Text("poll_ok"@), "msgs"@ => JsonView::Object(p.found)],
        ),
        t is Commit ==> t.answer() == JsonView::Object(
            map!["type"@ => JsonView::Text("commit_offsets_ok"@)],
        ),
        t matches TaskView::List(l) ==> t.answer() == JsonView::Object(
            map![
                "type"@ => JsonView::Text("list_committed_offsets_ok"@),
                "offsets"@ => JsonView::Object(l.found)
            ],
        ),
{
}

} // verus!
