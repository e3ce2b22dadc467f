//! The log workload on many nodes, with fewer requests: offsets are reserved for
//! many messages at once in the linearizable store, and all else is kept in the
//! sequentially consistent one.
use vstd::prelude::*;
use crate::json::{number_json, typed, Json, JsonView, Numeral};
use crate::kv::{
    is_write_ok, law_store_reads, law_store_writes, request_view, served, write_body, KVStore,
    Request, RequestView, LIN_KV, SEQ_KV,
};
use crate::kv_log::{
    committed_key, committed_of, ends_in_time, entry_key, law_keys_are_different,
    law_keys_are_named_after_the_log, law_listing_gives_committed_offsets,
    law_stored_message_is_polled, list_all, make_committed_key, make_entry_key, poll_all, poll_of,
    List, ListView, Poll, PollView, Reservation, ReserveStep, ReserveView, MAX_ITEMS_PER_POLL,
};
use crate::node::{collect_texts, text_elements, Message, MessageView};
use crate::offsets::{
    can_handle, entry_json, is_offsets, law_each_log_is_named_once,
    law_offsets_are_read_as_they_stand, lemma_kinds, offset_views, offsets_of, read_offsets, LogId,
    Offset,
};
use crate::strmap::{lemma_sorted_listing, sorted_listing, StrMap};
use crate::text::{lemma_text_lt_irreflexive, same_text, text_lt};

verus! {

/// The time for which messages are gathered before offsets are reserved for them,
/// in milliseconds.
pub const BATCH_INTERVAL_MILLIS: u64 = 10;

/// What stands for a message that waits for its offset.
pub type Ticket = u64;

/// What waiting messages are.
pub open spec fn waiting_views(waiting: Seq<(LogId, Ticket)>) -> Seq<(Seq<char>, Ticket)> {
    waiting.map_values(|w: (LogId, Ticket)| (w.0@, w.1))
}

/// The messages that wait for an offset of a log, in the order in which they came.
pub open spec fn tickets_of(waiting: Seq<(Seq<char>, Ticket)>, log: Seq<char>) -> Seq<Ticket>
    decreases waiting.len(),
{
    if waiting.len() == 0 {
        Seq::empty()
    } else if waiting.last().0 == log {
        tickets_of(waiting.drop_last(), log).push(waiting.last().1)
    } else {
        tickets_of(waiting.drop_last(), log)
    }
}

/// The logs of waiting messages.
pub open spec fn waiting_logs(waiting: Seq<(Seq<char>, Ticket)>) -> Set<Seq<char>> {
    Set::new(|log: Seq<char>| tickets_of(waiting, log).len() > 0)
}

/// What a batch is: the reservation of offsets of one log, and the messages that
/// they are for.
#[verifier::ext_equal]
pub struct BatchView {
    pub reserve: ReserveView,
    pub tickets: Seq<Ticket>,
}

/// A batch that has not begun.
pub open spec fn batch_of(log: Seq<char>, tickets: Seq<Ticket>) -> BatchView {
    BatchView {
        reserve: ReserveView {
            store: LIN_KV@,
            log,
            count: tickets.len() as u64,
            step: ReserveStep::Read,
        },
        tickets,
    }
}

/// The batches of waiting messages: one for each log.
pub open spec fn batches_of(waiting: Seq<(Seq<char>, Ticket)>) -> Seq<BatchView> {
    sorted_listing(waiting_logs(waiting)).map_values(
        |log: Seq<char>| batch_of(log, tickets_of(waiting, log)),
    )
}

/// A batch.
#[derive(Debug)]
pub struct Batch {
    reservation: Reservation,
    tickets: Vec<Ticket>,
}

impl View for Batch {
    type V = BatchView;

    closed spec fn view(&self) -> BatchView {
        BatchView { reserve: self.reservation@, tickets: self.tickets@ }
    }
}

/// What batches are.
pub open spec fn batch_views(batches: Seq<Batch>) -> Seq<BatchView> {
    batches.map_values(|b: Batch| b@)
}

/// Gathers waiting messages by their logs.
fn grouped(waiting: &Vec<(LogId, Ticket)>) -> (r: StrMap<Vec<Ticket>>)
    ensures
        r@.dom() == waiting_logs(waiting_views(waiting@)),
        forall|log: Seq<char>| #[trigger]
            r@.contains_key(log) ==> r@[log]@ == tickets_of(waiting_views(waiting@), log),
{
    let ghost all = waiting_views(waiting@);
    let mut groups: StrMap<Vec<Ticket>> = StrMap::new();
    let mut i: usize = 0;
    assert(all.take(0) =~= Seq::empty());
    assert(groups@.dom() =~= waiting_logs(all.take(0)));
    while i < waiting.len()
        invariant
            i <= waiting@.len(),
            all == waiting_views(waiting@),
            groups@.dom() == waiting_logs(all.take(i as int)),
            forall|log: Seq<char>| #[trigger]
                groups@.contains_key(log) ==> groups@[log]@ == tickets_of(
                    all.take(i as int),
                    log,
                ),
        decreases waiting@.len() - i,
    {
        let ghost upto = all.take(i + 1);
        assert(upto.drop_last() =~= all.take(i as int));
        assert(upto.last() == all[i as int]);
        let log_id = waiting[i].0.as_str();
        let mut group: Vec<Ticket> = match groups.get(log_id) {
            Some(group) => group.clone(),
            None => Vec::new(),
        };
        proof {
            if groups@.contains_key(log_id@) {
                assert(group@ =~= groups@[log_id@]@);
            } else {
                assert(!waiting_logs(all.take(i as int)).contains(log_id@));
                assert(tickets_of(all.take(i as int), log_id@) =~= Seq::empty());
            }
        }
        group.push(waiting[i].1);
        let ghost before = groups@;
        groups.insert(waiting[i].0.clone(), group);
        proof {
            assert(groups@ == before.insert(log_id@, group));
            assert(group@ == tickets_of(upto, log_id@));
            assert(groups@.dom() =~= waiting_logs(upto)) by {
                assert forall|log: Seq<char>| #[trigger]
                    groups@.dom().contains(log) <==> waiting_logs(upto).contains(log) by {
                    assert(before.dom().contains(log) == waiting_logs(
                        all.take(i as int),
                    ).contains(log));
                }
            }
            assert forall|log: Seq<char>| #[trigger] groups@.contains_key(log) implies groups@[log]@
                == tickets_of(upto, log) by {
                if log != log_id@ {
                    assert(before.contains_key(log));
                }
            }
        }
        i = i + 1;
    }
    assert(all.take(i as int) =~= all);
    groups
}

/// Makes the batches of the messages that wait.
pub fn run_batcher(waiting: &Vec<(LogId, Ticket)>) -> (r: Vec<Batch>)
    ensures
        batch_views(r@) == batches_of(waiting_views(waiting@)),
{
    let ghost all = waiting_views(waiting@);
    let groups = grouped(waiting);
    proof {
        use_type_invariant(&groups);
        groups.lemma_items();
        groups.lemma_names();
    }
    let mut r: Vec<Batch> = Vec::new();
    let mut i: usize = 0;
    while i < groups.len()
        invariant
            i <= groups.items().len(),
            forall|log: Seq<char>| #[trigger]
                groups@.contains_key(log) ==> groups@[log]@ == tickets_of(all, log),
            forall|j: int|
                0 <= j < groups.items().len() ==> groups@.contains_key(
                    #[trigger] groups.items()[j].0@,
                ) && groups@[groups.items()[j].0@] == groups.items()[j].1,
            r@.len() == i,
            forall|j: int|
                0 <= j < i ==> #[trigger] r@[j]@ == batch_of(
                    groups.items()[j].0@,
                    tickets_of(all, groups.items()[j].0@),
                ),
        decreases groups.items().len() - i,
    {
        let tickets = groups.value_at(i).clone();
        let count = tickets.len() as u64;
        proof {
            let log = groups.items()[i as int].0@;
            assert(groups@.contains_key(log));
            assert(tickets@ =~= tickets_of(all, log));
        }
        let reservation = Reservation::reserve_offsets(
            KVStore::new(LIN_KV),
            groups.key_at(i).as_str(),
            count,
        );
        r.push(Batch { reservation, tickets });
        i = i + 1;
    }
    assert(batch_views(r@) =~= batches_of(all)) by {
        assert forall|j: int| 0 <= j < r@.len() implies #[trigger] batch_views(r@)[j]
            == batches_of(all)[j] by {
            assert(groups.names()[j] == groups.items()[j].0@);
        }
        assert(groups.names().len() == r@.len());
    }
    r
}

/// The offsets of messages, one after the other from the first on.
pub open spec fn assignment(start: Offset, tickets: Seq<Ticket>) -> Seq<(Ticket, Offset)> {
    Seq::new(tickets.len(), |i: int| (tickets[i], (start + i) as u64))
}

impl Batch {
    /// There is one offset for each message.
    #[verifier::type_invariant]
    closed spec fn counted(self) -> bool {
        self.reservation@.count == self.tickets@.len()
    }

    /// The request that the batch waits on, none once its offsets are reserved.
    pub fn request(&self) -> (r: Option<Request>)
        ensures
            request_view(r) == self@.reserve.request(),
    {
        self.reservation.request()
    }

    /// Whether a reply can be understood.
    pub fn accepts(&self, reply: &Json) -> (r: bool)
        ensures
            r == self@.reserve.understands(reply@),
    {
        self.reservation.accepts(reply)
    }

    /// The batch with the reply to its request, or without one.
    pub fn delivered(self, reply: &Option<Json>) -> (r: Batch)
        requires
            *reply matches Some(reply) ==> self@.reserve.understands(reply@),
        ensures
            r@ == (BatchView {
                reserve: match *reply {
                    Some(reply) => self@.reserve.after(reply@),
                    None => self@.reserve,
                },
                ..self@
            }),
    {
        proof {
            use_type_invariant(&self);
        }
        let mut reservation = self.reservation;
        reservation.deliver(reply);
        Batch { reservation, tickets: self.tickets }
    }

    /// The offset of each message, once they are reserved.
    pub fn assigned(&self) -> (r: Option<Vec<(Ticket, Offset)>>)
        ensures
            match self@.reserve.step {
                ReserveStep::Done(start) => r is Some && r->0@ == assignment(
                    start,
                    self@.tickets,
                ),
                _ => r is None,
            },
            r is Some ==> self@.reserve.step->Done_0 + self@.tickets.len() <= u64::MAX,
    {
        proof {
            use_type_invariant(self);
        }
        match self.reservation.start() {
            Some(start) => {
                let mut offsets: Vec<(Ticket, Offset)> = Vec::new();
                let mut i: usize = 0;
                while i < self.tickets.len()
                    invariant
                        i <= self.tickets@.len(),
                        start + self.tickets@.len() <= u64::MAX,
                        offsets@.len() == i,
                        forall|j: int|
                            0 <= j < i ==> #[trigger] offsets@[j] == (
                                self.tickets@[j],
                                (start + j) as u64,
                            ),
                    decreases self.tickets@.len() - i,
                {
                    offsets.push((self.tickets[i], start + i as u64));
                    i = i + 1;
                }
                assert(offsets@ =~= assignment(start, self@.tickets));
                Some(offsets)
            },
            None => None,
        }
    }
}

/// What values that are written one after another are.
#[verifier::ext_equal]
pub struct WritesView {
    pub store: Seq<char>,
    pub queue: Seq<(Seq<char>, JsonView)>,
}

impl WritesView {
    /// The request that the writes wait on.
    pub open spec fn request(self) -> Option<RequestView> {
        if self.queue.len() == 0 {
            None
        } else {
            Some(
                RequestView {
                    dest: self.store,
                    body: write_body(self.queue[0].0, self.queue[0].1),
                },
            )
        }
    }

    /// Whether a reply can be understood: it says that the write was done.
    pub open spec fn understands(self, reply: JsonView) -> bool {
        is_write_ok(reply)
    }

    /// The writes once a reply came.
    pub open spec fn after(self, reply: JsonView) -> Self {
        WritesView { queue: self.queue.drop_first(), ..self }
    }
}

/// Values that are written one after another.
#[derive(Debug)]
pub struct Writes {
    store: KVStore,
    queue: Vec<(String, Json)>,
}

/// What keys with their values are.
pub open spec fn pair_views(pairs: Seq<(String, Json)>) -> Seq<(Seq<char>, JsonView)> {
    pairs.map_values(|p: (String, Json)| (p.0@, p.1@))
}

impl View for Writes {
    type V = WritesView;

    closed spec fn view(&self) -> WritesView {
        WritesView { store: self.store.name@, queue: pair_views(self.queue@) }
    }
}

/// The writes that store a message under its offset.
pub open spec fn send_of(log: Seq<char>, value: JsonView, offset: Offset) -> WritesView {
    WritesView { store: SEQ_KV@, queue: seq![(entry_key(log, offset), value)] }
}

/// The writes that commit offsets.
pub open spec fn commit_of(offsets: Seq<(Seq<char>, Offset)>) -> WritesView {
    WritesView {
        store: SEQ_KV@,
        queue: offsets.map_values(
            |e: (Seq<char>, Offset)| (committed_key(e.0), number_json(e.1 as int)),
        ),
    }
}

impl Writes {
    /// Begins to store a message under its offset.
    pub fn process_send(log_id: &str, val: &Json, offset: Offset) -> (r: Writes)
        ensures
            r@ == send_of(log_id@, val@, offset),
    {
        let mut queue: Vec<(String, Json)> = Vec::new();
        queue.push((make_entry_key(log_id, offset), val.clone()));
        let r = Writes { store: KVStore::new(SEQ_KV), queue };
        assert(r@.queue =~= send_of(log_id@, val@, offset).queue);
        r
    }

    /// Begins to commit offsets.
    pub fn process_commited_offsets(offsets: &Vec<(LogId, Offset)>) -> (r: Writes)
        ensures
            r@ == commit_of(offset_views(offsets@)),
    {
        let mut queue: Vec<(String, Json)> = Vec::new();
        let mut i: usize = 0;
        while i < offsets.len()
            invariant
                i <= offsets@.len(),
                queue@.len() == i,
                forall|j: int|
                    0 <= j < i ==> (#[trigger] queue@[j]).0@ == committed_key(offsets@[j].0@)
                        && queue@[j].1@ == number_json(offsets@[j].1 as int),
            decreases offsets@.len() - i,
        {
            let key = make_committed_key(offsets[i].0.as_str());
            queue.push((key, Json::number(offsets[i].1)));
            i = i + 1;
        }
        let r = Writes { store: KVStore::new(SEQ_KV), queue };
        assert(r@.queue =~= commit_of(offset_views(offsets@)).queue);
        r
    }

    /// The request that the writes wait on, none once all are done.
    pub fn request(&self) -> (r: Option<Request>)
        ensures
            request_view(r) == self@.request(),
    {
        if self.queue.len() == 0 {
            None
        } else {
            Some(self.store.write(self.queue[0].0.as_str(), &self.queue[0].1))
        }
    }

    /// Whether a reply can be understood.
    pub fn accepts(&self, reply: &Json) -> (r: bool)
        ensures
            r == self@.understands(reply@),
    {
        KVStore::accepts_write(reply)
    }

    /// Goes on with the reply to the request, or without one.
    pub fn deliver(&mut self, reply: &Option<Json>)
        requires
            old(self)@.queue.len() > 0,
            *reply matches Some(reply) ==> old(self)@.understands(reply@),
        ensures
            final(self)@ == (match *reply {
                Some(reply) => old(self)@.after(reply@),
                None => old(self)@,
            }),
    {
        if reply.is_some() {
            let ghost before = self.queue@;
            self.queue.remove(0);
            assert(pair_views(self.queue@) =~= pair_views(before).drop_first());
        }
    }
}

/// What the work on a request of a client is.
#[verifier::ext_equal]
pub enum TaskView {
    Send(WritesView, Offset),
    Poll(PollView),
    Commit(WritesView),
    List(ListView),
}

impl TaskView {
    /// The request to a store that the work waits on.
    pub open spec fn request(self) -> Option<RequestView> {
        match self {
            TaskView::Send(t, _) => t.request(),
            TaskView::Poll(t) => t.request(),
            TaskView::Commit(t) => t.request(),
            TaskView::List(t) => t.request(),
        }
    }

    /// Whether a reply of the store can be understood.
    pub open spec fn understands(self, reply: JsonView) -> bool {
        match self {
            TaskView::Send(t, _) => t.understands(reply),
            TaskView::Poll(t) => t.understands(reply),
            TaskView::Commit(t) => t.understands(reply),
            TaskView::List(t) => t.understands(reply),
        }
    }

    /// The work once a reply of the store came.
    pub open spec fn after(self, reply: JsonView) -> Self {
        match self {
            TaskView::Send(t, offset) => TaskView::Send(t.after(reply), offset),
            TaskView::Poll(t) => TaskView::Poll(t.after(reply)),
            TaskView::Commit(t) => TaskView::Commit(t.after(reply)),
            TaskView::List(t) => TaskView::List(t.after(reply)),
        }
    }

    /// The answer to the client, once the work is done.
    pub open spec fn answer(self) -> JsonView {
        match self {
            TaskView::Send(_, offset) => typed("send_ok"@).with(
                "offset"@,
                number_json(offset as int),
            ),
            TaskView::Poll(t) => typed("poll_ok"@).with("msgs"@, JsonView::Object(t.found)),
            TaskView::Commit(_) => typed("commit_offsets_ok"@),
            TaskView::List(t) => typed("list_committed_offsets_ok"@).with(
                "offsets"@,
                JsonView::Object(t.found),
            ),
        }
    }
}

/// The work that a message asks for; one to be stored comes with its offset.
pub open spec fn task_of(msg: MessageView, offset: Offset) -> TaskView {
    if msg.msg_type == "send"@ {
        TaskView::Send(
            send_of(msg.body.field("key"@).text_or_empty(), msg.body.field("msg"@), offset),
            offset,
        )
    } else if msg.msg_type == "poll"@ {
        TaskView::Poll(poll_of(SEQ_KV@, offsets_of(msg.body.field("offsets"@)), Map::empty()))
    } else if msg.msg_type == "commit_offsets"@ {
        TaskView::Commit(commit_of(offsets_of(msg.body.field("offsets"@))))
    } else {
        TaskView::List(
            ListView {
                store: SEQ_KV@,
                queue: text_elements(msg.body.field("keys"@)),
                found: Map::empty(),
            },
        )
    }
}

/// The log that a message is to be stored in and that it needs an offset of, where
/// it is one to be stored.
pub open spec fn wanted_log(msg: MessageView) -> Option<Seq<char>> {
    if msg.msg_type == "send"@ {
        Some(msg.body.field("key"@).text_or_empty())
    } else {
        None
    }
}

/// The work on a request of a client.
#[derive(Debug)]
pub enum Task {
    Send(Writes, Offset),
    Poll(Poll),
    Commit(Writes),
    List(List),
}

impl View for Task {
    type V = TaskView;

    open spec fn view(&self) -> TaskView {
        match self {
            Task::Send(t, offset) => TaskView::Send(t@, *offset),
            Task::Poll(t) => TaskView::Poll(t@),
            Task::Commit(t) => TaskView::Commit(t@),
            Task::List(t) => TaskView::List(t@),
        }
    }
}

/// The log that a message needs an offset of before the work on it can begin.
pub fn log_wanted(msg: &Message) -> (r: Option<LogId>)
    ensures
        r is Some <==> wanted_log(msg@) is Some,
        r matches Some(log) ==> wanted_log(msg@) == Some(log@),
{
    if same_text(msg.msg_type.as_str(), "send") {
        Some(msg.body.field("key").text_or_empty())
    } else {
        None
    }
}

impl Task {
    /// Begins the work that a message asks for; one to be stored comes with its
    /// offset, which is of no matter to the others.
    pub fn new(msg: &Message, offset: Offset) -> (r: Task)
        requires
            can_handle(msg@),
        ensures
            r@ == task_of(msg@, offset),
    {
        proof {
            lemma_kinds();
        }
        let kind = msg.msg_type.as_str();
        if same_text(kind, "send") {
            let log_id = msg.body.field("key").text_or_empty();
            let writes = Writes::process_send(log_id.as_str(), msg.body.field("msg"), offset);
            return Task::Send(writes, offset);
        }
        if same_text(kind, "list_committed_offsets") {
            let keys = collect_texts(msg.body.field("keys"));
            return Task::List(List::process_list_commited_offsets(KVStore::new(SEQ_KV), keys));
        }
        let offsets = match read_offsets(msg.body.field("offsets")) {
            Some(offsets) => offsets,
            None => Vec::new(),
        };
        if same_text(kind, "poll") {
            Task::Poll(Poll::process_poll(KVStore::new(SEQ_KV), offsets))
        } else {
            Task::Commit(Writes::process_commited_offsets(&offsets))
        }
    }

    /// The request to a store that the work waits on, none once it is done.
    pub fn request(&self) -> (r: Option<Request>)
        ensures
            request_view(r) == self@.request(),
    {
        match self {
            Task::Send(t, _) => t.request(),
            Task::Poll(t) => t.request(),
            Task::Commit(t) => t.request(),
            Task::List(t) => t.request(),
        }
    }

    /// Whether a reply of the store can be understood.
    pub fn accepts(&self, reply: &Json) -> (r: bool)
        ensures
            r == self@.understands(reply@),
    {
        match self {
            Task::Send(t, _) => t.accepts(reply),
            Task::Poll(t) => t.accepts(reply),
            Task::Commit(t) => t.accepts(reply),
            Task::List(t) => t.accepts(reply),
        }
    }

    /// Goes on with the reply to the request; without one all stays as it is, and
    /// the request is to be sent again.
    pub fn deliver(&mut self, reply: &Option<Json>)
        requires
            old(self)@.request() is Some,
            *reply matches Some(reply) ==> old(self)@.understands(reply@),
        ensures
            final(self)@ == (match *reply {
                Some(reply) => old(self)@.after(reply@),
                None => old(self)@,
            }),
    {
        match self {
            Task::Send(t, _) => t.deliver(reply),
            Task::Poll(t) => t.deliver(reply),
            Task::Commit(t) => t.deliver(reply),
            Task::List(t) => t.deliver(reply),
        }
    }

    /// The answer to the client, once the work is done.
    pub fn answer(self) -> (r: Json)
        requires
            self@.request() is None,
        ensures
            r@ == self@.answer(),
    {
        match self {
            Task::Send(_, offset) => Json::typed("send_ok").with("offset", Json::number(offset)),
            Task::Poll(t) => Json::typed("poll_ok").with("msgs", t.into_found()),
            Task::Commit(_) => Json::typed("commit_offsets_ok"),
            Task::List(t) => Json::typed("list_committed_offsets_ok").with(
                "offsets",
                t.into_found(),
            ),
        }
    }
}

/// Every message that waits is in the batch of its log, and in that batch only
/// messages are that wait for an offset of that log.
pub proof fn law_batch_holds_the_messages_of_its_log(
    waiting: Seq<(Seq<char>, Ticket)>,
    log: Seq<char>,
    ticket: Ticket,
)
    ensures
        tickets_of(waiting, log).contains(ticket) <==> waiting.contains((log, ticket)),
    decreases waiting.len(),
{
    if waiting.len() > 0 {
        let rest = waiting.drop_last();
        let last = waiting.last();
        law_batch_holds_the_messages_of_its_log(rest, log, ticket);
        let tickets = tickets_of(rest, log);
        if tickets.contains(ticket) && last.0 == log {
            assert(tickets.push(last.1)[tickets.index_of(ticket)] == ticket);
        }
        if last == (log, ticket) {
            assert(tickets.push(last.1)[tickets.len() as int] == ticket);
            assert(waiting[waiting.len() - 1] == (log, ticket));
        }
        if rest.contains((log, ticket)) {
            assert(waiting[rest.index_of((log, ticket))] == (log, ticket));
        }
        if waiting.contains((log, ticket)) && last != (log, ticket) {
            assert(rest[waiting.index_of((log, ticket))] == (log, ticket));
        }
        if tickets_of(waiting, log).contains(ticket) && !tickets.contains(ticket) {
            assert(last.0 == log);
            let i = tickets.push(last.1).index_of(ticket);
            if i < tickets.len() {
                assert(tickets[i] == ticket);
            }
        }
    }
}

/// No message is lost: the batches hold as many messages of a log as wait for it.
pub proof fn law_batch_loses_no_message(waiting: Seq<(Seq<char>, Ticket)>, log: Seq<char>)
    ensures
        tickets_of(waiting, log).len() == waiting.filter(
            |w: (Seq<char>, Ticket)| w.0 == log,
        ).len(),
    decreases waiting.len(),
{
    reveal(Seq::filter);
    if waiting.len() > 0 {
        law_batch_loses_no_message(waiting.drop_last(), log);
    }
}

/// The messages of a batch get different offsets, all of them among those that the
/// batch has reserved, in the order in which they came.
pub proof fn law_batch_offsets_are_different(
    start: Offset,
    tickets: Seq<Ticket>,
    i: int,
    j: int,
)
    requires
        start + tickets.len() <= u64::MAX,
        0 <= i < j < tickets.len(),
    ensures
        start <= assignment(start, tickets)[i].1 < assignment(start, tickets)[j].1 < start
            + tickets.len(),
        assignment(start, tickets)[i].0 == tickets[i],
{
}

/// A message that is stored under its offset is polled back: a poll from that
/// offset on begins with the message. (The messages that follow end before the
/// largest offset, or fill the poll before it.)
pub proof fn law_sent_message_is_polled(
    kv: Map<Seq<char>, JsonView>,
    log: Seq<char>,
    value: JsonView,
    offset: Offset,
)
    requires
        offset < u64::MAX,
        ends_in_time(kv, log, (offset + 1) as u64, (MAX_ITEMS_PER_POLL - 1) as u64),
    ensures
        ({
            let t = TaskView::Send(send_of(log, value, offset), offset);
            let (after, reply) = served(kv, t.request()->0.body);
            let found = poll_all(
                poll_of(SEQ_KV@, seq![(log, offset)], Map::empty()),
                after,
            ).found;
            &&& t.understands(reply)
            &&& t.after(reply).request() is None
            &&& t.after(reply).answer().field("offset"@) == number_json(offset as int)
            &&& found.contains_key(log)
            &&& found[log] is Array
            &&& found[log]->Array_0.len() > 0
            &&& found[log]->Array_0[0] == entry_json(offset, value)
        }),
{
    let t = send_of(log, value, offset);
    assert(t.queue[0] == (entry_key(log, offset), value));
    law_store_writes(kv, entry_key(log, offset), value);
    let after = served(kv, t.request()->0.body).0;
    let queue = seq![(log, offset)];
    assert(queue[0] == (log, offset));
    assert(ends_in_time(after, log, offset, MAX_ITEMS_PER_POLL)) by {
        if offset + MAX_ITEMS_PER_POLL > u64::MAX {
            let o = choose|o: Offset|
                offset + 1 <= o && !kv.contains_key(#[trigger] entry_key(log, o));
            law_keys_are_different(log, log, o, offset);
            assert(!after.contains_key(entry_key(log, o)));
        }
    }
    law_stored_message_is_polled(after, SEQ_KV@, log, offset, queue, 0);
}

/// An offset that is committed is listed, in place of the one that was committed
/// before.
pub proof fn law_committed_offset_is_listed(
    kv: Map<Seq<char>, JsonView>,
    log: Seq<char>,
    offset: Offset,
)
    ensures
        ({
            let t = TaskView::Commit(commit_of(seq![(log, offset)]));
            let (after, reply) = served(kv, t.request()->0.body);
            let listed = list_all(
                ListView { store: SEQ_KV@, queue: seq![log], found: Map::empty() },
                after,
            ).found;
            &&& t.understands(reply)
            &&& t.after(reply).request() is None
            &&& t.after(reply).answer() == typed("commit_offsets_ok"@)
            &&& listed.contains_key(log)
            &&& listed[log] == number_json(offset as int)
        }),
{
    let c = commit_of(seq![(log, offset)]);
    assert(c.queue[0] == (committed_key(log), number_json(offset as int)));
    law_store_writes(kv, committed_key(log), number_json(offset as int));
    let after = served(kv, c.request()->0.body).0;
    let logs = seq![log];
    assert(logs[0] == log);
    assert(logs.contains(log));
    assert(number_json(offset as int).as_u64() == Some(offset));
    law_listing_gives_committed_offsets(after, SEQ_KV@, logs);
    assert(committed_of(after, log) == offset);
}

/// Whether work writes only what it is to write: the message of a log under its
/// offset, or the committed offsets of logs.
pub open spec fn proper(t: TaskView) -> bool {
    match t {
        TaskView::Send(w, offset) => exists|log: Seq<char>| #[trigger]
            writes_entries(w, log, offset),
        TaskView::Commit(w) => forall|i: int|
            0 <= i < w.queue.len() ==> is_committed_key(#[trigger] w.queue[i].0),
        _ => true,
    }
}

/// Whether all is written under an offset of a log.
pub open spec fn writes_entries(w: WritesView, log: Seq<char>, offset: Offset) -> bool {
    forall|i: int| 0 <= i < w.queue.len() ==> #[trigger] w.queue[i].0 == entry_key(log, offset)
}

/// Whether a key is that of the committed offset of a log.
pub open spec fn is_committed_key(key: Seq<char>) -> bool {
    exists|log: Seq<char>| key == #[trigger] committed_key(log)
}

/// The work on every message is proper from its beginning.
pub proof fn law_work_begins_proper(msg: MessageView, offset: Offset)
    ensures
        proper(task_of(msg, offset)),
{
    match task_of(msg, offset) {
        TaskView::Send(w, o) => {
            assert(writes_entries(w, msg.body.field("key"@).text_or_empty(), offset));
            assert(o == offset);
        },
        TaskView::Commit(w) => {
            let offsets = offsets_of(msg.body.field("offsets"@));
            assert forall|i: int| 0 <= i < w.queue.len() implies is_committed_key(
                #[trigger] w.queue[i].0,
            ) by {
                assert(w.queue[i].0 == committed_key(offsets[i].0));
            }
        },
        _ => {},
    }
}

/// Work that is proper stays so, whatever replies it goes on with.
pub proof fn law_work_stays_proper(t: TaskView, reply: JsonView)
    requires
        proper(t),
        t.request() is Some,
    ensures
        proper(t.after(reply)),
{
    match t {
        TaskView::Send(w, o) => {
            let log = choose|log: Seq<char>| #[trigger] writes_entries(w, log, o);
            let next = w.after(reply);
            assert forall|i: int| 0 <= i < next.queue.len() implies #[trigger] next.queue[i].0
                == entry_key(log, o) by {
                assert(w.queue[i + 1].0 == entry_key(log, o));
            }
            let after = t.after(reply);
            assert(writes_entries(after->Send_0, log, after->Send_1));
        },
        TaskView::Commit(w) => {
            let next = w.after(reply);
            assert forall|i: int| 0 <= i < next.queue.len() implies is_committed_key(
                #[trigger] next.queue[i].0,
            ) by {
                assert(is_committed_key(w.queue[i + 1].0));
            }
        },
        _ => {},
    }
}

/// A message in the store stays as it is, whatever request of whatever work the
/// store answers, but for that which stores a message under the same offset; and of
/// those there is one only, because no offset is reserved twice.
pub proof fn law_messages_are_not_overwritten(
    kv: Map<Seq<char>, JsonView>,
    t: TaskView,
    log: Seq<char>,
    offset: Offset,
)
    requires
        proper(t),
        t.request() is Some,
        kv.contains_key(entry_key(log, offset)),
        !(t matches TaskView::Send(w, o) && writes_entries(w, log, offset)),
    ensures
        ({
            let after = served(kv, t.request()->0.body).0;
            after.contains_key(entry_key(log, offset)) && after[entry_key(log, offset)]
                == kv[entry_key(log, offset)]
        }),
{
    match t {
        TaskView::Send(w, o) => {
            let l = choose|l: Seq<char>| #[trigger] writes_entries(w, l, o);
            assert(w.queue[0].0 == entry_key(l, o));
            law_store_writes(kv, entry_key(l, o), w.queue[0].1);
            law_keys_are_different(l, log, o, offset);
        },
        TaskView::Poll(p) => {
            let r = p.reading->0;
            law_store_reads(kv, entry_key(r.log, r.offset()));
        },
        TaskView::Commit(w) => {
            assert(is_committed_key(w.queue[0].0));
            let l = choose|l: Seq<char>| w.queue[0].0 == #[trigger] committed_key(l);
            law_store_writes(kv, committed_key(l), w.queue[0].1);
            law_keys_are_different(l, log, offset, offset);
        },
        TaskView::List(l) => {
            law_store_reads(kv, committed_key(l.queue[0]));
        },
    }
}

/// A batch holds the messages that wait for its log, each once and in the order in which
/// they came, and no others.
pub proof fn law_batch_keeps_the_order(waiting: Seq<(Seq<char>, Ticket)>, log: Seq<char>)
    ensures
        tickets_of(waiting, log) == waiting.filter(
            |w: (Seq<char>, Ticket)| w.0 == log,
        ).map_values(|w: (Seq<char>, Ticket)| w.1),
    decreases waiting.len(),
{
    reveal(Seq::filter);
    let pred = |w: (Seq<char>, Ticket)| w.0 == log;
    let ticket = |w: (Seq<char>, Ticket)| w.1;
    if waiting.len() > 0 {
        law_batch_keeps_the_order(waiting.drop_last(), log);
        assert(tickets_of(waiting, log) =~= waiting.filter(pred).map_values(ticket));
    } else {
        assert(tickets_of(waiting, log) =~= waiting.filter(pred).map_values(ticket));
    }
}

/// There is one batch for each log that messages wait for, and no other. It begins to
/// reserve, in the linearizable store, as many offsets of that log as messages wait for
/// it.
pub proof fn law_each_log_has_one_batch(waiting: Seq<(Seq<char>, Ticket)>, log: Seq<char>)
    ensures
        ({
            let batches = batches_of(waiting);
            let tickets = tickets_of(waiting, log);
            let batch = BatchView {
                reserve: ReserveView {
                    store: "lin-kv"@,
                    log,
                    count: tickets.len() as u64,
                    step: ReserveStep::Read,
                },
                tickets,
            };
            &&& tickets.len() > 0 <==> exists|i: int|
                0 <= i < batches.len() && #[trigger] batches[i] == batch
            &&& forall|i: int, j: int|
                0 <= i < j < batches.len() ==> (#[trigger] batches[i]).reserve.log != (
                #[trigger] batches[j]).reserve.log
            &&& forall|i: int|
                0 <= i < batches.len() && (#[trigger] batches[i]).reserve.log == log ==> batches[i]
                    == batch
        }),
{
    let logs = waiting_logs(waiting);
    let names = sorted_listing(logs);
    let batches = batches_of(waiting);
    let tickets = tickets_of(waiting, log);
    lemma_waiting_logs_finite(waiting);
    lemma_sorted_listing(logs);
    if tickets.len() > 0 {
        assert(logs.contains(log));
        assert(names.to_set().contains(log));
        let i = names.index_of(log);
        assert(batches[i] == batch_of(log, tickets));
    }
    assert forall|i: int| 0 <= i < batches.len() && (#[trigger] batches[i]).reserve.log
        == log implies batches[i] == batch_of(log, tickets) && tickets.len() > 0 by {
        assert(names[i] == log);
        assert(names.to_set().contains(names[i]));
    }
    assert forall|i: int, j: int| 0 <= i < j < batches.len() implies (
    #[trigger] batches[i]).reserve.log != (#[trigger] batches[j]).reserve.log by {
        assert(text_lt(names[i], names[j]));
        lemma_text_lt_irreflexive(names[i]);
    }
}

proof fn lemma_waiting_logs_finite(waiting: Seq<(Seq<char>, Ticket)>)
    ensures
        waiting_logs(waiting).finite(),
{
    let names = waiting.map_values(|w: (Seq<char>, Ticket)| w.0).to_set();
    assert forall|log: Seq<char>| #[trigger] waiting_logs(waiting).contains(
        log,
    ) implies names.contains(log) by {
        let ticket = tickets_of(waiting, log)[0];
        law_batch_holds_the_messages_of_its_log(waiting, log, ticket);
        assert(tickets_of(waiting, log).contains(ticket));
        let i = waiting.index_of((log, ticket));
        assert(waiting.map_values(|w: (Seq<char>, Ticket)| w.0)[i] == log);
    }
    assert(waiting_logs(waiting).subset_of(names));
}

/// Each message of a batch gets one offset: the first the first that is reserved, and
/// every next one the next.
pub proof fn law_offsets_are_given_in_turn(start: Offset, tickets: Seq<Ticket>, i: int)
    requires
        start + tickets.len() <= u64::MAX,
        0 <= i < tickets.len(),
    ensures
        assignment(start, tickets).len() == tickets.len(),
        assignment(start, tickets)[i].0 == tickets[i],
        assignment(start, tickets)[i].1 == start + i,
{
}

/// How writes go on. The first of those that are left is sent, and done with once its
/// reply says so; then all the others follow.
pub proof fn law_writes_go_on(w: WritesView, reply: JsonView)
    requires
        w.queue.len() > 0,
    ensures
        w.request() == Some(
            RequestView { dest: w.store, body: write_body(w.queue[0].0, w.queue[0].1) },
        ),
        w.understands(reply) <==> reply.field("type"@) == JsonView::Text("write_ok"@),
        w.after(reply).store == w.store,
        w.after(reply).queue == w.queue.skip(1),
        w.queue.len() == 1 ==> w.after(reply).request() is None,
{
    assert(w.queue.drop_first() =~= w.queue.skip(1));
}

/// The store once all writes are done, one after another.
pub open spec fn written(
    kv: Map<Seq<char>, JsonView>,
    queue: Seq<(Seq<char>, JsonView)>,
) -> Map<Seq<char>, JsonView>
    decreases queue.len(),
{
    if queue.len() == 0 {
        kv
    } else {
        written(
            served(kv, (WritesView { store: SEQ_KV@, queue }).request()->0.body).0,
            (WritesView { store: SEQ_KV@, queue }).after(
                served(kv, (WritesView { store: SEQ_KV@, queue }).request()->0.body).1,
            ).queue,
        )
    }
}

/// A commit of any number of logs that is served to its end leaves each of them with its
/// offset, and all other logs as they were.
pub proof fn law_commit_serves_every_log(
    kv: Map<Seq<char>, JsonView>,
    offsets: Seq<(Seq<char>, Offset)>,
)
    requires
        forall|i: int, j: int|
            0 <= i < j < offsets.len() ==> (#[trigger] offsets[i]).0 != (#[trigger] offsets[j]).0,
    ensures
        ({
            let after = written(kv, commit_of(offsets).queue);
            &&& commit_of(offsets).store == "seq-kv"@
            &&& forall|i: int|
                0 <= i < offsets.len() ==> committed_of(after, (#[trigger] offsets[i]).0)
                    == offsets[i].1
            &&& forall|log: Seq<char>|
                (forall|i: int| 0 <= i < offsets.len() ==> (#[trigger] offsets[i]).0 != log)
                    ==> #[trigger] committed_of(after, log) == committed_of(kv, log)
        }),
    decreases offsets.len(),
{
    if offsets.len() > 0 {
        let (log, offset) = offsets[0];
        let rest = offsets.drop_first();
        let w = commit_of(offsets);
        let new = number_json(offset as int);
        assert(w.queue[0] == (committed_key(log), new));
        law_store_writes(kv, committed_key(log), new);
        let after = kv.insert(committed_key(log), new);
        assert(w.queue.drop_first() =~= commit_of(rest).queue);
        assert(written(kv, w.queue) == written(after, commit_of(rest).queue));
        assert(new.as_u64() == Some(offset));
        assert(forall|i: int| 0 <= i < rest.len() ==> rest[i] == #[trigger] offsets[i + 1]);
        assert forall|i: int, j: int| 0 <= i < j < rest.len() implies (#[trigger] rest[i]).0 != (
        #[trigger] rest[j]).0 by {
            assert(offsets[i + 1].0 != offsets[j + 1].0);
        }
        assert forall|i: int| 0 <= i < rest.len() implies (#[trigger] rest[i]).0 != log by {
            assert(offsets[0].0 != offsets[i + 1].0);
        }
        assert forall|other: Seq<char>| other != log implies #[trigger] committed_of(after, other)
            == committed_of(kv, other) by {
            law_keys_are_different(log, other, 0, 0);
        }
        law_commit_serves_every_log(after, rest);
        let last = written(kv, w.queue);
        assert forall|i: int| 0 <= i < offsets.len() implies committed_of(
            last,
            (#[trigger] offsets[i]).0,
        ) == offsets[i].1 by {
            if i > 0 {
                assert(rest[i - 1] == offsets[i]);
            } else {
                assert(committed_of(last, log) == committed_of(after, log));
            }
        }
        assert forall|other: Seq<char>|
            (forall|i: int|
                0 <= i < offsets.len() ==> (#[trigger] offsets[i]).0
                    != other) implies #[trigger] committed_of(last, other) == committed_of(
            kv,
            other,
        ) by {
            assert(offsets[0].0 != other);
            assert forall|i: int| 0 <= i < rest.len() implies (#[trigger] rest[i]).0 != other by {
                assert(offsets[i + 1].0 != other);
            }
            assert(committed_of(after, other) == committed_of(kv, other));
        }
    }
}

/// A request to send needs an offset of the log that it names, and no other request does.
/// It is then one write of the message under that offset, to the sequential store, and is
/// answered with the offset.
pub proof fn law_send_request_is_served(
    kv: Map<Seq<char>, JsonView>,
    msg: MessageView,
    log: Seq<char>,
    offset: Offset,
    reply: JsonView,
)
    requires
        msg.msg_type == "send"@ ==> msg.body.field("key"@) == JsonView::Text(log),
    ensures
        msg.msg_type != "send"@ ==> wanted_log(msg) is None,
        msg.msg_type == "send"@ ==> {
            let t = task_of(msg, offset);
            &&& wanted_log(msg) == Some(log)
            &&& t.request() == Some(
                RequestView {
                    dest: "seq-kv"@,
                    body: write_body(entry_key(log, offset), msg.body.field("msg"@)),
                },
            )
            &&& t.after(reply).request() is None
            &&& t.after(reply).answer() == JsonView::Object(
                map![
                    "type"@ => JsonView::Text("send_ok"@),
                    "offset"@ => JsonView::Number(Numeral::Int(offset as int))
                ],
            )
        },
{
    if msg.msg_type == "send"@ {
        let w = send_of(log, msg.body.field("msg"@), offset);
        assert(w.queue[0] == (entry_key(log, offset), msg.body.field("msg"@)));
        assert(w.queue.drop_first() =~= Seq::empty());
    }
}

/// The work on a request to commit writes the offset of each log that it names; served to
/// its end it leaves each with that offset, and all others as they were.
pub proof fn law_commit_request_is_served(
    kv: Map<Seq<char>, JsonView>,
    msg: MessageView,
    given: Offset,
    log: Seq<char>,
    offset: Offset,
)
    requires
        msg.msg_type == "commit_offsets"@,
        is_offsets(msg.body.field("offsets"@)),
        msg.body.field("offsets"@)->Object_0.dom().finite(),
    ensures
        task_of(msg, given) is Commit,
        ({
            let named = msg.body.field("offsets"@).field(log);
            let t = task_of(msg, given);
            let after = written(kv, t->Commit_0.queue);
            &&& t->Commit_0.store == "seq-kv"@
            &&& t.answer() == JsonView::Object(
                map!["type"@ => JsonView::Text("commit_offsets_ok"@)],
            )
            &&& named == JsonView::Number(Numeral::Int(offset as int)) ==> committed_of(after, log)
                == offset
            &&& named == JsonView::Null ==> committed_of(after, log) == committed_of(kv, log)
        }),
{
    lemma_kinds();
    let value = msg.body.field("offsets"@);
    let offsets = offsets_of(value);
    law_each_log_is_named_once(value);
    law_commit_serves_every_log(kv, offsets);
    law_offsets_are_read_as_they_stand(value, log, offset);
    if value.field(log) == JsonView::Number(Numeral::Int(offset as int)) {
        let i = offsets.index_of((log, offset));
        assert(offsets[i] == (log, offset));
    }
    if value.field(log) == JsonView::Null {
        assert forall|i: int| 0 <= i < offsets.len() implies (#[trigger] offsets[i]).0 != log by {
            if offsets[i].0 == log {
                assert(offsets.contains((log, offsets[i].1)));
                law_offsets_are_read_as_they_stand(value, log, offsets[i].1);
            }
        }
    }
}

/// The work on a request to poll, and on one to list, is that of the workload on the
/// linearizable store, done on the sequential one; it is answered in the same way.
pub proof fn law_polls_and_listings_are_those_of_one_store(
    msg: MessageView,
    given: Offset,
    p: PollView,
    l: ListView,
)
    ensures
        msg.msg_type == "poll"@ ==> task_of(msg, given) is Poll && crate::kafka_b::task_of(
            "seq-kv"@,
            msg,
        ) is Poll && task_of(msg, given)->Poll_0 == crate::kafka_b::task_of(
            "seq-kv"@,
            msg,
        )->Poll_0,
        msg.msg_type == "list_committed_offsets"@ ==> task_of(msg, given) is List
            && crate::kafka_b::task_of("seq-kv"@, msg) is List && task_of(msg, given)->List_0
            == crate::kafka_b::task_of("seq-kv"@, msg)->List_0,
        TaskView::Poll(p).answer() == crate::kafka_b::TaskView::Poll(p).answer(),
        TaskView::List(l).answer() == crate::kafka_b::TaskView::List(l).answer(),
{
    lemma_kinds();
}

/// The work on a request goes on as its part does, whatever the reply, and keeps the
/// offset that it was given.
pub proof fn law_work_goes_on_as_its_part(t: TaskView, reply: JsonView)
    ensures
        t matches TaskView::Send(w, offset) ==> t.request() == w.request() && t.after(reply)
            == TaskView::Send(w.after(reply), offset) && t.understands(reply) == w.understands(
            reply,
        ),
        t matches TaskView::Poll(p) ==> t.request() == p.request() && t.after(reply)
            == TaskView::Poll(p.after(reply)) && t.understands(reply) == p.understands(reply),
        t matches TaskView::Commit(w) ==> t.request() == w.request() && t.after(reply)
            == TaskView::Commit(w.after(reply)) && t.understands(reply) == w.understands(reply),
        t matches TaskView::List(l) ==> t.request() == l.request() && t.after(reply)
            == TaskView::List(l.after(reply)) && t.understands(reply) == l.understands(reply),
{
}

/// A commit writes the offset of each log that it names under the name of that log, one
/// after another in their order, and no more.
pub proof fn law_commit_writes_each_offset(offsets: Seq<(Seq<char>, Offset)>, i: int)
    ensures
        commit_of(offsets).store == "seq-kv"@,
        commit_of(offsets).queue.len() == offsets.len(),
        offsets.len() == 0 ==> commit_of(offsets).request() is None,
        0 <= i < offsets.len() ==> commit_of(offsets).queue[i] == (
            offsets[i].0 + "_committed"@,
            JsonView::Number(Numeral::Int(offsets[i].1 as int)),
        ),
{
    if 0 <= i < offsets.len() {
        law_keys_are_named_after_the_log(offsets[i].0, 0);
    }
}

/// Work that is done is answered with what it has come to.
pub proof fn law_answers_give_what_was_done(t: TaskView)
    ensures
        t matches TaskView::Send(_, offset) ==> t.answer() == JsonView::Object(
            map![
                "type"@ => JsonView::Text("send_ok"@),
                "offset"@ => JsonView::Number(Numeral::Int(offset as int))
            ],
        ),
        t matches TaskView::Poll(p) ==> t.answer() == JsonView::Object(
            map!["type"@ => JsonView::Text("poll_ok"@), "msgs"@ => JsonView::Object(p.found)],
        ),
        t is Commit ==> t.answer() == JsonView::Object(
            map!["type"@ => JsonView::Text("commit_offsets_ok"@)],
        ),
        t matches TaskView::List(l) ==> t.answer() == JsonView::Object(
            map![
                "type"@ => JsonView::Text("list_committed_offsets_ok"@),
                "offsets"@ => JsonView::Object(l.found)
            ],
        ),
{
}

/// Waiting messages, batches and writes are seen as what they are. Messages are gathered
/// for ten milliseconds.
pub proof fn law_batches_are_seen_as_they_are(
    waiting: Seq<(LogId, Ticket)>,
    batches: Seq<Batch>,
    pairs: Seq<(String, Json)>,
    i: int,
)
    ensures
        waiting_views(waiting).len() == waiting.len(),
        0 <= i < waiting.len() ==> waiting_views(waiting)[i] == (waiting[i].0@, waiting[i].1),
        batch_views(batches).len() == batches.len(),
        0 <= i < batches.len() ==> batch_views(batches)[i] == batches[i]@,
        pair_views(pairs).len() == pairs.len(),
        0 <= i < pairs.len() ==> pair_views(pairs)[i] == (pairs[i].0@, pairs[i].1@),
        BATCH_INTERVAL_MILLIS == 10,
{
}



} // verus!
