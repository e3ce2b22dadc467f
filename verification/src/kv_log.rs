//! Logs kept in a key-value store: where a log keeps its messages, its next free
//! offset and its committed offset, and the steps that reserve offsets and read.
//!
//! Each task is a state machine. It names the request that it waits on and is told
//! the reply, or that none came in time: then it stays as it is, and the request
//! is sent again.
use vstd::prelude::*;
use crate::json::{
    alike, json_views, law_equality_is_reflexive, lemma_object_view, number_json, object_view, Json,
    JsonView, Numeral,
};
use crate::kv::{
    cas_body, cas_understood, is_cas_ok, law_replies_say_what_happened, law_store_reads,
    law_store_replaces, read_body, read_understood, read_value, request_view, served, KVStore,
    Request, RequestView,
};
use crate::node::texts;
use crate::offsets::{entry_json, offset_views, LogId, Offset};
use crate::strmap::StrMap;
use crate::text::{
    all_digits, decimal, decimal_text, joined, law_joined_holds_both,
    law_numeral_stands_for_its_number, lemma_decimal_digits, lemma_decimal_injective,
    lemma_decimal_without, lemma_joined_injective, value_of,
};

verus! {

/// The most messages of a log that one poll gives.
pub const MAX_ITEMS_PER_POLL: u64 = 10;

/// The key of the next free offset of a log.
pub open spec fn next_key(log: Seq<char>) -> Seq<char> {
    joined(log, '_', "next"@)
}

/// The key of a message of a log.
pub open spec fn entry_key(log: Seq<char>, offset: Offset) -> Seq<char> {
    joined(log, '_', decimal(offset as nat))
}

/// The key of the committed offset of a log.
pub open spec fn committed_key(log: Seq<char>) -> Seq<char> {
    joined(log, '_', "committed"@)
}

fn joined_text(a: &str, b: &str) -> (r: String)
    ensures
        r@ == joined(a@, '_', b@),
{
    proof {
        reveal_strlit("_");
    }
    let mut r = a.to_owned();
    r.append("_");
    r.append(b);
    assert(r@ =~= joined(a@, '_', b@));
    r
}

/// Writes the key of the next free offset of a log.
pub fn make_next_key(log: &str) -> (r: String)
    ensures
        r@ == next_key(log@),
{
    joined_text(log, "next")
}

/// Writes the key of a message of a log.
pub fn make_entry_key(log: &str, offset: Offset) -> (r: String)
    ensures
        r@ == entry_key(log@, offset),
{
    joined_text(log, decimal_text(offset).as_str())
}

/// Writes the key of the committed offset of a log.
pub fn make_committed_key(log: &str) -> (r: String)
    ensures
        r@ == committed_key(log@),
{
    joined_text(log, "committed")
}

/// No two things are kept under the same key: not those of different logs, not
/// different messages of a log, and no message where an offset is kept.
pub proof fn law_keys_are_different(a: Seq<char>, b: Seq<char>, i: Offset, j: Offset)
    ensures
        next_key(a) == next_key(b) ==> a == b,
        committed_key(a) == committed_key(b) ==> a == b,
        entry_key(a, i) == entry_key(b, j) ==> a == b && i == j,
        next_key(a) != committed_key(b),
        next_key(a) != entry_key(b, i),
        committed_key(a) != entry_key(b, i),
{
    reveal_strlit("next");
    reveal_strlit("committed");
    lemma_decimal_without(i as nat, '_');
    lemma_decimal_without(j as nat, '_');
    lemma_decimal_digits(i as nat);
    let n = "next"@;
    let c = "committed"@;
    let d = decimal(i as nat);
    assert(n.len() == 4);
    assert(c.len() == 9);
    assert(n[0] == 'n');
    assert(c[0] == 'c');
    assert('0' <= d[0] <= '9');
    assert(!n.contains('_'));
    assert(!c.contains('_'));
    if next_key(a) == next_key(b) {
        lemma_joined_injective(a, n, b, n, '_');
    }
    if committed_key(a) == committed_key(b) {
        lemma_joined_injective(a, c, b, c, '_');
    }
    if entry_key(a, i) == entry_key(b, j) {
        lemma_joined_injective(a, d, b, decimal(j as nat), '_');
        lemma_decimal_injective(i as nat, j as nat);
    }
    if next_key(a) == committed_key(b) {
        lemma_joined_injective(a, n, b, c, '_');
    }
    if next_key(a) == entry_key(b, i) {
        lemma_joined_injective(a, n, b, d, '_');
    }
    if committed_key(a) == entry_key(b, i) {
        lemma_joined_injective(a, c, b, d, '_');
    }
}

/// The next free offset that a value stands for.
pub open spec fn offset_of(value: JsonView) -> Offset {
    match value.as_u64() {
        Some(offset) => offset,
        None => 0,
    }
}

/// Where a reservation stands: it reads the next free offset, or tries to replace
/// the value that it has read, or is done and has the offsets from the given one.
#[verifier::ext_equal]
pub enum ReserveStep {
    Read,
    Cas(JsonView),
    Done(Offset),
}

/// What a reservation of `count` offsets of a log is.
#[verifier::ext_equal]
pub struct ReserveView {
    pub store: Seq<char>,
    pub log: Seq<char>,
    pub count: u64,
    pub step: ReserveStep,
}

impl ReserveView {
    /// The request that the reservation waits on.
    pub open spec fn request(self) -> Option<RequestView> {
        match self.step {
            ReserveStep::Read => Some(
                RequestView { dest: self.store, body: read_body(next_key(self.log)) },
            ),
            ReserveStep::Cas(current) => Some(
                RequestView {
                    dest: self.store,
                    body: cas_body(
                        next_key(self.log),
                        current,
                        number_json(offset_of(current) + self.count),
                        true,
                    ),
                },
            ),
            ReserveStep::Done(_) => None,
        }
    }

    /// Whether a reply can be understood, and leaves offsets to reserve.
    pub open spec fn understands(self, reply: JsonView) -> bool {
        match self.step {
            ReserveStep::Read => read_understood(reply) && (read_value(reply) matches Some(v)
                ==> offset_of(v) + self.count <= u64::MAX),
            ReserveStep::Cas(_) => cas_understood(reply),
            ReserveStep::Done(_) => true,
        }
    }

    /// The reservation once a reply came: a log without a next free offset starts
    /// at 0, and where another took the offsets first all starts again.
    pub open spec fn after(self, reply: JsonView) -> Self {
        ReserveView {
            step: match self.step {
                ReserveStep::Read => match read_value(reply) {
                    Some(v) => ReserveStep::Cas(v),
                    None => ReserveStep::Cas(number_json(0)),
                },
                ReserveStep::Cas(current) => if is_cas_ok(reply) {
                    ReserveStep::Done(offset_of(current))
                } else {
                    ReserveStep::Read
                },
                ReserveStep::Done(start) => ReserveStep::Done(start),
            },
            ..self
        }
    }
}

/// Where a reservation stands.
#[derive(Debug)]
enum Reserving {
    Read,
    Cas(Json),
    Done(Offset),
}

/// A reservation of offsets.
#[derive(Debug)]
pub struct Reservation {
    store: KVStore,
    log_id: LogId,
    count: u64,
    step: Reserving,
}

impl View for Reservation {
    type V = ReserveView;

    closed spec fn view(&self) -> ReserveView {
        ReserveView {
            store: self.store.name@,
            log: self.log_id@,
            count: self.count,
            step: match self.step {
                Reserving::Read => ReserveStep::Read,
                Reserving::Cas(current) => ReserveStep::Cas(current@),
                Reserving::Done(start) => ReserveStep::Done(start),
            },
        }
    }
}

/// The next free offset that a value stands for.
fn read_offset(value: &Json) -> (r: Offset)
    ensures
        r == offset_of(value@),
{
    match value.as_u64() {
        Some(offset) => offset,
        None => 0,
    }
}

impl Reservation {
    /// The offsets that it tries to take, and those that it has, are numbers.
    #[verifier::type_invariant]
    closed spec fn bounded(self) -> bool {
        match self.step {
            Reserving::Read => true,
            Reserving::Cas(current) => offset_of(current@) + self.count <= u64::MAX,
            Reserving::Done(start) => start + self.count <= u64::MAX,
        }
    }

    /// Begins to reserve `count` offsets of a log.
    pub fn reserve_offsets(store: KVStore, log_id: &str, count: u64) -> (r: Reservation)
        ensures
            r@ == (ReserveView {
                store: store.name@,
                log: log_id@,
                count,
                step: ReserveStep::Read,
            }),
    {
        Reservation { store, log_id: log_id.to_owned(), count, step: Reserving::Read }
    }

    /// The request that the reservation waits on, none once it is done.
    pub fn request(&self) -> (r: Option<Request>)
        ensures
            request_view(r) == self@.request(),
    {
        proof {
            use_type_invariant(self);
        }
        match &self.step {
            Reserving::Read => Some(self.store.read(make_next_key(self.log_id.as_str()).as_str())),
            Reserving::Cas(current) => {
                let next = read_offset(current) + self.count;
                Some(
                    self.store.cas(
                        make_next_key(self.log_id.as_str()).as_str(),
                        current,
                        &Json::number(next),
                        true,
                    ),
                )
            },
            Reserving::Done(_) => None,
        }
    }

    /// Whether a reply can be understood, and leaves offsets to reserve.
    pub fn accepts(&self, reply: &Json) -> (r: bool)
        ensures
            r == self@.understands(reply@),
    {
        match &self.step {
            Reserving::Read => {
                if !KVStore::accepts_read(reply) {
                    return false;
                }
                match KVStore::read_result(reply) {
                    Ok(value) => read_offset(&value) <= u64::MAX - self.count,
                    Err(_) => true,
                }
            },
            Reserving::Cas(_) => KVStore::accepts_cas(reply),
            Reserving::Done(_) => true,
        }
    }

    /// Goes on with the reply to the request, or without one.
    pub fn deliver(&mut self, reply: &Option<Json>)
        requires
            *reply matches Some(reply) ==> old(self)@.understands(reply@),
        ensures
            final(self)@ == (match *reply {
                Some(reply) => old(self)@.after(reply@),
                None => old(self)@,
            }),
    {
        proof {
            use_type_invariant(&*self);
        }
        if let Some(reply) = reply {
            let step = match &self.step {
                Reserving::Read => match KVStore::read_result(reply) {
                    Ok(value) => Reserving::Cas(value),
                    Err(_) => Reserving::Cas(Json::number(0)),
                },
                Reserving::Cas(current) => match KVStore::cas_result(reply) {
                    Ok(()) => Reserving::Done(read_offset(current)),
                    Err(_) => Reserving::Read,
                },
                Reserving::Done(start) => Reserving::Done(*start),
            };
            self.step = step;
        }
    }

    /// The first of the reserved offsets, once they are.
    pub fn start(&self) -> (r: Option<Offset>)
        ensures
            r == (match self@.step {
                ReserveStep::Done(start) => Some(start),
                _ => None,
            }),
            r matches Some(start) ==> start + self@.count <= u64::MAX,
    {
        proof {
            use_type_invariant(self);
        }
        match &self.step {
            Reserving::Done(start) => Some(*start),
            _ => None,
        }
    }
}

/// The next free offset of a log in a store, 0 where the store has none.
pub open spec fn next_of(store: Map<Seq<char>, JsonView>, log: Seq<char>) -> Offset {
    if store.contains_key(next_key(log)) {
        offset_of(store[next_key(log)])
    } else {
        0
    }
}

/// A reservation takes offsets that no one had: none below the next free offset,
/// which afterwards lies behind all of them. As long as it has not taken them it
/// changes nothing, and it never touches another log.
pub proof fn law_reservation_takes_fresh_offsets(
    store: Map<Seq<char>, JsonView>,
    r: ReserveView,
    log: Seq<char>,
)
    requires
        !(r.step is Done),
        r.step matches ReserveStep::Cas(current) ==> offset_of(current) + r.count <= u64::MAX,
    ensures
        ({
            let (after, reply) = served(store, r.request()->0.body);
            match r.after(reply).step {
                ReserveStep::Done(start) => {
                    &&& next_of(store, r.log) <= start
                    &&& next_of(after, r.log) == start + r.count
                    &&& log != r.log ==> next_of(after, log) == next_of(store, log)
                },
                _ => after == store,
            }
        }),
{
    law_keys_are_different(r.log, log, 0, 0);
    law_store_reads(store, next_key(r.log));
    if let ReserveStep::Cas(current) = r.step {
        let next = number_json(offset_of(current) + r.count);
        law_store_replaces(store, next_key(r.log), current, next);
        assert(next.as_u64() == Some((offset_of(current) + r.count) as u64));
        if store.contains_key(next_key(r.log)) && alike(store[next_key(r.log)], current) {
            lemma_alike_offsets(store[next_key(r.log)], current);
        }
    }
}

/// Equal values stand for the same offset.
pub(crate) proof fn lemma_alike_offsets(a: JsonView, b: JsonView)
    requires
        alike(a, b),
    ensures
        a.as_u64() == b.as_u64(),
{
}

/// No offset is reserved twice: of two reservations of a log, the offsets of the
/// one that came through later lie behind those of the other, as long as the next
/// free offset was not lowered in between.
pub proof fn law_reservations_do_not_overlap(
    earlier: Map<Seq<char>, JsonView>,
    first: ReserveView,
    later: Map<Seq<char>, JsonView>,
    second: ReserveView,
)
    requires
        first.log == second.log,
        first.step is Cas,
        second.step is Cas,
        offset_of(first.step->Cas_0) + first.count <= u64::MAX,
        offset_of(second.step->Cas_0) + second.count <= u64::MAX,
        first.after(served(earlier, first.request()->0.body).1).step is Done,
        second.after(served(later, second.request()->0.body).1).step is Done,
        next_of(served(earlier, first.request()->0.body).0, first.log) <= next_of(
            later,
            first.log,
        ),
    ensures
        first.after(served(earlier, first.request()->0.body).1).step->Done_0 + first.count
            <= second.after(served(later, second.request()->0.body).1).step->Done_0,
{
    law_reservation_takes_fresh_offsets(earlier, first, first.log);
    law_reservation_takes_fresh_offsets(later, second, first.log);
}

/// A reservation that no one disturbs takes the next free offsets: it reads,
/// replaces and is done.
pub proof fn law_undisturbed_reservation_succeeds(
    store: Map<Seq<char>, JsonView>,
    r: ReserveView,
)
    requires
        r.step is Read,
        next_of(store, r.log) + r.count <= u64::MAX,
    ensures
        ({
            let (read, found) = served(store, r.request()->0.body);
            let tries = r.after(found);
            let (after, reply) = served(read, tries.request()->0.body);
            &&& r.understands(found)
            &&& tries.understands(reply)
            &&& tries.after(reply).step == ReserveStep::Done(next_of(store, r.log))
            &&& after == store.insert(
                next_key(r.log),
                number_json(next_of(store, r.log) + r.count),
            )
        }),
{
    law_store_reads(store, next_key(r.log));
    let found = served(store, r.request()->0.body).1;
    let tries = r.after(found);
    let current = tries.step->Cas_0;
    law_store_replaces(
        store,
        next_key(r.log),
        current,
        number_json(offset_of(current) + r.count),
    );
    law_equality_is_reflexive(current);
}

/// What the reading of a log is: it has found the messages `entries` from the
/// offset `from` on, and takes at most `max_items`, but at least one.
#[verifier::ext_equal]
pub struct LogReadView {
    pub store: Seq<char>,
    pub log: Seq<char>,
    pub from: Offset,
    pub max_items: u64,
    pub entries: Seq<JsonView>,
    pub done: bool,
}

/// A reading of a log that has not begun.
pub open spec fn read_from(
    store: Seq<char>,
    log: Seq<char>,
    from: Offset,
    max_items: u64,
) -> LogReadView {
    LogReadView { store, log, from, max_items, entries: Seq::empty(), done: false }
}

impl LogReadView {
    /// The offset that is read next.
    pub open spec fn offset(self) -> Offset {
        (self.from + self.entries.len()) as u64
    }

    /// The request that the reading waits on.
    pub open spec fn request(self) -> Option<RequestView> {
        if self.done {
            None
        } else {
            Some(
                RequestView {
                    dest: self.store,
                    body: read_body(entry_key(self.log, self.offset())),
                },
            )
        }
    }

    /// Whether a reply can be understood, and a message that it holds leaves an
    /// offset for the next.
    pub open spec fn understands(self, reply: JsonView) -> bool {
        read_understood(reply) && (read_value(reply) is Some ==> self.from + self.entries.len()
            < u64::MAX)
    }

    /// The reading once a reply came: it ends where there is no message, and when
    /// it has as many as it may take. One that has ended stays as it is.
    pub open spec fn after(self, reply: JsonView) -> Self {
        if self.done {
            self
        } else {
            match read_value(reply) {
                Some(v) => LogReadView {
                    entries: self.entries.push(entry_json(self.offset(), v)),
                    done: self.entries.len() + 1 >= self.max_items,
                    ..self
                },
                None => LogReadView { done: true, ..self },
            }
        }
    }
}

/// A reading of a log.
#[derive(Debug)]
pub struct LogRead {
    store: KVStore,
    log_id: LogId,
    from_offset: Offset,
    max_items: u64,
    entries: Vec<Json>,
    done: bool,
}

impl View for LogRead {
    type V = LogReadView;

    closed spec fn view(&self) -> LogReadView {
        LogReadView {
            store: self.store.name@,
            log: self.log_id@,
            from: self.from_offset,
            max_items: self.max_items,
            entries: json_views(self.entries@),
            done: self.done,
        }
    }
}

impl LogRead {
    /// The next offset is a number.
    #[verifier::type_invariant]
    closed spec fn bounded(self) -> bool {
        self.from_offset + self.entries@.len() <= u64::MAX
    }

    /// Begins to read a log.
    pub fn read_log(store: &KVStore, log_id: &str, from_offset: Offset, max_items: u64) -> (r:
        LogRead)
        ensures
            r@ == read_from(store.name@, log_id@, from_offset, max_items),
    {
        let r = LogRead {
            store: KVStore::new(store.name.as_str()),
            log_id: log_id.to_owned(),
            from_offset,
            max_items,
            entries: Vec::new(),
            done: false,
        };
        assert(r@.entries =~= Seq::empty());
        r
    }

    /// The request that the reading waits on, none once it is done.
    pub fn request(&self) -> (r: Option<Request>)
        ensures
            request_view(r) == self@.request(),
    {
        proof {
            use_type_invariant(self);
        }
        if self.done {
            return None;
        }
        let offset = self.from_offset + self.entries.len() as u64;
        Some(self.store.read(make_entry_key(self.log_id.as_str(), offset).as_str()))
    }

    /// Whether a reply can be understood, and leaves an offset for what follows.
    pub fn accepts(&self, reply: &Json) -> (r: bool)
        ensures
            r == self@.understands(reply@),
    {
        proof {
            use_type_invariant(self);
        }
        if !KVStore::accepts_read(reply) {
            return false;
        }
        match KVStore::read_result(reply) {
            Ok(_) => self.from_offset + (self.entries.len() as u64) < u64::MAX,
            Err(_) => true,
        }
    }

    /// Goes on with the reply to the request, or without one.
    pub fn deliver(&mut self, reply: &Option<Json>)
        requires
            *reply matches Some(reply) ==> old(self)@.understands(reply@),
        ensures
            final(self)@ == (match *reply {
                Some(reply) => old(self)@.after(reply@),
                None => old(self)@,
            }),
    {
        proof {
            use_type_invariant(&*self);
        }
        if self.done {
            return;
        }
        if let Some(reply) = reply {
            match KVStore::read_result(reply) {
                Ok(value) => {
                    let offset = self.from_offset + self.entries.len() as u64;
                    let mut entry: Vec<Json> = Vec::new();
                    entry.push(Json::number(offset));
                    entry.push(value);
                    assert(json_views(entry@) =~= entry_json(offset, value@)->Array_0);
                    let mut entries: Vec<Json> = Vec::new();
                    std::mem::swap(&mut entries, &mut self.entries);
                    let ghost before = entries@;
                    entries.push(Json::Array(entry));
                    assert(json_views(entries@) =~= json_views(before).push(
                        entry_json(offset, value@),
                    ));
                    self.entries = entries;
                    self.done = self.entries.len() as u64 >= self.max_items;
                },
                Err(_) => {
                    self.done = true;
                },
            }
        }
    }

    /// The log that is read.
    fn log_name(&self) -> (r: LogId)
        ensures
            r@ == self@.log,
    {
        self.log_id.clone()
    }

    /// The messages found, once the reading is done.
    pub fn into_entries(self) -> (r: Vec<Json>)
        ensures
            json_views(r@) == self@.entries,
    {
        self.entries
    }
}

/// What a poll is: the log that it reads, the logs still to read, and what it has
/// found of the others.
#[verifier::ext_equal]
pub struct PollView {
    pub store: Seq<char>,
    pub reading: Option<LogReadView>,
    pub queue: Seq<(Seq<char>, Offset)>,
    pub found: Map<Seq<char>, JsonView>,
}

/// A poll that goes on with the first of the logs still to read, or ends.
pub open spec fn poll_of(
    store: Seq<char>,
    queue: Seq<(Seq<char>, Offset)>,
    found: Map<Seq<char>, JsonView>,
) -> PollView {
    if queue.len() == 0 {
        PollView { store, reading: None, queue, found }
    } else {
        PollView {
            store,
            reading: Some(read_from(store, queue[0].0, queue[0].1, MAX_ITEMS_PER_POLL)),
            queue: queue.drop_first(),
            found,
        }
    }
}

impl PollView {
    /// The request that the poll waits on.
    pub open spec fn request(self) -> Option<RequestView> {
        match self.reading {
            Some(reading) => reading.request(),
            None => None,
        }
    }

    /// Whether a reply can be understood.
    pub open spec fn understands(self, reply: JsonView) -> bool {
        self.reading matches Some(reading) ==> reading.understands(reply)
    }

    /// The poll once a reply came.
    pub open spec fn after(self, reply: JsonView) -> Self {
        match self.reading {
            Some(reading) => {
                let next = reading.after(reply);
                if next.done {
                    poll_of(
                        self.store,
                        self.queue,
                        self.found.insert(next.log, JsonView::Array(next.entries)),
                    )
                } else {
                    PollView { reading: Some(next), ..self }
                }
            },
            None => self,
        }
    }
}

/// A poll of logs.
#[derive(Debug)]
pub struct Poll {
    store: KVStore,
    reading: Option<LogRead>,
    queue: Vec<(LogId, Offset)>,
    found: StrMap<Json>,
}

impl View for Poll {
    type V = PollView;

    closed spec fn view(&self) -> PollView {
        PollView {
            store: self.store.name@,
            reading: match self.reading {
                Some(reading) => Some(reading@),
                None => None,
            },
            queue: offset_views(self.queue@),
            found: object_view(self.found),
        }
    }
}

impl Poll {
    /// Begins to poll logs, each from an offset on.
    pub fn process_poll(store: KVStore, offsets: Vec<(LogId, Offset)>) -> (r: Poll)
        ensures
            r@ == poll_of(store.name@, offset_views(offsets@), Map::empty()),
    {
        let mut r = Poll { store, reading: None, queue: offsets, found: StrMap::new() };
        proof {
            lemma_object_view(r.found);
            assert(r@.found =~= Map::empty());
        }
        r.go_on();
        r
    }

    /// Goes on with the first of the logs still to read.
    fn go_on(&mut self)
        requires
            old(self)@.reading is None,
        ensures
            final(self)@ == poll_of(old(self)@.store, old(self)@.queue, old(self)@.found),
    {
        if self.queue.len() > 0 {
            let ghost before = self.queue@;
            let (log_name, offset) = self.queue.remove(0);
            self.reading = Some(
                LogRead::read_log(&self.store, log_name.as_str(), offset, MAX_ITEMS_PER_POLL),
            );
            assert(offset_views(self.queue@) =~= offset_views(before).drop_first());
        }
    }

    /// The request that the poll waits on, none once it is done.
    pub fn request(&self) -> (r: Option<Request>)
        ensures
            request_view(r) == self@.request(),
    {
        match &self.reading {
            Some(reading) => reading.request(),
            None => None,
        }
    }

    /// Whether a reply can be understood.
    pub fn accepts(&self, reply: &Json) -> (r: bool)
        ensures
            r == self@.understands(reply@),
    {
        match &self.reading {
            Some(reading) => reading.accepts(reply),
            None => true,
        }
    }

    /// Goes on with the reply to the request, or without one.
    pub fn deliver(&mut self, reply: &Option<Json>)
        requires
            *reply matches Some(reply) ==> old(self)@.understands(reply@),
        ensures
            final(self)@ == (match *reply {
                Some(reply) => old(self)@.after(reply@),
                None => old(self)@,
            }),
    {
        if reply.is_none() {
            return;
        }
        let mut current: Option<LogRead> = None;
        std::mem::swap(&mut current, &mut self.reading);
        if let Some(mut reading) = current {
            reading.deliver(reply);
            if reading.request().is_none() {
                let name = reading.log_name();
                let entries = reading.into_entries();
                let ghost before = self.found;
                self.found.insert(name, Json::Array(entries));
                proof {
                    lemma_object_view(before);
                    lemma_object_view(self.found);
                    assert(object_view(self.found) =~= object_view(before).insert(
                        name@,
                        JsonView::Array(json_views(entries@)),
                    ));
                }
                self.go_on();
            } else {
                self.reading = Some(reading);
            }
        }
    }

    /// What the poll has found of each log.
    pub fn into_found(self) -> (r: Json)
        ensures
            r@ == JsonView::Object(self@.found),
    {
        Json::Object(self.found)
    }
}

/// What a listing of committed offsets is: the logs still to ask for, and the
/// offsets of the others.
#[verifier::ext_equal]
pub struct ListView {
    pub store: Seq<char>,
    pub queue: Seq<Seq<char>>,
    pub found: Map<Seq<char>, JsonView>,
}

impl ListView {
    /// The request that the listing waits on.
    pub open spec fn request(self) -> Option<RequestView> {
        if self.queue.len() == 0 {
            None
        } else {
            Some(RequestView { dest: self.store, body: read_body(committed_key(self.queue[0])) })
        }
    }

    /// Whether a reply can be understood: a value that it holds is an offset.
    pub open spec fn understands(self, reply: JsonView) -> bool {
        read_understood(reply) && (read_value(reply) matches Some(v) ==> v.as_u64() is Some)
    }

    /// The listing once a reply came: a log without a committed offset has 0.
    pub open spec fn after(self, reply: JsonView) -> Self {
        ListView {
            queue: self.queue.drop_first(),
            found: self.found.insert(
                self.queue[0],
                match read_value(reply) {
                    Some(v) => number_json(v.as_u64()->0 as int),
                    None => number_json(0),
                },
            ),
            ..self
        }
    }
}

/// A listing of committed offsets.
#[derive(Debug)]
pub struct List {
    store: KVStore,
    queue: Vec<LogId>,
    found: StrMap<Json>,
}

impl View for List {
    type V = ListView;

    closed spec fn view(&self) -> ListView {
        ListView {
            store: self.store.name@,
            queue: texts(self.queue@),
            found: object_view(self.found),
        }
    }
}

impl List {
    /// Begins to list the committed offsets of logs.
    pub fn process_list_commited_offsets(store: KVStore, keys: Vec<LogId>) -> (r: List)
        ensures
            r@ == (ListView { store: store.name@, queue: texts(keys@), found: Map::empty() }),
    {
        let r = List { store, queue: keys, found: StrMap::new() };
        proof {
            lemma_object_view(r.found);
            assert(r@.found =~= Map::empty());
        }
        r
    }

    /// The request that the listing waits on, none once it is done.
    pub fn request(&self) -> (r: Option<Request>)
        ensures
            request_view(r) == self@.request(),
    {
        if self.queue.len() == 0 {
            None
        } else {
            Some(self.store.read(make_committed_key(self.queue[0].as_str()).as_str()))
        }
    }

    /// Whether a reply can be understood.
    pub fn accepts(&self, reply: &Json) -> (r: bool)
        ensures
            r == self@.understands(reply@),
    {
        if !KVStore::accepts_read(reply) {
            return false;
        }
        match KVStore::read_result(reply) {
            Ok(value) => value.as_u64().is_some(),
            Err(_) => true,
        }
    }

    /// Goes on with the reply to the request, or without one.
    pub fn deliver(&mut self, reply: &Option<Json>)
        requires
            old(self)@.queue.len() > 0,
            *reply matches Some(reply) ==> old(self)@.understands(reply@),
        ensures
            final(self)@ == (match *reply {
                Some(reply) => old(self)@.after(reply@),
                None => old(self)@,
            }),
    {
        if let Some(reply) = reply {
            let offset = match KVStore::read_result(reply) {
                Ok(value) => read_offset(&value),
                Err(_) => 0,
            };
            let ghost logs = self.queue@;
            let name = self.queue.remove(0);
            let ghost before = self.found;
            self.found.insert(name, Json::number(offset));
            proof {
                lemma_object_view(before);
                lemma_object_view(self.found);
                assert(object_view(self.found) =~= object_view(before).insert(
                    name@,
                    number_json(offset as int),
                ));
                assert(texts(self.queue@) =~= texts(logs).drop_first());
            }
        }
    }

    /// The offset that the listing has found for each log.
    pub fn into_found(self) -> (r: Json)
        ensures
            r@ == JsonView::Object(self@.found),
    {
        Json::Object(self.found)
    }
}

/// Whether `entries` are the messages of a log from an offset on: one after the
/// other without a gap, and as many as there are up to the limit.
pub open spec fn is_run(
    kv: Map<Seq<char>, JsonView>,
    log: Seq<char>,
    from: Offset,
    max_items: u64,
    entries: Seq<JsonView>,
) -> bool {
    &&& entries.len() <= max_items
    &&& from + entries.len() <= u64::MAX
    &&& forall|i: int|
        0 <= i < entries.len() ==> kv.contains_key(entry_key(log, (from + i) as u64))
            && #[trigger] entries[i] == entry_json(
            (from + i) as u64,
            kv[entry_key(log, (from + i) as u64)],
        )
    &&& entries.len() < max_items ==> !kv.contains_key(
        entry_key(log, (from + entries.len()) as u64),
    )
}

/// How many steps a reading still takes at most.
pub open spec fn steps_left(r: LogReadView) -> nat {
    if r.done {
        0
    } else if r.entries.len() >= r.max_items {
        1
    } else {
        (1 + r.max_items - r.entries.len()) as nat
    }
}

/// The reading once a store with the values `kv` has answered all its requests.
pub open spec fn read_all(r: LogReadView, kv: Map<Seq<char>, JsonView>) -> LogReadView
    decreases steps_left(r),
{
    if r.done {
        r
    } else {
        read_all(r.after(served(kv, r.request()->0.body).1), kv)
    }
}

/// The most messages that a reading takes: it takes one before it looks at the
/// limit.
pub open spec fn item_limit(max_items: u64) -> u64 {
    if max_items == 0 {
        1
    } else {
        max_items
    }
}

/// Whether a reading ends before it finds a message at the largest offset, behind
/// which there is no other to go on to: it has all that it takes before that offset,
/// or there is one at which there is no message.
pub open spec fn ends_in_time(
    kv: Map<Seq<char>, JsonView>,
    log: Seq<char>,
    from: Offset,
    max_items: u64,
) -> bool {
    from + item_limit(max_items) <= u64::MAX || exists|o: Offset|
        from <= o && !kv.contains_key(#[trigger] entry_key(log, o))
}

/// Reading a log gives its messages from the offset on: one after the other
/// without a gap, up to the limit.
pub proof fn law_log_read_gives_consecutive_messages(
    kv: Map<Seq<char>, JsonView>,
    store: Seq<char>,
    log: Seq<char>,
    from: Offset,
    max_items: u64,
)
    requires
        ends_in_time(kv, log, from, max_items),
    ensures
        read_all(read_from(store, log, from, max_items), kv).done,
        is_run(
            kv,
            log,
            from,
            item_limit(max_items),
            read_all(read_from(store, log, from, max_items), kv).entries,
        ),
{
    lemma_read_all(read_from(store, log, from, max_items), kv);
}

/// Whether a reading that goes on has found messages of the store without a gap.
spec fn reads_run(r: LogReadView, kv: Map<Seq<char>, JsonView>) -> bool {
    &&& !r.done
    &&& r.entries.len() < item_limit(r.max_items)
    &&& r.from + r.entries.len() <= u64::MAX
    &&& forall|i: int|
        0 <= i < r.entries.len() ==> kv.contains_key(entry_key(r.log, (r.from + i) as u64))
            && #[trigger] r.entries[i] == entry_json(
            (r.from + i) as u64,
            kv[entry_key(r.log, (r.from + i) as u64)],
        )
}

/// A reading that ends in time finds no message at the largest offset.
proof fn lemma_offset_left(r: LogReadView, kv: Map<Seq<char>, JsonView>)
    requires
        reads_run(r, kv),
        ends_in_time(kv, r.log, r.from, r.max_items),
        kv.contains_key(entry_key(r.log, r.offset())),
    ensures
        r.from + r.entries.len() < u64::MAX,
{
    if r.from + item_limit(r.max_items) > u64::MAX {
        let o = choose|o: Offset|
            r.from <= o && !kv.contains_key(#[trigger] entry_key(r.log, o));
        if o < r.from + r.entries.len() {
            let i = o - r.from;
            assert(r.entries[i] == entry_json(
                (r.from + i) as u64,
                kv[entry_key(r.log, (r.from + i) as u64)],
            ));
        }
    }
}

proof fn lemma_read_all(r: LogReadView, kv: Map<Seq<char>, JsonView>)
    requires
        reads_run(r, kv),
        ends_in_time(kv, r.log, r.from, r.max_items),
    ensures
        read_all(r, kv).log == r.log,
        read_all(r, kv).done,
        is_run(kv, r.log, r.from, item_limit(r.max_items), read_all(r, kv).entries),
        r.understands(served(kv, r.request()->0.body).1),
    decreases steps_left(r),
{
    law_store_reads(kv, entry_key(r.log, r.offset()));
    let next = r.after(served(kv, r.request()->0.body).1);
    assert(read_all(r, kv) == read_all(next, kv));
    if kv.contains_key(entry_key(r.log, r.offset())) {
        lemma_offset_left(r, kv);
    }
    if next.done {
        assert(read_all(next, kv) == next);
    } else {
        lemma_read_all(next, kv);
    }
}

/// The poll once a store with the values `kv` has answered all its requests.
pub open spec fn poll_all(p: PollView, kv: Map<Seq<char>, JsonView>) -> PollView
    decreases
            p.queue.len() + (if p.reading is Some {
                1nat
            } else {
                0nat
            }),
            match p.reading {
                Some(r) => steps_left(r),
                None => 0nat,
            },
{
    match p.reading {
        Some(r) => if r.done {
            p
        } else {
            poll_all(p.after(served(kv, r.request()->0.body).1), kv)
        },
        None => p,
    }
}

/// A poll gives for each log that it names the messages from the given offset on,
/// one after the other without a gap, up to the limit; and nothing of other logs.
pub proof fn law_poll_gives_consecutive_messages(
    kv: Map<Seq<char>, JsonView>,
    store: Seq<char>,
    queue: Seq<(Seq<char>, Offset)>,
)
    requires
        forall|i: int, j: int|
            0 <= i < j < queue.len() ==> (#[trigger] queue[i]).0 != (#[trigger] queue[j]).0,
        forall|i: int|
            0 <= i < queue.len() ==> ends_in_time(
                kv,
                (#[trigger] queue[i]).0,
                queue[i].1,
                MAX_ITEMS_PER_POLL,
            ),
    ensures
        ({
            let found = poll_all(poll_of(store, queue, Map::empty()), kv).found;
            &&& poll_all(poll_of(store, queue, Map::empty()), kv).request() is None
            &&& forall|i: int|
                0 <= i < queue.len() ==> found.contains_key((#[trigger] queue[i]).0)
                    && found[queue[i].0] is Array && is_run(
                    kv,
                    queue[i].0,
                    queue[i].1,
                    MAX_ITEMS_PER_POLL,
                    found[queue[i].0]->Array_0,
                )
            &&& forall|k: Seq<char>| #[trigger]
                found.contains_key(k) ==> exists|i: int|
                    0 <= i < queue.len() && (#[trigger] queue[i]).0 == k
        }),
{
    lemma_poll_all(kv, store, queue, Map::empty());
}

proof fn lemma_poll_all(
    kv: Map<Seq<char>, JsonView>,
    store: Seq<char>,
    queue: Seq<(Seq<char>, Offset)>,
    found: Map<Seq<char>, JsonView>,
)
    requires
        forall|i: int, j: int|
            0 <= i < j < queue.len() ==> (#[trigger] queue[i]).0 != (#[trigger] queue[j]).0,
        forall|i: int|
            0 <= i < queue.len() ==> ends_in_time(
                kv,
                (#[trigger] queue[i]).0,
                queue[i].1,
                MAX_ITEMS_PER_POLL,
            ),
    ensures
        ({
            let end = poll_all(poll_of(store, queue, found), kv);
            &&& end.request() is None
            &&& forall|i: int|
                0 <= i < queue.len() ==> end.found.contains_key((#[trigger] queue[i]).0)
                    && end.found[queue[i].0] is Array && is_run(
                    kv,
                    queue[i].0,
                    queue[i].1,
                    MAX_ITEMS_PER_POLL,
                    end.found[queue[i].0]->Array_0,
                )
            &&& forall|k: Seq<char>| #[trigger]
                end.found.contains_key(k) ==> found.contains_key(k) || exists|i: int|
                    0 <= i < queue.len() && (#[trigger] queue[i]).0 == k
            &&& forall|k: Seq<char>|
                found.contains_key(k) && !(exists|i: int|
                    0 <= i < queue.len() && (#[trigger] queue[i]).0 == k)
                    ==> #[trigger] end.found.contains_key(k) && end.found[k] == found[k]
        }),
    decreases queue.len(),
{
    if queue.len() > 0 {
        let rest = queue.drop_first();
        let r = read_from(store, queue[0].0, queue[0].1, MAX_ITEMS_PER_POLL);
        let entries = read_all(r, kv).entries;
        let more = found.insert(queue[0].0, JsonView::Array(entries));
        lemma_read_all(r, kv);
        lemma_poll_reading(kv, poll_of(store, queue, found));
        assert(forall|i: int| 0 <= i < rest.len() ==> rest[i] == #[trigger] queue[i + 1]);
        lemma_poll_all(kv, store, rest, more);
        let end = poll_all(poll_of(store, queue, found), kv);
        assert(end == poll_all(poll_of(store, rest, more), kv));
        assert forall|i: int| 0 <= i < queue.len() implies end.found.contains_key(
            (#[trigger] queue[i]).0,
        ) && end.found[queue[i].0] is Array && is_run(
            kv,
            queue[i].0,
            queue[i].1,
            MAX_ITEMS_PER_POLL,
            end.found[queue[i].0]->Array_0,
        ) by {
            if i > 0 {
                assert(rest[i - 1] == queue[i]);
            } else {
                assert(more.contains_key(queue[0].0));
                assert(!(exists|j: int|
                    0 <= j < rest.len() && (#[trigger] rest[j]).0 == queue[0].0)) by {
                    assert forall|j: int| 0 <= j < rest.len() implies (#[trigger] rest[j]).0
                        != queue[0].0 by {
                        assert(queue[0].0 != queue[j + 1].0);
                    }
                }
                assert(end.found.contains_key(queue[0].0));
            }
        }
        assert forall|k: Seq<char>| #[trigger] end.found.contains_key(k) implies found.contains_key(
            k,
        ) || exists|i: int| 0 <= i < queue.len() && (#[trigger] queue[i]).0 == k by {
            if !more.contains_key(k) {
                let j = choose|j: int| 0 <= j < rest.len() && (#[trigger] rest[j]).0 == k;
                assert(queue[j + 1].0 == k);
            } else if k == queue[0].0 {
                assert(queue[0].0 == k);
            }
        }
        assert forall|k: Seq<char>|
            found.contains_key(k) && !(exists|i: int|
                0 <= i < queue.len() && (#[trigger] queue[i]).0 == k) implies
            #[trigger] end.found.contains_key(k) && end.found[k] == found[k] by {
            assert(queue[0].0 != k);
            assert(!(exists|j: int| 0 <= j < rest.len() && (#[trigger] rest[j]).0 == k)) by {
                assert forall|j: int| 0 <= j < rest.len() implies (#[trigger] rest[j]).0 != k by {
                    assert(queue[j + 1].0 != k);
                }
            }
            assert(more.contains_key(k));
        }
    }
}

/// A poll reads its log to the end, keeps what it found and goes on.
proof fn lemma_poll_reading(kv: Map<Seq<char>, JsonView>, p: PollView)
    requires
        p.reading is Some,
        reads_run(p.reading->0, kv),
        ends_in_time(kv, p.reading->0.log, p.reading->0.from, p.reading->0.max_items),
    ensures
        poll_all(p, kv) == poll_all(
            poll_of(
                p.store,
                p.queue,
                p.found.insert(
                    p.reading->0.log,
                    JsonView::Array(read_all(p.reading->0, kv).entries),
                ),
            ),
            kv,
        ),
    decreases steps_left(p.reading->0),
{
    let r = p.reading->0;
    law_store_reads(kv, entry_key(r.log, r.offset()));
    let reply = served(kv, r.request()->0.body).1;
    let next = r.after(reply);
    assert(poll_all(p, kv) == poll_all(p.after(reply), kv));
    assert(read_all(r, kv) == read_all(next, kv));
    if kv.contains_key(entry_key(r.log, r.offset())) {
        lemma_offset_left(r, kv);
    }
    if next.done {
        assert(read_all(next, kv) == next);
    } else {
        lemma_poll_reading(kv, p.after(reply));
    }
}

/// A message that is in the store comes first when its log is polled from its
/// offset on.
pub proof fn law_stored_message_is_polled(
    kv: Map<Seq<char>, JsonView>,
    store: Seq<char>,
    log: Seq<char>,
    offset: Offset,
    queue: Seq<(Seq<char>, Offset)>,
    i: int,
)
    requires
        kv.contains_key(entry_key(log, offset)),
        0 <= i < queue.len(),
        queue[i] == (log, offset),
        forall|i: int, j: int|
            0 <= i < j < queue.len() ==> (#[trigger] queue[i]).0 != (#[trigger] queue[j]).0,
        forall|i: int|
            0 <= i < queue.len() ==> ends_in_time(
                kv,
                (#[trigger] queue[i]).0,
                queue[i].1,
                MAX_ITEMS_PER_POLL,
            ),
    ensures
        ({
            let found = poll_all(poll_of(store, queue, Map::empty()), kv).found;
            &&& found.contains_key(log)
            &&& found[log] is Array
            &&& found[log]->Array_0.len() > 0
            &&& found[log]->Array_0[0] == entry_json(offset, kv[entry_key(log, offset)])
        }),
{
    law_poll_gives_consecutive_messages(kv, store, queue);
    let found = poll_all(poll_of(store, queue, Map::empty()), kv).found;
    assert(found.contains_key(queue[i].0));
    let entries = found[log]->Array_0;
    assert((offset + 0) as u64 == offset);
    if entries.len() > 0 {
        assert(entries[0] == entry_json((offset + 0) as u64, kv[entry_key(log, offset)]));
    }
}

/// The committed offset of a log in a store, 0 where the store has none.
pub open spec fn committed_of(kv: Map<Seq<char>, JsonView>, log: Seq<char>) -> Offset {
    if kv.contains_key(committed_key(log)) {
        offset_of(kv[committed_key(log)])
    } else {
        0
    }
}

/// The listing once a store with the values `kv` has answered all its requests.
pub open spec fn list_all(l: ListView, kv: Map<Seq<char>, JsonView>) -> ListView
    decreases l.queue.len(),
{
    if l.queue.len() == 0 {
        l
    } else {
        list_all(l.after(served(kv, l.request()->0.body).1), kv)
    }
}

/// A listing gives the committed offset of each log that it names, and nothing of
/// other logs.
pub proof fn law_listing_gives_committed_offsets(
    kv: Map<Seq<char>, JsonView>,
    store: Seq<char>,
    logs: Seq<Seq<char>>,
)
    requires
        forall|i: int|
            0 <= i < logs.len() && kv.contains_key(committed_key(#[trigger] logs[i]))
                ==> kv[committed_key(logs[i])].as_u64() is Some,
    ensures
        ({
            let end = list_all(ListView { store, queue: logs, found: Map::empty() }, kv);
            &&& end.request() is None
            &&& forall|k: Seq<char>| #[trigger] end.found.contains_key(k) <==> logs.contains(k)
            &&& forall|k: Seq<char>|
                logs.contains(k) ==> #[trigger] end.found[k] == number_json(
                    committed_of(kv, k) as int,
                )
        }),
{
    lemma_list_all(kv, ListView { store, queue: logs, found: Map::empty() });
}

proof fn lemma_list_all(kv: Map<Seq<char>, JsonView>, l: ListView)
    requires
        forall|i: int|
            0 <= i < l.queue.len() && kv.contains_key(committed_key(#[trigger] l.queue[i]))
                ==> kv[committed_key(l.queue[i])].as_u64() is Some,
        forall|k: Seq<char>|
            l.found.contains_key(k) ==> #[trigger] l.found[k] == number_json(
                committed_of(kv, k) as int,
            ),
    ensures
        list_all(l, kv).request() is None,
        forall|k: Seq<char>| #[trigger]
            list_all(l, kv).found.contains_key(k) <==> l.found.contains_key(k)
                || l.queue.contains(k),
        forall|k: Seq<char>|
            list_all(l, kv).found.contains_key(k) ==> #[trigger] list_all(l, kv).found[k]
                == number_json(committed_of(kv, k) as int),
    decreases l.queue.len(),
{
    if l.queue.len() > 0 {
        let log = l.queue[0];
        law_store_reads(kv, committed_key(log));
        let next = l.after(served(kv, l.request()->0.body).1);
        assert(forall|i: int| 0 <= i < next.queue.len() ==> next.queue[i] == #[trigger] l.queue[i + 1]);
        assert(next.found[log] == number_json(committed_of(kv, log) as int));
        lemma_list_all(kv, next);
        assert forall|k: Seq<char>| next.found.contains_key(k) || next.queue.contains(k)
            <==> l.found.contains_key(k) || #[trigger] l.queue.contains(k) by {
            if l.queue.contains(k) && k != log {
                let i = l.queue.index_of(k);
                assert(next.queue[i - 1] == k);
            }
            if next.queue.contains(k) {
                assert(l.queue[next.queue.index_of(k) + 1] == k);
            }
        }
    }
}

/// The keys of a log are its name and what is kept there: the next offset, the committed
/// offset, or the message of an offset, which is written in digits.
pub proof fn law_keys_are_named_after_the_log(log: Seq<char>, offset: Offset)
    ensures
        next_key(log) == log + "_next"@,
        committed_key(log) == log + "_committed"@,
        (log + "_"@).is_prefix_of(entry_key(log, offset)),
        value_of(entry_key(log, offset).skip(log.len() as int + 1)) == offset,
        all_digits(entry_key(log, offset).skip(log.len() as int + 1)),
        entry_key(log, offset).len() > log.len() + 1,
        offset > 0 ==> entry_key(log, offset)[log.len() as int + 1] != '0',
{
    reveal_strlit("next");
    reveal_strlit("committed");
    reveal_strlit("_");
    reveal_strlit("_next");
    reveal_strlit("_committed");
    assert(next_key(log) =~= log + "_next"@);
    assert(committed_key(log) =~= log + "_committed"@);
    law_numeral_stands_for_its_number(offset as nat);
    law_joined_holds_both(log, '_', decimal(offset as nat));
    assert(entry_key(log, offset).skip(log.len() as int + 1) =~= decimal(offset as nat));
}

/// A value counts as the offset that it is, and as 0 where it is none.
pub proof fn law_value_counts_as_its_offset(value: JsonView, offset: Offset)
    ensures
        value == JsonView::Number(Numeral::Int(offset as int)) ==> offset_of(value) == offset,
        value.as_u64() is None ==> offset_of(value) == 0,
{
}

/// How a reservation goes on. It reads the next free offset; it then tries to replace
/// what it has read, or 0 where there is nothing, by the offset behind those that it
/// takes; where that was done it has the offsets from the one that it had read on, and
/// else it reads again. It asks the same store for the same log all the time.
pub proof fn law_reservation_goes_on(r: ReserveView, reply: JsonView)
    ensures
        ({
            let next = r.after(reply);
            let read = RequestView {
                dest: r.store,
                body: read_body(r.log + "_next"@),
            };
            let tries = |current: JsonView|
                RequestView {
                    dest: r.store,
                    body: cas_body(
                        r.log + "_next"@,
                        current,
                        JsonView::Number(Numeral::Int(offset_of(current) + r.count)),
                        true,
                    ),
                };
            &&& next.store == r.store && next.log == r.log && next.count == r.count
            &&& r.step is Read ==> {
                &&& r.request() == Some(read)
                &&& read_value(reply) matches Some(v) ==> next.step == ReserveStep::Cas(v)
                    && next.request() == Some(tries(v))
                &&& read_value(reply) is None ==> next.request() == Some(
                    tries(JsonView::Number(Numeral::Int(0))),
                )
                &&& r.understands(reply) <==> (reply is Object || reply is Null) && (
                read_value(reply) matches Some(v) ==> offset_of(v) + r.count <= u64::MAX)
            }
            &&& r.step matches ReserveStep::Cas(current) ==> {
                &&& r.request() == Some(tries(current))
                &&& is_cas_ok(reply) ==> next.step == ReserveStep::Done(offset_of(current))
                    && next.request() is None
                &&& !is_cas_ok(reply) ==> next.step is Read && next.request() == Some(read)
                &&& r.understands(reply) <==> cas_understood(reply)
            }
            &&& r.step is Done ==> next == r && r.request() is None
        }),
{
    law_keys_are_named_after_the_log(r.log, 0);
    law_replies_say_what_happened(reply);
}

/// How a reading goes on. It asks for the message at the offset behind those that it has;
/// where there is one it keeps it with its offset, and is done once it has as many as it
/// may take; where there is none it is done.
pub proof fn law_reading_goes_on(r: LogReadView, reply: JsonView)
    requires
        !r.done,
        r.from + r.entries.len() <= u64::MAX,
    ensures
        ({
            let next = r.after(reply);
            let offset = (r.from + r.entries.len()) as u64;
            &&& r.request() == Some(
                RequestView { dest: r.store, body: read_body(entry_key(r.log, offset)) },
            )
            &&& next.store == r.store && next.log == r.log && next.from == r.from
                && next.max_items == r.max_items
            &&& read_value(reply) matches Some(v) ==> {
                &&& next.entries.len() == r.entries.len() + 1
                &&& r.entries.is_prefix_of(next.entries)
                &&& next.entries.last() == JsonView::Array(
                    seq![JsonView::Number(Numeral::Int(offset as int)), v],
                )
                &&& next.done <==> next.entries.len() >= r.max_items
            }
            &&& read_value(reply) is None ==> next.entries == r.entries && next.done
            &&& r.understands(reply) <==> (reply is Object || reply is Null) && (
            read_value(reply) is Some ==> offset < u64::MAX)
            &&& next.done ==> next.request() is None
        }),
{
    law_replies_say_what_happened(reply);
}

/// A reading begins without messages, and asks for the one at the given offset.
pub proof fn law_reading_begins_at_its_offset(
    store: Seq<char>,
    log: Seq<char>,
    from: Offset,
    max_items: u64,
)
    ensures
        read_from(store, log, from, max_items) == (LogReadView {
            store,
            log,
            from,
            max_items,
            entries: Seq::empty(),
            done: false,
        }),
{
}

/// How a poll goes on. It reads its logs one after another, each from its own offset; a
/// log that is read to its end is kept under its name with all that was found, and the
/// next is read; the poll is done when none is left.
pub proof fn law_poll_goes_on(p: PollView, r: LogReadView, reply: JsonView)
    requires
        p.reading == Some(r),
    ensures
        ({
            let read = r.after(reply);
            let next = p.after(reply);
            &&& p.request() == r.request()
            &&& p.understands(reply) <==> r.understands(reply)
            &&& next.store == p.store
            &&& !read.done ==> next.reading == Some(read) && next.queue == p.queue && next.found
                == p.found
            &&& read.done ==> {
                &&& next.found == p.found.insert(read.log, JsonView::Array(read.entries))
                &&& p.queue.len() == 0 ==> next.reading is None && next.queue.len() == 0
                    && next.request() is None
                &&& p.queue.len() > 0 ==> next.queue == p.queue.skip(1) && next.reading == Some(
                    read_from(p.store, p.queue[0].0, p.queue[0].1, 10),
                )
            }
        }),
{
    if p.queue.len() > 0 {
        assert(p.queue.drop_first() =~= p.queue.skip(1));
    }
}

/// A poll begins with the first of its logs, and is done at once where there is none.
pub proof fn law_poll_begins_with_its_first_log(
    store: Seq<char>,
    queue: Seq<(Seq<char>, Offset)>,
)
    ensures
        ({
            let p = poll_of(store, queue, Map::empty());
            &&& p.store == store
            &&& p.found == Map::<Seq<char>, JsonView>::empty()
            &&& queue.len() == 0 ==> p.reading is None && p.request() is None
            &&& queue.len() > 0 ==> p.queue == queue.skip(1) && p.reading == Some(
                read_from(store, queue[0].0, queue[0].1, 10),
            )
        }),
{
    if queue.len() > 0 {
        assert(queue.drop_first() =~= queue.skip(1));
    }
}

/// How a listing goes on. It asks for the committed offset of its first log, keeps it
/// under the name of the log, or 0 where there is none, and goes on with the others.
pub proof fn law_listing_goes_on(l: ListView, reply: JsonView)
    requires
        l.queue.len() > 0,
    ensures
        ({
            let next = l.after(reply);
            let kept = |offset: int|
                l.found.insert(l.queue[0], JsonView::Number(Numeral::Int(offset)));
            &&& l.request() == Some(
                RequestView { dest: l.store, body: read_body(l.queue[0] + "_committed"@) },
            )
            &&& next.store == l.store
            &&& next.queue == l.queue.skip(1)
            &&& read_value(reply) is None ==> next.found == kept(0)
            &&& read_value(reply) matches Some(v) ==> v.as_u64() matches Some(o) ==> next.found
                == kept(o as int)
            &&& l.understands(reply) <==> (reply is Object || reply is Null) && (
            read_value(reply) matches Some(v) ==> v.as_u64() is Some)
            &&& next.queue.len() == 0 ==> next.request() is None
        }),
{
    law_keys_are_named_after_the_log(l.queue[0], 0);
    law_replies_say_what_happened(reply);
    assert(l.queue.drop_first() =~= l.queue.skip(1));
}

/// What is done stays done: a reading that has ended, a reservation that has its offsets
/// and a poll without a log to read change no more.
pub proof fn law_finished_work_stays(
    r: LogReadView,
    s: ReserveView,
    p: PollView,
    reply: JsonView,
)
    ensures
        r.done ==> r.after(reply) == r && r.request() is None,
        s.step is Done ==> s.after(reply) == s && s.request() is None,
        p.reading is None ==> p.after(reply) == p && p.request() is None,
{
}

} // verus!
