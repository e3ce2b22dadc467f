//! The client of a key-value store that nodes reach by messages.
use vstd::prelude::*;
use crate::json::{alike, number_json, typed, Json, JsonView, Numeral};

verus! {

/// The time after which a request without a reply is repeated, in milliseconds.
pub const RPC_TIMEOUT_MILLIS: u64 = 1000;

/// The name of the store whose operations are linearizable.
pub const LIN_KV: &'static str = "lin-kv";

/// The name of the store whose operations are sequentially consistent.
pub const SEQ_KV: &'static str = "seq-kv";

/// The code of the error that a key has no value.
pub const KEY_NOT_FOUND: i64 = 20;

/// The code of the error that a key has another value than the expected one.
pub const PRECONDITION_FAILED: i64 = 22;

/// Why the store refused a request.
#[derive(Debug, Clone, Copy, PartialEq, Eq)]
pub enum KVStoreError {
    ExpectationMismatch,
    KeyNotFound,
}

/// A request: the body to send, and where.
#[derive(Debug)]
pub struct Request {
    pub dest: String,
    pub body: Json,
}

/// What a request is.
#[verifier::ext_equal]
pub struct RequestView {
    pub dest: Seq<char>,
    pub body: JsonView,
}

impl View for Request {
    type V = RequestView;

    open spec fn view(&self) -> RequestView {
        RequestView { dest: self.dest@, body: self.body@ }
    }
}

/// What a request is that may be missing.
pub open spec fn request_view(request: Option<Request>) -> Option<RequestView> {
    match request {
        Some(r) => Some(r@),
        None => None,
    }
}

/// The body of a request to read a key.
pub open spec fn read_body(key: Seq<char>) -> JsonView {
    typed("read"@).with("key"@, JsonView::Text(key))
}

/// The body of a request to write a key.
pub open spec fn write_body(key: Seq<char>, value: JsonView) -> JsonView {
    typed("write"@).with("key"@, JsonView::Text(key)).with("value"@, value)
}

/// The body of a request to replace the value of a key, where it is the expected one.
pub open spec fn cas_body(
    key: Seq<char>,
    expect: JsonView,
    new: JsonView,
    create_if_not_exists: bool,
) -> JsonView {
    typed("cas"@).with("key"@, JsonView::Text(key)).with("from"@, expect).with("to"@, new).with(
        "create_if_not_exists"@,
        JsonView::Bool(create_if_not_exists),
    )
}

/// Whether a reply is an error with the code.
pub open spec fn is_error(reply: JsonView, code: int) -> bool {
    reply.field("type"@) == JsonView::Text("error"@) && reply.field("code"@).as_i64() == Some(
        code as i64,
    )
}

/// Whether the reply to a read can be understood: its value can be taken out, or
/// it says that there is none.
pub open spec fn read_understood(reply: JsonView) -> bool {
    reply.is_settable() || is_error(reply, KEY_NOT_FOUND as int)
}

/// What the reply to a read says: the value, none where the key has none.
pub open spec fn read_value(reply: JsonView) -> Option<JsonView> {
    if is_error(reply, KEY_NOT_FOUND as int) {
        None
    } else {
        Some(reply.field("value"@))
    }
}

/// Whether the reply to a write says that it was done.
pub open spec fn is_write_ok(reply: JsonView) -> bool {
    reply.field("type"@) == JsonView::Text("write_ok"@)
}

/// Whether the reply to a replacement says that it was done.
pub open spec fn is_cas_ok(reply: JsonView) -> bool {
    reply.field("type"@) == JsonView::Text("cas_ok"@)
}

/// Whether the reply to a replacement can be understood: it was done, or the value
/// was another than the expected one.
pub open spec fn cas_understood(reply: JsonView) -> bool {
    is_cas_ok(reply) || is_error(reply, PRECONDITION_FAILED as int)
}

/// Whether a reply is an error with the code.
fn has_error(reply: &Json, code: i64) -> (r: bool)
    ensures
        r == is_error(reply@, code as int),
{
    reply.field("type").is_text("error") && match reply.field("code").as_i64() {
        Some(c) => c == code,
        None => false,
    }
}

/// A key-value store.
#[derive(Debug)]
pub struct KVStore {
    pub name: String,
}

impl KVStore {
    /// The store of this name.
    pub fn new(name: &str) -> (r: KVStore)
        ensures
            r.name@ == name@,
    {
        KVStore { name: name.to_owned() }
    }

    /// The request to read a key.
    pub fn read(&self, key: &str) -> (r: Request)
        ensures
            r@ == (RequestView { dest: self.name@, body: read_body(key@) }),
    {
        Request {
            dest: self.name.clone(),
            body: Json::typed("read").with("key", Json::text(key)),
        }
    }

    /// Whether the reply to a read can be understood.
    pub fn accepts_read(reply: &Json) -> (r: bool)
        ensures
            r == read_understood(reply@),
    {
        reply.is_settable() || has_error(reply, KEY_NOT_FOUND)
    }

    /// What the reply to a read says.
    pub fn read_result(reply: &Json) -> (r: Result<Json, KVStoreError>)
        requires
            read_understood(reply@),
        ensures
            r matches Ok(value) ==> read_value(reply@) == Some(value@),
            r matches Err(e) ==> e is KeyNotFound && read_value(reply@) is None,
    {
        if has_error(reply, KEY_NOT_FOUND) {
            Err(KVStoreError::KeyNotFound)
        } else {
            Ok(reply.field("value").clone())
        }
    }

    /// The request to write a key.
    pub fn write(&self, key: &str, val: &Json) -> (r: Request)
        ensures
            r@ == (RequestView { dest: self.name@, body: write_body(key@, val@) }),
    {
        Request {
            dest: self.name.clone(),
            body: Json::typed("write").with("key", Json::text(key)).with("value", val.clone()),
        }
    }

    /// Whether the reply to a write says that it was done.
    pub fn accepts_write(reply: &Json) -> (r: bool)
        ensures
            r == is_write_ok(reply@),
    {
        reply.field("type").is_text("write_ok")
    }

    /// The request to replace the value of a key, where it is the expected one.
    pub fn cas(&self, key: &str, expect: &Json, new: &Json, create_if_not_exists: bool) -> (r:
        Request)
        ensures
            r@ == (RequestView {
                dest: self.name@,
                body: cas_body(key@, expect@, new@, create_if_not_exists),
            }),
    {
        Request {
            dest: self.name.clone(),
            body: Json::typed("cas").with("key", Json::text(key)).with(
                "from",
                expect.clone(),
            ).with("to", new.clone()).with(
                "create_if_not_exists",
                Json::Bool(create_if_not_exists),
            ),
        }
    }

    /// Whether the reply to a replacement can be understood.
    pub fn accepts_cas(reply: &Json) -> (r: bool)
        ensures
            r == cas_understood(reply@),
    {
        reply.field("type").is_text("cas_ok") || has_error(reply, PRECONDITION_FAILED)
    }

    /// What the reply to a replacement says.
    pub fn cas_result(reply: &Json) -> (r: Result<(), KVStoreError>)
        requires
            cas_understood(reply@),
        ensures
            r is Ok <==> is_cas_ok(reply@),
            r matches Err(e) ==> e is ExpectationMismatch,
    {
        if reply.field("type").is_text("cas_ok") {
            Ok(())
        } else {
            Err(KVStoreError::ExpectationMismatch)
        }
    }
}

/// The reply that refuses a request.
pub open spec fn error_reply(code: int) -> JsonView {
    typed("error"@).with("code"@, number_json(code))
}

/// What a store with the values `store` does about a request: the values
/// afterwards, and the reply.
pub open spec fn served(store: Map<Seq<char>, JsonView>, body: JsonView) -> (
    Map<Seq<char>, JsonView>,
    JsonView,
) {
    let key = body.field("key"@).text_or_empty();
    let kind = body.field("type"@);
    if kind == JsonView::Text("read"@) {
        if store.contains_key(key) {
            (store, typed("read_ok"@).with("value"@, store[key]))
        } else {
            (store, error_reply(KEY_NOT_FOUND as int))
        }
    } else if kind == JsonView::Text("write"@) {
        (store.insert(key, body.field("value"@)), typed("write_ok"@))
    } else if store.contains_key(key) {
        if alike(store[key], body.field("from"@)) {
            (store.insert(key, body.field("to"@)), typed("cas_ok"@))
        } else {
            (store, error_reply(PRECONDITION_FAILED as int))
        }
    } else if body.field("create_if_not_exists"@) == JsonView::Bool(true) {
        (store.insert(key, body.field("to"@)), typed("cas_ok"@))
    } else {
        (store, error_reply(KEY_NOT_FOUND as int))
    }
}

/// A read gives the value of the key, and changes nothing.
pub proof fn law_store_reads(store: Map<Seq<char>, JsonView>, key: Seq<char>)
    ensures
        served(store, read_body(key)).0 == store,
        read_understood(served(store, read_body(key)).1),
        read_value(served(store, read_body(key)).1) == (if store.contains_key(key) {
            Some(store[key])
        } else {
            None
        }),
{
    lemma_fields();
}

/// A write gives the key its value, and is acknowledged.
pub proof fn law_store_writes(
    store: Map<Seq<char>, JsonView>,
    key: Seq<char>,
    value: JsonView,
)
    ensures
        served(store, write_body(key, value)).0 == store.insert(key, value),
        is_write_ok(served(store, write_body(key, value)).1),
{
    lemma_fields();
}

/// A replacement that may create is done where the key has no value or one that
/// equals the expected one; else it changes nothing, and says so.
pub proof fn law_store_replaces(
    store: Map<Seq<char>, JsonView>,
    key: Seq<char>,
    expect: JsonView,
    new: JsonView,
)
    ensures
        ({
            let (after, reply) = served(store, cas_body(key, expect, new, true));
            &&& cas_understood(reply)
            &&& is_cas_ok(reply) <==> !store.contains_key(key) || alike(store[key], expect)
            &&& after == (if is_cas_ok(reply) {
                store.insert(key, new)
            } else {
                store
            })
        }),
{
    lemma_fields();
}

/// The names of fields and types are all different.
proof fn lemma_fields()
    ensures
        "type"@ != "key"@,
        "type"@ != "value"@,
        "type"@ != "from"@,
        "type"@ != "to"@,
        "type"@ != "code"@,
        "type"@ != "create_if_not_exists"@,
        "key"@ != "value"@,
        "key"@ != "from"@,
        "key"@ != "to"@,
        "key"@ != "create_if_not_exists"@,
        "from"@ != "to"@,
        "from"@ != "create_if_not_exists"@,
        "to"@ != "create_if_not_exists"@,
        "read"@ != "write"@,
        "read"@ != "cas"@,
        "write"@ != "cas"@,
        "error"@ != "read_ok"@,
        "error"@ != "cas_ok"@,
{
    reveal_strlit("type");
    reveal_strlit("key");
    reveal_strlit("value");
    reveal_strlit("from");
    reveal_strlit("to");
    reveal_strlit("code");
    reveal_strlit("create_if_not_exists");
    reveal_strlit("read");
    reveal_strlit("write");
    reveal_strlit("cas");
    reveal_strlit("error");
    reveal_strlit("read_ok");
    reveal_strlit("cas_ok");
    assert("type"@[0] == 't');
    assert("from"@[0] == 'f');
    assert("code"@[0] == 'c');
    assert("type"@.len() == 4);
    assert("key"@.len() == 3);
    assert("value"@.len() == 5);
    assert("from"@.len() == 4);
    assert("to"@.len() == 2);
    assert("create_if_not_exists"@.len() == 20);
    assert("read"@.len() == 4);
    assert("write"@.len() == 5);
    assert("cas"@.len() == 3);
    assert("error"@.len() == 5);
    assert("read_ok"@.len() == 7);
    assert("cas_ok"@.len() == 6);
}

/// A request names its kind and its key, and holds the values that it is made of.
pub proof fn law_requests_hold_what_is_asked(
    key: Seq<char>,
    value: JsonView,
    expect: JsonView,
    new: JsonView,
    create: bool,
)
    ensures
        read_body(key) == JsonView::Object(
            map!["type"@ => JsonView::Text("read"@), "key"@ => JsonView::Text(key)],
        ),
        write_body(key, value) == JsonView::Object(
            map![
                "type"@ => JsonView::Text("write"@),
                "key"@ => JsonView::Text(key),
                "value"@ => value
            ],
        ),
        cas_body(key, expect, new, create) == JsonView::Object(
            map![
                "type"@ => JsonView::Text("cas"@),
                "key"@ => JsonView::Text(key),
                "from"@ => expect,
                "to"@ => new,
                "create_if_not_exists"@ => JsonView::Bool(create)
            ],
        ),
{
}

/// What replies say: an error has its type and its code; a read found what stands under
/// `value`, or nothing where the error has the code 20; a replacement was done, or
/// failed with the code 22; a write was done.
pub proof fn law_replies_say_what_happened(reply: JsonView)
    ensures
        ({
            let error = reply.field("type"@) == JsonView::Text("error"@);
            let code = reply.field("code"@);
            let missing = error && code == JsonView::Number(Numeral::Int(20));
            let mismatch = error && code == JsonView::Number(Numeral::Int(22));
            let replaced = reply.field("type"@) == JsonView::Text("cas_ok"@);
            &&& missing ==> read_value(reply) is None
            &&& !missing ==> read_value(reply) == Some(reply.field("value"@))
            &&& read_understood(reply) <==> reply is Object || reply is Null
            &&& is_cas_ok(reply) <==> replaced
            &&& cas_understood(reply) <==> replaced || mismatch
            &&& is_write_ok(reply) <==> reply.field("type"@) == JsonView::Text("write_ok"@)
        }),
{
    lemma_fields();
}

/// Requests are seen as what they are: where they go, and what they hold. A request to a
/// store is repeated after a second.
pub proof fn law_requests_are_seen_as_they_are(request: Request)
    ensures
        request@.dest == request.dest@,
        request@.body == request.body@,
        request_view(Some(request)) == Some(request@),
        request_view(None) is None,
        LIN_KV@ == "lin-kv"@,
        SEQ_KV@ == "seq-kv"@,
        RPC_TIMEOUT_MILLIS == 1000,
{
}

} // verus!
