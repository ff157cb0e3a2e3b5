//! The request, response and value types that travel in frames, and the
//! ways to build them.
use vstd::prelude::*;
use vstd::slice::slice_to_vec;
use vstd::string::StringExecFns;

use crate::error::{error_message, KvError};

verus! {

/// What a stored value holds.
#[derive(Debug, Clone, PartialEq)]
pub enum ValueKind {
    String(String),
    Integer(i64),
    Bool(bool),
    Binary(Vec<u8>),
}

/// A value; `value: None` is the "no value" sentinel.
#[derive(Debug, Clone, PartialEq)]
pub struct Value {
    pub value: Option<ValueKind>,
}

/// The mathematical content of a value.
pub enum ValueData {
    Str(Seq<char>),
    Int(i64),
    Flag(bool),
    Bytes(Seq<u8>),
}

impl View for Value {
    type V = Option<ValueData>;

    open spec fn view(&self) -> Option<ValueData> {
        match self.value {
            None => None,
            Some(ValueKind::String(s)) => Some(ValueData::Str(s@)),
            Some(ValueKind::Integer(i)) => Some(ValueData::Int(i)),
            Some(ValueKind::Bool(b)) => Some(ValueData::Flag(b)),
            Some(ValueKind::Binary(b)) => Some(ValueData::Bytes(b@)),
        }
    }
}

impl Value {
    /// A copy of this value.
    pub fn duplicate(&self) -> (r: Value)
        ensures
            r@ == self@,
    {
        match &self.value {
            None => Value { value: None },
            Some(ValueKind::String(s)) => Value { value: Some(ValueKind::String(s.clone())) },
            Some(ValueKind::Integer(i)) => Value { value: Some(ValueKind::Integer(*i)) },
            Some(ValueKind::Bool(b)) => Value { value: Some(ValueKind::Bool(*b)) },
            Some(ValueKind::Binary(b)) => Value {
                value: Some(ValueKind::Binary(slice_to_vec(b.as_slice()))),
            },
        }
    }
}

impl Default for Value {
    fn default() -> (r: Value)
        ensures
            r@ == None::<ValueData>,
    {
        Value { value: None }
    }
}

impl From<i64> for Value {
    fn from(i: i64) -> (r: Value) {
        Value { value: Some(ValueKind::Integer(i)) }
    }
}

impl vstd::std_specs::convert::FromSpecImpl<i64> for Value {
    open spec fn obeys_from_spec() -> bool {
        true
    }

    open spec fn from_spec(i: i64) -> Value {
        Value { value: Some(ValueKind::Integer(i)) }
    }
}

impl From<bool> for Value {
    fn from(b: bool) -> (r: Value) {
        Value { value: Some(ValueKind::Bool(b)) }
    }
}

impl vstd::std_specs::convert::FromSpecImpl<bool> for Value {
    open spec fn obeys_from_spec() -> bool {
        true
    }

    open spec fn from_spec(b: bool) -> Value {
        Value { value: Some(ValueKind::Bool(b)) }
    }
}

impl Value {
    /// A string value.
    pub fn from_text(s: &str) -> (r: Value)
        ensures
            r@ == Some(ValueData::Str(s@)),
    {
        Value { value: Some(ValueKind::String(String::from_str(s))) }
    }

    /// A binary value.
    pub fn from_bytes(b: &[u8]) -> (r: Value)
        ensures
            r@ == Some(ValueData::Bytes(b@)),
    {
        Value { value: Some(ValueKind::Binary(slice_to_vec(b))) }
    }
}

/// A key and its value.
#[derive(Debug, Clone, PartialEq)]
pub struct Kvpair {
    pub key: String,
    pub value: Option<Value>,
}

/// A value read as stored: an absent value is the "no value" sentinel.
pub open spec fn value_or_none(v: Option<Value>) -> Option<ValueData> {
    match v {
        Some(x) => x@,
        None => None,
    }
}

impl View for Kvpair {
    type V = (Seq<char>, Option<ValueData>);

    open spec fn view(&self) -> (Seq<char>, Option<ValueData>) {
        (self.key@, value_or_none(self.value))
    }
}

impl Kvpair {
    /// A pair of `key` and `value`.
    pub fn new(key: &str, value: Value) -> (r: Kvpair)
        ensures
            r.key@ == key@,
            r.value == Some(value),
    {
        Kvpair { key: String::from_str(key), value: Some(value) }
    }
}

#[derive(Debug, Clone, PartialEq)]
pub struct Hget {
    pub table: String,
    pub key: String,
}

#[derive(Debug, Clone, PartialEq)]
pub struct Hgetall {
    pub table: String,
}

#[derive(Debug, Clone, PartialEq)]
pub struct Hmget {
    pub table: String,
    pub keys: Vec<String>,
}

#[derive(Debug, Clone, PartialEq)]
pub struct Hset {
    pub table: String,
    pub pair: Option<Kvpair>,
}

#[derive(Debug, Clone, PartialEq)]
pub struct Hmset {
    pub table: String,
    pub pairs: Vec<Kvpair>,
}

#[derive(Debug, Clone, PartialEq)]
pub struct Hdel {
    pub table: String,
    pub key: String,
}

#[derive(Debug, Clone, PartialEq)]
pub struct Hmdel {
    pub table: String,
    pub keys: Vec<String>,
}

#[derive(Debug, Clone, PartialEq)]
pub struct Hexist {
    pub table: String,
    pub key: String,
}

#[derive(Debug, Clone, PartialEq)]
pub struct Hmexist {
    pub table: String,
    pub keys: Vec<String>,
}

/// The command that a request carries.
#[derive(Debug, Clone, PartialEq)]
pub enum RequestData {
    Hget(Hget),
    Hgetall(Hgetall),
    Hmget(Hmget),
    Hset(Hset),
    Hmset(Hmset),
    Hdel(Hdel),
    Hmdel(Hmdel),
    Hexist(Hexist),
    Hmexist(Hmexist),
}

/// A request; one with no command is answered with an error.
#[derive(Debug, Clone, PartialEq)]
pub struct CommandRequest {
    pub request_data: Option<RequestData>,
}

/// The views of a sequence of keys.
pub open spec fn keys_view(keys: Seq<String>) -> Seq<Seq<char>> {
    keys.map_values(|k: String| k@)
}

impl CommandRequest {
    /// Set `key` of `table` to `value`.
    pub fn new_hset(table: &str, key: &str, value: Value) -> (r: Self)
        ensures
            r.request_data matches Some(RequestData::Hset(h)) && h.table@ == table@ && (h.pair matches Some(p) && p.key@ == key@
                && p.value == Some(value)),
    {
        CommandRequest {
            request_data: Some(
                RequestData::Hset(Hset { table: String::from_str(table), pair: Some(Kvpair::new(key, value)) }),
            ),
        }
    }

    /// Read `key` of `table`.
    pub fn new_hget(table: &str, key: &str) -> (r: Self)
        ensures
            r.request_data matches Some(RequestData::Hget(h)) && h.table@ == table@ && h.key@ == key@,
    {
        CommandRequest {
            request_data: Some(
                RequestData::Hget(Hget { table: String::from_str(table), key: String::from_str(key) }),
            ),
        }
    }

    /// Read each of `keys` of `table`.
    pub fn new_hmget(table: &str, keys: Vec<String>) -> (r: Self)
        ensures
            r.request_data matches Some(RequestData::Hmget(h)) && h.table@ == table@ && h.keys == keys,
    {
        CommandRequest {
            request_data: Some(RequestData::Hmget(Hmget { table: String::from_str(table), keys })),
        }
    }

    /// Set each key of `pairs` in `table` to its value, in order.
    pub fn new_hmset(table: &str, pairs: Vec<(&str, Value)>) -> (r: Self)
        ensures
            r.request_data matches Some(RequestData::Hmset(h)) && h.table@ == table@
                && h.pairs@.len() == pairs@.len() && forall|i: int|
                0 <= i < pairs@.len() ==> (#[trigger] h.pairs@[i])@ == (pairs@[i].0@, pairs@[i].1@)
                    && h.pairs@[i].value is Some,
    {
        let mut out: Vec<Kvpair> = Vec::new();
        let mut i: usize = 0;
        while i < pairs.len()
            invariant
                i <= pairs@.len(),
                out@.len() == i,
                forall|j: int|
                    0 <= j < i ==> (#[trigger] out@[j])@ == (pairs@[j].0@, pairs@[j].1@)
                        && out@[j].value is Some,
            decreases pairs@.len() - i,
        {
            let (k, v) = &pairs[i];
            out.push(Kvpair::new(k, v.duplicate()));
            i = i + 1;
        }
        CommandRequest {
            request_data: Some(RequestData::Hmset(Hmset { table: String::from_str(table), pairs: out })),
        }
    }

    /// Ask whether `key` of `table` exists.
    pub fn new_hexist(table: &str, key: &str) -> (r: Self)
        ensures
            r.request_data matches Some(RequestData::Hexist(h)) && h.table@ == table@ && h.key@ == key@,
    {
        CommandRequest {
            request_data: Some(
                RequestData::Hexist(Hexist { table: String::from_str(table), key: String::from_str(key) }),
            ),
        }
    }

    /// Ask whether each of `keys` of `table` exists.
    pub fn new_hmexist(table: &str, keys: Vec<String>) -> (r: Self)
        ensures
            r.request_data matches Some(RequestData::Hmexist(h)) && h.table@ == table@ && h.keys == keys,
    {
        CommandRequest {
            request_data: Some(RequestData::Hmexist(Hmexist { table: String::from_str(table), keys })),
        }
    }

    /// Read every pair of `table`.
    pub fn new_hgetall(table: &str) -> (r: Self)
        ensures
            r.request_data matches Some(RequestData::Hgetall(h)) && h.table@ == table@,
    {
        CommandRequest {
            request_data: Some(RequestData::Hgetall(Hgetall { table: String::from_str(table) })),
        }
    }

    /// Remove `key` of `table`.
    pub fn new_hdel(table: &str, key: &str) -> (r: Self)
        ensures
            r.request_data matches Some(RequestData::Hdel(h)) && h.table@ == table@ && h.key@ == key@,
    {
        CommandRequest {
            request_data: Some(
                RequestData::Hdel(Hdel { table: String::from_str(table), key: String::from_str(key) }),
            ),
        }
    }

    /// Remove each of `keys` of `table`.
    pub fn new_hmdel(table: &str, keys: Vec<String>) -> (r: Self)
        ensures
            r.request_data matches Some(RequestData::Hmdel(h)) && h.table@ == table@ && h.keys == keys,
    {
        CommandRequest {
            request_data: Some(RequestData::Hmdel(Hmdel { table: String::from_str(table), keys })),
        }
    }
}

/// A response: a status in the sense of HTTP, a message, and either values or
/// pairs.
#[derive(Debug, Clone, PartialEq)]
pub struct CommandResponse {
    pub status: u32,
    pub message: String,
    pub values: Vec<Value>,
    pub pairs: Vec<Kvpair>,
}

/// The mathematical content of a response.
pub struct ResponseView {
    pub status: u32,
    pub message: Seq<char>,
    pub values: Seq<Option<ValueData>>,
    pub pairs: Seq<(Seq<char>, Option<ValueData>)>,
}

impl View for CommandResponse {
    type V = ResponseView;

    open spec fn view(&self) -> ResponseView {
        ResponseView {
            status: self.status,
            message: self.message@,
            values: self.values@.map_values(|v: Value| v@),
            pairs: self.pairs@.map_values(|p: Kvpair| p@),
        }
    }
}

/// Relies on http's `StatusCode::OK` and `StatusCode::as_u16`: 200.
#[verifier::external_body]
fn status_ok() -> (r: u32)
    ensures
        r == 200,
{
    http::StatusCode::OK.as_u16() as u32
}

/// Relies on http's `StatusCode::BAD_REQUEST` and `StatusCode::as_u16`: 400.
#[verifier::external_body]
fn status_bad_request() -> (r: u32)
    ensures
        r == 400,
{
    http::StatusCode::BAD_REQUEST.as_u16() as u32
}

/// Relies on http's `StatusCode::NOT_FOUND` and `StatusCode::as_u16`: 404.
#[verifier::external_body]
fn status_not_found() -> (r: u32)
    ensures
        r == 404,
{
    http::StatusCode::NOT_FOUND.as_u16() as u32
}

/// Relies on http's `StatusCode::INTERNAL_SERVER_ERROR` and `StatusCode::as_u16`: 500.
#[verifier::external_body]
fn status_internal() -> (r: u32)
    ensures
        r == 500,
{
    http::StatusCode::INTERNAL_SERVER_ERROR.as_u16() as u32
}

/// The status that answers an error: 404 for a missing entry, 400 for an
/// ill-formed command, 500 for anything else.
pub open spec fn error_status(e: KvError) -> u32 {
    match e {
        KvError::NotFound(_, _) => 404,
        KvError::InvalidCommand(_) => 400,
        _ => 500,
    }
}

/// A success carrying the values `vs` and no pairs.
pub open spec fn ok_values(vs: Seq<Option<ValueData>>) -> ResponseView {
    ResponseView { status: 200, message: Seq::empty(), values: vs, pairs: Seq::empty() }
}

/// A success carrying the pairs `ps` and no values.
pub open spec fn ok_pairs(ps: Seq<(Seq<char>, Option<ValueData>)>) -> ResponseView {
    ResponseView { status: 200, message: Seq::empty(), values: Seq::empty(), pairs: ps }
}

/// The answer to the error `e`.
pub open spec fn failed(e: KvError) -> ResponseView {
    ResponseView { status: error_status(e), message: error_message(e), values: Seq::empty(), pairs: Seq::empty() }
}

impl CommandResponse {
    /// A success carrying one value.
    pub fn from_value(v: Value) -> (r: Self)
        ensures
            r@ == ok_values(seq![v@]),
    {
        let r = CommandResponse { status: status_ok(), message: String::new(), values: vec![v], pairs: Vec::new() };
        assert(r@.values =~= seq![v@]);
        assert(r@.pairs =~= Seq::empty());
        assert(r@.message =~= Seq::empty());
        r
    }

    /// A success carrying values.
    pub fn from_values(vs: Vec<Value>) -> (r: Self)
        ensures
            r@ == ok_values(vs@.map_values(|v: Value| v@)),
    {
        let r = CommandResponse { status: status_ok(), message: String::new(), values: vs, pairs: Vec::new() };
        assert(r@.pairs =~= Seq::empty());
        assert(r@.message =~= Seq::empty());
        r
    }

    /// A success carrying pairs.
    pub fn from_pairs(ps: Vec<Kvpair>) -> (r: Self)
        ensures
            r@ == ok_pairs(ps@.map_values(|p: Kvpair| p@)),
    {
        let r = CommandResponse { status: status_ok(), message: String::new(), values: Vec::new(), pairs: ps };
        assert(r@.values =~= Seq::empty());
        assert(r@.message =~= Seq::empty());
        r
    }

    /// The answer to an error: its status and its message.
    pub fn from_error(e: KvError) -> (r: Self)
        ensures
            r@ == failed(e),
    {
        let status = match &e {
            KvError::NotFound(_, _) => status_not_found(),
            KvError::InvalidCommand(_) => status_bad_request(),
            _ => status_internal(),
        };
        let r = CommandResponse { status, message: e.message(), values: Vec::new(), pairs: Vec::new() };
        assert(r@.values =~= Seq::empty());
        assert(r@.pairs =~= Seq::empty());
        r
    }
}

} // verus!
