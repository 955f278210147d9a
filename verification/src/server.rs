//! What the HTTP server answers.
//!
//! The server exposes an in-memory [`HnswIndex`] over a small JSON API. Here a
//! request is a plain value and so is the answer: which requests are refused and
//! with which words, what a request does to the index, and what it returns.
//!
//! | Method & path   | Body                              | Purpose                    |
//! | --------------- | --------------------------------- | -------------------------- |
//! | `GET  /stats`   |                                   | count / dim / metric       |
//! | `POST /vectors` | `{id, vector, payload?}`          | insert a vector            |
//! | `POST /search`  | `{vector, k?, filter?}`           | (filtered) nearest search  |

use crate::float::{Double, Single};
use crate::hnsw::{Fields, HnswIndex, HnswView};
use crate::index::{SearchResult, VectorIndex};
use crate::json::{as_bool, as_f64, as_i64, as_text, display, entries_of, held, into_entries};
use crate::json::{json_of, json_text, JsonView};
use crate::metric::{Metric, Op};
use crate::order::Scored;
use crate::payload::{collected, Field, Filter, Payload, Value, ValueView};
use crate::text::{append_number, digits};
use serde_json::Value as JsonValue;
use vstd::prelude::*;
use vstd::string::StringExecFns;

verus! {

/// The HTTP status of a request that cannot be served as it is.
pub const BAD_REQUEST: u16 = 400;

/// Why a request was refused: the HTTP status and a message.
#[derive(Debug)]
pub struct ApiError {
    /// The HTTP status.
    pub status: u16,
    /// What is wrong with the request.
    pub message: String,
}

impl Clone for ApiError {
    fn clone(&self) -> (copy: ApiError)
        ensures
            copy.status == self.status,
            copy.message@ == self.message@,
    {
        ApiError { status: self.status, message: self.message.clone() }
    }
}

/// Refuse a request.
pub fn bad_request(message: String) -> (e: ApiError)
    ensures
        e.status == BAD_REQUEST,
        e.status == 400,
        e.message@ == message@,
{
    ApiError { status: BAD_REQUEST, message }
}

/// The message for a vector of the wrong length.
pub open spec fn mismatch_text(dim: nat, len: nat) -> Seq<char> {
    "expected "@ + digits(dim) + "-dim vector, got "@ + digits(len)
}

/// Refuse a vector of the wrong length.
fn mismatch(dim: usize, len: usize) -> (e: ApiError)
    ensures
        e.status == BAD_REQUEST,
        e.message@ == mismatch_text(dim as nat, len as nat),
{
    let mut message = String::new();
    message.append("expected ");
    append_number(&mut message, dim);
    message.append("-dim vector, got ");
    append_number(&mut message, len);
    assert(message@ =~= mismatch_text(dim as nat, len as nat));
    bad_request(message)
}

/// The payload value that a JSON value stands for: a string, a number that is an
/// integer if it can be one, or a boolean.
pub open spec fn value_of(json: JsonView) -> Option<ValueView> {
    match json {
        JsonView::Text(s) => Some(ValueView::Str(s)),
        JsonView::Bool(b) => Some(ValueView::Bool(b)),
        JsonView::PosInt(_) | JsonView::NegInt(_) | JsonView::Float(_) => match json.integer() {
            Some(i) => Some(ValueView::Int(i)),
            None => Some(ValueView::Float(json.number()->0)),
        },
        _ => None,
    }
}

/// The message for a JSON value that stands for no payload value.
pub open spec fn unsuitable_text(json: JsonView) -> Seq<char> {
    "payload values must be string, number, or bool; got "@ + json_text(json)
}

/// Turn a JSON value into a payload value.
pub fn json_to_value(value: JsonValue) -> (out: Result<Value, ApiError>)
    ensures
        match out {
            Ok(v) => value_of(json_of(value)) == Some(v@),
            Err(e) => value_of(json_of(value)) is None && e.status == BAD_REQUEST && e.message@
                == unsuitable_text(json_of(value)),
        },
{
    read_value(&value)
}

/// The payload value that a JSON value stands for.
fn read_value(value: &JsonValue) -> (out: Result<Value, ApiError>)
    ensures
        match out {
            Ok(v) => value_of(json_of(*value)) == Some(v@),
            Err(e) => value_of(json_of(*value)) is None && e.status == BAD_REQUEST && e.message@
                == unsuitable_text(json_of(*value)),
        },
{
    if let Some(s) = as_text(value) {
        return Ok(Value::Str(s));
    }
    if let Some(b) = as_bool(value) {
        return Ok(Value::Bool(b));
    }
    if let Some(i) = as_i64(value) {
        return Ok(Value::Int(i));
    }
    if let Some(f) = as_f64(value) {
        return Ok(Value::Float(f));
    }
    let text = display(value);
    let mut message = String::new();
    message.append("payload values must be string, number, or bool; got ");
    message.append(text.as_str());
    assert(message@ =~= unsuitable_text(json_of(*value)));
    Err(bad_request(message))
}

/// The message for the first of the first `n` entries whose value stands for no
/// payload value, if there is one.
pub open spec fn refusal_among(entries: Seq<(Seq<char>, JsonView)>, n: nat) -> Option<Seq<char>>
    decreases n,
{
    if n == 0 {
        None
    } else {
        match refusal_among(entries, (n - 1) as nat) {
            Some(message) => Some(message),
            None => if value_of(entries[n - 1].1) is None {
                Some(unsuitable_text(entries[n - 1].1))
            } else {
                None
            },
        }
    }
}

/// The fields that entries stand for.
pub open spec fn fields_for(entries: Seq<(Seq<char>, JsonView)>) -> Seq<Field> {
    Seq::new(entries.len(), |i: int| (entries[i].0, value_of(entries[i].1)->0))
}

/// Turn a JSON object into a payload.
pub fn json_to_payload(map: serde_json::Map<String, JsonValue>) -> (out: Result<Payload, ApiError>)
    ensures
        match (refusal_among(entries_of(map), entries_of(map).len()), out) {
            (None, Ok(payload)) => payload@ == collected(fields_for(entries_of(map))),
            (Some(message), Err(e)) => e.status == BAD_REQUEST && e.message@ == message,
            _ => false,
        },
{
    entries_to_payload(into_entries(map))
}

/// Turn keys and JSON values into a payload: each in turn becomes a field, and
/// the first that cannot become one is the reason for refusing all of them.
pub fn entries_to_payload(entries: Vec<(String, JsonValue)>) -> (out: Result<Payload, ApiError>)
    ensures
        match (refusal_among(held(entries@), entries@.len()), out) {
            (None, Ok(payload)) => payload@ == collected(fields_for(held(entries@))),
            (Some(message), Err(e)) => e.status == BAD_REQUEST && e.message@ == message,
            _ => false,
        },
{
    let ghost all = held(entries@);
    let ghost n = all.len();
    let mut payload = Payload::new();
    let mut i: usize = 0;
    assert(fields_for(all).take(0) =~= Seq::empty());
    while i < entries.len()
        invariant
            all == held(entries@),
            i <= n == all.len() == entries@.len(),
            refusal_among(all, i as nat) is None,
            payload@ == collected(fields_for(all).take(i as int)),
        decreases n - i,
    {
        match read_value(&entries[i].1) {
            Ok(v) => {
                let key = entries[i].0.clone();
                proof {
                    let longer = fields_for(all).take(i + 1);
                    assert(longer.drop_last() =~= fields_for(all).take(i as int));
                    assert(longer.last() == (key@, v@));
                }
                payload.insert(key, v);
            },
            Err(e) => {
                proof {
                    lemma_first_refusal_stays(all, (i + 1) as nat, n);
                }
                return Err(e);
            },
        }
        i += 1;
    }
    assert(fields_for(all).take(n as int) =~= fields_for(all));
    Ok(payload)
}

/// The first refusal is that of the whole.
proof fn lemma_first_refusal_stays(entries: Seq<(Seq<char>, JsonView)>, n: nat, m: nat)
    requires
        n <= m,
        refusal_among(entries, n) is Some,
    ensures
        refusal_among(entries, m) == refusal_among(entries, n),
    decreases m,
{
    if n < m {
        lemma_first_refusal_stays(entries, n, (m - 1) as nat);
    }
}

/// JSON shape of a [`Filter`], externally tagged: `{"eq": {"key": "...",
/// "value": ...}}`, `{"gt": {"key": "...", "value": 3}}`, `{"and": [ ... ]}`,
/// `{"not": { ... }}`, and so on.
#[derive(Debug)]
pub enum FilterDto {
    /// The field equals the value.
    Eq {
        /// The key of the field.
        key: String,
        /// The value.
        value: JsonValue,
    },
    /// The field is greater than the value.
    Gt {
        /// The key of the field.
        key: String,
        /// The value.
        value: Double,
    },
    /// The field is less than the value.
    Lt {
        /// The key of the field.
        key: String,
        /// The value.
        value: Double,
    },
    /// All of these.
    And(Vec<FilterDto>),
    /// One of these.
    Or(Vec<FilterDto>),
    /// Not this.
    Not(Box<FilterDto>),
}

impl FilterDto {
    /// The message with which the filter is refused, if it is: that of the first
    /// value in it that stands for no payload value.
    pub open spec fn refusal(self) -> Option<Seq<char>>
        decreases self, 0nat,
    {
        match self {
            FilterDto::Eq { key, value } => if value_of(json_of(value)) is None {
                Some(unsuitable_text(json_of(value)))
            } else {
                None
            },
            FilterDto::Gt { key, value } => None,
            FilterDto::Lt { key, value } => None,
            FilterDto::And(subs) => FilterDto::first_refusal(subs@, subs@.len()),
            FilterDto::Or(subs) => FilterDto::first_refusal(subs@, subs@.len()),
            FilterDto::Not(sub) => (*sub).refusal(),
        }
    }

    /// The message with which the first of the first `n` filters that is refused
    /// is refused, if there is one.
    pub open spec fn first_refusal(subs: Seq<FilterDto>, n: nat) -> Option<Seq<char>>
        decreases subs, n,
    {
        if n == 0 || n > subs.len() {
            None
        } else {
            match FilterDto::first_refusal(subs, (n - 1) as nat) {
                Some(message) => Some(message),
                None => subs[n - 1].refusal(),
            }
        }
    }

    /// This is the shape of `filter`.
    pub open spec fn describes(self, filter: Filter) -> bool
        decreases self,
    {
        match (self, filter) {
            (FilterDto::Eq { key, value }, Filter::Eq(k, v)) => k@ == key@ && value_of(
                json_of(value),
            ) == Some(v@),
            (FilterDto::Gt { key, value }, Filter::Gt(k, bound)) => k@ == key@ && bound == value,
            (FilterDto::Lt { key, value }, Filter::Lt(k, bound)) => k@ == key@ && bound == value,
            (FilterDto::And(subs), Filter::And(filters)) => subs@.len() == filters@.len()
                && forall|i: int|
                0 <= i < subs@.len() ==> (#[trigger] subs@[i]).describes(filters@[i]),
            (FilterDto::Or(subs), Filter::Or(filters)) => subs@.len() == filters@.len()
                && forall|i: int|
                0 <= i < subs@.len() ==> (#[trigger] subs@[i]).describes(filters@[i]),
            (FilterDto::Not(sub), Filter::Not(f)) => (*sub).describes(*f),
            _ => false,
        }
    }

    /// Turn the JSON shape into a filter.
    pub fn into_filter(self) -> (out: Result<Filter, ApiError>)
        ensures
            match out {
                Ok(filter) => self.refusal() is None && self.describes(filter),
                Err(e) => e.status == BAD_REQUEST && self.refusal() == Some(e.message@),
            },
    {
        self.filter()
    }

    /// The filter of which this is the shape.
    fn filter(&self) -> (out: Result<Filter, ApiError>)
        ensures
            match out {
                Ok(filter) => self.refusal() is None && self.describes(filter),
                Err(e) => e.status == BAD_REQUEST && self.refusal() == Some(e.message@),
            },
        decreases self,
    {
        match self {
            FilterDto::Eq { key, value } => match read_value(value) {
                Ok(v) => Ok(Filter::Eq(key.clone(), v)),
                Err(e) => Err(e),
            },
            FilterDto::Gt { key, value } => Ok(Filter::Gt(key.clone(), *value)),
            FilterDto::Lt { key, value } => Ok(Filter::Lt(key.clone(), *value)),
            FilterDto::And(subs) => match filters(subs) {
                Ok(filters) => Ok(Filter::And(filters)),
                Err(e) => Err(e),
            },
            FilterDto::Or(subs) => match filters(subs) {
                Ok(filters) => Ok(Filter::Or(filters)),
                Err(e) => Err(e),
            },
            FilterDto::Not(sub) => match sub.filter() {
                Ok(filter) => Ok(Filter::Not(Box::new(filter))),
                Err(e) => Err(e),
            },
        }
    }
}

/// The filter of each JSON shape, up to the first that is refused.
fn filters(subs: &Vec<FilterDto>) -> (out: Result<Vec<Filter>, ApiError>)
    ensures
        match out {
            Ok(filters) => FilterDto::first_refusal(subs@, subs@.len()) is None && filters@.len()
                == subs@.len() && forall|i: int|
                0 <= i < subs@.len() ==> (#[trigger] subs@[i]).describes(filters@[i]),
            Err(e) => e.status == BAD_REQUEST && FilterDto::first_refusal(subs@, subs@.len())
                == Some(e.message@),
        },
    decreases subs,
{
    let mut filters: Vec<Filter> = Vec::new();
    let mut i: usize = 0;
    while i < subs.len()
        invariant
            i <= subs@.len(),
            filters@.len() == i,
            FilterDto::first_refusal(subs@, i as nat) is None,
            forall|j: int| 0 <= j < i ==> (#[trigger] subs@[j]).describes(filters@[j]),
        decreases subs@.len() - i,
    {
        match subs[i].filter() {
            Ok(filter) => {
                filters.push(filter);
            },
            Err(e) => {
                proof {
                    lemma_first_refused_filter_stays(subs@, (i + 1) as nat, subs@.len());
                }
                return Err(e);
            },
        }
        i += 1;
    }
    Ok(filters)
}

/// The first refusal is that of the whole.
proof fn lemma_first_refused_filter_stays(subs: Seq<FilterDto>, n: nat, m: nat)
    requires
        n <= m <= subs.len(),
        FilterDto::first_refusal(subs, n) is Some,
    ensures
        FilterDto::first_refusal(subs, m) == FilterDto::first_refusal(subs, n),
    decreases m,
{
    if n < m {
        lemma_first_refused_filter_stays(subs, n, (m - 1) as nat);
    }
}

/// Two filters of one JSON shape hold of the same payloads.
pub proof fn law_shape_determines_meaning(
    dto: FilterDto,
    a: Filter,
    b: Filter,
    payload: Option<Fields>,
)
    requires
        dto.describes(a),
        dto.describes(b),
    ensures
        a.holds(payload) == b.holds(payload),
    decreases dto,
{
    match (dto, a, b) {
        (FilterDto::And(subs), Filter::And(x), Filter::And(y)) => {
            assert forall|i: int| 0 <= i < subs@.len() implies (#[trigger] x@[i]).holds(payload)
                == y@[i].holds(payload) by {
                assert(subs@[i].describes(x@[i]));
                law_shape_determines_meaning(subs@[i], x@[i], y@[i], payload);
            }
            crate::payload::lemma_same_lists(x, y, payload);
        },
        (FilterDto::Or(subs), Filter::Or(x), Filter::Or(y)) => {
            assert forall|i: int| 0 <= i < subs@.len() implies (#[trigger] x@[i]).holds(payload)
                == y@[i].holds(payload) by {
                assert(subs@[i].describes(x@[i]));
                law_shape_determines_meaning(subs@[i], x@[i], y@[i], payload);
            }
            crate::payload::lemma_same_lists(x, y, payload);
        },
        (FilterDto::Not(sub), Filter::Not(x), Filter::Not(y)) => {
            law_shape_determines_meaning(*sub, *x, *y, payload);
        },
        _ => {},
    }
}

/// What `{"gt": {"key": ..., "value": ...}}` asks for: the payloads that have a
/// number in the field that is greater than the value. An integer counts as the
/// double nearest to it.
pub proof fn law_gt_asks_for_greater_numbers(
    key: String,
    value: Double,
    filter: Filter,
    payload: Option<Fields>,
)
    requires
        (FilterDto::Gt { key, value }).describes(filter),
    ensures
        filter.holds(payload) <==> payload is Some && payload->0.dom().contains(key@) && match (
        payload->0[key@]) {
            ValueView::Int(i) => value.less(Double { bits: Double::int_bits(i as int) as u64 }),
            ValueView::Float(x) => value.less(x),
            _ => false,
        },
{
}

/// What `{"lt": {"key": ..., "value": ...}}` asks for: the payloads that have a
/// number in the field that is less than the value. An integer counts as the
/// double nearest to it.
pub proof fn law_lt_asks_for_smaller_numbers(
    key: String,
    value: Double,
    filter: Filter,
    payload: Option<Fields>,
)
    requires
        (FilterDto::Lt { key, value }).describes(filter),
    ensures
        filter.holds(payload) <==> payload is Some && payload->0.dom().contains(key@) && match (
        payload->0[key@]) {
            ValueView::Int(i) => (Double { bits: Double::int_bits(i as int) as u64 }).less(value),
            ValueView::Float(x) => x.less(value),
            _ => false,
        },
{
}

/// What `{"eq": {"key": ..., "value": ...}}` asks for: the payloads that have in the
/// field the same text, the same boolean, the same integer where the value is one of
/// sixty-four bits with a sign, or else the same number as a float.
pub proof fn law_eq_asks_for_the_same_value(
    key: String,
    value: JsonValue,
    filter: Filter,
    payload: Option<Fields>,
)
    requires
        (FilterDto::Eq { key, value }).describes(filter),
    ensures
        filter.holds(payload) <==> payload is Some && payload->0.dom().contains(key@) && match (
            payload->0[key@],
            json_of(value),
        ) {
            (ValueView::Str(a), JsonView::Text(b)) => a == b,
            (ValueView::Bool(a), JsonView::Bool(b)) => a == b,
            (ValueView::Int(a), JsonView::PosInt(b)) => a == b,
            (ValueView::Int(a), JsonView::NegInt(b)) => a == b,
            (ValueView::Float(a), JsonView::Float(b)) => !a.nan() && !b.nan() && !a.less(b)
                && !b.less(a),
            (ValueView::Float(a), JsonView::PosInt(b)) => b > i64::MAX && a.equal(
                Double { bits: Double::int_bits(b as int) as u64 },
            ),
            _ => false,
        },
{
}

/// What `{"and": [...]}`, `{"or": [...]}` and `{"not": ...}` ask for, by what their
/// parts ask for: where `parts` are filters of the shapes in the list, `and` holds
/// where all of them do, `or` where one of them does, and `not` where its part does
/// not.
pub proof fn law_combined_shapes_ask_by_their_parts(
    subs: Vec<FilterDto>,
    parts: Seq<Filter>,
    sub: Box<FilterDto>,
    part: Filter,
    payload: Option<Fields>,
)
    requires
        parts.len() == subs@.len(),
        forall|i: int| 0 <= i < subs@.len() ==> (#[trigger] subs@[i]).describes(parts[i]),
        (*sub).describes(part),
    ensures
        forall|filter: Filter| #[trigger]
            FilterDto::And(subs).describes(filter) ==> (filter.holds(payload) <==> forall|i: int|
                0 <= i < parts.len() ==> (#[trigger] parts[i]).holds(payload)),
        forall|filter: Filter| #[trigger]
            FilterDto::Or(subs).describes(filter) ==> (filter.holds(payload) <==> exists|i: int|
                0 <= i < parts.len() && (#[trigger] parts[i]).holds(payload)),
        forall|filter: Filter| #[trigger]
            FilterDto::Not(sub).describes(filter) ==> (filter.holds(payload) <==> !part.holds(
                payload,
            )),
{
    let all = FilterDto::And(subs);
    let any = FilterDto::Or(subs);
    let not = FilterDto::Not(sub);
    assert(all->And_0@ == subs@ && any->Or_0@ == subs@);
    assert forall|filter: Filter| #[trigger] all.describes(filter) implies (filter.holds(payload)
        <==> forall|i: int| 0 <= i < parts.len() ==> (#[trigger] parts[i]).holds(payload)) by {
        let found = filter->And_0;
        lemma_parts_agree(subs, parts, found@, payload);
        assert(filter == Filter::And(found));
        crate::payload::law_lists_hold_by_their_members(found, payload);
    }
    assert forall|filter: Filter| #[trigger] any.describes(filter) implies (filter.holds(payload)
        <==> exists|i: int| 0 <= i < parts.len() && (#[trigger] parts[i]).holds(payload)) by {
        let found = filter->Or_0;
        lemma_parts_agree(subs, parts, found@, payload);
        assert(filter == Filter::Or(found));
        crate::payload::law_lists_hold_by_their_members(found, payload);
    }
    assert forall|filter: Filter| #[trigger] not.describes(filter) implies (filter.holds(payload)
        <==> !part.holds(payload)) by {
        let found = *(filter->Not_0);
        law_shape_determines_meaning(*sub, found, part, payload);
        assert(filter == Filter::Not(filter->Not_0));
    }
}

/// Filters of the same shapes hold of the same payloads.
proof fn lemma_parts_agree(
    subs: Vec<FilterDto>,
    parts: Seq<Filter>,
    found: Seq<Filter>,
    payload: Option<Fields>,
)
    requires
        parts.len() == subs@.len(),
        found.len() == subs@.len(),
        forall|i: int| 0 <= i < subs@.len() ==> (#[trigger] subs@[i]).describes(parts[i]),
        forall|i: int| 0 <= i < subs@.len() ==> (#[trigger] subs@[i]).describes(found[i]),
    ensures
        forall|i: int|
            0 <= i < subs@.len() ==> (#[trigger] parts[i]).holds(payload) == found[i].holds(
                payload,
            ),
        (exists|i: int| 0 <= i < parts.len() && (#[trigger] parts[i]).holds(payload)) == (exists|
            i: int,
        |
            0 <= i < found.len() && (#[trigger] found[i]).holds(payload)),
        (forall|i: int| 0 <= i < parts.len() ==> (#[trigger] parts[i]).holds(payload)) == (forall|
            i: int,
        |
            0 <= i < found.len() ==> (#[trigger] found[i]).holds(payload)),
{
    assert forall|i: int| 0 <= i < subs@.len() implies (#[trigger] parts[i]).holds(payload)
        == found[i].holds(payload) by {
        assert(subs@[i].describes(parts[i]) && subs@[i].describes(found[i]));
        law_shape_determines_meaning(subs@[i], parts[i], found[i], payload);
    }
    if exists|i: int| 0 <= i < parts.len() && (#[trigger] parts[i]).holds(payload) {
        let i = choose|i: int| 0 <= i < parts.len() && (#[trigger] parts[i]).holds(payload);
        assert(found[i].holds(payload));
    }
    if exists|i: int| 0 <= i < found.len() && (#[trigger] found[i]).holds(payload) {
        let i = choose|i: int| 0 <= i < found.len() && (#[trigger] found[i]).holds(payload);
        assert(parts[i].holds(payload));
    }
    if forall|i: int| 0 <= i < parts.len() ==> (#[trigger] parts[i]).holds(payload) {
        assert forall|i: int| 0 <= i < found.len() implies (#[trigger] found[i]).holds(
            payload,
        ) by {
            assert(parts[i].holds(payload));
        }
    }
    if forall|i: int| 0 <= i < found.len() ==> (#[trigger] found[i]).holds(payload) {
        assert forall|i: int| 0 <= i < parts.len() implies (#[trigger] parts[i]).holds(
            payload,
        ) by {
            assert(found[i].holds(payload));
        }
    }
}

/// What a JSON value becomes in a payload: text and booleans stay what they are; an
/// integer that fits in sixty-four bits with a sign stays that integer; a larger one
/// becomes the double nearest to it, and any other number stays that number. Nothing
/// else is a payload value.
pub proof fn law_json_values_keep_their_meaning(json: JsonView)
    ensures
        match json {
            JsonView::Text(s) => value_of(json) == Some(ValueView::Str(s)),
            JsonView::Bool(b) => value_of(json) == Some(ValueView::Bool(b)),
            JsonView::NegInt(n) => value_of(json) == Some(ValueView::Int(n)),
            JsonView::PosInt(n) => if n <= 0x7FFF_FFFF_FFFF_FFFF {
                value_of(json) matches Some(ValueView::Int(i)) && i == n
            } else {
                value_of(json) matches Some(ValueView::Float(x)) && x.bits == Double::int_bits(
                    n as int,
                ) as u64
            },
            JsonView::Float(x) => value_of(json) == Some(ValueView::Float(x)),
            JsonView::Null | JsonView::Array(_) | JsonView::Object(_) => value_of(json) is None,
        },
{
}

/// Entries become a payload exactly if each of their values can: otherwise the
/// message is that of the first one that cannot.
pub proof fn law_first_unsuitable_entry_refuses(
    entries: Seq<(Seq<char>, JsonView)>,
    i: int,
)
    requires
        0 <= i < entries.len(),
        value_of(entries[i].1) is None,
        forall|j: int| 0 <= j < i ==> value_of((#[trigger] entries[j]).1) is Some,
    ensures
        refusal_among(entries, entries.len()) == Some(
            "payload values must be string, number, or bool; got "@ + json_text(entries[i].1),
        ),
{
    lemma_nothing_refused(entries, i as nat);
    lemma_first_refusal_stays(entries, (i + 1) as nat, entries.len());
}

/// Entries that all can become fields are not refused, and what they become holds
/// under every key the value of the last entry with that key, and nothing else.
pub proof fn law_suitable_entries_become_fields(
    entries: Seq<(Seq<char>, JsonView)>,
    i: int,
)
    requires
        0 <= i < entries.len(),
        forall|j: int| 0 <= j < entries.len() ==> value_of((#[trigger] entries[j]).1) is Some,
        forall|j: int| i < j < entries.len() ==> (#[trigger] entries[j]).0 != entries[i].0,
    ensures
        refusal_among(entries, entries.len()) is None,
        collected(fields_for(entries)).dom().contains(entries[i].0),
        Some(collected(fields_for(entries))[entries[i].0]) == value_of(entries[i].1),
        forall|k: Seq<char>| #[trigger]
            collected(fields_for(entries)).dom().contains(k) ==> exists|j: int|
                0 <= j < entries.len() && (#[trigger] entries[j]).0 == k,
{
    let fields = fields_for(entries);
    lemma_nothing_refused(entries, entries.len());
    lemma_last_field_stays(fields, i);
    assert forall|k: Seq<char>| #[trigger] collected(fields).dom().contains(k) implies exists|
        j: int,
    |
        0 <= j < entries.len() && (#[trigger] entries[j]).0 == k by {
        lemma_keys_come_from_fields(fields, k);
        let j = choose|j: int| 0 <= j < fields.len() && (#[trigger] fields[j]).0 == k;
        assert(entries[j].0 == k);
    }
}

/// A key comes from a field.
proof fn lemma_keys_come_from_fields(fields: Seq<Field>, k: Seq<char>)
    requires
        collected(fields).dom().contains(k),
    ensures
        exists|j: int| 0 <= j < fields.len() && (#[trigger] fields[j]).0 == k,
    decreases fields.len(),
{
    if fields.last().0 == k {
        assert(fields[fields.len() - 1].0 == k);
    } else {
        let front = fields.drop_last();
        lemma_keys_come_from_fields(front, k);
        let j = choose|j: int| 0 <= j < front.len() && (#[trigger] front[j]).0 == k;
        assert(fields[j].0 == k);
    }
}

/// A vector that is added on request carries what the request gives it: no payload if
/// there is none, and otherwise one that holds under every key the value of the last
/// entry with that key.
pub proof fn law_added_vectors_carry_their_payload(req: AddRequest, i: int)
    ensures
        req.payload is None ==> requested_fields(req) is None,
        req.payload is Some ==> requested_fields(req) is Some,
        ({
            let entries = entries_of(req.payload->0);
            req.payload is Some && 0 <= i < entries.len() && value_of(entries[i].1) is Some && (
            forall|j: int| i < j < entries.len() ==> (#[trigger] entries[j]).0 != entries[i].0)
                ==> requested_fields(req)->0.dom().contains(entries[i].0) && Some(
                requested_fields(req)->0[entries[i].0],
            ) == value_of(entries[i].1)
        }),
        req.payload is Some && entries_of(req.payload->0).len() == 0 ==> requested_fields(req)
            == Some(Map::<Seq<char>, ValueView>::empty()),
{
    if req.payload is Some {
        let entries = entries_of(req.payload->0);
        let fields = fields_for(entries);
        if 0 <= i < entries.len() && (forall|j: int|
            i < j < entries.len() ==> (#[trigger] entries[j]).0 != entries[i].0) {
            assert forall|j: int| i < j < fields.len() implies (#[trigger] fields[j]).0
                != fields[i].0 by {
                assert(entries[j].0 != entries[i].0);
            }
            lemma_last_field_stays(fields, i);
        }
    }
}

/// Which filters are refused, and with which words: an equality whose value can be no
/// payload value; a list whose first refused member is refused so; and the negation of
/// what is refused. Bounds never are.
pub proof fn law_filters_are_refused_for_their_values(
    key: String,
    value: JsonValue,
    bound: Double,
    subs: Vec<FilterDto>,
    i: int,
    sub: Box<FilterDto>,
)
    ensures
        (FilterDto::Eq { key, value }).refusal() == if value_of(json_of(value)) is None {
            Some(
                "payload values must be string, number, or bool; got "@ + json_text(
                    json_of(value),
                ),
            )
        } else {
            None
        },
        (FilterDto::Gt { key, value: bound }).refusal() is None,
        (FilterDto::Lt { key, value: bound }).refusal() is None,
        FilterDto::Not(sub).refusal() == (*sub).refusal(),
        0 <= i < subs@.len() && subs@[i].refusal() is Some && (forall|j: int|
            0 <= j < i ==> (#[trigger] subs@[j]).refusal() is None) ==> FilterDto::And(
            subs,
        ).refusal() == subs@[i].refusal() && FilterDto::Or(subs).refusal() == subs@[i].refusal(),
        (forall|j: int| 0 <= j < subs@.len() ==> (#[trigger] subs@[j]).refusal() is None)
            ==> FilterDto::And(subs).refusal() is None && FilterDto::Or(subs).refusal() is None,
{
    let all = FilterDto::And(subs);
    let any = FilterDto::Or(subs);
    assert(all->And_0@ == subs@ && any->Or_0@ == subs@);
    if 0 <= i < subs@.len() && subs@[i].refusal() is Some && (forall|j: int|
        0 <= j < i ==> (#[trigger] subs@[j]).refusal() is None) {
        lemma_no_filter_refused(subs@, i as nat);
        assert(FilterDto::first_refusal(subs@, (i + 1) as nat) == subs@[i].refusal());
        lemma_first_refused_filter_stays(subs@, (i + 1) as nat, subs@.len());
    }
    if forall|j: int| 0 <= j < subs@.len() ==> (#[trigger] subs@[j]).refusal() is None {
        lemma_no_filter_refused(subs@, subs@.len());
    }
}

/// Where no member is refused, the list is not.
proof fn lemma_no_filter_refused(subs: Seq<FilterDto>, n: nat)
    requires
        n <= subs.len(),
        forall|j: int| 0 <= j < n ==> (#[trigger] subs[j]).refusal() is None,
    ensures
        FilterDto::first_refusal(subs, n) is None,
    decreases n,
{
    if n > 0 {
        lemma_no_filter_refused(subs, (n - 1) as nat);
        assert(subs[n - 1].refusal() is None);
    }
}

/// Where every value can become one, nothing is refused.
proof fn lemma_nothing_refused(entries: Seq<(Seq<char>, JsonView)>, n: nat)
    requires
        n <= entries.len(),
        forall|j: int| 0 <= j < n ==> value_of((#[trigger] entries[j]).1) is Some,
    ensures
        refusal_among(entries, n) is None,
    decreases n,
{
    if n > 0 {
        lemma_nothing_refused(entries, (n - 1) as nat);
        assert(value_of(entries[n - 1].1) is Some);
    }
}

/// A field that no later one replaces is there.
proof fn lemma_last_field_stays(fields: Seq<Field>, i: int)
    requires
        0 <= i < fields.len(),
        forall|j: int| i < j < fields.len() ==> (#[trigger] fields[j]).0 != fields[i].0,
    ensures
        collected(fields).dom().contains(fields[i].0),
        collected(fields)[fields[i].0] == fields[i].1,
    decreases fields.len(),
{
    if i < fields.len() - 1 {
        let front = fields.drop_last();
        assert(fields[fields.len() - 1].0 != fields[i].0);
        assert forall|j: int| i < j < front.len() implies (#[trigger] front[j]).0
            != front[i].0 by {
            assert(front[j] == fields[j]);
        }
        lemma_last_field_stays(front, i);
    }
}

/// How many vectors an index holds, of which length, and what it measures.
#[derive(Debug)]
pub struct StatsResponse {
    /// Number of stored vectors.
    pub count: usize,
    /// Length of every vector.
    pub dim: usize,
    /// Name of the metric.
    pub metric: String,
}

impl Clone for StatsResponse {
    fn clone(&self) -> (copy: StatsResponse)
        ensures
            copy.count == self.count,
            copy.dim == self.dim,
            copy.metric@ == self.metric@,
    {
        StatsResponse { count: self.count, dim: self.dim, metric: self.metric.clone() }
    }
}

impl StatsResponse {
    /// This is what an index answers about itself.
    pub open spec fn describes(self, index: HnswView) -> bool {
        &&& self.count == index.ids.len()
        &&& self.dim == index.dim
        &&& self.metric@ == index.metric.spec_name()
    }
}

/// A request to insert a vector.
#[derive(Debug)]
pub struct AddRequest {
    /// The id.
    pub id: u64,
    /// The vector.
    pub vector: Vec<Single>,
    /// Its metadata, if it has any.
    pub payload: Option<serde_json::Map<String, JsonValue>>,
}

/// A request for the nearest vectors.
#[derive(Debug)]
pub struct SearchRequest {
    /// The vector to search near.
    pub vector: Vec<Single>,
    /// How many are wanted.
    pub k: usize,
    /// Which are wanted, if not all.
    pub filter: Option<FilterDto>,
}

/// How many hits are returned when a request does not say.
pub fn default_k() -> (k: usize)
    ensures
        k == 10,
{
    10
}

/// One answer to a search.
#[derive(Debug, Clone, Copy)]
pub struct Hit {
    /// Id of the stored vector.
    pub id: u64,
    /// Distance from the query.
    pub distance: Single,
}

/// Hits as they are answered.
pub open spec fn as_answers(hits: Seq<SearchResult>) -> Seq<Hit> {
    hits.map_values(|r: SearchResult| Hit { id: r.id, distance: r.distance })
}

/// What an index answers about itself.
pub fn stats<F, L>(index: &HnswIndex<F, L>) -> (response: StatsResponse) where
    F: Fn(Op, Single, Single) -> Single,
    L: Fn(Double, usize) -> Double,

    ensures
        response.describes(index@),
{
    StatsResponse { count: index.len(), dim: index.dim(), metric: index.metric().name() }
}

/// The message with which a request to insert a vector is refused, if it is: its
/// vector has the wrong length, or its payload a value of the wrong type.
pub open spec fn add_refusal(dim: nat, req: AddRequest) -> Option<Seq<char>> {
    if req.vector@.len() != dim {
        Some(mismatch_text(dim, req.vector@.len()))
    } else {
        match req.payload {
            Some(map) => refusal_among(entries_of(map), entries_of(map).len()),
            None => None,
        }
    }
}

/// The fields that a request gives a vector, if it gives any.
pub open spec fn requested_fields(req: AddRequest) -> Option<Fields> {
    match req.payload {
        Some(map) => Some(collected(fields_for(entries_of(map)))),
        None => None,
    }
}

/// Insert a vector on request. A request that is refused leaves the index as it
/// was.
pub fn add_vector<F, L>(index: &mut HnswIndex<F, L>, req: AddRequest) -> (out: Result<
    StatsResponse,
    ApiError,
>) where
    F: Fn(Op, Single, Single) -> Single,
    L: Fn(Double, usize) -> Double,

    requires
        old(index).valid(),
        old(index)@.ids.len() < old(index)@.capacity(),
    ensures
        final(index).valid(),
        match (add_refusal(old(index)@.dim, req), out) {
            (None, Ok(response)) => {
                &&& final(index)@ == old(index)@.inserted(
                    req.id,
                    req.vector@,
                    requested_fields(req),
                )
                &&& response.describes(final(index)@)
            },
            (Some(message), Err(e)) => {
                &&& *final(index) == *old(index)
                &&& e.status == BAD_REQUEST
                &&& e.message@ == message
            },
            _ => false,
        },
{
    if req.vector.len() != index.dim() {
        return Err(mismatch(index.dim(), req.vector.len()));
    }
    match req.payload {
        Some(map) => match json_to_payload(map) {
            Ok(payload) => {
                index.add_with_payload(req.id, req.vector.as_slice(), payload);
            },
            Err(e) => {
                return Err(e);
            },
        },
        None => {
            index.add(req.id, req.vector.as_slice());
        },
    }
    Ok(stats(index))
}

/// The message with which a search request is refused, if it is: its vector has
/// the wrong length, or its filter a value of the wrong type.
pub open spec fn search_refusal(dim: nat, req: SearchRequest) -> Option<Seq<char>> {
    if req.vector@.len() != dim {
        Some(mismatch_text(dim, req.vector@.len()))
    } else {
        match req.filter {
            Some(dto) => dto.refusal(),
            None => None,
        }
    }
}

/// The answers are those to a search request: the hits for its vector, under its
/// filter if it has one.
pub open spec fn answers(index: HnswView, req: SearchRequest, hits: Seq<Hit>) -> bool {
    match req.filter {
        Some(dto) => exists|filter: Filter| #[trigger]
            dto.describes(filter) && hits == as_answers(
                index.filtered_hits(req.vector@, req.k as nat, filter),
            ),
        None => hits == as_answers(index.hits(req.vector@, req.k as nat)),
    }
}

/// A search request has one answer.
pub proof fn law_answers_are_determined(
    index: HnswView,
    req: SearchRequest,
    a: Seq<Hit>,
    b: Seq<Hit>,
)
    requires
        answers(index, req, a),
        answers(index, req, b),
    ensures
        a == b,
{
    if let Some(dto) = req.filter {
        let k = req.k as nat;
        let f = choose|filter: Filter| #[trigger]
            dto.describes(filter) && a == as_answers(index.filtered_hits(req.vector@, k, filter));
        let g = choose|filter: Filter| #[trigger]
            dto.describes(filter) && b == as_answers(index.filtered_hits(req.vector@, k, filter));
        let keep_f = |s: Scored| f.holds(index.payloads[s.node as int]);
        let keep_g = |s: Scored| g.holds(index.payloads[s.node as int]);
        assert forall|s: Scored| #[trigger] keep_f(s) == keep_g(s) by {
            law_shape_determines_meaning(dto, f, g, index.payloads[s.node as int]);
        }
        assert(keep_f =~= keep_g);
    }
}

/// What a search request is answered: every answer is a stored vector at its true
/// distance, none of them twice, nearest first and at most as many as were asked
/// for; and under a filter, each is one whose payload the filter holds of.
pub proof fn law_answers_are_stored_vectors(index: HnswView, req: SearchRequest, hits: Seq<Hit>)
    requires
        index.well_formed(),
        answers(index, req, hits),
    ensures
        hits.len() <= req.k,
        forall|i: int, j: int|
            0 <= i < j < hits.len() ==> (#[trigger] hits[i]).distance.rank() <= (
            #[trigger] hits[j]).distance.rank(),
        exists|at: Seq<int>|
            {
                &&& at.len() == hits.len()
                &&& #[trigger] at.no_duplicates()
                &&& forall|i: int|
                    0 <= i < hits.len() ==> 0 <= #[trigger] at[i] < index.ids.len() && hits[i].id
                        == index.ids[at[i]] && hits[i].distance == (index.distance)(
                        req.vector@,
                        index.vectors[at[i]],
                    )
                &&& forall|i: int, filter: Filter|
                    0 <= i < hits.len() && req.filter is Some && #[trigger] (
                    req.filter->0).describes(filter) ==> filter.holds(
                        index.payloads[#[trigger] at[i]],
                    )
            },
{
    let k = req.k as nat;
    if let Some(dto) = req.filter {
        let f = choose|filter: Filter| #[trigger]
            dto.describes(filter) && hits == as_answers(
                index.filtered_hits(req.vector@, k, filter),
            );
        let found = index.filtered_hits(req.vector@, k, f);
        let at = index.positions(index.nearest_matching(req.vector@, k, f));
        crate::hnsw::law_filtered_hits_match(index, req.vector@, k, f);
        assert(hits.len() == found.len());
        assert forall|i: int| 0 <= i < hits.len() implies 0 <= #[trigger] at[i] < index.ids.len()
            && hits[i].id == index.ids[at[i]] && hits[i].distance == (index.distance)(
            req.vector@,
            index.vectors[at[i]],
        ) by {
            assert(hits[i].id == found[i].id);
        }
        assert forall|i: int, filter: Filter|
            0 <= i < hits.len() && req.filter is Some && #[trigger] (req.filter->0).describes(
                filter,
            ) implies filter.holds(index.payloads[#[trigger] at[i]]) by {
            law_shape_determines_meaning(dto, f, filter, index.payloads[at[i]]);
        }
        assert forall|i: int, j: int| 0 <= i < j < hits.len() implies (
        #[trigger] hits[i]).distance.rank() <= (#[trigger] hits[j]).distance.rank() by {
            assert(found[i].distance.rank() <= found[j].distance.rank());
        }
        assert(at.no_duplicates());
    } else {
        let found = index.hits(req.vector@, k);
        let at = index.positions(index.nearest(req.vector@, k));
        crate::hnsw::law_hits_are_stored_vectors(index, req.vector@, k);
        assert(hits.len() == found.len());
        assert forall|i: int| 0 <= i < hits.len() implies 0 <= #[trigger] at[i] < index.ids.len()
            && hits[i].id == index.ids[at[i]] && hits[i].distance == (index.distance)(
            req.vector@,
            index.vectors[at[i]],
        ) by {
            assert(hits[i].id == found[i].id);
        }
        assert forall|i: int, j: int| 0 <= i < j < hits.len() implies (
        #[trigger] hits[i]).distance.rank() <= (#[trigger] hits[j]).distance.rank() by {
            assert(found[i].distance.rank() <= found[j].distance.rank());
        }
        assert(at.no_duplicates());
    }
}

/// The answers to a search request are the hits of the index, one by one: of the
/// search under a filter of the requested shape, or of the plain search.
pub proof fn law_answers_are_the_hits(
    index: HnswView,
    req: SearchRequest,
    hits: Seq<Hit>,
    filter: Filter,
)
    requires
        answers(index, req, hits),
        req.filter matches Some(dto) ==> dto.describes(filter),
    ensures
        ({
            let found = if req.filter is Some {
                index.filtered_hits(req.vector@, req.k as nat, filter)
            } else {
                index.hits(req.vector@, req.k as nat)
            };
            &&& hits.len() == found.len()
            &&& forall|i: int|
                0 <= i < hits.len() ==> (#[trigger] hits[i]).id == found[i].id && hits[i].distance
                    == found[i].distance
        }),
{
    if let Some(dto) = req.filter {
        let other = as_answers(index.filtered_hits(req.vector@, req.k as nat, filter));
        assert(answers(index, req, other));
        law_answers_are_determined(index, req, hits, other);
    }
}

/// A request is refused exactly if its vector has another length than those of the
/// index or, failing that, if a value in it can be no payload value; and a vector of
/// the wrong length is refused first.
pub proof fn law_requests_are_refused_for_their_vector_first(
    dim: nat,
    add: AddRequest,
    search: SearchRequest,
)
    ensures
        add.vector@.len() != dim ==> add_refusal(dim, add) == Some(
            "expected "@ + digits(dim) + "-dim vector, got "@ + digits(add.vector@.len()),
        ),
        search.vector@.len() != dim ==> search_refusal(dim, search) == Some(
            "expected "@ + digits(dim) + "-dim vector, got "@ + digits(search.vector@.len()),
        ),
        add.vector@.len() == dim && add.payload is None ==> add_refusal(dim, add) is None,
        search.vector@.len() == dim && search.filter is None ==> search_refusal(dim, search)
            is None,
        search.vector@.len() == dim && search.filter is Some ==> search_refusal(dim, search) == (
        search.filter->0).refusal(),
        add.vector@.len() == dim && add.payload is Some ==> (forall|i: int|
            0 <= i < entries_of(add.payload->0).len() && value_of(
                (#[trigger] entries_of(add.payload->0)[i]).1,
            ) is None && (forall|j: int|
                0 <= j < i ==> value_of((#[trigger] entries_of(add.payload->0)[j]).1) is Some)
                ==> add_refusal(dim, add) == Some(
                "payload values must be string, number, or bool; got "@ + json_text(
                    entries_of(add.payload->0)[i].1,
                ),
            )),
        add.vector@.len() == dim && add.payload is Some ==> (add_refusal(dim, add) is None
            <==> forall|i: int|
            0 <= i < entries_of(add.payload->0).len() ==> value_of(
                (#[trigger] entries_of(add.payload->0)[i]).1,
            ) is Some),
{
    if add.vector@.len() == dim && add.payload is Some {
        let entries = entries_of(add.payload->0);
        assert forall|i: int|
            0 <= i < entries.len() && value_of((#[trigger] entries[i]).1) is None && (forall|j: int|
                0 <= j < i ==> value_of((#[trigger] entries[j]).1) is Some) implies add_refusal(
            dim,
            add,
        ) == Some(
            "payload values must be string, number, or bool; got "@ + json_text(entries[i].1),
        ) by {
            law_first_unsuitable_entry_refuses(entries, i);
        }
        if forall|i: int| 0 <= i < entries.len() ==> value_of((#[trigger] entries[i]).1) is Some {
            lemma_nothing_refused(entries, entries.len());
        } else {
            let i = choose|i: int|
                0 <= i < entries.len() && value_of((#[trigger] entries[i]).1) is None;
            lemma_refused_somewhere(entries, i, entries.len());
        }
    }
}

/// A value that cannot become one refuses the whole.
proof fn lemma_refused_somewhere(entries: Seq<(Seq<char>, JsonView)>, i: int, n: nat)
    requires
        0 <= i < n <= entries.len(),
        value_of(entries[i].1) is None,
    ensures
        refusal_among(entries, n) is Some,
    decreases n,
{
    if i < n - 1 {
        lemma_refused_somewhere(entries, i, (n - 1) as nat);
    }
}

/// What is answered about an index: how many vectors it holds, their length, and
/// which metric it measures with.
pub proof fn law_stats_count_the_vectors(stats: StatsResponse, index: HnswView)
    requires
        stats.describes(index),
    ensures
        stats.count == index.ids.len(),
        stats.dim == index.dim,
        index.metric == Metric::Cosine ==> stats.metric@ == "Cosine"@,
        index.metric == Metric::Dot ==> stats.metric@ == "Dot"@,
        index.metric == Metric::L2 ==> stats.metric@ == "L2"@,
{
}

/// Search on request.
pub fn search<F, L>(index: &HnswIndex<F, L>, req: SearchRequest) -> (out: Result<
    Vec<Hit>,
    ApiError,
>) where
    F: Fn(Op, Single, Single) -> Single,
    L: Fn(Double, usize) -> Double,

    requires
        index.valid(),
    ensures
        match (search_refusal(index@.dim, req), out) {
            (None, Ok(hits)) => answers(index@, req, hits@),
            (Some(message), Err(e)) => e.status == BAD_REQUEST && e.message@ == message,
            _ => false,
        },
{
    if req.vector.len() != index.dim() {
        return Err(mismatch(index.dim(), req.vector.len()));
    }
    let hits = match req.filter {
        Some(dto) => match dto.into_filter() {
            Ok(filter) => {
                let hits = index.search_filtered(req.vector.as_slice(), req.k, &filter);
                assert(dto.describes(filter));
                hits
            },
            Err(e) => {
                return Err(e);
            },
        },
        None => index.search(req.vector.as_slice(), req.k),
    };
    let answered = into_answers(&hits);
    Ok(answered)
}

/// Hits as they are answered.
fn into_answers(hits: &Vec<SearchResult>) -> (answers: Vec<Hit>)
    ensures
        answers@ == as_answers(hits@),
{
    let mut answers: Vec<Hit> = Vec::new();
    for i in 0..hits.len()
        invariant
            answers@ == as_answers(hits@.take(i as int)),
    {
        answers.push(Hit { id: hits[i].id, distance: hits[i].distance });
        assert(answers@ =~= as_answers(hits@.take(i + 1)));
    }
    assert(hits@.take(hits@.len() as int) =~= hits@);
    answers
}

} // verus!
