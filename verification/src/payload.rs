//! Per-vector metadata and the filters that query it.
//!
//! A real vector search rarely wants "the nearest vectors" in the abstract: it
//! wants "the nearest vectors *that are in English*", or "*published after
//! 2020*". So each vector can carry a [`Payload`] of typed fields, and a
//! [`Filter`] restricts a search to the vectors whose payload matches.

use crate::float::Double;
use vstd::prelude::*;
use vstd::utf8::{encode_utf8, encode_utf8_decode_utf8};

verus! {

/// A typed metadata value attached to a vector.
#[derive(Debug)]
pub enum Value {
    /// A UTF-8 string.
    Str(String),
    /// A signed integer.
    Int(i64),
    /// A 64-bit float.
    Float(Double),
    /// A boolean.
    Bool(bool),
}

/// What a value is, with its text as characters.
pub enum ValueView {
    /// A string.
    Str(Seq<char>),
    /// A signed integer.
    Int(i64),
    /// A 64-bit float.
    Float(Double),
    /// A boolean.
    Bool(bool),
}

impl ValueView {
    /// The values are of one type and equal. Floats are equal as numbers, so that
    /// the two zeros are equal and a NaN is not equal to itself.
    pub open spec fn same(self, other: ValueView) -> bool {
        match (self, other) {
            (ValueView::Str(a), ValueView::Str(b)) => a == b,
            (ValueView::Int(a), ValueView::Int(b)) => a == b,
            (ValueView::Float(a), ValueView::Float(b)) => a.equal(b),
            (ValueView::Bool(a), ValueView::Bool(b)) => a == b,
            _ => false,
        }
    }

    /// A numeric value as a double, an integer rounded to the nearest one.
    pub open spec fn number(self) -> Option<Double> {
        match self {
            ValueView::Int(i) => Some(Double { bits: Double::int_bits(i as int) as u64 }),
            ValueView::Float(f) => Some(f),
            _ => None,
        }
    }
}

impl View for Value {
    type V = ValueView;

    open spec fn view(&self) -> ValueView {
        match *self {
            Value::Str(s) => ValueView::Str(s@),
            Value::Int(i) => ValueView::Int(i),
            Value::Float(f) => ValueView::Float(f),
            Value::Bool(b) => ValueView::Bool(b),
        }
    }
}

impl Clone for Value {
    fn clone(&self) -> (copy: Value)
        ensures
            copy@ == self@,
    {
        match self {
            Value::Str(s) => Value::Str(s.clone()),
            Value::Int(i) => Value::Int(*i),
            Value::Float(f) => Value::Float(*f),
            Value::Bool(b) => Value::Bool(*b),
        }
    }
}

impl PartialEq for Value {
    fn eq(&self, other: &Value) -> (b: bool) {
        match (self, other) {
            (Value::Str(a), Value::Str(b)) => *a == *b,
            (Value::Int(a), Value::Int(b)) => *a == *b,
            (Value::Float(a), Value::Float(b)) => *a == *b,
            (Value::Bool(a), Value::Bool(b)) => *a == *b,
            _ => false,
        }
    }
}

impl vstd::std_specs::cmp::PartialEqSpecImpl for Value {
    open spec fn obeys_eq_spec() -> bool {
        true
    }

    open spec fn eq_spec(&self, other: &Value) -> bool {
        self@.same(other@)
    }
}

impl Value {
    /// Interpret numeric values (`Int`/`Float`) as a double, for range
    /// comparisons. Non-numeric values return `None`.
    pub fn as_f64(&self) -> (number: Option<Double>)
        ensures
            number == self@.number(),
    {
        match self {
            Value::Int(i) => Some(Double::from_i64(*i)),
            Value::Float(f) => Some(*f),
            _ => None,
        }
    }
}

/// The order of byte strings: by the first byte in which they differ, and a
/// prefix before what it starts.
pub open spec fn bytes_before(a: Seq<u8>, b: Seq<u8>) -> bool
    decreases a.len(),
{
    if b.len() == 0 {
        false
    } else if a.len() == 0 {
        true
    } else if a[0] != b[0] {
        a[0] < b[0]
    } else {
        bytes_before(a.drop_first(), b.drop_first())
    }
}

/// The order of keys: that of their UTF-8 bytes.
pub open spec fn key_before(a: Seq<char>, b: Seq<char>) -> bool {
    bytes_before(encode_utf8(a), encode_utf8(b))
}

/// A field: its key and its value.
pub type Field = (Seq<char>, ValueView);

/// The fields stand in the order of their keys, which are distinct.
pub open spec fn in_key_order(fields: Seq<Field>) -> bool {
    forall|i: int, j: int|
        0 <= i < j < fields.len() ==> key_before((#[trigger] fields[i]).0, (#[trigger] fields[j]).0)
}

/// What a payload holds after the fields were inserted one after the other.
pub open spec fn collected(fields: Seq<Field>) -> Map<Seq<char>, ValueView>
    decreases fields.len(),
{
    if fields.len() == 0 {
        Map::empty()
    } else {
        collected(fields.drop_last()).insert(fields.last().0, fields.last().1)
    }
}

proof fn lemma_bytes_irreflexive(a: Seq<u8>)
    ensures
        !bytes_before(a, a),
    decreases a.len(),
{
    if a.len() > 0 {
        lemma_bytes_irreflexive(a.drop_first());
    }
}

proof fn lemma_bytes_transitive(a: Seq<u8>, b: Seq<u8>, c: Seq<u8>)
    requires
        bytes_before(a, b),
        bytes_before(b, c),
    ensures
        bytes_before(a, c),
    decreases a.len(),
{
    if a.len() > 0 && a[0] == b[0] && b[0] == c[0] {
        lemma_bytes_transitive(a.drop_first(), b.drop_first(), c.drop_first());
    }
}

proof fn lemma_bytes_connected(a: Seq<u8>, b: Seq<u8>)
    ensures
        a == b || bytes_before(a, b) || bytes_before(b, a),
    decreases a.len(),
{
    if a.len() == 0 || b.len() == 0 {
        if a.len() == b.len() {
            assert(a =~= b);
        }
    } else if a[0] == b[0] {
        lemma_bytes_connected(a.drop_first(), b.drop_first());
        if a.drop_first() == b.drop_first() {
            assert(a =~= seq![a[0]] + a.drop_first());
            assert(b =~= seq![b[0]] + b.drop_first());
        }
    }
}

/// Keys are totally ordered.
pub proof fn lemma_key_order(a: Seq<char>, b: Seq<char>, c: Seq<char>)
    ensures
        !key_before(a, a),
        key_before(a, b) && key_before(b, c) ==> key_before(a, c),
        a == b || key_before(a, b) || key_before(b, a),
{
    lemma_bytes_irreflexive(encode_utf8(a));
    if key_before(a, b) && key_before(b, c) {
        lemma_bytes_transitive(encode_utf8(a), encode_utf8(b), encode_utf8(c));
    }
    lemma_bytes_connected(encode_utf8(a), encode_utf8(b));
    encode_utf8_decode_utf8(a);
    encode_utf8_decode_utf8(b);
}

/// In a list with distinct keys, the value of a key is that of its only field:
/// the payload holds every field of the list and nothing else.
pub proof fn law_fields_are_collected(fields: Seq<Field>)
    requires
        in_key_order(fields),
    ensures
        collected(fields).dom().finite(),
        collected(fields).dom().len() == fields.len(),
        forall|i: int|
            0 <= i < fields.len() ==> collected(fields).dom().contains((#[trigger] fields[i]).0)
                && collected(fields)[fields[i].0] == fields[i].1,
        forall|k: Seq<char>| #[trigger]
            collected(fields).dom().contains(k) ==> exists|i: int|
                0 <= i < fields.len() && (#[trigger] fields[i]).0 == k,
    decreases fields.len(),
{
    if fields.len() > 0 {
        let front = fields.drop_last();
        let last = fields.last();
        assert(in_key_order(front)) by {
            assert forall|i: int, j: int| 0 <= i < j < front.len() implies key_before(
                (#[trigger] front[i]).0,
                (#[trigger] front[j]).0,
            ) by {
                assert(key_before(fields[i].0, fields[j].0));
            }
        }
        law_fields_are_collected(front);
        assert(!collected(front).dom().contains(last.0)) by {
            if collected(front).dom().contains(last.0) {
                let i = choose|i: int| 0 <= i < front.len() && (#[trigger] front[i]).0 == last.0;
                assert(key_before(fields[i].0, fields[fields.len() - 1].0));
                lemma_key_order(last.0, last.0, last.0);
            }
        }
        assert(collected(fields).dom() =~= collected(front).dom().insert(last.0));
        assert forall|i: int| 0 <= i < fields.len() implies collected(fields).dom().contains(
            (#[trigger] fields[i]).0,
        ) && collected(fields)[fields[i].0] == fields[i].1 by {
            if i < front.len() {
                assert(front[i] == fields[i]);
                assert(key_before(fields[i].0, fields[fields.len() - 1].0));
                lemma_key_order(last.0, last.0, last.0);
            }
        }
        assert forall|k: Seq<char>| #[trigger]
            collected(fields).dom().contains(k) implies exists|i: int|
            0 <= i < fields.len() && (#[trigger] fields[i]).0 == k by {
            if k == last.0 {
                assert(fields[fields.len() - 1].0 == k);
            } else {
                assert(collected(front).dom().contains(k));
                let i = choose|i: int| 0 <= i < front.len() && (#[trigger] front[i]).0 == k;
                assert(front[i] == fields[i]);
            }
        }
    }
}

/// Compare keys by their bytes.
fn key_lt(a: &str, b: &str) -> (lt: bool)
    ensures
        lt == key_before(a@, b@),
{
    let x = a.as_bytes();
    let y = b.as_bytes();
    let mut i: usize = 0;
    assert(x@.skip(0) =~= x@);
    assert(y@.skip(0) =~= y@);
    while i < x.len() && i < y.len() && x[i] == y[i]
        invariant
            i <= x@.len(),
            i <= y@.len(),
            bytes_before(x@, y@) == bytes_before(x@.skip(i as int), y@.skip(i as int)),
        decreases x@.len() - i,
    {
        assert(x@.skip(i as int).drop_first() =~= x@.skip(i + 1));
        assert(y@.skip(i as int).drop_first() =~= y@.skip(i + 1));
        i += 1;
    }
    if i == y.len() {
        false
    } else if i == x.len() {
        true
    } else {
        x[i] < y[i]
    }
}

/// An ordered set of `key → value` fields attached to a stored vector.
#[derive(Debug)]
pub struct Payload {
    entries: Vec<(String, Value)>,
}

impl View for Payload {
    type V = Map<Seq<char>, ValueView>;

    open spec fn view(&self) -> Map<Seq<char>, ValueView> {
        collected(self.fields())
    }
}

impl Payload {
    /// The fields in the order of their keys.
    pub closed spec fn fields(&self) -> Seq<Field> {
        Seq::new(self.entries@.len(), |i: int| (self.entries@[i].0@, self.entries@[i].1@))
    }

    #[verifier::type_invariant]
    spec fn ordered(self) -> bool {
        in_key_order(self.fields())
    }

    /// A payload without fields.
    pub fn new() -> (payload: Payload)
        ensures
            payload@ == Map::<Seq<char>, ValueView>::empty(),
            payload.fields().len() == 0,
    {
        let payload = Payload { entries: Vec::new() };
        assert(payload.fields() =~= Seq::empty());
        payload
    }

    /// Where `key` stands, or would stand, among the fields.
    fn position(&self, key: &str) -> (at: usize)
        ensures
            at <= self.fields().len(),
            forall|i: int| 0 <= i < at ==> key_before((#[trigger] self.fields()[i]).0, key@),
            at < self.fields().len() ==> !key_before(self.fields()[at as int].0, key@),
    {
        let mut at: usize = 0;
        while at < self.entries.len() && key_lt(self.entries[at].0.as_str(), key)
            invariant
                at <= self.entries@.len(),
                forall|i: int| 0 <= i < at ==> key_before((#[trigger] self.fields()[i]).0, key@),
            decreases self.entries@.len() - at,
        {
            assert(key_before(self.fields()[at as int].0, key@));
            at += 1;
        }
        at
    }

    /// The value of a field, if there is one.
    pub fn get(&self, key: &str) -> (value: Option<&Value>)
        ensures
            match value {
                Some(v) => self@.dom().contains(key@) && self@[key@] == v@,
                None => !self@.dom().contains(key@),
            },
    {
        proof {
            use_type_invariant(self);
            law_fields_are_collected(self.fields());
        }
        let at: usize = self.position(key);
        proof {
            lemma_position_of_key(self.fields(), key@, at as int);
        }
        if at < self.entries.len() && !key_lt(key, self.entries[at].0.as_str()) {
            Some(&self.entries[at].1)
        } else {
            None
        }
    }

    /// Set a field, in place of the value that it had.
    pub fn insert(&mut self, key: String, value: Value)
        ensures
            final(self)@ == old(self)@.insert(key@, value@),
    {
        proof {
            use_type_invariant(&*self);
        }
        let at: usize = self.position(key.as_str());
        let ghost before = self.fields();
        let ghost k = key@;
        let ghost v = value@;
        proof {
            lemma_position_of_key(before, k, at as int);
        }
        let replace: bool = at < self.entries.len() && !key_lt(
            key.as_str(),
            self.entries[at].0.as_str(),
        );
        let mut entries: Vec<(String, Value)> = Vec::new();
        std::mem::swap(&mut entries, &mut self.entries);
        if replace {
            entries[at] = (key, value);
        } else {
            entries.insert(at, (key, value));
        }
        let ghost after = Seq::new(entries@.len(), |i: int| (entries@[i].0@, entries@[i].1@));
        proof {
            if replace {
                assert(after =~= before.update(at as int, (k, v)));
                lemma_replaced(before, k, v, at as int);
            } else {
                assert(after =~= before.insert(at as int, (k, v)));
                lemma_inserted(before, k, v, at as int);
            }
        }
        self.entries = entries;
    }

    /// Number of fields, which stand in the order of their keys.
    pub fn len(&self) -> (n: usize)
        ensures
            n == self.fields().len(),
            in_key_order(self.fields()),
    {
        proof {
            use_type_invariant(self);
        }
        self.entries.len()
    }

    /// The key and the value of the `i`-th field, in the order of the keys.
    pub fn field(&self, i: usize) -> (field: (&str, &Value))
        requires
            i < self.fields().len(),
        ensures
            field.0@ == self.fields()[i as int].0,
            field.1@ == self.fields()[i as int].1,
    {
        (self.entries[i].0.as_str(), &self.entries[i].1)
    }
}

impl Clone for Payload {
    fn clone(&self) -> (copy: Payload)
        ensures
            copy@ == self@,
            copy.fields() == self.fields(),
    {
        let mut entries: Vec<(String, Value)> = Vec::new();
        proof {
            use_type_invariant(self);
        }
        for i in 0..self.entries.len()
            invariant
                entries@.len() == i,
                forall|j: int|
                    0 <= j < i ==> (#[trigger] entries@[j]).0@ == self.entries@[j].0@
                        && entries@[j].1@ == self.entries@[j].1@,
        {
            entries.push((self.entries[i].0.clone(), self.entries[i].1.clone()));
        }
        let ghost fields = Seq::new(entries@.len(), |i: int| (entries@[i].0@, entries@[i].1@));
        assert(fields =~= self.fields());
        Payload { entries }
    }
}

/// In a list in key order, a key stands where the first key that is not before
/// it stands, or nowhere.
proof fn lemma_position_of_key(fields: Seq<Field>, key: Seq<char>, at: int)
    requires
        in_key_order(fields),
        0 <= at <= fields.len(),
        forall|i: int| 0 <= i < at ==> key_before((#[trigger] fields[i]).0, key),
        at < fields.len() ==> !key_before(fields[at].0, key),
    ensures
        at < fields.len() && !key_before(key, fields[at].0) ==> fields[at].0 == key,
        forall|i: int| 0 <= i < fields.len() && (#[trigger] fields[i]).0 == key ==> i == at,
        forall|i: int|
            at < i < fields.len() || (i == at && at < fields.len() && key_before(key, fields[at].0))
                ==> key_before(key, (#[trigger] fields[i]).0),
{
    if at < fields.len() {
        lemma_key_order(fields[at].0, key, key);
    }
    assert forall|i: int|
        at < i < fields.len() || (i == at && at < fields.len() && key_before(
            key,
            fields[at].0,
        )) implies key_before(key, (#[trigger] fields[i]).0) by {
        if i > at {
            assert(key_before(fields[at].0, fields[i].0));
            lemma_key_order(key, fields[at].0, fields[i].0);
        }
    }
    assert forall|i: int| 0 <= i < fields.len() && (#[trigger] fields[i]).0 == key implies i
        == at by {
        lemma_key_order(key, key, key);
    }
}

/// Two lists in key order whose keys lead to the same values.
proof fn lemma_same_collection(a: Seq<Field>, b: Map<Seq<char>, ValueView>)
    requires
        in_key_order(a),
        forall|i: int| 0 <= i < a.len() ==> b.dom().contains((#[trigger] a[i]).0) && b[a[i].0]
            == a[i].1,
        forall|k: Seq<char>| #[trigger]
            b.dom().contains(k) ==> exists|i: int| 0 <= i < a.len() && (#[trigger] a[i]).0 == k,
    ensures
        collected(a) == b,
{
    law_fields_are_collected(a);
    assert forall|k: Seq<char>| #[trigger] collected(a).dom().contains(k) implies
        b.dom().contains(k) && b[k] == collected(a)[k] by {
        let i = choose|i: int| 0 <= i < a.len() && (#[trigger] a[i]).0 == k;
    }
    assert forall|k: Seq<char>| #[trigger] b.dom().contains(k) implies
        collected(a).dom().contains(k) by {
        let i = choose|i: int| 0 <= i < a.len() && (#[trigger] a[i]).0 == k;
    }
    assert(collected(a) =~= b);
}

/// A field was given another value.
proof fn lemma_replaced(fields: Seq<Field>, key: Seq<char>, value: ValueView, at: int)
    requires
        in_key_order(fields),
        0 <= at < fields.len(),
        fields[at].0 == key,
    ensures
        in_key_order(fields.update(at, (key, value))),
        collected(fields.update(at, (key, value))) == collected(fields).insert(key, value),
{
    let after = fields.update(at, (key, value));
    let map = collected(fields).insert(key, value);
    law_fields_are_collected(fields);
    assert forall|i: int, j: int| 0 <= i < j < after.len() implies key_before(
        (#[trigger] after[i]).0,
        (#[trigger] after[j]).0,
    ) by {
        assert(key_before(fields[i].0, fields[j].0));
    }
    assert forall|i: int| 0 <= i < after.len() implies map.dom().contains((#[trigger] after[i]).0)
        && map[after[i].0] == after[i].1 by {
        assert(after[i].0 == fields[i].0);
        if i < at {
            assert(key_before(fields[i].0, fields[at].0));
        } else if i > at {
            assert(key_before(fields[at].0, fields[i].0));
        }
        lemma_key_order(key, key, key);
    }
    assert forall|k: Seq<char>| #[trigger] map.dom().contains(k) implies exists|i: int|
        0 <= i < after.len() && (#[trigger] after[i]).0 == k by {
        if k == key {
            assert(after[at].0 == k);
        } else {
            let i = choose|i: int| 0 <= i < fields.len() && (#[trigger] fields[i]).0 == k;
            assert(after[i].0 == k);
        }
    }
    lemma_same_collection(after, map);
}

/// A field was added where its key belongs.
proof fn lemma_inserted(fields: Seq<Field>, key: Seq<char>, value: ValueView, at: int)
    requires
        in_key_order(fields),
        0 <= at <= fields.len(),
        forall|i: int| 0 <= i < at ==> key_before((#[trigger] fields[i]).0, key),
        forall|i: int| at <= i < fields.len() ==> key_before(key, (#[trigger] fields[i]).0),
    ensures
        in_key_order(fields.insert(at, (key, value))),
        collected(fields.insert(at, (key, value))) == collected(fields).insert(key, value),
{
    let after = fields.insert(at, (key, value));
    let map = collected(fields).insert(key, value);
    law_fields_are_collected(fields);
    assert forall|i: int, j: int| 0 <= i < j < after.len() implies key_before(
        (#[trigger] after[i]).0,
        (#[trigger] after[j]).0,
    ) by {
        let x = if i < at {
            i
        } else {
            i - 1
        };
        let y = if j < at {
            j
        } else {
            j - 1
        };
        if i != at && j != at {
            assert(key_before(fields[x].0, fields[y].0));
        } else if i == at {
            assert(key_before(key, fields[y].0));
        } else {
            assert(key_before(fields[x].0, key));
        }
    }
    assert forall|i: int| 0 <= i < after.len() implies map.dom().contains((#[trigger] after[i]).0)
        && map[after[i].0] == after[i].1 by {
        lemma_key_order(key, key, key);
        if i < at {
            assert(key_before(fields[i].0, key));
            assert(after[i] == fields[i]);
        } else if i > at {
            assert(key_before(key, fields[i - 1].0));
            assert(after[i] == fields[i - 1]);
        }
    }
    assert forall|k: Seq<char>| #[trigger] map.dom().contains(k) implies exists|i: int|
        0 <= i < after.len() && (#[trigger] after[i]).0 == k by {
        if k == key {
            assert(after[at].0 == k);
        } else {
            let i = choose|i: int| 0 <= i < fields.len() && (#[trigger] fields[i]).0 == k;
            if i < at {
                assert(after[i].0 == k);
            } else {
                assert(after[i + 1].0 == k);
            }
        }
    }
    lemma_same_collection(after, map);
}

/// The payload of a vector, if it has one.
pub open spec fn payload_view(payload: Option<&Payload>) -> Option<Map<Seq<char>, ValueView>> {
    match payload {
        Some(p) => Some(p@),
        None => None,
    }
}

/// A predicate over a [`Payload`], evaluated per candidate during search.
///
/// A vector with no payload matches only the structural combinators when they
/// bottom out favourably (e.g. `Not` of a non-matching leaf); any field
/// predicate against an absent payload is `false`.
#[derive(Debug)]
pub enum Filter {
    /// The field exists and equals this value (exact, type-sensitive).
    Eq(String, Value),
    /// The field exists, is numeric, and is strictly greater than this bound.
    Gt(String, Double),
    /// The field exists, is numeric, and is strictly less than this bound.
    Lt(String, Double),
    /// Every sub-filter matches (an empty list matches everything).
    And(Vec<Filter>),
    /// At least one sub-filter matches (an empty list matches nothing).
    Or(Vec<Filter>),
    /// The sub-filter does not match.
    Not(Box<Filter>),
}

/// The value of a field of a payload, if there is one.
pub open spec fn field_of(
    payload: Option<Map<Seq<char>, ValueView>>,
    key: Seq<char>,
) -> Option<ValueView> {
    match payload {
        Some(fields) => if fields.dom().contains(key) {
            Some(fields[key])
        } else {
            None
        },
        None => None,
    }
}

/// The numeric value of a field of a payload, if there is one.
pub open spec fn number_of(
    payload: Option<Map<Seq<char>, ValueView>>,
    key: Seq<char>,
) -> Option<Double> {
    match field_of(payload, key) {
        Some(value) => value.number(),
        None => None,
    }
}

impl Filter {
    /// The filter holds of a payload.
    pub open spec fn holds(self, payload: Option<Map<Seq<char>, ValueView>>) -> bool
        decreases self,
    {
        match self {
            Filter::Eq(key, value) => field_of(payload, key@) matches Some(v) && v.same(value@),
            Filter::Gt(key, bound) => number_of(payload, key@) matches Some(x) && bound.less(x),
            Filter::Lt(key, bound) => number_of(payload, key@) matches Some(x) && x.less(bound),
            Filter::And(subs) => forall|i: int|
                0 <= i < subs@.len() ==> (#[trigger] subs@[i]).holds(payload),
            Filter::Or(subs) => exists|i: int|
                0 <= i < subs@.len() && (#[trigger] subs@[i]).holds(payload),
            Filter::Not(sub) => !(*sub).holds(payload),
        }
    }

    /// The filters are built in the same way, from the same keys, values and
    /// bounds.
    pub open spec fn alike(self, other: Filter) -> bool
        decreases self,
    {
        match (self, other) {
            (Filter::Eq(key, value), Filter::Eq(k, v)) => key@ == k@ && value@ == v@,
            (Filter::Gt(key, bound), Filter::Gt(k, x)) => key@ == k@ && bound == x,
            (Filter::Lt(key, bound), Filter::Lt(k, x)) => key@ == k@ && bound == x,
            (Filter::And(subs), Filter::And(others)) => subs@.len() == others@.len()
                && forall|i: int|
                0 <= i < subs@.len() ==> (#[trigger] subs@[i]).alike(others@[i]),
            (Filter::Or(subs), Filter::Or(others)) => subs@.len() == others@.len()
                && forall|i: int|
                0 <= i < subs@.len() ==> (#[trigger] subs@[i]).alike(others@[i]),
            (Filter::Not(sub), Filter::Not(o)) => (*sub).alike(*o),
            _ => false,
        }
    }

    /// Evaluate this filter against an optional payload.
    pub fn matches(&self, payload: Option<&Payload>) -> (b: bool)
        ensures
            b == self.holds(payload_view(payload)),
        decreases self,
    {
        match self {
            Filter::Eq(key, value) => match payload {
                Some(p) => match p.get(key.as_str()) {
                    Some(v) => *v == *value,
                    None => false,
                },
                None => false,
            },
            Filter::Gt(key, bound) => match numeric_field(payload, key.as_str()) {
                Some(x) => bound.lt(x),
                None => false,
            },
            Filter::Lt(key, bound) => match numeric_field(payload, key.as_str()) {
                Some(x) => x.lt(*bound),
                None => false,
            },
            Filter::And(subs) => {
                let mut i: usize = 0;
                #[verifier::loop_isolation(false)]
                while i < subs.len()
                    invariant
                        i <= subs@.len(),
                        forall|j: int|
                            0 <= j < i ==> (#[trigger] subs@[j]).holds(payload_view(payload)),
                    decreases subs@.len() - i,
                {
                    if !subs[i].matches(payload) {
                        assert(!subs@[i as int].holds(payload_view(payload)));
                        return false;
                    }
                    i += 1;
                }
                true
            },
            Filter::Or(subs) => {
                let mut i: usize = 0;
                #[verifier::loop_isolation(false)]
                while i < subs.len()
                    invariant
                        i <= subs@.len(),
                        forall|j: int|
                            0 <= j < i ==> !(#[trigger] subs@[j]).holds(payload_view(payload)),
                    decreases subs@.len() - i,
                {
                    if subs[i].matches(payload) {
                        assert(subs@[i as int].holds(payload_view(payload)));
                        return true;
                    }
                    i += 1;
                }
                false
            },
            Filter::Not(sub) => !sub.matches(payload),
        }
    }
}

/// Lists of filters that hold of the same payloads, one by one, do so as
/// conditions and as alternatives.
pub proof fn lemma_same_lists(
    a: Vec<Filter>,
    b: Vec<Filter>,
    payload: Option<Map<Seq<char>, ValueView>>,
)
    requires
        a@.len() == b@.len(),
        forall|i: int|
            0 <= i < a@.len() ==> (#[trigger] a@[i]).holds(payload) == b@[i].holds(payload),
    ensures
        Filter::And(a).holds(payload) == Filter::And(b).holds(payload),
        Filter::Or(a).holds(payload) == Filter::Or(b).holds(payload),
{
    let all_a = Filter::And(a);
    let all_b = Filter::And(b);
    assert(all_a->And_0@ == a@ && all_b->And_0@ == b@);
    if all_a.holds(payload) {
        assert forall|i: int| 0 <= i < b@.len() implies (#[trigger] b@[i]).holds(payload) by {
            assert(a@[i].holds(payload));
        }
        assert(all_b.holds(payload));
    }
    if all_b.holds(payload) {
        assert forall|i: int| 0 <= i < a@.len() implies (#[trigger] a@[i]).holds(payload) by {
            assert(b@[i].holds(payload));
        }
        assert(all_a.holds(payload));
    }
    let one_a = Filter::Or(a);
    let one_b = Filter::Or(b);
    assert(one_a->Or_0@ == a@ && one_b->Or_0@ == b@);
    if one_a.holds(payload) {
        let i = choose|i: int| 0 <= i < a@.len() && (#[trigger] a@[i]).holds(payload);
        assert(b@[i].holds(payload));
        assert(one_b->Or_0@[i].holds(payload));
    }
    if one_b.holds(payload) {
        let i = choose|i: int| 0 <= i < b@.len() && (#[trigger] b@[i]).holds(payload);
        assert(a@[i].holds(payload));
        assert(one_a->Or_0@[i].holds(payload));
    }
}

/// Filters that are alike hold of the same payloads.
pub proof fn law_alike_filters_hold_alike(
    a: Filter,
    b: Filter,
    payload: Option<Map<Seq<char>, ValueView>>,
)
    requires
        a.alike(b),
    ensures
        a.holds(payload) == b.holds(payload),
    decreases a,
{
    match (a, b) {
        (Filter::And(x), Filter::And(y)) => {
            assert forall|i: int| 0 <= i < x@.len() implies (#[trigger] x@[i]).holds(payload)
                == y@[i].holds(payload) by {
                law_alike_filters_hold_alike(x@[i], y@[i], payload);
            }
            lemma_same_lists(x, y, payload);
        },
        (Filter::Or(x), Filter::Or(y)) => {
            assert forall|i: int| 0 <= i < x@.len() implies (#[trigger] x@[i]).holds(payload)
                == y@[i].holds(payload) by {
                law_alike_filters_hold_alike(x@[i], y@[i], payload);
            }
            lemma_same_lists(x, y, payload);
        },
        (Filter::Not(x), Filter::Not(y)) => {
            law_alike_filters_hold_alike(*x, *y, payload);
        },
        _ => {},
    }
}

impl Clone for Filter {
    fn clone(&self) -> (copy: Filter)
        ensures
            self.alike(copy),
        decreases self, 1nat,
    {
        match self {
            Filter::Eq(key, value) => Filter::Eq(key.clone(), value.clone()),
            Filter::Gt(key, bound) => Filter::Gt(key.clone(), *bound),
            Filter::Lt(key, bound) => Filter::Lt(key.clone(), *bound),
            Filter::And(subs) => Filter::And(clone_all(subs)),
            Filter::Or(subs) => Filter::Or(clone_all(subs)),
            Filter::Not(sub) => Filter::Not(Box::new((&**sub).clone())),
        }
    }
}

/// Copy filters one by one.
fn clone_all(subs: &Vec<Filter>) -> (copies: Vec<Filter>)
    ensures
        copies@.len() == subs@.len(),
        forall|i: int| 0 <= i < subs@.len() ==> (#[trigger] subs@[i]).alike(copies@[i]),
    decreases subs, 0nat,
{
    let mut copies: Vec<Filter> = Vec::new();
    for i in 0..subs.len()
        invariant
            copies@.len() == i,
            forall|j: int| 0 <= j < i ==> (#[trigger] subs@[j]).alike(copies@[j]),
    {
        copies.push((&subs[i]).clone());
    }
    copies
}

/// The numeric value of a field, if there is one.
fn numeric_field(payload: Option<&Payload>, key: &str) -> (number: Option<Double>)
    ensures
        number == number_of(payload_view(payload), key@),
{
    match payload {
        Some(p) => match p.get(key) {
            Some(v) => v.as_f64(),
            None => None,
        },
        None => None,
    }
}

/// An equality holds of the payloads that have the field with that value: the same
/// text, integer or boolean, or a float that is the same number. It holds of no
/// other.
pub proof fn law_equality_holds_of_equal_fields(
    fields: Map<Seq<char>, ValueView>,
    key: String,
    value: Value,
)
    ensures
        Filter::Eq(key, value).holds(Some(fields)) <==> fields.dom().contains(key@) && match (
            fields[key@],
            value,
        ) {
            (ValueView::Str(a), Value::Str(b)) => a == b@,
            (ValueView::Int(a), Value::Int(b)) => a == b,
            (ValueView::Bool(a), Value::Bool(b)) => a == b,
            (ValueView::Float(a), Value::Float(b)) => !a.less(b) && !b.less(a) && !a.nan()
                && !b.nan(),
            _ => false,
        },
        !Filter::Eq(key, value).holds(None),
{
}

/// A bound from below holds of the payloads whose field is a number greater than
/// it, a bound from above of those whose field is a number less than it, and
/// neither of any other. An integer counts as the double nearest to it.
pub proof fn law_bounds_hold_of_numbers_beyond_them(
    fields: Map<Seq<char>, ValueView>,
    key: String,
    bound: Double,
)
    ensures
        Filter::Gt(key, bound).holds(Some(fields)) <==> fields.dom().contains(key@) && match (
        fields[key@]) {
            ValueView::Int(i) => bound.less(Double { bits: Double::int_bits(i as int) as u64 }),
            ValueView::Float(x) => bound.less(x),
            _ => false,
        },
        Filter::Lt(key, bound).holds(Some(fields)) <==> fields.dom().contains(key@) && match (
        fields[key@]) {
            ValueView::Int(i) => (Double { bits: Double::int_bits(i as int) as u64 }).less(bound),
            ValueView::Float(x) => x.less(bound),
            _ => false,
        },
        !Filter::Gt(key, bound).holds(None),
        !Filter::Lt(key, bound).holds(None),
{
}

/// A list of conditions holds where all of them do, and a list of alternatives
/// where one of them does.
pub proof fn law_lists_hold_by_their_members(
    subs: Vec<Filter>,
    payload: Option<Map<Seq<char>, ValueView>>,
)
    ensures
        Filter::And(subs).holds(payload) <==> forall|i: int|
            0 <= i < subs@.len() ==> (#[trigger] subs@[i]).holds(payload),
        Filter::Or(subs).holds(payload) <==> exists|i: int|
            0 <= i < subs@.len() && (#[trigger] subs@[i]).holds(payload),
{
    let all = Filter::And(subs);
    let any = Filter::Or(subs);
    assert(all->And_0@ == subs@ && any->Or_0@ == subs@);
}

/// A field predicate never matches an absent payload, nor one that lacks the
/// field.
pub proof fn law_absent_fields_fail(
    payload: Option<Map<Seq<char>, ValueView>>,
    key: String,
    value: Value,
    bound: Double,
)
    requires
        payload matches Some(fields) ==> !fields.dom().contains(key@),
    ensures
        !Filter::Eq(key, value).holds(payload),
        !Filter::Gt(key, bound).holds(payload),
        !Filter::Lt(key, bound).holds(payload),
{
}

/// An empty list of conditions is met by everything, an empty list of
/// alternatives by nothing.
pub proof fn law_empty_lists(payload: Option<Map<Seq<char>, ValueView>>, subs: Vec<Filter>)
    requires
        subs@.len() == 0,
    ensures
        Filter::And(subs).holds(payload),
        !Filter::Or(subs).holds(payload),
{
}

/// Negation turns a filter round, and twice is nothing.
pub proof fn law_negation(payload: Option<Map<Seq<char>, ValueView>>, sub: Filter)
    ensures
        Filter::Not(Box::new(sub)).holds(payload) == !sub.holds(payload),
        Filter::Not(Box::new(Filter::Not(Box::new(sub)))).holds(payload) == sub.holds(payload),
{
    reveal_with_fuel(Filter::holds, 3);
}

/// Equality is type-sensitive: an integer field never equals a float.
pub proof fn law_equality_is_type_sensitive(
    fields: Map<Seq<char>, ValueView>,
    key: String,
    n: i64,
    f: Double,
)
    requires
        fields.dom().contains(key@),
        fields[key@] == ValueView::Int(n),
    ensures
        !Filter::Eq(key, Value::Float(f)).holds(Some(fields)),
        Filter::Eq(key, Value::Int(n)).holds(Some(fields)),
{
}

/// The order of keys is that of their UTF-8 bytes as words in a dictionary: the first
/// byte in which they differ decides, and a key that another one starts with stands
/// before it.
pub proof fn law_keys_are_ordered_by_their_bytes(a: Seq<char>, b: Seq<char>, i: int)
    requires
        0 <= i <= encode_utf8(a).len(),
        i <= encode_utf8(b).len(),
        forall|j: int| 0 <= j < i ==> #[trigger] encode_utf8(a)[j] == encode_utf8(b)[j],
        i == encode_utf8(a).len() || i == encode_utf8(b).len() || encode_utf8(a)[i] != encode_utf8(
            b,
        )[i],
    ensures
        key_before(a, b) <==> if i == encode_utf8(b).len() {
            false
        } else if i == encode_utf8(a).len() {
            true
        } else {
            encode_utf8(a)[i] < encode_utf8(b)[i]
        },
{
    lemma_first_difference(encode_utf8(a), encode_utf8(b), i);
}

/// The first byte that differs decides.
proof fn lemma_first_difference(a: Seq<u8>, b: Seq<u8>, i: int)
    requires
        0 <= i <= a.len(),
        i <= b.len(),
        forall|j: int| 0 <= j < i ==> #[trigger] a[j] == b[j],
        i == a.len() || i == b.len() || a[i] != b[i],
    ensures
        bytes_before(a, b) <==> if i == b.len() {
            false
        } else if i == a.len() {
            true
        } else {
            a[i] < b[i]
        },
    decreases i,
{
    if i > 0 {
        let x = a.drop_first();
        let y = b.drop_first();
        assert(a[0] == b[0]);
        assert forall|j: int| 0 <= j < i - 1 implies #[trigger] x[j] == y[j] by {
            assert(a[j + 1] == b[j + 1]);
        }
        lemma_first_difference(x, y, i - 1);
    }
}

/// Fields in the order of their keys: of two, the key of the first is the lesser, so no
/// key is there twice; and fields that stand so are in order.
pub proof fn law_fields_in_order(fields: Seq<Field>, i: int, j: int)
    requires
        in_key_order(fields),
        0 <= i < j < fields.len(),
    ensures
        key_before(fields[i].0, fields[j].0),
        !key_before(fields[j].0, fields[i].0),
        fields[i].0 != fields[j].0,
{
    lemma_before_is_strict(encode_utf8(fields[i].0), encode_utf8(fields[j].0));
    lemma_before_is_strict(encode_utf8(fields[i].0), encode_utf8(fields[i].0));
}

/// Of two byte strings, not both are before the other.
proof fn lemma_before_is_strict(a: Seq<u8>, b: Seq<u8>)
    ensures
        !(bytes_before(a, b) && bytes_before(b, a)),
    decreases a.len(),
{
    if a.len() > 0 && b.len() > 0 && a[0] == b[0] {
        lemma_before_is_strict(a.drop_first(), b.drop_first());
    }
}

} // verus!
