//! Little-endian binary (de)serialization primitives for persistence.
//!
//! Deliberately hand-rolled: the format is small and the code is readable.
//! Everything is fixed-width little-endian; strings and payloads are
//! length-prefixed. Writing appends to a byte vector, and reading takes bytes
//! off the front of a [`Reader`].

use crate::float::{Double, Single};
use crate::payload::{collected, in_key_order, law_fields_are_collected};
use crate::payload::{Field, Payload, Value, ValueView};
use crate::text::{append_number, digits};
use vstd::prelude::*;
use vstd::string::StringExecFns;
use vstd::utf8::{decode_utf8, encode_utf8, valid_utf8};

verus! {

/// What can be wrong with bytes that are read.
#[derive(Debug, Clone, Copy, PartialEq, Eq, Structural)]
pub enum ReadError {
    /// There are too few of them.
    UnexpectedEof,
    /// A string is not UTF-8.
    InvalidUtf8 {
        /// How many of its bytes are before the first that is not.
        index: usize,
        /// How many bytes from there on cannot be part of it, or nothing if the
        /// string ends too early.
        length: Option<usize>,
    },
    /// A payload value has a tag that stands for no type.
    UnknownTag(u8),
}

impl ReadError {
    /// What is said about this error.
    pub open spec fn spec_message(self) -> Seq<char> {
        match self {
            ReadError::UnexpectedEof => "failed to fill whole buffer"@,
            ReadError::InvalidUtf8 { index, length: Some(n) } => "invalid utf-8 sequence of "@
                + digits(n as nat) + " bytes from index "@ + digits(index as nat),
            ReadError::InvalidUtf8 { index, length: None } =>
                "incomplete utf-8 byte sequence from index "@ + digits(index as nat),
            ReadError::UnknownTag(tag) => "unknown payload value tag "@ + digits(tag as nat),
        }
    }

    /// What is said about this error.
    pub fn message(self) -> (text: String)
        ensures
            text@ == self.spec_message(),
    {
        match self {
            ReadError::UnexpectedEof => "failed to fill whole buffer".to_owned(),
            ReadError::InvalidUtf8 { index, length: Some(n) } => {
                let mut text = "invalid utf-8 sequence of ".to_owned();
                append_number(&mut text, n);
                text.append(" bytes from index ");
                append_number(&mut text, index);
                text
            },
            ReadError::InvalidUtf8 { index, length: None } => {
                let mut text = "incomplete utf-8 byte sequence from index ".to_owned();
                append_number(&mut text, index);
                text
            },
            ReadError::UnknownTag(tag) => {
                let mut text = "unknown payload value tag ".to_owned();
                append_number(&mut text, tag as usize);
                text
            },
        }
    }
}

/// The little-endian encoding of `n` in `width` bytes.
pub open spec fn le(n: nat, width: nat) -> Seq<u8>
    decreases width,
{
    if width == 0 {
        Seq::empty()
    } else {
        seq![(n % 256) as u8] + le(n / 256, (width - 1) as nat)
    }
}

/// The number that bytes encode in little-endian order.
pub open spec fn number(bytes: Seq<u8>) -> nat
    decreases bytes.len(),
{
    if bytes.len() == 0 {
        0
    } else {
        bytes[0] as nat + 256 * number(bytes.drop_first())
    }
}

/// Two to the power of eight times `width`: how many numbers `width` bytes hold.
pub open spec fn capacity(width: nat) -> nat
    decreases width,
{
    if width == 0 {
        1
    } else {
        256 * capacity((width - 1) as nat)
    }
}

/// A signed integer in two's complement.
pub open spec fn complement(n: i64) -> nat {
    if n < 0 {
        (n + 0x1_0000_0000_0000_0000) as nat
    } else {
        n as nat
    }
}

/// The signed integer that `n` is the two's complement of.
pub open spec fn signed(n: nat) -> i64 {
    if n < 0x8000_0000_0000_0000 {
        n as i64
    } else {
        (n - 0x1_0000_0000_0000_0000) as i64
    }
}

/// The encoding of a string: its length in bytes, which is kept to thirty-two
/// bits, and its bytes.
pub open spec fn string_bytes(s: Seq<char>) -> Seq<u8> {
    le(encode_utf8(s).len() % 0x1_0000_0000, 4) + encode_utf8(s)
}

/// The encoding of a value: the tag of its type and its content.
pub open spec fn value_bytes(value: ValueView) -> Seq<u8> {
    match value {
        ValueView::Str(s) => seq![0u8] + string_bytes(s),
        ValueView::Int(i) => seq![1u8] + le(complement(i), 8),
        ValueView::Float(f) => seq![2u8] + le(f.bits as nat, 8),
        ValueView::Bool(b) => seq![
            3u8,
            if b {
                1u8
            } else {
                0u8
            },
        ],
    }
}

/// The encodings of items, one after the other.
pub open spec fn encode_all<T>(encode: spec_fn(T) -> Seq<u8>, items: Seq<T>) -> Seq<u8>
    decreases items.len(),
{
    if items.len() == 0 {
        Seq::empty()
    } else {
        encode(items[0]) + encode_all(encode, items.drop_first())
    }
}

/// The encoding of a field: its key and its value.
pub open spec fn field_bytes(field: Field) -> Seq<u8> {
    string_bytes(field.0) + value_bytes(field.1)
}

/// The encoding of fields, one after the other.
pub open spec fn fields_bytes(fields: Seq<Field>) -> Seq<u8> {
    encode_all(|field: Field| field_bytes(field), fields)
}

/// The encoding of a payload: whether there is one, then the number of its
/// fields, kept to thirty-two bits, and the fields.
pub open spec fn payload_bytes(fields: Option<Seq<Field>>) -> Seq<u8> {
    match fields {
        None => seq![0u8],
        Some(fields) => seq![1u8] + le(fields.len() % 0x1_0000_0000, 4) + fields_bytes(fields),
    }
}

/// What is read off the front of bytes, and the bytes that are left.
pub type Parsed<T> = Result<(T, Seq<u8>), ReadError>;

/// Read a number of `width` bytes.
pub open spec fn parse_number(bytes: Seq<u8>, width: nat) -> Parsed<nat> {
    if bytes.len() < width {
        Err(ReadError::UnexpectedEof)
    } else {
        Ok((number(bytes.take(width as int)), bytes.skip(width as int)))
    }
}

/// The length of the longest front of the first `n` bytes that is valid UTF-8.
pub open spec fn valid_among(bytes: Seq<u8>, n: nat) -> nat
    decreases n,
{
    if n == 0 || valid_utf8(bytes.take(n as int)) {
        n
    } else {
        valid_among(bytes, (n - 1) as nat)
    }
}

/// How many bytes `core::str::Utf8Error::error_len` says cannot be part of valid
/// UTF-8, of the error that `String::from_utf8` gives for these bytes.
pub uninterp spec fn invalid_length(bytes: Seq<u8>) -> Option<usize>;

/// The error for bytes that are no valid UTF-8.
pub open spec fn refused_text(bytes: Seq<u8>) -> ReadError {
    ReadError::InvalidUtf8 {
        index: valid_among(bytes, bytes.len()) as usize,
        length: invalid_length(bytes),
    }
}

/// Read a string.
pub open spec fn parse_string(bytes: Seq<u8>) -> Parsed<Seq<char>> {
    match parse_number(bytes, 4) {
        Err(e) => Err(e),
        Ok((len, rest)) => if rest.len() < len {
            Err(ReadError::UnexpectedEof)
        } else if !valid_utf8(rest.take(len as int)) {
            Err(refused_text(rest.take(len as int)))
        } else {
            Ok((decode_utf8(rest.take(len as int)), rest.skip(len as int)))
        },
    }
}

/// Read a value.
pub open spec fn parse_value(bytes: Seq<u8>) -> Parsed<ValueView> {
    match parse_number(bytes, 1) {
        Err(e) => Err(e),
        Ok((tag, rest)) => if tag == 0 {
            match parse_string(rest) {
                Err(e) => Err(e),
                Ok((s, rest)) => Ok((ValueView::Str(s), rest)),
            }
        } else if tag == 1 {
            match parse_number(rest, 8) {
                Err(e) => Err(e),
                Ok((n, rest)) => Ok((ValueView::Int(signed(n)), rest)),
            }
        } else if tag == 2 {
            match parse_number(rest, 8) {
                Err(e) => Err(e),
                Ok((n, rest)) => Ok((ValueView::Float(Double { bits: n as u64 }), rest)),
            }
        } else if tag == 3 {
            match parse_number(rest, 1) {
                Err(e) => Err(e),
                Ok((n, rest)) => Ok((ValueView::Bool(n != 0), rest)),
            }
        } else {
            Err(ReadError::UnknownTag(tag as u8))
        },
    }
}

/// Read `count` items, one after the other.
pub open spec fn parse_all<T>(
    parse: spec_fn(Seq<u8>) -> Parsed<T>,
    bytes: Seq<u8>,
    count: nat,
) -> Parsed<Seq<T>>
    decreases count,
{
    if count == 0 {
        Ok((Seq::empty(), bytes))
    } else {
        match parse(bytes) {
            Err(e) => Err(e),
            Ok((item, rest)) => match parse_all(parse, rest, (count - 1) as nat) {
                Err(e) => Err(e),
                Ok((others, rest)) => Ok((seq![item] + others, rest)),
            },
        }
    }
}

/// What is read in all, where `before` has been read already and `count` items
/// are to follow.
pub open spec fn parse_rest<T>(
    parse: spec_fn(Seq<u8>) -> Parsed<T>,
    bytes: Seq<u8>,
    count: nat,
    before: Seq<T>,
) -> Parsed<Seq<T>> {
    match parse_all(parse, bytes, count) {
        Err(e) => Err(e),
        Ok((items, rest)) => Ok((before + items, rest)),
    }
}

/// Read a field.
pub open spec fn parse_field(bytes: Seq<u8>) -> Parsed<Field> {
    match parse_string(bytes) {
        Err(e) => Err(e),
        Ok((key, rest)) => match parse_value(rest) {
            Err(e) => Err(e),
            Ok((value, rest)) => Ok(((key, value), rest)),
        },
    }
}

/// Read `count` fields.
pub open spec fn parse_fields(bytes: Seq<u8>, count: nat) -> Parsed<Seq<Field>> {
    parse_all(|bytes: Seq<u8>| parse_field(bytes), bytes, count)
}

/// Read a payload. A key that occurs more than once keeps the last of its values.
pub open spec fn parse_payload(bytes: Seq<u8>) -> Parsed<Option<Map<Seq<char>, ValueView>>> {
    match parse_number(bytes, 1) {
        Err(e) => Err(e),
        Ok((flag, rest)) => if flag == 0 {
            Ok((None, rest))
        } else {
            match parse_number(rest, 4) {
                Err(e) => Err(e),
                Ok((count, rest)) => match parse_fields(rest, count) {
                    Err(e) => Err(e),
                    Ok((fields, rest)) => Ok((Some(collected(fields)), rest)),
                },
            }
        },
    }
}

/// Nothing has been read yet.
pub proof fn lemma_parse_begin<T>(
    parse: spec_fn(Seq<u8>) -> Parsed<T>,
    bytes: Seq<u8>,
    count: nat,
)
    ensures
        parse_rest(parse, bytes, count, Seq::empty()) == parse_all(parse, bytes, count),
{
    if let Ok((items, rest)) = parse_all(parse, bytes, count) {
        assert(Seq::empty() + items =~= items);
    }
}

/// One item more is read.
pub proof fn lemma_parse_step<T>(
    parse: spec_fn(Seq<u8>) -> Parsed<T>,
    bytes: Seq<u8>,
    count: nat,
    before: Seq<T>,
)
    requires
        count > 0,
    ensures
        match parse(bytes) {
            Err(e) => parse_rest(parse, bytes, count, before) == Err::<(Seq<T>, Seq<u8>), ReadError>(
                e,
            ),
            Ok((item, rest)) => parse_rest(parse, bytes, count, before) == parse_rest(
                parse,
                rest,
                (count - 1) as nat,
                before.push(item),
            ),
        },
{
    if let Ok((item, rest)) = parse(bytes) {
        if let Ok((others, end)) = parse_all(parse, rest, (count - 1) as nat) {
            assert(before + (seq![item] + others) =~= before.push(item) + others);
        }
    }
}

/// As many items are read as are asked for.
pub proof fn lemma_parse_all_length<T>(
    parse: spec_fn(Seq<u8>) -> Parsed<T>,
    bytes: Seq<u8>,
    count: nat,
)
    ensures
        parse_all(parse, bytes, count) matches Ok((items, rest)) ==> items.len() == count,
    decreases count,
{
    if count > 0 {
        if let Ok((item, rest)) = parse(bytes) {
            lemma_parse_all_length(parse, rest, (count - 1) as nat);
        }
    }
}

/// Everything has been read.
pub proof fn lemma_parse_end<T>(
    parse: spec_fn(Seq<u8>) -> Parsed<T>,
    bytes: Seq<u8>,
    before: Seq<T>,
)
    ensures
        parse_rest(parse, bytes, 0, before) == Ok::<(Seq<T>, Seq<u8>), ReadError>((before, bytes)),
{
    assert(before + Seq::<T>::empty() =~= before);
}

/// One item more is written.
pub proof fn lemma_encode_step<T>(
    encode: spec_fn(T) -> Seq<u8>,
    items: Seq<T>,
    i: int,
    out: Seq<u8>,
)
    requires
        0 <= i < items.len(),
    ensures
        out + encode_all(encode, items.skip(i)) == out + encode(items[i]) + encode_all(
            encode,
            items.skip(i + 1),
        ),
{
    assert(items.skip(i).drop_first() =~= items.skip(i + 1));
    assert(out + (encode(items[i]) + encode_all(encode, items.skip(i + 1))) =~= out + encode(
        items[i],
    ) + encode_all(encode, items.skip(i + 1)));
}

/// Everything has been written.
pub proof fn lemma_encode_end<T>(encode: spec_fn(T) -> Seq<u8>, items: Seq<T>, out: Seq<u8>)
    ensures
        out + encode_all(encode, items.skip(items.len() as int)) == out,
        items.skip(0) == items,
{
    assert(items.skip(items.len() as int) =~= Seq::<T>::empty());
    assert(out + Seq::<u8>::empty() =~= out);
    assert(items.skip(0) =~= items);
}

/// Where each item is read back, as its image, whatever follows it, so are all of
/// them.
pub proof fn law_all_round_trip<T, U>(
    encode: spec_fn(T) -> Seq<u8>,
    parse: spec_fn(Seq<u8>) -> Parsed<U>,
    image: spec_fn(T) -> U,
    items: Seq<T>,
    rest: Seq<u8>,
)
    requires
        forall|i: int, tail: Seq<u8>|
            0 <= i < items.len() ==> #[trigger] parse(encode(items[i]) + tail) == Ok::<
                (U, Seq<u8>),
                ReadError,
            >((image(items[i]), tail)),
    ensures
        parse_all(parse, encode_all(encode, items) + rest, items.len()) == Ok::<
            (Seq<U>, Seq<u8>),
            ReadError,
        >((items.map_values(image), rest)),
    decreases items.len(),
{
    if items.len() == 0 {
        assert(encode_all(encode, items) + rest =~= rest);
        assert(items.map_values(image) =~= Seq::<U>::empty());
    } else {
        let others = items.drop_first();
        let tail = encode_all(encode, others) + rest;
        assert forall|i: int, tail: Seq<u8>| 0 <= i < others.len() implies #[trigger] parse(
            encode(others[i]) + tail,
        ) == Ok::<(U, Seq<u8>), ReadError>((image(others[i]), tail)) by {
            assert(others[i] == items[i + 1]);
            assert(parse(encode(items[i + 1]) + tail) == Ok::<(U, Seq<u8>), ReadError>(
                (image(items[i + 1]), tail),
            ));
        }
        law_all_round_trip(encode, parse, image, others, rest);
        assert(encode_all(encode, items) + rest =~= encode(items[0]) + tail);
        assert(parse(encode(items[0]) + tail) == Ok::<(U, Seq<u8>), ReadError>(
            (image(items[0]), tail),
        ));
        assert(seq![image(items[0])] + others.map_values(image) =~= items.map_values(image));
    }
}

proof fn lemma_le_len(n: nat, width: nat)
    ensures
        le(n, width).len() == width,
    decreases width,
{
    if width > 0 {
        lemma_le_len(n / 256, (width - 1) as nat);
    }
}

/// A number that fits is read back.
proof fn lemma_le_number(n: nat, width: nat)
    requires
        n < capacity(width),
    ensures
        number(le(n, width)) == n,
    decreases width,
{
    if width > 0 {
        lemma_le_len(n, width);
        lemma_le_number(n / 256, (width - 1) as nat);
        assert(le(n, width).drop_first() =~= le(n / 256, (width - 1) as nat));
    }
}

proof fn lemma_number_bound(bytes: Seq<u8>)
    ensures
        number(bytes) < capacity(bytes.len()),
    decreases bytes.len(),
{
    if bytes.len() > 0 {
        lemma_number_bound(bytes.drop_first());
    }
}

/// How many numbers one, four and eight bytes hold.
pub proof fn lemma_capacities()
    ensures
        capacity(1) == 0x100,
        capacity(4) == 0x1_0000_0000,
        capacity(8) == 0x1_0000_0000_0000_0000,
{
    reveal_with_fuel(capacity, 9);
}

/// Append `width` bytes of `v`.
fn write_le(out: &mut Vec<u8>, v: u64, width: usize)
    ensures
        final(out)@ == old(out)@ + le(v as nat, width as nat),
{
    let mut left: u64 = v;
    let mut i: usize = 0;
    assert(out@ + le(v as nat, width as nat) =~= old(out)@ + le(v as nat, width as nat));
    while i < width
        invariant
            i <= width,
            out@ + le(left as nat, (width - i) as nat) == old(out)@ + le(v as nat, width as nat),
        decreases width - i,
    {
        let ghost before = out@;
        let byte: u8 = (left % 256) as u8;
        out.push(byte);
        assert(out@ + le((left / 256) as nat, (width - i - 1) as nat) =~= before + le(
            left as nat,
            (width - i) as nat,
        ));
        left = left / 256;
        i += 1;
    }
    assert(out@ + le(left as nat, 0) =~= out@);
}

/// Append a byte.
pub fn write_u8(out: &mut Vec<u8>, v: u8)
    ensures
        final(out)@ == old(out)@.push(v),
{
    out.push(v);
}

/// Append an unsigned integer of thirty-two bits.
pub fn write_u32(out: &mut Vec<u8>, v: u32)
    ensures
        final(out)@ == old(out)@ + le(v as nat, 4),
{
    write_le(out, v as u64, 4);
}

/// Append an unsigned integer of sixty-four bits.
pub fn write_u64(out: &mut Vec<u8>, v: u64)
    ensures
        final(out)@ == old(out)@ + le(v as nat, 8),
{
    write_le(out, v, 8);
}

/// Append a signed integer of sixty-four bits.
pub fn write_i64(out: &mut Vec<u8>, v: i64)
    ensures
        final(out)@ == old(out)@ + le(complement(v), 8),
{
    let n: u64 = if v < 0 {
        (v + i64::MAX + 1) as u64 + 0x8000_0000_0000_0000
    } else {
        v as u64
    };
    write_le(out, n, 8);
}

/// Append a single-precision number.
pub fn write_f32(out: &mut Vec<u8>, v: Single)
    ensures
        final(out)@ == old(out)@ + le(v.bits as nat, 4),
{
    write_u32(out, v.to_bits());
}

/// Append a double-precision number.
pub fn write_f64(out: &mut Vec<u8>, v: Double)
    ensures
        final(out)@ == old(out)@ + le(v.bits as nat, 8),
{
    write_u64(out, v.to_bits());
}

/// Append a string.
pub fn write_string(out: &mut Vec<u8>, s: &str)
    ensures
        final(out)@ == old(out)@ + string_bytes(s@),
{
    let bytes = s.as_bytes();
    let len: u64 = bytes.len() as u64;
    write_u32(out, (len % 0x1_0000_0000) as u32);
    out.extend_from_slice(bytes);
    assert(out@ =~= old(out)@ + string_bytes(s@));
}

/// Append a value.
pub fn write_value(out: &mut Vec<u8>, value: &Value)
    ensures
        final(out)@ == old(out)@ + value_bytes(value@),
{
    match value {
        Value::Str(s) => {
            write_u8(out, 0);
            write_string(out, s.as_str());
        },
        Value::Int(i) => {
            write_u8(out, 1);
            write_i64(out, *i);
        },
        Value::Float(f) => {
            write_u8(out, 2);
            write_f64(out, *f);
        },
        Value::Bool(b) => {
            write_u8(out, 3);
            if *b {
                write_u8(out, 1);
            } else {
                write_u8(out, 0);
            }
        },
    }
    assert(out@ =~= old(out)@ + value_bytes(value@));
}

/// The fields of a payload, if there is one.
pub open spec fn fields_in(payload: Option<&Payload>) -> Option<Seq<Field>> {
    match payload {
        Some(p) => Some(p.fields()),
        None => None,
    }
}

/// Append a payload, or the mark of its absence.
pub fn write_payload(out: &mut Vec<u8>, payload: Option<&Payload>)
    ensures
        final(out)@ == old(out)@ + payload_bytes(fields_in(payload)),
        fields_in(payload) matches Some(fields) ==> in_key_order(fields),
{
    match payload {
        None => {
            write_u8(out, 0);
            assert(out@ =~= old(out)@ + payload_bytes(None));
        },
        Some(p) => {
            let ghost fields = p.fields();
            write_u8(out, 1);
            let len: u64 = p.len() as u64;
            write_u32(out, (len % 0x1_0000_0000) as u32);
            let ghost head = out@;
            let ghost encode = |field: Field| field_bytes(field);
            let mut i: usize = 0;
            proof {
                lemma_encode_end(encode, fields, head);
            }
            while i < p.len()
                invariant
                    fields == p.fields(),
                    i <= fields.len(),
                    encode == (|field: Field| field_bytes(field)),
                    out@ + encode_all(encode, fields.skip(i as int)) == head + encode_all(
                        encode,
                        fields,
                    ),
                decreases fields.len() - i,
            {
                proof {
                    lemma_encode_step(encode, fields, i as int, out@);
                }
                let ghost before = out@;
                let (key, value) = p.field(i);
                write_string(out, key);
                write_value(out, value);
                assert(out@ =~= before + encode(fields[i as int]));
                i += 1;
            }
            proof {
                lemma_encode_end(encode, fields, out@);
            }
            assert(out@ =~= old(out)@ + payload_bytes(Some(fields)));
        },
    }
}

/// Bytes that are read from the front.
#[derive(Debug)]
pub struct Reader {
    bytes: Vec<u8>,
    pos: usize,
}

impl View for Reader {
    type V = Seq<u8>;

    closed spec fn view(&self) -> Seq<u8> {
        self.bytes@.skip(self.pos as int)
    }
}

/// The outcome of a read: what the bytes hold, with the bytes that are left after
/// it, or what is wrong with them. After a failed read nothing is said of the
/// bytes that are left.
pub open spec fn reads<T>(
    expected: Parsed<T>,
    outcome: Result<T, ReadError>,
    left: Seq<u8>,
) -> bool {
    match expected {
        Ok((value, rest)) => outcome == Ok::<T, ReadError>(value) && left == rest,
        Err(e) => outcome == Err::<T, ReadError>(e),
    }
}

/// A number that was read, as a natural number.
pub open spec fn as_nat(outcome: Result<u64, ReadError>) -> Result<nat, ReadError> {
    match outcome {
        Ok(n) => Ok(n as nat),
        Err(e) => Err(e),
    }
}

impl Reader {
    #[verifier::type_invariant]
    spec fn in_range(self) -> bool {
        self.pos <= self.bytes@.len()
    }

    /// Read `bytes` from their first.
    pub fn new(bytes: Vec<u8>) -> (r: Reader)
        ensures
            r@ == bytes@,
    {
        let r = Reader { bytes, pos: 0 };
        assert(r@ =~= bytes@);
        r
    }

    /// How many bytes are left.
    pub fn left(&self) -> (n: usize)
        ensures
            n == self@.len(),
    {
        proof {
            use_type_invariant(self);
        }
        self.bytes.len() - self.pos
    }

    /// Read a number of `width` bytes.
    fn number(&mut self, width: usize) -> (out: Result<u64, ReadError>)
        requires
            width <= 8,
        ensures
            reads(parse_number(old(self)@, width as nat), as_nat(out), final(self)@),
    {
        proof {
            use_type_invariant(&*self);
        }
        if self.bytes.len() - self.pos < width {
            return Err(ReadError::UnexpectedEof);
        }
        let ghost bytes = self@.take(width as int);
        let mut n: u64 = 0;
        let mut i: usize = width;
        assert(bytes.skip(width as int) =~= Seq::<u8>::empty());
        while i > 0
            invariant
                i <= width <= 8,
                self.pos + width <= self.bytes@.len() <= usize::MAX,
                bytes == self@.take(width as int),
                bytes.len() == width,
                n == number(bytes.skip(i as int)),
            decreases i,
        {
            let ghost above = bytes.skip(i as int);
            i -= 1;
            proof {
                lemma_number_bound(bytes.skip(i as int));
                lemma_number_bound(above);
                lemma_capacity_bound((width - i) as nat);
                assert(bytes.skip(i as int).drop_first() =~= above);
                assert(bytes[i as int] == self.bytes@[self.pos + i]);
            }
            n = n * 256 + self.bytes[self.pos + i] as u64;
        }
        assert(bytes.skip(0) =~= bytes);
        let ghost rest = self@.skip(width as int);
        self.pos = self.pos + width;
        assert(self@ =~= rest);
        Ok(n)
    }

    /// Take `len` bytes.
    fn take(&mut self, len: usize) -> (out: Result<Vec<u8>, ReadError>)
        ensures
            match out {
                Ok(bytes) => len <= old(self)@.len() && bytes@ == old(self)@.take(len as int)
                    && final(self)@ == old(self)@.skip(len as int),
                Err(e) => len > old(self)@.len() && e == ReadError::UnexpectedEof,
            },
    {
        proof {
            use_type_invariant(&*self);
        }
        if self.bytes.len() - self.pos < len {
            return Err(ReadError::UnexpectedEof);
        }
        let mut bytes: Vec<u8> = Vec::new();
        bytes.extend_from_slice(
            vstd::slice::slice_subrange(self.bytes.as_slice(), self.pos, self.pos + len),
        );
        assert(bytes@ =~= self@.take(len as int));
        let ghost rest = self@.skip(len as int);
        self.pos = self.pos + len;
        assert(self@ =~= rest);
        Ok(bytes)
    }
}

proof fn lemma_capacity_bound(width: nat)
    requires
        width <= 8,
    ensures
        capacity(width) <= 0x1_0000_0000_0000_0000,
{
    reveal_with_fuel(capacity, 9);
}

/// Turn bytes into a string with `String::from_utf8`, which succeeds exactly on
/// valid UTF-8 and then gives the characters that the bytes encode. Of its error,
/// `Utf8Error::valid_up_to` is the length of the longest front that is valid
/// UTF-8, and what `Utf8Error::error_len` is depends on the bytes alone; what it
/// is for given bytes is left unsaid.
#[verifier::external_body]
fn text_of(bytes: Vec<u8>) -> (text: Result<String, (usize, Option<usize>)>)
    ensures
        match text {
            Ok(s) => valid_utf8(bytes@) && s@ == decode_utf8(bytes@),
            Err((index, length)) => !valid_utf8(bytes@) && index == valid_among(
                bytes@,
                bytes@.len(),
            ) && length == invalid_length(bytes@),
        },
{
    match String::from_utf8(bytes) {
        Ok(s) => Ok(s),
        Err(e) => Err((e.utf8_error().valid_up_to(), e.utf8_error().error_len())),
    }
}

/// What is read of a string: its text, or where it is not UTF-8.
pub fn checked_text(text: Result<String, (usize, Option<usize>)>) -> (out: Result<
    String,
    ReadError,
>)
    ensures
        match (text, out) {
            (Ok(s), Ok(v)) => v@ == s@,
            (Err((index, length)), Err(e)) => e == (ReadError::InvalidUtf8 { index, length }),
            _ => false,
        },
{
    match text {
        Ok(s) => Ok(s),
        Err((index, length)) => Err(ReadError::InvalidUtf8 { index, length }),
    }
}

/// Read a byte.
pub fn read_u8(r: &mut Reader) -> (out: Result<u8, ReadError>)
    ensures
        match out {
            Ok(v) => parse_number(old(r)@, 1) == Ok::<(nat, Seq<u8>), ReadError>(
                (v as nat, final(r)@),
            ),
            Err(e) => parse_number(old(r)@, 1) == Err::<(nat, Seq<u8>), ReadError>(e),
        },
{
    proof {
        lemma_capacities();
        if old(r)@.len() >= 1 {
            lemma_number_bound(old(r)@.take(1));
        }
    }
    match r.number(1) {
        Ok(n) => Ok(n as u8),
        Err(e) => Err(e),
    }
}

/// Read an unsigned integer of thirty-two bits.
pub fn read_u32(r: &mut Reader) -> (out: Result<u32, ReadError>)
    ensures
        match out {
            Ok(v) => parse_number(old(r)@, 4) == Ok::<(nat, Seq<u8>), ReadError>(
                (v as nat, final(r)@),
            ),
            Err(e) => parse_number(old(r)@, 4) == Err::<(nat, Seq<u8>), ReadError>(e),
        },
{
    proof {
        lemma_capacities();
        if old(r)@.len() >= 4 {
            lemma_number_bound(old(r)@.take(4));
        }
    }
    match r.number(4) {
        Ok(n) => Ok(n as u32),
        Err(e) => Err(e),
    }
}

/// Read an unsigned integer of sixty-four bits.
pub fn read_u64(r: &mut Reader) -> (out: Result<u64, ReadError>)
    ensures
        match out {
            Ok(v) => parse_number(old(r)@, 8) == Ok::<(nat, Seq<u8>), ReadError>(
                (v as nat, final(r)@),
            ),
            Err(e) => parse_number(old(r)@, 8) == Err::<(nat, Seq<u8>), ReadError>(e),
        },
{
    r.number(8)
}

/// Read a signed integer of sixty-four bits.
pub fn read_i64(r: &mut Reader) -> (out: Result<i64, ReadError>)
    ensures
        match (parse_number(old(r)@, 8), out) {
            (Ok((n, rest)), Ok(v)) => v == signed(n) && final(r)@ == rest,
            (Err(e), Err(f)) => e == f,
            _ => false,
        },
{
    match r.number(8) {
        Ok(n) => if n < 0x8000_0000_0000_0000 {
            Ok(n as i64)
        } else {
            Ok((n - 0x8000_0000_0000_0000) as i64 + i64::MIN)
        },
        Err(e) => Err(e),
    }
}

/// Read a single-precision number.
pub fn read_f32(r: &mut Reader) -> (out: Result<Single, ReadError>)
    ensures
        match out {
            Ok(v) => parse_number(old(r)@, 4) == Ok::<(nat, Seq<u8>), ReadError>(
                (v.bits as nat, final(r)@),
            ),
            Err(e) => parse_number(old(r)@, 4) == Err::<(nat, Seq<u8>), ReadError>(e),
        },
{
    match read_u32(r) {
        Ok(n) => Ok(Single::from_bits(n)),
        Err(e) => Err(e),
    }
}

/// Read a double-precision number.
pub fn read_f64(r: &mut Reader) -> (out: Result<Double, ReadError>)
    ensures
        match out {
            Ok(v) => parse_number(old(r)@, 8) == Ok::<(nat, Seq<u8>), ReadError>(
                (v.bits as nat, final(r)@),
            ),
            Err(e) => parse_number(old(r)@, 8) == Err::<(nat, Seq<u8>), ReadError>(e),
        },
{
    match read_u64(r) {
        Ok(n) => Ok(Double::from_bits(n)),
        Err(e) => Err(e),
    }
}

/// Read a string.
pub fn read_string(r: &mut Reader) -> (out: Result<String, ReadError>)
    ensures
        match (parse_string(old(r)@), out) {
            (Ok((s, rest)), Ok(v)) => v@ == s && final(r)@ == rest,
            (Err(e), Err(f)) => e == f,
            _ => false,
        },
{
    let len: u32 = match read_u32(r) {
        Ok(len) => len,
        Err(e) => {
            return Err(e);
        },
    };
    if len as u64 > r.left() as u64 {
        return Err(ReadError::UnexpectedEof);
    }
    match r.take(len as usize) {
        Ok(bytes) => checked_text(text_of(bytes)),
        Err(e) => Err(e),
    }
}

/// Read a value.
pub fn read_value(r: &mut Reader) -> (out: Result<Value, ReadError>)
    ensures
        match (parse_value(old(r)@), out) {
            (Ok((value, rest)), Ok(v)) => v@ == value && final(r)@ == rest,
            (Err(e), Err(f)) => e == f,
            _ => false,
        },
{
    let tag: u8 = match read_u8(r) {
        Ok(tag) => tag,
        Err(e) => {
            return Err(e);
        },
    };
    match tag {
        0 => match read_string(r) {
            Ok(s) => Ok(Value::Str(s)),
            Err(e) => Err(e),
        },
        1 => match read_i64(r) {
            Ok(i) => Ok(Value::Int(i)),
            Err(e) => Err(e),
        },
        2 => match read_f64(r) {
            Ok(f) => Ok(Value::Float(f)),
            Err(e) => Err(e),
        },
        3 => match read_u8(r) {
            Ok(b) => Ok(Value::Bool(b != 0)),
            Err(e) => Err(e),
        },
        _ => Err(ReadError::UnknownTag(tag)),
    }
}

/// Read a field.
fn read_field(r: &mut Reader) -> (out: Result<(String, Value), ReadError>)
    ensures
        match (parse_field(old(r)@), out) {
            (Ok((field, rest)), Ok(v)) => v.0@ == field.0 && v.1@ == field.1 && final(r)@ == rest,
            (Err(e), Err(f)) => e == f,
            _ => false,
        },
{
    let key: String = match read_string(r) {
        Ok(key) => key,
        Err(e) => {
            return Err(e);
        },
    };
    match read_value(r) {
        Ok(value) => Ok((key, value)),
        Err(e) => Err(e),
    }
}

/// Read a payload, or the mark of its absence.
pub fn read_payload(r: &mut Reader) -> (out: Result<Option<Payload>, ReadError>)
    ensures
        match (parse_payload(old(r)@), out) {
            (Ok((fields, rest)), Ok(v)) => crate::hnsw::fields_of(v) == fields && final(r)@ == rest,
            (Err(e), Err(f)) => e == f,
            _ => false,
        },
{
    let flag: u8 = match read_u8(r) {
        Ok(flag) => flag,
        Err(e) => {
            return Err(e);
        },
    };
    if flag == 0 {
        return Ok(None);
    }
    let count: u32 = match read_u32(r) {
        Ok(count) => count,
        Err(e) => {
            return Err(e);
        },
    };
    let ghost parse = |bytes: Seq<u8>| parse_field(bytes);
    let ghost all = parse_all(parse, r@, count as nat);
    let ghost mut fields: Seq<Field> = Seq::empty();
    let mut payload = Payload::new();
    proof {
        lemma_parse_begin(parse, r@, count as nat);
    }
    let mut i: u32 = 0;
    while i < count
        invariant
            i <= count,
            payload@ == collected(fields),
            parse == (|bytes: Seq<u8>| parse_field(bytes)),
            all == parse_rest(parse, r@, (count - i) as nat, fields),
            parse_payload(old(r)@) == match all {
                Err(e) => Err::<(Option<Map<Seq<char>, ValueView>>, Seq<u8>), ReadError>(e),
                Ok((fields, rest)) => Ok((Some(collected(fields)), rest)),
            },
        decreases count - i,
    {
        proof {
            lemma_parse_step(parse, r@, (count - i) as nat, fields);
        }
        match read_field(r) {
            Ok((key, value)) => {
                proof {
                    let longer = fields.push((key@, value@));
                    assert(longer.drop_last() =~= fields);
                    fields = longer;
                }
                payload.insert(key, value);
            },
            Err(e) => {
                return Err(e);
            },
        }
        i += 1;
    }
    proof {
        lemma_parse_end(parse, r@, fields);
    }
    Ok(Some(payload))
}

/// What is written of a number is read back, whatever follows it.
pub proof fn law_number_round_trip(n: nat, width: nat, rest: Seq<u8>)
    requires
        n < capacity(width),
    ensures
        parse_number(le(n, width) + rest, width) == Ok::<(nat, Seq<u8>), ReadError>((n, rest)),
{
    let bytes = le(n, width);
    lemma_le_len(n, width);
    lemma_le_number(n, width);
    assert((bytes + rest).take(width as int) =~= bytes);
    assert((bytes + rest).skip(width as int) =~= rest);
}

/// What is written of a signed integer is read back.
pub proof fn law_signed_round_trip(n: i64, rest: Seq<u8>)
    ensures
        parse_number(le(complement(n), 8) + rest, 8) == Ok::<(nat, Seq<u8>), ReadError>(
            (complement(n), rest),
        ),
        signed(complement(n)) == n,
{
    lemma_capacities();
    law_number_round_trip(complement(n), 8, rest);
}

/// What is written of a string is read back, if its length fits in thirty-two
/// bits.
pub proof fn law_string_round_trip(s: Seq<char>, rest: Seq<u8>)
    requires
        encode_utf8(s).len() < 0x1_0000_0000,
    ensures
        parse_string(string_bytes(s) + rest) == Ok::<(Seq<char>, Seq<u8>), ReadError>((s, rest)),
{
    let text = encode_utf8(s);
    lemma_capacities();
    law_number_round_trip(text.len(), 4, text + rest);
    assert(string_bytes(s) + rest =~= le(text.len(), 4) + (text + rest));
    assert((text + rest).take(text.len() as int) =~= text);
    assert((text + rest).skip(text.len() as int) =~= rest);
    vstd::utf8::encode_utf8_valid_utf8(s);
    vstd::utf8::encode_utf8_decode_utf8(s);
}

/// The text of a value, if it is one, is not too long to be written.
pub open spec fn fits(value: ValueView) -> bool {
    value matches ValueView::Str(s) ==> encode_utf8(s).len() < 0x1_0000_0000
}

/// What is written of a value is read back.
pub proof fn law_value_round_trip(value: ValueView, rest: Seq<u8>)
    requires
        fits(value),
    ensures
        parse_value(value_bytes(value) + rest) == Ok::<(ValueView, Seq<u8>), ReadError>(
            (value, rest),
        ),
{
    let bytes = value_bytes(value) + rest;
    lemma_capacities();
    let tail = bytes.skip(1);
    reveal_with_fuel(number, 2);
    assert(bytes.take(1) =~= seq![bytes[0]]);
    assert(seq![bytes[0]].drop_first() =~= Seq::<u8>::empty());
    match value {
        ValueView::Str(s) => {
            law_string_round_trip(s, rest);
            assert(tail =~= string_bytes(s) + rest);
        },
        ValueView::Int(i) => {
            law_signed_round_trip(i, rest);
            assert(tail =~= le(complement(i), 8) + rest);
        },
        ValueView::Float(f) => {
            law_number_round_trip(f.bits as nat, 8, rest);
            assert(tail =~= le(f.bits as nat, 8) + rest);
        },
        ValueView::Bool(b) => {
            assert(tail.take(1) =~= seq![bytes[1]]);
            assert(seq![bytes[1]].drop_first() =~= Seq::<u8>::empty());
            assert(tail.skip(1) =~= rest);
        },
    }
}

/// Joining pieces, from the left or from the right.
proof fn lemma_joined(a: Seq<u8>, b: Seq<u8>, c: Seq<u8>, d: Seq<u8>)
    ensures
        a + b + c + d == a + (b + (c + d)),
{
    assert(a + b + c + d =~= a + (b + (c + d)));
}

/// What is written of a field is read back.
pub proof fn law_field_round_trip(field: Field, rest: Seq<u8>)
    requires
        encode_utf8(field.0).len() < 0x1_0000_0000,
        fits(field.1),
    ensures
        parse_field(field_bytes(field) + rest) == Ok::<(Field, Seq<u8>), ReadError>((field, rest)),
{
    let after_key = value_bytes(field.1) + rest;
    law_string_round_trip(field.0, after_key);
    law_value_round_trip(field.1, rest);
    assert(field_bytes(field) + rest =~= string_bytes(field.0) + after_key);
}

/// What is written of fields is read back.
pub proof fn law_fields_round_trip(fields: Seq<Field>, rest: Seq<u8>)
    requires
        forall|i: int|
            0 <= i < fields.len() ==> encode_utf8((#[trigger] fields[i]).0).len() < 0x1_0000_0000
                && fits(fields[i].1),
    ensures
        parse_fields(fields_bytes(fields) + rest, fields.len()) == Ok::<
            (Seq<Field>, Seq<u8>),
            ReadError,
        >((fields, rest)),
{
    let encode = |field: Field| field_bytes(field);
    let parse = |bytes: Seq<u8>| parse_field(bytes);
    let image = |field: Field| field;
    assert forall|i: int, tail: Seq<u8>| 0 <= i < fields.len() implies #[trigger] parse(
        encode(fields[i]) + tail,
    ) == Ok::<(Field, Seq<u8>), ReadError>((image(fields[i]), tail)) by {
        law_field_round_trip(fields[i], tail);
    }
    law_all_round_trip(encode, parse, image, fields, rest);
    assert(fields.map_values(image) =~= fields);
}

/// A payload can be written without loss: its texts and the number of its fields
/// fit in thirty-two bits.
pub open spec fn storable(payload: Option<Map<Seq<char>, ValueView>>) -> bool {
    payload matches Some(fields) ==> fields.dom().len() < 0x1_0000_0000 && forall|k: Seq<char>|
        #[trigger]
        fields.dom().contains(k) ==> encode_utf8(k).len() < 0x1_0000_0000 && fits(fields[k])
}

/// The fields of a payload that can be written without loss are few enough and
/// short enough.
pub proof fn lemma_storable_fields(fields: Seq<Field>)
    requires
        in_key_order(fields),
        storable(Some(collected(fields))),
    ensures
        fields.len() < 0x1_0000_0000,
        forall|i: int|
            0 <= i < fields.len() ==> encode_utf8((#[trigger] fields[i]).0).len() < 0x1_0000_0000
                && fits(fields[i].1),
{
    law_fields_are_collected(fields);
    assert forall|i: int| 0 <= i < fields.len() implies encode_utf8(
        (#[trigger] fields[i]).0,
    ).len() < 0x1_0000_0000 && fits(fields[i].1) by {
        assert(collected(fields).dom().contains(fields[i].0));
    }
}

/// A payload that can be written without loss is read back, whatever follows it,
/// when its fields are written in the order of their keys.
pub proof fn law_stored_payload_is_read_back(fields: Seq<Field>, rest: Seq<u8>)
    requires
        in_key_order(fields),
        storable(Some(collected(fields))),
    ensures
        parse_payload(payload_bytes(Some(fields)) + rest) == Ok::<
            (Option<Map<Seq<char>, ValueView>>, Seq<u8>),
            ReadError,
        >((Some(collected(fields)), rest)),
{
    lemma_storable_fields(fields);
    law_payload_round_trip(Some(fields), rest);
}

/// What is written of a payload is read back, whatever follows it: the same
/// fields with the same values, or none. Texts and the number of fields have to
/// fit in thirty-two bits.
pub proof fn law_payload_round_trip(fields: Option<Seq<Field>>, rest: Seq<u8>)
    requires
        fields matches Some(fields) ==> fields.len() < 0x1_0000_0000 && forall|i: int|
            0 <= i < fields.len() ==> encode_utf8((#[trigger] fields[i]).0).len() < 0x1_0000_0000
                && fits(fields[i].1),
    ensures
        parse_payload(payload_bytes(fields) + rest) == Ok::<
            (Option<Map<Seq<char>, ValueView>>, Seq<u8>),
            ReadError,
        >(
            (
                match fields {
                    Some(fields) => Some(collected(fields)),
                    None => None,
                },
                rest,
            ),
        ),
{
    match fields {
        None => {
            lemma_parse_first(0, rest);
        },
        Some(fields) => {
            let tail = fields_bytes(fields) + rest;
            let bytes = seq![1u8] + (le(fields.len(), 4) + tail);
            assert(payload_bytes(Some(fields)) + rest == bytes) by {
                lemma_joined(seq![1u8], le(fields.len(), 4), fields_bytes(fields), rest);
            }
            assert(fields.len() < capacity(4)) by {
                lemma_capacities();
            }
            lemma_parse_first(1, le(fields.len(), 4) + tail);
            law_number_round_trip(fields.len(), 4, tail);
            law_fields_round_trip(fields, rest);
            lemma_parse_present(bytes, le(fields.len(), 4) + tail, tail, fields, rest);
        },
    }
}

/// Reading the mark of a payload, the number of its fields, and the fields.
proof fn lemma_parse_present(
    bytes: Seq<u8>,
    after_flag: Seq<u8>,
    after_count: Seq<u8>,
    fields: Seq<Field>,
    rest: Seq<u8>,
)
    requires
        parse_number(bytes, 1) == Ok::<(nat, Seq<u8>), ReadError>((1, after_flag)),
        parse_number(after_flag, 4) == Ok::<(nat, Seq<u8>), ReadError>((fields.len(), after_count)),
        parse_fields(after_count, fields.len()) == Ok::<(Seq<Field>, Seq<u8>), ReadError>(
            (fields, rest),
        ),
    ensures
        parse_payload(bytes) == Ok::<(Option<Map<Seq<char>, ValueView>>, Seq<u8>), ReadError>(
            (Some(collected(fields)), rest),
        ),
{
}

/// Reading the first byte.
pub proof fn lemma_parse_first(byte: u8, rest: Seq<u8>)
    ensures
        parse_number(seq![byte] + rest, 1) == Ok::<(nat, Seq<u8>), ReadError>((byte as nat, rest)),
{
    let bytes = seq![byte] + rest;
    reveal_with_fuel(number, 2);
    assert(bytes.take(1) =~= seq![byte]);
    assert(bytes.skip(1) =~= rest);
    assert(seq![byte].drop_first() =~= Seq::<u8>::empty());
}

/// Byte `i` of an encoded number is its `i`-th digit to the base 256, least first.
pub proof fn law_numbers_are_little_endian(n: nat, width: nat, i: int)
    requires
        0 <= i < width,
    ensures
        le(n, width).len() == width,
        le(n, width)[i] == (n as int / vstd::arithmetic::power::pow(256, i as nat)) % 256,
    decreases width,
{
    lemma_le_len(n, width);
    lemma_le_len(n / 256, (width - 1) as nat);
    reveal(vstd::arithmetic::power::pow);
    if i > 0 {
        law_numbers_are_little_endian(n / 256, (width - 1) as nat, i - 1);
        let p = vstd::arithmetic::power::pow(256, (i - 1) as nat);
        vstd::arithmetic::power::lemma_pow_positive(256, (i - 1) as nat);
        vstd::arithmetic::power::lemma_pow1(256);
        vstd::arithmetic::power::lemma_pow_adds(256, 1, (i - 1) as nat);
        vstd::arithmetic::div_mod::lemma_div_denominator(n as int, 256, p);
        assert(le(n, width)[i] == le(n / 256, (width - 1) as nat)[i - 1]);
    } else {
        vstd::arithmetic::power::lemma_pow0(256);
        assert(n as int / 1 == n as int);
    }
}

/// Writing the number that was read gives the bytes that it was read from.
pub proof fn law_read_numbers_are_written_back(bytes: Seq<u8>)
    ensures
        le(number(bytes), bytes.len()) == bytes,
    decreases bytes.len(),
{
    if bytes.len() > 0 {
        let rest = bytes.drop_first();
        law_read_numbers_are_written_back(rest);
        let n = number(bytes);
        assert(n % 256 == bytes[0] && n / 256 == number(rest));
        assert(le(n, bytes.len()) =~= bytes);
    } else {
        assert(le(number(bytes), 0) =~= bytes);
    }
}

/// Signed integers are written in two's complement: what is not negative as it is,
/// and what is negative as that much below two to the power of sixty-four.
pub proof fn law_signed_integers_are_in_twos_complement(n: i64, bits: nat)
    requires
        bits < 0x1_0000_0000_0000_0000,
    ensures
        n >= 0 ==> complement(n) == n,
        n < 0 ==> complement(n) == 0x1_0000_0000_0000_0000 + n,
        bits <= i64::MAX ==> signed(bits) == bits,
        bits > i64::MAX ==> signed(bits) == bits - 0x1_0000_0000_0000_0000,
{
}

/// How strings, values and payloads are laid out: a string is its length in four
/// bytes and its UTF-8 bytes; a value is a tag, 0 for text, 1 for an integer, 2 for a
/// float and 3 for a boolean, and its content; a field is its key and its value; a
/// payload is a zero if there is none, and otherwise a one, the number of fields in
/// four bytes, and the fields.
pub proof fn law_layout(
    s: Seq<char>,
    i: i64,
    f: Double,
    b: bool,
    field: Field,
    fields: Seq<Field>,
)
    requires
        encode_utf8(s).len() < 0x1_0000_0000,
        fields.len() + 1 < 0x1_0000_0000,
    ensures
        string_bytes(s) == le(encode_utf8(s).len(), 4) + encode_utf8(s),
        value_bytes(ValueView::Str(s)) == seq![0u8] + le(encode_utf8(s).len(), 4) + encode_utf8(s),
        value_bytes(ValueView::Int(i)) == seq![1u8] + le(
            (if i < 0 {
                i + 0x1_0000_0000_0000_0000
            } else {
                i as int
            }) as nat,
            8,
        ),
        value_bytes(ValueView::Float(f)) == seq![2u8] + le(f.bits as nat, 8),
        value_bytes(ValueView::Bool(b)) == seq![3u8] + seq![
            if b {
                1u8
            } else {
                0u8
            },
        ],
        payload_bytes(None) == seq![0u8],
        payload_bytes(Some(Seq::empty())) == seq![1u8] + le(0, 4),
        payload_bytes(Some(seq![field] + fields)) == seq![1u8] + le(fields.len() + 1, 4)
            + string_bytes(field.0) + value_bytes(field.1) + payload_bytes(Some(fields)).skip(5),
{
    let head = string_bytes(field.0) + value_bytes(field.1);
    let all = seq![field] + fields;
    let encode = |field: Field| field_bytes(field);
    assert(value_bytes(ValueView::Str(s)) =~= seq![0u8] + le(encode_utf8(s).len(), 4)
        + encode_utf8(s));
    assert(value_bytes(ValueView::Bool(b)) =~= seq![3u8] + seq![
        if b {
            1u8
        } else {
            0u8
        },
    ]);
    assert(fields_bytes(Seq::empty()) =~= Seq::empty());
    assert(payload_bytes(Some(Seq::empty())) =~= seq![1u8] + le(0, 4));
    assert(all.drop_first() =~= fields);
    assert(encode_all(encode, all) == encode(all[0]) + encode_all(encode, fields));
    lemma_le_len(fields.len(), 4);
    assert(payload_bytes(Some(fields)).skip(5) =~= fields_bytes(fields));
    assert(payload_bytes(Some(all)) =~= seq![1u8] + le(fields.len() + 1, 4) + string_bytes(field.0)
        + value_bytes(field.1) + payload_bytes(Some(fields)).skip(5));
}

/// How bytes are read that nothing wrote: too few are too few; a tag above 3 stands
/// for no type and is named; any byte but zero is true as a boolean, and says that
/// there is a payload; and text that is not UTF-8 is refused.
pub proof fn law_other_bytes_are_read_with_care(byte: u8, rest: Seq<u8>, width: nat)
    ensures
        rest.len() < width ==> parse_number(rest, width) == Err::<(nat, Seq<u8>), ReadError>(
            ReadError::UnexpectedEof,
        ),
        parse_value(Seq::empty()) == Err::<(ValueView, Seq<u8>), ReadError>(
            ReadError::UnexpectedEof,
        ),
        byte > 3 ==> parse_value(seq![byte] + rest) == Err::<(ValueView, Seq<u8>), ReadError>(
            ReadError::UnknownTag(byte),
        ),
        parse_value(seq![3u8] + (seq![byte] + rest)) == Ok::<(ValueView, Seq<u8>), ReadError>(
            (ValueView::Bool(byte != 0), rest),
        ),
        byte != 0 ==> parse_payload(seq![byte] + rest) == parse_payload(seq![1u8] + rest),
        parse_payload(seq![0u8] + rest) == Ok::<
            (Option<Map<Seq<char>, ValueView>>, Seq<u8>),
            ReadError,
        >((None, rest)),
        !valid_utf8(rest) && rest.len() < 0x1_0000_0000 ==> parse_string(
            le(rest.len(), 4) + rest,
        ) is Err,
{
    lemma_parse_first(byte, rest);
    lemma_parse_first(1, rest);
    lemma_parse_first(0, rest);
    lemma_parse_first(3, seq![byte] + rest);
    assert(rest.take(rest.len() as int) =~= rest);
    if rest.len() < 0x1_0000_0000 {
        lemma_capacities();
        law_number_round_trip(rest.len(), 4, rest);
    }
}

/// What an error says.
pub proof fn law_errors_say_what_is_wrong(tag: u8, index: usize, length: usize)
    ensures
        ReadError::UnexpectedEof.spec_message() == "failed to fill whole buffer"@,
        ReadError::UnknownTag(tag).spec_message() == "unknown payload value tag "@ + digits(
            tag as nat,
        ),
        (ReadError::InvalidUtf8 { index, length: Some(length) }).spec_message()
            == "invalid utf-8 sequence of "@ + digits(length as nat) + " bytes from index "@
            + digits(index as nat),
        (ReadError::InvalidUtf8 { index, length: None }).spec_message()
            == "incomplete utf-8 byte sequence from index "@ + digits(index as nat),
{
}

/// Where text stops being UTF-8: that much of it is valid, and no longer front is.
pub proof fn law_longest_valid_front(bytes: Seq<u8>, n: nat, longer: nat)
    requires
        n <= bytes.len(),
    ensures
        valid_among(bytes, n) <= n,
        valid_utf8(bytes.take(valid_among(bytes, n) as int)),
        valid_among(bytes, n) < longer <= n ==> !valid_utf8(bytes.take(longer as int)),
    decreases n,
{
    if n == 0 {
        assert(bytes.take(0) =~= Seq::empty());
        vstd::utf8::encode_utf8_valid_utf8(Seq::empty());
        assert(encode_utf8(Seq::empty()) =~= Seq::empty());
    } else if !valid_utf8(bytes.take(n as int)) {
        law_longest_valid_front(bytes, (n - 1) as nat, longer);
    }
}

} // verus!
