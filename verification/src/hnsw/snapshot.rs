//! Snapshots of an index: the whole index as bytes, and back.
//!
//! A snapshot holds the metric, the entry point, the numbers that describe the
//! index, and then every vector with its id, its payload and its neighbours.
//! What is read back is checked: bytes that hold no well-formed index are
//! refused.

use super::{fields_of, is_level, level_under, Fields, HnswConfig, HnswIndex, HnswView, MAX_LEVEL};
use crate::float::{Double, Single};
use crate::graph::{cap, capped, list_ok, on_layer, well_linked};
use crate::index::VectorIndex;
use crate::metric::{distance_under, is_arithmetic, Metric, Op};
use crate::payload::{collected, in_key_order, Field, Payload};
use crate::persist::{
    capacity, fits, law_all_round_trip, law_number_round_trip, law_payload_round_trip,
    lemma_capacities, lemma_encode_end, lemma_encode_step, lemma_parse_all_length,
    lemma_parse_begin, lemma_parse_end, lemma_parse_first, lemma_parse_step, lemma_storable_fields,
};
use crate::persist::{
    encode_all, le, parse_all, parse_number, parse_payload, parse_rest, payload_bytes, read_f32,
    read_payload, read_u32, read_u64, read_u8, storable, write_f32, write_payload, write_u32,
    write_u64, write_u8, Parsed, ReadError, Reader,
};
use crate::rng::SplitMix64;
use crate::rows::rows;
use vstd::prelude::*;
use vstd::utf8::encode_utf8;

verus! {

/// Why bytes are no snapshot.
#[derive(Debug, Clone, Copy, PartialEq, Eq, Structural)]
pub enum LoadError {
    /// They cannot be read.
    Unreadable(ReadError),
    /// What they hold is not a well-formed index.
    Inconsistent,
}

/// A vector with everything that is stored with it.
#[verifier::ext_equal]
pub struct NodeView {
    /// The id.
    pub id: nat,
    /// The vector.
    pub vector: Seq<Single>,
    /// The payload, if there is one.
    pub payload: Option<Fields>,
    /// The neighbours on every layer.
    pub layers: Seq<Seq<u32>>,
}

/// A vector with everything that is written of it.
pub struct Record {
    /// The id.
    pub id: nat,
    /// The vector.
    pub vector: Seq<Single>,
    /// The fields of the payload, if there is one, in the order in which they are
    /// written.
    pub fields: Option<Seq<Field>>,
    /// The neighbours on every layer.
    pub layers: Seq<Seq<u32>>,
}

impl Record {
    /// What a record stands for.
    pub open spec fn node(self) -> NodeView {
        NodeView {
            id: self.id,
            vector: self.vector,
            payload: match self.fields {
                Some(fields) => Some(collected(fields)),
                None => None,
            },
            layers: self.layers,
        }
    }
}

/// What a snapshot says of the index as a whole.
#[verifier::ext_equal]
pub struct HeadView {
    /// The metric.
    pub metric: Metric,
    /// The entry point, if there is one.
    pub entry: Option<nat>,
    /// The dimension, the four parameters in the order of their declaration, the
    /// state of the generator, the top layer and the number of vectors.
    pub numbers: Seq<nat>,
}

/// The tag of a metric.
pub open spec fn metric_tag(metric: Metric) -> u8 {
    match metric {
        Metric::Cosine => 0,
        Metric::Dot => 1,
        Metric::L2 => 2,
    }
}

/// The encoding of a component.
pub open spec fn single_bytes(x: Single) -> Seq<u8> {
    le(x.bits as nat, 4)
}

/// The encoding of a list of neighbours: its length and the neighbours.
pub open spec fn layer_bytes(layer: Seq<u32>) -> Seq<u8> {
    le(layer.len() % 0x1_0000_0000, 4) + encode_all(|v: u32| le(v as nat, 4), layer)
}

/// The encoding of the neighbours on every layer.
pub open spec fn layers_bytes(layers: Seq<Seq<u32>>) -> Seq<u8> {
    le(layers.len() % 0x1_0000_0000, 4) + encode_all(
        |layer: Seq<u32>| layer_bytes(layer),
        layers,
    )
}

/// The encoding of a vector: its components.
pub open spec fn vector_bytes(vector: Seq<Single>) -> Seq<u8> {
    encode_all(|x: Single| single_bytes(x), vector)
}

/// The encoding of a vector with everything that is stored with it.
pub open spec fn record_bytes(record: Record) -> Seq<u8> {
    le(record.id, 8) + vector_bytes(record.vector) + payload_bytes(record.fields) + layers_bytes(
        record.layers,
    )
}

/// The encoding of the entry point.
pub open spec fn entry_bytes(entry: Option<nat>) -> Seq<u8> {
    match entry {
        None => seq![0u8],
        Some(e) => seq![1u8] + le(e, 8),
    }
}

/// The encoding of what is said of the index as a whole.
pub open spec fn head_bytes(head: HeadView) -> Seq<u8> {
    seq![metric_tag(head.metric)] + entry_bytes(head.entry) + encode_all(
        |n: nat| le(n, 8),
        head.numbers,
    )
}

/// A snapshot.
pub open spec fn snapshot_bytes(head: HeadView, records: Seq<Record>) -> Seq<u8> {
    head_bytes(head) + encode_all(|record: Record| record_bytes(record), records)
}

/// Read a component.
pub open spec fn parse_single(bytes: Seq<u8>) -> Parsed<Single> {
    match parse_number(bytes, 4) {
        Err(e) => Err(e),
        Ok((n, rest)) => Ok((Single { bits: n as u32 }, rest)),
    }
}

/// Read a neighbour.
pub open spec fn parse_link(bytes: Seq<u8>) -> Parsed<u32> {
    match parse_number(bytes, 4) {
        Err(e) => Err(e),
        Ok((n, rest)) => Ok((n as u32, rest)),
    }
}

/// Read a list of neighbours.
pub open spec fn parse_layer(bytes: Seq<u8>) -> Parsed<Seq<u32>> {
    match parse_number(bytes, 4) {
        Err(e) => Err(e),
        Ok((count, rest)) => parse_all(|bytes: Seq<u8>| parse_link(bytes), rest, count),
    }
}

/// Read the neighbours on every layer.
pub open spec fn parse_layers(bytes: Seq<u8>) -> Parsed<Seq<Seq<u32>>> {
    match parse_number(bytes, 4) {
        Err(e) => Err(e),
        Ok((count, rest)) => parse_all(|bytes: Seq<u8>| parse_layer(bytes), rest, count),
    }
}

/// Read a vector of a given length.
pub open spec fn parse_vector(bytes: Seq<u8>, dim: nat) -> Parsed<Seq<Single>> {
    parse_all(|bytes: Seq<u8>| parse_single(bytes), bytes, dim)
}

/// Read a vector with everything that is stored with it.
pub open spec fn parse_node(bytes: Seq<u8>, dim: nat) -> Parsed<NodeView> {
    match parse_number(bytes, 8) {
        Err(e) => Err(e),
        Ok((id, rest)) => match parse_vector(rest, dim) {
            Err(e) => Err(e),
            Ok((vector, rest)) => match parse_payload(rest) {
                Err(e) => Err(e),
                Ok((payload, rest)) => match parse_layers(rest) {
                    Err(e) => Err(e),
                    Ok((layers, rest)) => Ok((NodeView { id, vector, payload, layers }, rest)),
                },
            },
        },
    }
}

/// Read a metric.
pub open spec fn parse_metric(bytes: Seq<u8>) -> Parsed<Metric> {
    match parse_number(bytes, 1) {
        Err(e) => Err(e),
        Ok((tag, rest)) => if tag == 0 {
            Ok((Metric::Cosine, rest))
        } else if tag == 1 {
            Ok((Metric::Dot, rest))
        } else if tag == 2 {
            Ok((Metric::L2, rest))
        } else {
            Err(ReadError::UnknownTag(tag as u8))
        },
    }
}

/// Read an entry point.
pub open spec fn parse_entry(bytes: Seq<u8>) -> Parsed<Option<nat>> {
    match parse_number(bytes, 1) {
        Err(e) => Err(e),
        Ok((flag, rest)) => if flag == 0 {
            Ok((None, rest))
        } else {
            match parse_number(rest, 8) {
                Err(e) => Err(e),
                Ok((e, rest)) => Ok((Some(e), rest)),
            }
        },
    }
}

/// Read numbers of sixty-four bits.
pub open spec fn parse_numbers(bytes: Seq<u8>, count: nat) -> Parsed<Seq<nat>> {
    parse_all(|bytes: Seq<u8>| parse_number(bytes, 8), bytes, count)
}

/// Read what is said of the index as a whole.
pub open spec fn parse_head(bytes: Seq<u8>) -> Parsed<HeadView> {
    match parse_metric(bytes) {
        Err(e) => Err(e),
        Ok((metric, rest)) => match parse_entry(rest) {
            Err(e) => Err(e),
            Ok((entry, rest)) => match parse_numbers(rest, 8) {
                Err(e) => Err(e),
                Ok((numbers, rest)) => Ok((HeadView { metric, entry, numbers }, rest)),
            },
        },
    }
}

/// Read a snapshot.
pub open spec fn parse_snapshot(bytes: Seq<u8>) -> Parsed<(HeadView, Seq<NodeView>)> {
    match parse_head(bytes) {
        Err(e) => Err(e),
        Ok((head, rest)) => match parse_all(
            |bytes: Seq<u8>| parse_node(bytes, head.numbers[0]),
            rest,
            head.numbers[7],
        ) {
            Err(e) => Err(e),
            Ok((nodes, rest)) => Ok(((head, nodes), rest)),
        },
    }
}

/// What is said of an index as a whole.
pub open spec fn head_of(view: HnswView) -> HeadView {
    HeadView {
        metric: view.metric,
        entry: match view.entry {
            Some(e) => Some(e as nat),
            None => None,
        },
        numbers: seq![
            view.dim,
            view.config.m as nat,
            view.config.ef_construction as nat,
            view.config.ef_search as nat,
            view.config.seed as nat,
            view.rng as nat,
            view.max_layer,
            view.ids.len(),
        ],
    }
}

/// The vectors of an index with everything that is stored with them.
pub open spec fn nodes_of_view(view: HnswView) -> Seq<NodeView> {
    Seq::new(
        view.ids.len(),
        |v: int|
            NodeView {
                id: view.ids[v] as nat,
                vector: view.vectors[v],
                payload: view.payloads[v],
                layers: view.links[v],
            },
    )
}

/// The records stand for the vectors of an index.
pub open spec fn recorded(view: HnswView, records: Seq<Record>) -> bool {
    records.map_values(|record: Record| record.node()) == nodes_of_view(view)
}

/// Every record lists its fields in the order of their keys.
pub open spec fn in_order(records: Seq<Record>) -> bool {
    forall|v: int|
        0 <= v < records.len() ==> ((#[trigger] records[v]).fields matches Some(fields)
            ==> in_key_order(fields))
}

/// Everything that a snapshot says can be held on this machine.
pub open spec fn addressable(head: HeadView) -> bool {
    &&& head.numbers[0] <= usize::MAX
    &&& head.numbers[1] <= usize::MAX
    &&& head.numbers[2] <= usize::MAX
    &&& head.numbers[3] <= usize::MAX
    &&& head.numbers[6] <= usize::MAX
    &&& head.entry matches Some(e) ==> e <= usize::MAX
}

/// The index that a snapshot stands for.
pub open spec fn restored(
    head: HeadView,
    nodes: Seq<NodeView>,
    distance: spec_fn(Seq<Single>, Seq<Single>) -> Single,
    level: spec_fn(Double, usize) -> Double,
) -> HnswView {
    HnswView {
        dim: head.numbers[0],
        metric: head.metric,
        config: HnswConfig {
            m: head.numbers[1] as usize,
            ef_construction: head.numbers[2] as usize,
            ef_search: head.numbers[3] as usize,
            seed: head.numbers[4] as u64,
        },
        ids: nodes.map_values(|node: NodeView| node.id as u64),
        vectors: nodes.map_values(|node: NodeView| node.vector),
        payloads: nodes.map_values(|node: NodeView| node.payload),
        links: nodes.map_values(|node: NodeView| node.layers),
        entry: match head.entry {
            Some(e) => Some(e as usize),
            None => None,
        },
        max_layer: head.numbers[6],
        rng: head.numbers[5] as u64,
        distance,
        level,
    }
}

/// What is written of a vector is read back.
proof fn lemma_vector_round_trip(vector: Seq<Single>, rest: Seq<u8>)
    ensures
        parse_vector(vector_bytes(vector) + rest, vector.len()) == Ok::<
            (Seq<Single>, Seq<u8>),
            ReadError,
        >((vector, rest)),
{
    let encode = |x: Single| single_bytes(x);
    let parse = |bytes: Seq<u8>| parse_single(bytes);
    let image = |x: Single| x;
    lemma_capacities();
    assert forall|i: int, tail: Seq<u8>| 0 <= i < vector.len() implies #[trigger] parse(
        encode(vector[i]) + tail,
    ) == Ok::<(Single, Seq<u8>), ReadError>((image(vector[i]), tail)) by {
        law_number_round_trip(vector[i].bits as nat, 4, tail);
    }
    law_all_round_trip(encode, parse, image, vector, rest);
    assert(vector.map_values(image) =~= vector);
}

/// What is written of a list of neighbours is read back.
proof fn lemma_layer_round_trip(layer: Seq<u32>, rest: Seq<u8>)
    requires
        layer.len() < 0x1_0000_0000,
    ensures
        parse_layer(layer_bytes(layer) + rest) == Ok::<(Seq<u32>, Seq<u8>), ReadError>(
            (layer, rest),
        ),
{
    let encode = |v: u32| le(v as nat, 4);
    let parse = |bytes: Seq<u8>| parse_link(bytes);
    let image = |v: u32| v;
    lemma_capacities();
    assert forall|i: int, tail: Seq<u8>| 0 <= i < layer.len() implies #[trigger] parse(
        encode(layer[i]) + tail,
    ) == Ok::<(u32, Seq<u8>), ReadError>((image(layer[i]), tail)) by {
        law_number_round_trip(layer[i] as nat, 4, tail);
    }
    law_all_round_trip(encode, parse, image, layer, rest);
    assert(layer.map_values(image) =~= layer);
    law_number_round_trip(layer.len(), 4, encode_all(encode, layer) + rest);
    assert(layer_bytes(layer) + rest =~= le(layer.len(), 4) + (encode_all(encode, layer) + rest));
}

/// What is written of the neighbours on every layer is read back.
proof fn lemma_layers_round_trip(layers: Seq<Seq<u32>>, rest: Seq<u8>)
    requires
        layers.len() < 0x1_0000_0000,
        forall|l: int| 0 <= l < layers.len() ==> (#[trigger] layers[l]).len() < 0x1_0000_0000,
    ensures
        parse_layers(layers_bytes(layers) + rest) == Ok::<(Seq<Seq<u32>>, Seq<u8>), ReadError>(
            (layers, rest),
        ),
{
    let encode = |layer: Seq<u32>| layer_bytes(layer);
    let parse = |bytes: Seq<u8>| parse_layer(bytes);
    let image = |layer: Seq<u32>| layer;
    lemma_capacities();
    assert forall|i: int, tail: Seq<u8>| 0 <= i < layers.len() implies #[trigger] parse(
        encode(layers[i]) + tail,
    ) == Ok::<(Seq<u32>, Seq<u8>), ReadError>((image(layers[i]), tail)) by {
        lemma_layer_round_trip(layers[i], tail);
    }
    law_all_round_trip(encode, parse, image, layers, rest);
    assert(layers.map_values(image) =~= layers);
    law_number_round_trip(layers.len(), 4, encode_all(encode, layers) + rest);
    assert(layers_bytes(layers) + rest =~= le(layers.len(), 4) + (encode_all(encode, layers)
        + rest));
}

/// Nothing in a record is too long to be written.
pub open spec fn writable(record: Record) -> bool {
    &&& record.id < 0x1_0000_0000_0000_0000
    &&& record.layers.len() < 0x1_0000_0000
    &&& forall|l: int|
        0 <= l < record.layers.len() ==> (#[trigger] record.layers[l]).len() < 0x1_0000_0000
    &&& record.fields matches Some(fields) ==> fields.len() < 0x1_0000_0000 && forall|i: int|
        0 <= i < fields.len() ==> encode_utf8((#[trigger] fields[i]).0).len() < 0x1_0000_0000
            && fits(fields[i].1)
}

/// What is written of a record is read back.
proof fn lemma_record_round_trip(record: Record, rest: Seq<u8>)
    requires
        writable(record),
    ensures
        parse_node(record_bytes(record) + rest, record.vector.len()) == Ok::<
            (NodeView, Seq<u8>),
            ReadError,
        >((record.node(), rest)),
{
    let after_payload = layers_bytes(record.layers) + rest;
    let after_vector = payload_bytes(record.fields) + after_payload;
    let after_id = vector_bytes(record.vector) + after_vector;
    assert(record.id < capacity(8)) by {
        lemma_capacities();
    }
    law_number_round_trip(record.id, 8, after_id);
    lemma_vector_round_trip(record.vector, after_vector);
    law_payload_round_trip(record.fields, after_payload);
    lemma_layers_round_trip(record.layers, rest);
    lemma_five_pieces(
        le(record.id, 8),
        vector_bytes(record.vector),
        payload_bytes(record.fields),
        layers_bytes(record.layers),
        rest,
    );
    lemma_node_from_parts(
        le(record.id, 8) + after_id,
        record.node(),
        after_id,
        after_vector,
        after_payload,
        rest,
    );
}

/// Joining pieces, from the left or from the right.
proof fn lemma_five_pieces(a: Seq<u8>, b: Seq<u8>, c: Seq<u8>, d: Seq<u8>, e: Seq<u8>)
    ensures
        a + b + c + d + e == a + (b + (c + (d + e))),
{
    assert(a + b + c + d + e =~= a + (b + (c + (d + e))));
}

/// Reading a vector with everything that is stored with it, piece by piece.
proof fn lemma_node_from_parts(
    bytes: Seq<u8>,
    node: NodeView,
    after_id: Seq<u8>,
    after_vector: Seq<u8>,
    after_payload: Seq<u8>,
    rest: Seq<u8>,
)
    requires
        parse_number(bytes, 8) == Ok::<(nat, Seq<u8>), ReadError>((node.id, after_id)),
        parse_vector(after_id, node.vector.len()) == Ok::<(Seq<Single>, Seq<u8>), ReadError>(
            (node.vector, after_vector),
        ),
        parse_payload(after_vector) == Ok::<(Option<Fields>, Seq<u8>), ReadError>(
            (node.payload, after_payload),
        ),
        parse_layers(after_payload) == Ok::<(Seq<Seq<u32>>, Seq<u8>), ReadError>(
            (node.layers, rest),
        ),
    ensures
        parse_node(bytes, node.vector.len()) == Ok::<(NodeView, Seq<u8>), ReadError>((node, rest)),
{
}

/// What is written of an index as a whole is read back.
proof fn lemma_head_round_trip(head: HeadView, rest: Seq<u8>)
    requires
        head.numbers.len() == 8,
        forall|i: int|
            0 <= i < head.numbers.len() ==> (#[trigger] head.numbers[i]) < 0x1_0000_0000_0000_0000,
        head.entry matches Some(e) ==> e < 0x1_0000_0000_0000_0000,
    ensures
        parse_head(head_bytes(head) + rest) == Ok::<(HeadView, Seq<u8>), ReadError>((head, rest)),
{
    let encode = |n: nat| le(n, 8);
    let parse = |bytes: Seq<u8>| parse_number(bytes, 8);
    let image = |n: nat| n;
    let after_entry = encode_all(encode, head.numbers) + rest;
    let after_metric = entry_bytes(head.entry) + after_entry;
    assert(capacity(8) == 0x1_0000_0000_0000_0000) by {
        lemma_capacities();
    }
    assert forall|i: int, tail: Seq<u8>| 0 <= i < head.numbers.len() implies #[trigger] parse(
        encode(head.numbers[i]) + tail,
    ) == Ok::<(nat, Seq<u8>), ReadError>((image(head.numbers[i]), tail)) by {
        law_number_round_trip(head.numbers[i], 8, tail);
    }
    law_all_round_trip(encode, parse, image, head.numbers, rest);
    assert(head.numbers.map_values(image) =~= head.numbers);
    assert(parse_entry(after_metric) == Ok::<(Option<nat>, Seq<u8>), ReadError>(
        (head.entry, after_entry),
    )) by {
        match head.entry {
            None => {
                lemma_parse_first(0, after_entry);
            },
            Some(e) => {
                lemma_parse_first(1, le(e, 8) + after_entry);
                law_number_round_trip(e, 8, after_entry);
                assert(after_metric =~= seq![1u8] + (le(e, 8) + after_entry));
            },
        }
    }
    lemma_parse_first(metric_tag(head.metric), after_metric);
    assert(head_bytes(head) + rest =~= seq![metric_tag(head.metric)] + after_metric);
}

/// A list of distinct nodes that leaves one of at most two to the power of
/// thirty-two out has a length of thirty-two bits.
proof fn lemma_short_list(list: Seq<u32>, left_out: u32)
    requires
        list.no_duplicates(),
        !list.contains(left_out),
    ensures
        list.len() < 0x1_0000_0000,
{
    let ints = list.map_values(|v: u32| v as int);
    assert(ints.no_duplicates()) by {
        assert forall|i: int, j: int|
            0 <= i < ints.len() && 0 <= j < ints.len() && i != j implies ints[i] != ints[j] by {
            assert(list[i] != list[j]);
        }
    }
    let range = vstd::set_lib::set_int_range(0, 0x1_0000_0000);
    vstd::set_lib::lemma_int_range(0, 0x1_0000_0000);
    ints.unique_seq_to_set();
    assert(ints.to_set().subset_of(range.remove(left_out as int))) by {
        assert forall|x: int| ints.to_set().contains(x) implies range.remove(
            left_out as int,
        ).contains(x) by {
            let i = choose|i: int| 0 <= i < ints.len() && ints[i] == x;
            assert(list.contains(list[i]));
        }
    }
    vstd::set_lib::lemma_len_subset(ints.to_set(), range.remove(left_out as int));
}

/// A snapshot is read back as the index that it was taken of, whatever follows
/// it. Its payloads have to be such as can be written without loss.
pub proof fn law_snapshot_round_trip(view: HnswView, records: Seq<Record>, rest: Seq<u8>)
    requires
        view.well_formed(),
        view.dim < 0x1_0000_0000_0000_0000,
        recorded(view, records),
        in_order(records),
        forall|v: int| 0 <= v < view.payloads.len() ==> storable(#[trigger] view.payloads[v]),
    ensures
        parse_snapshot(snapshot_bytes(head_of(view), records) + rest) == Ok::<
            ((HeadView, Seq<NodeView>), Seq<u8>),
            ReadError,
        >(((head_of(view), nodes_of_view(view)), rest)),
        parse_snapshot(snapshot_bytes(head_of(view), records)) == Ok::<
            ((HeadView, Seq<NodeView>), Seq<u8>),
            ReadError,
        >(((head_of(view), nodes_of_view(view)), Seq::empty())),
        restored(head_of(view), nodes_of_view(view), view.distance, view.level) == view,
        addressable(head_of(view)) <==> view.dim <= usize::MAX,
{
    lemma_snapshot_followed_by(view, records, rest);
    lemma_snapshot_followed_by(view, records, Seq::empty());
    let bytes = snapshot_bytes(head_of(view), records);
    assert(bytes + Seq::<u8>::empty() =~= bytes);
    lemma_restored(view);
}

/// What is written of an index is read back, whatever follows it.
proof fn lemma_snapshot_followed_by(view: HnswView, records: Seq<Record>, rest: Seq<u8>)
    requires
        view.well_formed(),
        view.dim < 0x1_0000_0000_0000_0000,
        recorded(view, records),
        in_order(records),
        forall|v: int| 0 <= v < view.payloads.len() ==> storable(#[trigger] view.payloads[v]),
    ensures
        parse_snapshot(snapshot_bytes(head_of(view), records) + rest) == Ok::<
            ((HeadView, Seq<NodeView>), Seq<u8>),
            ReadError,
        >(((head_of(view), nodes_of_view(view)), rest)),
{
    let head = head_of(view);
    let nodes = nodes_of_view(view);
    let image = |record: Record| record.node();
    let encode = |record: Record| record_bytes(record);
    let parse = |bytes: Seq<u8>| parse_node(bytes, view.dim);
    let after_head = encode_all(encode, records) + rest;
    assert(records.map_values(image).len() == nodes.len());
    assert forall|v: int, tail: Seq<u8>| 0 <= v < records.len() implies #[trigger] parse(
        encode(records[v]) + tail,
    ) == Ok::<(NodeView, Seq<u8>), ReadError>((image(records[v]), tail)) by {
        assert(storable(view.payloads[v]));
        lemma_record_of(view, records, v);
        lemma_record_round_trip(records[v], tail);
    }
    law_all_round_trip(encode, parse, image, records, rest);
    lemma_head_of(view);
    lemma_head_round_trip(head, after_head);
    lemma_pieces(head_bytes(head), encode_all(encode, records), rest);
    lemma_snapshot_from_parts(head_bytes(head) + after_head, head, after_head, nodes, rest);
}

/// Joining pieces, from the left or from the right.
proof fn lemma_pieces(a: Seq<u8>, b: Seq<u8>, c: Seq<u8>)
    ensures
        a + b + c == a + (b + c),
{
    assert(a + b + c =~= a + (b + c));
}

/// A record of a well-formed index can be written.
proof fn lemma_record_of(view: HnswView, records: Seq<Record>, v: int)
    requires
        view.well_formed(),
        recorded(view, records),
        0 <= v < records.len(),
        in_order(records),
        storable(view.payloads[v]),
    ensures
        writable(records[v]),
        records[v].vector.len() == view.dim,
{
    let record = records[v];
    let nodes = nodes_of_view(view);
    let image = |record: Record| record.node();
    assert(records.map_values(image) == nodes);
    assert(records.map_values(image)[v] == nodes[v]);
    assert(record.node() == nodes[v]);
    if record.fields is Some {
        lemma_storable_fields(record.fields->0);
    }
    assert(view.vectors[v].len() == view.dim);
    assert(1 <= view.links[v].len() <= view.max_layer + 1);
    assert forall|l: int| 0 <= l < record.layers.len() implies (#[trigger] record.layers[l]).len()
        < 0x1_0000_0000 by {
        assert(list_ok(view.links, v, l));
        lemma_short_list(view.links[v][l], v as u32);
    }
}

/// What is said of a well-formed index as a whole can be written.
proof fn lemma_head_of(view: HnswView)
    requires
        view.well_formed(),
        view.dim < 0x1_0000_0000_0000_0000,
    ensures
        head_of(view).numbers.len() == 8,
        head_of(view).numbers[0] == view.dim,
        head_of(view).numbers[7] == view.ids.len(),
        forall|i: int|
            0 <= i < 8 ==> (#[trigger] head_of(view).numbers[i]) < 0x1_0000_0000_0000_0000,
        head_of(view).entry matches Some(e) ==> e < 0x1_0000_0000_0000_0000,
{
}

/// Reading a snapshot, piece by piece.
proof fn lemma_snapshot_from_parts(
    bytes: Seq<u8>,
    head: HeadView,
    after_head: Seq<u8>,
    nodes: Seq<NodeView>,
    rest: Seq<u8>,
)
    requires
        parse_head(bytes) == Ok::<(HeadView, Seq<u8>), ReadError>((head, after_head)),
        head.numbers[7] == nodes.len(),
        parse_all(
            |bytes: Seq<u8>| parse_node(bytes, head.numbers[0]),
            after_head,
            nodes.len(),
        ) == Ok::<(Seq<NodeView>, Seq<u8>), ReadError>((nodes, rest)),
    ensures
        parse_snapshot(bytes) == Ok::<((HeadView, Seq<NodeView>), Seq<u8>), ReadError>(
            ((head, nodes), rest),
        ),
{
}

/// What is said and stored of an index is all that there is to it.
proof fn lemma_restored(view: HnswView)
    requires
        view.well_formed(),
    ensures
        restored(head_of(view), nodes_of_view(view), view.distance, view.level) == view,
        addressable(head_of(view)) <==> view.dim <= usize::MAX,
{
    let back = restored(head_of(view), nodes_of_view(view), view.distance, view.level);
    assert(back.ids =~= view.ids);
    assert(back.vectors =~= view.vectors);
    assert(back.payloads =~= view.payloads);
    assert(back.links =~= view.links);
    assert(back =~= view);
}

/// Write a vector.
fn write_vector(out: &mut Vec<u8>, vector: &[Single])
    ensures
        final(out)@ == old(out)@ + vector_bytes(vector@),
{
    let ghost encode = |x: Single| single_bytes(x);
    let ghost head = out@;
    proof {
        lemma_encode_end(encode, vector@, head);
    }
    for i in 0..vector.len()
        invariant
            encode == (|x: Single| single_bytes(x)),
            out@ + encode_all(encode, vector@.skip(i as int)) == head + encode_all(
                encode,
                vector@,
            ),
    {
        proof {
            lemma_encode_step(encode, vector@, i as int, out@);
        }
        write_f32(out, vector[i]);
    }
    proof {
        lemma_encode_end(encode, vector@, out@);
    }
}

/// Write a list of neighbours.
fn write_layer(out: &mut Vec<u8>, layer: &Vec<u32>)
    ensures
        final(out)@ == old(out)@ + layer_bytes(layer@),
{
    let ghost encode = |v: u32| le(v as nat, 4);
    let len: u64 = layer.len() as u64;
    write_u32(out, (len % 0x1_0000_0000) as u32);
    let ghost head = out@;
    proof {
        lemma_encode_end(encode, layer@, head);
    }
    for i in 0..layer.len()
        invariant
            encode == (|v: u32| le(v as nat, 4)),
            out@ + encode_all(encode, layer@.skip(i as int)) == head + encode_all(encode, layer@),
    {
        proof {
            lemma_encode_step(encode, layer@, i as int, out@);
        }
        write_u32(out, layer[i]);
    }
    proof {
        lemma_encode_end(encode, layer@, out@);
        assert(out@ =~= old(out)@ + layer_bytes(layer@));
    }
}

/// Lists of neighbours as sequences.
pub open spec fn lists(layers: Seq<Vec<u32>>) -> Seq<Seq<u32>> {
    Seq::new(layers.len(), |l: int| layers[l]@)
}

/// Write the neighbours on every layer.
fn write_layers(out: &mut Vec<u8>, layers: &Vec<Vec<u32>>)
    ensures
        final(out)@ == old(out)@ + layers_bytes(lists(layers@)),
{
    let ghost encode = |layer: Seq<u32>| layer_bytes(layer);
    let ghost all = lists(layers@);
    let len: u64 = layers.len() as u64;
    write_u32(out, (len % 0x1_0000_0000) as u32);
    let ghost head = out@;
    proof {
        lemma_encode_end(encode, all, head);
    }
    for i in 0..layers.len()
        invariant
            all == lists(layers@),
            encode == (|layer: Seq<u32>| layer_bytes(layer)),
            out@ + encode_all(encode, all.skip(i as int)) == head + encode_all(encode, all),
    {
        proof {
            lemma_encode_step(encode, all, i as int, out@);
        }
        write_layer(out, &layers[i]);
    }
    proof {
        lemma_encode_end(encode, all, out@);
        assert(out@ =~= old(out)@ + layers_bytes(all));
    }
}

/// Write numbers of sixty-four bits.
fn write_numbers(out: &mut Vec<u8>, numbers: &Vec<u64>)
    ensures
        final(out)@ == old(out)@ + encode_all(
            |n: nat| le(n, 8),
            numbers@.map_values(|n: u64| n as nat),
        ),
{
    let ghost encode = |n: nat| le(n, 8);
    let ghost all = numbers@.map_values(|n: u64| n as nat);
    let ghost head = out@;
    proof {
        lemma_encode_end(encode, all, head);
    }
    for i in 0..numbers.len()
        invariant
            all == numbers@.map_values(|n: u64| n as nat),
            encode == (|n: nat| le(n, 8)),
            out@ + encode_all(encode, all.skip(i as int)) == head + encode_all(encode, all),
    {
        proof {
            lemma_encode_step(encode, all, i as int, out@);
        }
        write_u64(out, numbers[i]);
    }
    proof {
        lemma_encode_end(encode, all, out@);
    }
}

impl<F, L> HnswIndex<F, L> where
    F: Fn(Op, Single, Single) -> Single,
    L: Fn(Double, usize) -> Double,
 {
    /// What is written of every vector.
    pub closed spec fn records(&self) -> Seq<Record> {
        Seq::new(
            self.ids@.len(),
            |v: int|
                Record {
                    id: self.ids@[v] as nat,
                    vector: self@.vectors[v],
                    fields: match self.payloads@[v] {
                        Some(payload) => Some(payload.fields()),
                        None => None,
                    },
                    layers: self@.links[v],
                },
        )
    }

    /// Take a snapshot: the whole index as bytes.
    pub fn snapshot(&self) -> (bytes: Vec<u8>)
        requires
            self.valid(),
        ensures
            recorded(self@, self.records()),
            in_order(self.records()),
            bytes@ == snapshot_bytes(head_of(self@), self.records()),
    {
        let mut out: Vec<u8> = Vec::new();
        let ghost head = head_of(self@);
        let ghost records = self.records();
        let ghost encode = |record: Record| record_bytes(record);
        let tag: u8 = match self.metric {
            Metric::Cosine => 0,
            Metric::Dot => 1,
            Metric::L2 => 2,
        };
        write_u8(&mut out, tag);
        match self.entry {
            None => {
                write_u8(&mut out, 0);
            },
            Some(e) => {
                write_u8(&mut out, 1);
                write_u64(&mut out, e as u64);
            },
        }
        assert(out@ =~= seq![metric_tag(head.metric)] + entry_bytes(head.entry));
        let numbers: Vec<u64> = vec![
            self.dim as u64,
            self.config.m as u64,
            self.config.ef_construction as u64,
            self.config.ef_search as u64,
            self.config.seed,
            self.rng.state(),
            self.max_layer as u64,
            self.ids.len() as u64,
        ];
        write_numbers(&mut out, &numbers);
        proof {
            assert(numbers@.map_values(|n: u64| n as nat) =~= head.numbers);
            assert(out@ == head_bytes(head));
            lemma_encode_end(encode, records, out@);
            assert(records.map_values(|record: Record| record.node()) =~= nodes_of_view(self@));
        }
        for v in 0..self.ids.len()
            invariant
                self.valid(),
                records == self.records(),
                forall|u: int|
                    0 <= u < v ==> ((#[trigger] records[u]).fields matches Some(fields)
                        ==> in_key_order(fields)),
                encode == (|record: Record| record_bytes(record)),
                out@ + encode_all(encode, records.skip(v as int)) == head_bytes(head) + encode_all(
                    encode,
                    records,
                ),
        {
            proof {
                lemma_encode_step(encode, records, v as int, out@);
            }
            let ghost before = out@;
            write_u64(&mut out, self.ids[v]);
            write_vector(&mut out, self.vector(v));
            write_payload(&mut out, self.payloads[v].as_ref());
            write_layers(&mut out, &self.links[v]);
            proof {
                assert(lists(self.links@[v as int]@) =~= self@.links[v as int]);
                assert(out@ =~= before + encode(records[v as int]));
            }
        }
        proof {
            lemma_encode_end(encode, records, out@);
        }
        out
    }
}

/// Read a vector of a given length.
fn read_vector(r: &mut Reader, dim: u64) -> (out: Result<Vec<Single>, ReadError>)
    ensures
        match (parse_vector(old(r)@, dim as nat), out) {
            (Ok((vector, rest)), Ok(v)) => v@ == vector && final(r)@ == rest,
            (Err(e), Err(f)) => e == f,
            _ => false,
        },
{
    let ghost parse = |bytes: Seq<u8>| parse_single(bytes);
    let mut vector: Vec<Single> = Vec::new();
    proof {
        lemma_parse_begin(parse, r@, dim as nat);
        assert(vector@ =~= Seq::empty());
    }
    let mut i: u64 = 0;
    while i < dim
        invariant
            i <= dim,
            parse == (|bytes: Seq<u8>| parse_single(bytes)),
            parse_vector(old(r)@, dim as nat) == parse_rest(parse, r@, (dim - i) as nat, vector@),
        decreases dim - i,
    {
        proof {
            lemma_parse_step(parse, r@, (dim - i) as nat, vector@);
        }
        match read_f32(r) {
            Ok(x) => {
                vector.push(x);
            },
            Err(e) => {
                return Err(e);
            },
        }
        i += 1;
    }
    proof {
        lemma_parse_end(parse, r@, vector@);
    }
    Ok(vector)
}

/// Read a list of neighbours.
fn read_layer(r: &mut Reader) -> (out: Result<Vec<u32>, ReadError>)
    ensures
        match (parse_layer(old(r)@), out) {
            (Ok((layer, rest)), Ok(v)) => v@ == layer && final(r)@ == rest,
            (Err(e), Err(f)) => e == f,
            _ => false,
        },
{
    let count: u32 = match read_u32(r) {
        Ok(count) => count,
        Err(e) => {
            return Err(e);
        },
    };
    let ghost parse = |bytes: Seq<u8>| parse_link(bytes);
    let mut layer: Vec<u32> = Vec::new();
    proof {
        lemma_parse_begin(parse, r@, count as nat);
        assert(layer@ =~= Seq::empty());
    }
    let mut i: u32 = 0;
    while i < count
        invariant
            i <= count,
            parse == (|bytes: Seq<u8>| parse_link(bytes)),
            parse_layer(old(r)@) == parse_rest(parse, r@, (count - i) as nat, layer@),
        decreases count - i,
    {
        proof {
            lemma_parse_step(parse, r@, (count - i) as nat, layer@);
        }
        match read_u32(r) {
            Ok(v) => {
                layer.push(v);
            },
            Err(e) => {
                return Err(e);
            },
        }
        i += 1;
    }
    proof {
        lemma_parse_end(parse, r@, layer@);
    }
    Ok(layer)
}

/// Read the neighbours on every layer.
fn read_layers(r: &mut Reader) -> (out: Result<Vec<Vec<u32>>, ReadError>)
    ensures
        match (parse_layers(old(r)@), out) {
            (Ok((layers, rest)), Ok(v)) => lists(v@) == layers && final(r)@ == rest,
            (Err(e), Err(f)) => e == f,
            _ => false,
        },
{
    let count: u32 = match read_u32(r) {
        Ok(count) => count,
        Err(e) => {
            return Err(e);
        },
    };
    let ghost parse = |bytes: Seq<u8>| parse_layer(bytes);
    let mut layers: Vec<Vec<u32>> = Vec::new();
    proof {
        lemma_parse_begin(parse, r@, count as nat);
        assert(lists(layers@) =~= Seq::empty());
    }
    let mut i: u32 = 0;
    while i < count
        invariant
            i <= count,
            parse == (|bytes: Seq<u8>| parse_layer(bytes)),
            parse_layers(old(r)@) == parse_rest(
                parse,
                r@,
                (count - i) as nat,
                lists(layers@),
            ),
        decreases count - i,
    {
        let ghost before = lists(layers@);
        proof {
            lemma_parse_step(parse, r@, (count - i) as nat, before);
        }
        match read_layer(r) {
            Ok(layer) => {
                layers.push(layer);
                assert(lists(layers@) =~= before.push(layer@));
            },
            Err(e) => {
                return Err(e);
            },
        }
        i += 1;
    }
    proof {
        lemma_parse_end(parse, r@, lists(layers@));
    }
    Ok(layers)
}

/// Read numbers of sixty-four bits.
fn read_numbers(r: &mut Reader, count: usize) -> (out: Result<Vec<u64>, ReadError>)
    ensures
        match (parse_numbers(old(r)@, count as nat), out) {
            (Ok((numbers, rest)), Ok(v)) => v@.map_values(|n: u64| n as nat) == numbers
                && final(r)@ == rest && v@.len() == count,
            (Err(e), Err(f)) => e == f,
            _ => false,
        },
{
    let ghost parse = |bytes: Seq<u8>| parse_number(bytes, 8);
    let ghost view = |n: u64| n as nat;
    let mut numbers: Vec<u64> = Vec::new();
    proof {
        lemma_parse_begin(parse, r@, count as nat);
        assert(numbers@.map_values(view) =~= Seq::empty());
    }
    let mut i: usize = 0;
    while i < count
        invariant
            i <= count,
            numbers@.len() == i,
            view == (|n: u64| n as nat),
            parse == (|bytes: Seq<u8>| parse_number(bytes, 8)),
            parse_numbers(old(r)@, count as nat) == parse_rest(
                parse,
                r@,
                (count - i) as nat,
                numbers@.map_values(view),
            ),
        decreases count - i,
    {
        let ghost before = numbers@.map_values(view);
        proof {
            lemma_parse_step(parse, r@, (count - i) as nat, before);
        }
        match read_u64(r) {
            Ok(n) => {
                numbers.push(n);
                assert(numbers@.map_values(view) =~= before.push(n as nat));
            },
            Err(e) => {
                return Err(e);
            },
        }
        i += 1;
    }
    proof {
        lemma_parse_end(parse, r@, numbers@.map_values(view));
    }
    Ok(numbers)
}

/// Read a metric.
fn read_metric(r: &mut Reader) -> (out: Result<Metric, ReadError>)
    ensures
        match (parse_metric(old(r)@), out) {
            (Ok((metric, rest)), Ok(v)) => v == metric && final(r)@ == rest,
            (Err(e), Err(f)) => e == f,
            _ => false,
        },
{
    match read_u8(r) {
        Ok(tag) => match tag {
            0 => Ok(Metric::Cosine),
            1 => Ok(Metric::Dot),
            2 => Ok(Metric::L2),
            _ => Err(ReadError::UnknownTag(tag)),
        },
        Err(e) => Err(e),
    }
}

/// Read an entry point.
fn read_entry(r: &mut Reader) -> (out: Result<Option<u64>, ReadError>)
    ensures
        match (parse_entry(old(r)@), out) {
            (Ok((entry, rest)), Ok(v)) => final(r)@ == rest && entry == match v {
                Some(e) => Some(e as nat),
                None => None,
            },
            (Err(e), Err(f)) => e == f,
            _ => false,
        },
{
    match read_u8(r) {
        Ok(flag) => if flag == 0 {
            Ok(None)
        } else {
            match read_u64(r) {
                Ok(e) => Ok(Some(e)),
                Err(e) => Err(e),
            }
        },
        Err(e) => Err(e),
    }
}

/// A snapshot as it is read.
struct Parts {
    metric: Metric,
    entry: Option<u64>,
    numbers: Vec<u64>,
    ids: Vec<u64>,
    data: Vec<Single>,
    payloads: Vec<Option<Payload>>,
    links: Vec<Vec<Vec<u32>>>,
}

impl Parts {
    /// What is said of the index as a whole.
    spec fn head(&self) -> HeadView {
        HeadView {
            metric: self.metric,
            entry: match self.entry {
                Some(e) => Some(e as nat),
                None => None,
            },
            numbers: self.numbers@.map_values(|n: u64| n as nat),
        }
    }

    /// The vectors that have been read.
    spec fn nodes(&self) -> Seq<NodeView> {
        Seq::new(
            self.ids@.len(),
            |v: int|
                NodeView {
                    id: self.ids@[v] as nat,
                    vector: rows(self.data@, self.numbers@[0] as nat, self.ids@.len())[v],
                    payload: fields_of(self.payloads@[v]),
                    layers: lists(self.links@[v]@),
                },
        )
    }

    /// The lists have one entry for every vector.
    spec fn aligned(&self) -> bool {
        &&& self.numbers@.len() == 8
        &&& self.data@.len() == self.ids@.len() * self.numbers@[0]
        &&& self.payloads@.len() == self.ids@.len()
        &&& self.links@.len() == self.ids@.len()
    }

    /// Read one vector more.
    fn read_node(&mut self, r: &mut Reader) -> (out: Result<(), ReadError>)
        requires
            old(self).aligned(),
        ensures
            match (parse_node(old(r)@, old(self).numbers@[0] as nat), out) {
                (Ok((node, rest)), Ok(_)) => {
                    &&& final(r)@ == rest
                    &&& final(self).aligned()
                    &&& final(self).head() == old(self).head()
                    &&& final(self).numbers@ == old(self).numbers@
                    &&& final(self).nodes() == old(self).nodes().push(node)
                },
                (Err(e), Err(f)) => e == f,
                _ => false,
            },
    {
        let dim: u64 = self.numbers[0];
        let id: u64 = match read_u64(r) {
            Ok(id) => id,
            Err(e) => {
                return Err(e);
            },
        };
        let vector: Vec<Single> = match read_vector(r, dim) {
            Ok(vector) => vector,
            Err(e) => {
                return Err(e);
            },
        };
        let payload: Option<Payload> = match read_payload(r) {
            Ok(payload) => payload,
            Err(e) => {
                return Err(e);
            },
        };
        let layers: Vec<Vec<u32>> = match read_layers(r) {
            Ok(layers) => layers,
            Err(e) => {
                return Err(e);
            },
        };
        let ghost before = self.nodes();
        let ghost data = self.data@;
        let ghost n = self.ids@.len();
        let ghost node = NodeView {
            id: id as nat,
            vector: vector@,
            payload: fields_of(payload),
            layers: lists(layers@),
        };
        self.ids.push(id);
        self.data.extend_from_slice(vector.as_slice());
        self.payloads.push(payload);
        self.links.push(layers);
        proof {
            assert(self.data@ =~= data + vector@);
            lemma_parsed_length(old(r)@, dim as nat);
            crate::rows::lemma_push_row(data, dim as nat, n, vector@);
            assert(self.nodes() =~= before.push(node));
        }
        Ok(())
    }
}

/// A vector that is read has the length that is asked for.
proof fn lemma_parsed_length(bytes: Seq<u8>, dim: nat)
    ensures
        parse_node(bytes, dim) matches Ok((node, rest)) ==> node.vector.len() == dim,
{
    if let Ok((id, rest)) = parse_number(bytes, 8) {
        lemma_parse_all_length(|bytes: Seq<u8>| parse_single(bytes), rest, dim);
    }
}

/// The neighbours of a node on one layer are in order and not too many.
spec fn layer_ok(view: HnswView, v: int, l: int) -> bool {
    list_ok(view.links, v, l) && view.links[v][l].len() <= cap(view.config.m as nat, l as nat)
}

/// A node stands as it should: its layers are in range, and on each of them its
/// neighbours are in order and not too many.
spec fn node_ok(view: HnswView, v: int) -> bool {
    &&& 1 <= view.links[v].len() <= view.max_layer + 1
    &&& forall|l: int| 0 <= l < view.links[v].len() ==> #[trigger] layer_ok(view, v, l)
}

impl<F, L> HnswIndex<F, L> where
    F: Fn(Op, Single, Single) -> Single,
    L: Fn(Double, usize) -> Double,
 {
    /// Are the neighbours of `v` on layer `l` distinct nodes of that layer other
    /// than `v`?
    fn list_is_ok(&self, v: usize, l: usize) -> (ok: bool)
        requires
            v < self.links@.len(),
            l < self.links@[v as int]@.len(),
        ensures
            ok == list_ok(self@.links, v as int, l as int),
    {
        let list: &Vec<u32> = &self.links[v][l];
        let ghost links = self@.links;
        assert(list@ == links[v as int][l as int]);
        let mut j: usize = 0;
        while j < list.len()
            invariant
                links == self@.links,
                v < links.len(),
                list@ == links[v as int][l as int],
                j <= list@.len(),
                forall|a: int, b: int| 0 <= a < b < j ==> list@[a] != list@[b],
                forall|a: int|
                    0 <= a < j ==> on_layer(links, #[trigger] list@[a] as int, l as int)
                        && list@[a] != v,
            decreases list@.len() - j,
        {
            let e: u32 = list[j];
            if e as usize >= self.links.len() || l >= self.links[e as usize].len() || e as usize
                == v {
                assert(!on_layer(links, list@[j as int] as int, l as int) || list@[j as int] == v);
                return false;
            }
            let mut k: usize = 0;
            while k < j
                invariant
                    k <= j < list@.len(),
                    links == self@.links,
                    e == list@[j as int],
                    list@ == links[v as int][l as int],
                    forall|a: int| 0 <= a < k ==> list@[a] != e,
                decreases j - k,
            {
                if list[k] == e {
                    assert(list@[k as int] == list@[j as int]);
                    assert(!links[v as int][l as int].no_duplicates());
                    return false;
                }
                k += 1;
            }
            j += 1;
        }
        assert(list@.no_duplicates());
        true
    }

    /// Does node `v` stand as it should?
    fn node_is_ok(&self, v: usize) -> (ok: bool)
        requires
            v < self.links@.len(),
            self.max_layer <= MAX_LEVEL,
        ensures
            ok == node_ok(self@, v as int),
    {
        let ghost links = self@.links;
        let count: usize = self.links[v].len();
        assert(links[v as int].len() == count);
        if count < 1 || count > self.max_layer + 1 {
            return false;
        }
        let mut l: usize = 0;
        while l < count
            invariant
                v < self.links@.len(),
                links == self@.links,
                count == self.links@[v as int]@.len(),
                1 <= count <= self.max_layer + 1,
                links[v as int].len() == count,
                l <= count,
                forall|a: int| 0 <= a < l ==> #[trigger] layer_ok(self@, v as int, a),
            decreases count - l,
        {
            let len: usize = self.links[v][l].len();
            assert(links[v as int][l as int].len() == len);
            let limit: u128 = if l == 0 {
                2 * (self.config.m as u128)
            } else {
                self.config.m as u128
            };
            assert(limit == cap(self.config.m as nat, l as nat));
            if !self.list_is_ok(v, l) || len as u128 > limit {
                assert(!layer_ok(self@, v as int, l as int));
                return false;
            }
            assert(layer_ok(self@, v as int, l as int));
            l += 1;
        }
        true
    }

    /// Is the index well formed?
    fn is_well_formed(&self) -> (ok: bool)
        requires
            self.data@.len() == self.ids@.len() * self.dim,
            self.payloads@.len() == self.ids@.len(),
            self.links@.len() == self.ids@.len(),
        ensures
            ok == self@.well_formed(),
    {
        let n: usize = self.ids.len();
        let ghost view = self@;
        if self.dim == 0 || self.config.m < 2 || n as u64 > 0x1_0000_0000 || self.max_layer
            > MAX_LEVEL {
            return false;
        }
        let entry_ok: bool = match self.entry {
            None => n == 0 && self.max_layer == 0,
            Some(e) => e < n && self.links[e].len() == self.max_layer + 1,
        };
        if !entry_ok {
            proof {
                if let Some(e) = view.entry {
                    if e < n {
                        assert(view.links[e as int].len() == self.links@[e as int]@.len());
                    }
                }
            }
            return false;
        }
        let mut v: usize = 0;
        while v < n
            invariant
                n == self.ids@.len(),
                self.links@.len() == n,
                self.max_layer <= MAX_LEVEL,
                view == self@,
                v <= n,
                forall|a: int| 0 <= a < v ==> #[trigger] node_ok(view, a),
            decreases n - v,
        {
            if !self.node_is_ok(v) {
                proof {
                    if view.well_formed() {
                        assert(1 <= view.links[v as int].len() <= view.max_layer + 1);
                        assert forall|l: int| 0 <= l < view.links[v as int].len() implies
                            #[trigger] layer_ok(view, v as int, l) by {
                            assert(list_ok(view.links, v as int, l));
                            assert(view.links[v as int][l].len() <= cap(
                                view.config.m as nat,
                                l as nat,
                            ));
                        }
                        assert(node_ok(view, v as int));
                    }
                }
                return false;
            }
            v += 1;
        }
        proof {
            assert forall|a: int| 0 <= a < view.vectors.len() implies (
            #[trigger] view.vectors[a]).len() == view.dim by {
                crate::rows::lemma_row_bounds(n as nat, self.dim as nat, a);
            }
            assert forall|a: int| 0 <= a < view.links.len() implies 1 <= (
            #[trigger] view.links[a]).len() <= view.max_layer + 1 by {
                assert(node_ok(view, a));
            }
            assert(well_linked(view.links)) by {
                assert forall|a: int, l: int|
                    0 <= a < view.links.len() && 0 <= l < view.links[a].len() implies
                    #[trigger] list_ok(view.links, a, l) by {
                    assert(node_ok(view, a));
                    assert(layer_ok(view, a, l));
                }
            }
            assert(capped(view.links, view.config.m as nat)) by {
                assert forall|a: int, l: int|
                    0 <= a < view.links.len() && 0 <= l < view.links[a].len() implies (
                #[trigger] view.links[a][l]).len() <= cap(view.config.m as nat, l as nat) by {
                    assert(node_ok(view, a));
                    assert(layer_ok(view, a, l));
                }
            }
            if let Some(e) = view.entry {
                assert(view.links[e as int].len() == self.links@[e as int]@.len());
            }
        }
        true
    }

    /// Restore an index from a snapshot. Bytes that follow it are left unread.
    pub fn restore(bytes: Vec<u8>, arithmetic: F, level: L) -> (out: Result<
        HnswIndex<F, L>,
        LoadError,
    >)
        requires
            is_arithmetic(arithmetic),
            is_level(level),
        ensures
            match (parse_snapshot(bytes@), out) {
                (Err(e), Err(f)) => f == LoadError::Unreadable(e),
                (Ok(((head, nodes), rest)), Ok(index)) => {
                    let view = restored(
                        head,
                        nodes,
                        distance_under(arithmetic, head.metric),
                        level_under(level),
                    );
                    &&& addressable(head)
                    &&& view.well_formed()
                    &&& index.valid()
                    &&& index.dimension() == view.dim
                    &&& index.capacity() == view.capacity()
                    &&& index.stored_ids() == view.ids
                    &&& index.stored_vectors() == view.vectors
                    &&& index.distance_fn() == view.distance
                    &&& index@ == view
                },
                (Ok(((head, nodes), rest)), Err(f)) => f == LoadError::Inconsistent && !(
                addressable(head) && restored(
                    head,
                    nodes,
                    distance_under(arithmetic, head.metric),
                    level_under(level),
                ).well_formed()),
                _ => false,
            },
    {
        let parts = match read_parts(bytes) {
            Ok(parts) => parts,
            Err(e) => {
                return Err(LoadError::Unreadable(e));
            },
        };
        let ghost head = parts.head();
        let ghost nodes = parts.nodes();
        let limit: u64 = usize::MAX as u64;
        let numbers: &Vec<u64> = &parts.numbers;
        let entry_fits: bool = match parts.entry {
            Some(e) => e <= limit,
            None => true,
        };
        if numbers[0] > limit || numbers[1] > limit || numbers[2] > limit || numbers[3] > limit
            || numbers[6] > limit || !entry_fits {
            assert(!addressable(head));
            return Err(LoadError::Inconsistent);
        }
        let config = HnswConfig {
            m: numbers[1] as usize,
            ef_construction: numbers[2] as usize,
            ef_search: numbers[3] as usize,
            seed: numbers[4],
        };
        let index = HnswIndex {
            dim: numbers[0] as usize,
            metric: parts.metric,
            config,
            ids: parts.ids,
            data: parts.data,
            payloads: parts.payloads,
            links: parts.links,
            entry: match parts.entry {
                Some(e) => Some(e as usize),
                None => None,
            },
            max_layer: numbers[6] as usize,
            rng: SplitMix64::new(numbers[5]),
            arithmetic,
            level,
        };
        proof {
            let view = restored(
                head,
                nodes,
                distance_under(arithmetic, head.metric),
                level_under(level),
            );
            assert(index@.ids =~= view.ids);
            assert(index@.vectors =~= view.vectors);
            assert(index@.payloads =~= view.payloads);
            assert(index@.links =~= view.links);
            assert(index@ =~= view);
        }
        if index.is_well_formed() {
            Ok(index)
        } else {
            Err(LoadError::Inconsistent)
        }
    }
}

/// Read the parts of a snapshot.
fn read_parts(bytes: Vec<u8>) -> (out: Result<Parts, ReadError>)
    ensures
        match (parse_snapshot(bytes@), out) {
            (Err(e), Err(f)) => e == f,
            (Ok(((head, nodes), rest)), Ok(parts)) => parts.aligned() && parts.head() == head
                && parts.nodes() == nodes,
            _ => false,
        },
{
    let mut r = Reader::new(bytes);
    let metric: Metric = match read_metric(&mut r) {
        Ok(metric) => metric,
        Err(e) => {
            return Err(e);
        },
    };
    let entry: Option<u64> = match read_entry(&mut r) {
        Ok(entry) => entry,
        Err(e) => {
            return Err(e);
        },
    };
    let numbers: Vec<u64> = match read_numbers(&mut r, 8) {
        Ok(numbers) => numbers,
        Err(e) => {
            return Err(e);
        },
    };
    let count: u64 = numbers[7];
    let mut parts = Parts {
        metric,
        entry,
        numbers,
        ids: Vec::new(),
        data: Vec::new(),
        payloads: Vec::new(),
        links: Vec::new(),
    };
    let ghost head = parts.head();
    let ghost dim = head.numbers[0];
    let ghost parse = |bytes: Seq<u8>| parse_node(bytes, dim);
    let ghost all = parse_all(parse, r@, count as nat);
    proof {
        assert(parts.nodes() =~= Seq::empty());
        lemma_parse_begin(parse, r@, count as nat);
        assert(parse_head(bytes@) == Ok::<(HeadView, Seq<u8>), ReadError>((head, r@)));
    }
    let mut i: u64 = 0;
    while i < count
        invariant
            i <= count,
            parts.aligned(),
            parts.head() == head,
            parts.numbers@[0] == dim,
            parse == (|bytes: Seq<u8>| parse_node(bytes, dim)),
            all == parse_rest(parse, r@, (count - i) as nat, parts.nodes()),
            parse_snapshot(bytes@) == match all {
                Err(e) => Err::<((HeadView, Seq<NodeView>), Seq<u8>), ReadError>(e),
                Ok((nodes, rest)) => Ok(((head, nodes), rest)),
            },
        decreases count - i,
    {
        proof {
            lemma_parse_step(parse, r@, (count - i) as nat, parts.nodes());
        }
        match parts.read_node(&mut r) {
            Ok(_) => {},
            Err(e) => {
                return Err(e);
            },
        }
        i += 1;
    }
    proof {
        lemma_parse_end(parse, r@, parts.nodes());
    }
    Ok(parts)
}

/// Bytes that are no snapshot are refused: nothing at all, and a first byte that stands
/// for no metric.
pub proof fn law_other_bytes_are_no_snapshot(bytes: Seq<u8>)
    ensures
        bytes.len() == 0 ==> parse_snapshot(bytes) == Err::<
            ((HeadView, Seq<NodeView>), Seq<u8>),
            ReadError,
        >(ReadError::UnexpectedEof),
        bytes.len() > 0 && bytes[0] > 2 ==> parse_snapshot(bytes) == Err::<
            ((HeadView, Seq<NodeView>), Seq<u8>),
            ReadError,
        >(ReadError::UnknownTag(bytes[0])),
        bytes.len() == 1 && bytes[0] <= 2 ==> parse_snapshot(bytes) == Err::<
            ((HeadView, Seq<NodeView>), Seq<u8>),
            ReadError,
        >(ReadError::UnexpectedEof),
{
    if bytes.len() > 0 {
        let first = bytes.take(1);
        assert(crate::persist::number(first.drop_first()) == 0);
        assert(crate::persist::number(first) == bytes[0]);
    }
}

} // verus!
