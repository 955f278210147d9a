# velo

A small, readable **vector database**, built from first principles and verified
with Verus.

`velo` implements approximate nearest-neighbour (ANN) search from the ground up:
the index structures, metadata filtering, scalar quantization, persistence and
the answers of an HTTP API. Every function of the library states what it
computes, and Verus proves that it does, except for the few that hand a call to
code outside the library (see below).

## Layout

| Module            | What it holds                                                  |
| ----------------- | -------------------------------------------------------------- |
| `float`           | floating-point numbers by their encodings: order, conversions  |
| `exact`           | what floating-point numbers stand for, and exact operations    |
| `metric`          | cosine, dot and L2 distances over a given arithmetic           |
| `index`           | the `VectorIndex` trait                                        |
| `flat`            | the exact, brute-force index                                   |
| `order`, `beam`   | scored candidates and the beam search over a graph             |
| `graph`           | the layered neighbour graph as a mathematical object           |
| `hnsw`            | the HNSW index, filtered search, and snapshots                 |
| `rng`             | the SplitMix64 generator that layers are drawn with            |
| `payload`         | per-vector metadata and the filters that query it              |
| `persist`         | little-endian encoding of numbers, strings and payloads        |
| `quant`, `store`  | scalar quantization and the vector store that hides it         |
| `json`, `server`  | JSON values, and what the HTTP API answers                     |
| `recall`          | how much of the exact answer an approximate one recovers       |

`app/` is the program around the library: the machine's floating-point
operations, the HTTP server, and the recall harness.

## Arithmetic

The library never adds or multiplies floating-point numbers itself. A function
that carries out the five operations (`+`, `-`, `*`, `/`, square root) is a
parameter, and so is the one that turns a uniform draw into the height of a
node. Everything else, including which operations are carried out and in which
order, is stated and proved.

## What is believed

Seven functions make one call each into code that Verus does not read, and what
they say of it is believed: in `json`, `as_text`, `as_bool`, `as_i64`, `as_f64`,
`display` and `into_entries` call `serde_json`; in `persist`, `text_of` calls
`String::from_utf8`.

## What is proved

Functions whose names start with `law_` state what holds of the library as a
whole. Some of them:

* a flat search is exact: nothing that it leaves out is nearer than a hit;
* an HNSW graph stays well formed under every insert: links lead to nodes of
  their layer, no list is longer than its cap, the entry point is on the top layer;
* a search keeps the closest vectors that it has seen and ends at a local optimum;
* a search as wide as the index, over a base layer that leads everywhere, returns
  exactly what the flat index returns, and the base layer of an index of at most
  `2 * m + 1` vectors does lead everywhere;
* a cosine distance of finite vectors is a number between zero and two, and it is
  one for a zero vector;
* a distance that is a number is symmetric, in an arithmetic in which products and
  squared differences do not depend on the order of their operands;
* a component that is quantized without rounding comes back within one step;
* the same inserts build the same index, whatever the search width was meanwhile;
* filtered hits match their filter, and a filter that matches all changes nothing;
* what is written of numbers, strings, payloads and whole indexes is read back.
