# Proxima

Vector search: an exact index, an approximate index over a layered navigable graph (HNSW), and
a compressed index with product quantization. What each function does is stated in its contract
and proved with Verus, but for what is up to chance: which edges the graph index gets when many
vectors are added at once depends on how the threads take turns. There the contract says what
holds of every outcome.

## How numbers are held

Vectors hold single-precision numbers as bit patterns (`u32`). `arith` says what the sum, the
product, the quotient and the square root of two bit patterns are: the nearest number, ties to
even. Whatever computes takes an `Arithmetic`. `soft::Soft` computes with integers alone and is
proved; `app/` has one that hands everything to the processor.

A candidate of a search is one `u128`: its key, in an order in which smaller is more relevant,
and its id. Among candidates with one key the smaller id comes first.

## Layout

| Modules | What they hold |
|---|---|
| `binary32`, `arith`, `soft` | numbers: order, rounding, arithmetic on integers |
| `metric`, `distance`, `rows` | metrics, keys and distances, vectors one after the other |
| `ranked`, `heap`, `topk` | ranked candidates, heaps, the best `k` of all |
| `flat` | the exact index |
| `graph`, `beam`, `descent`, `select`, `wiring`, `growth`, `shared`, `hnsw` | the graph index: search in a layer, descent, selection of neighbors, linking alone and at once |
| `rng`, `kmeans`, `quantizer`, `pq` | the compressed index: clustering, codes, search |
| `format`, `flat_codec`, `hnsw_codec`, `pq_codec` | indexes as bytes |
| `parallel` | work spread over threads |
| `request`, `gpu` | what is asked of an index or of a GPU kernel, and why it is turned down |
| `text`, `json`, `calendar`, `benchmark`, `report` | the benchmark's figures and its report |
| `adding`, `clusters`, `exactness`, `exploration`, `geometry`, `linking`, `reach`, `recall` | laws over several of these |

`tests/` runs the library with the processor's arithmetic. `app/` holds what cannot be verified:
floating point, files, the GPU kernel and its benchmark, and the Python module.

## What is trusted

Besides Verus and its library: `rayon` (in `parallel`), `bincode` (in the three codecs),
`Vec::capacity` (in `hnsw`) and `String::push` (in `text`). Each stands behind one declaration
whose comment says what is taken for granted.
