# rinha_fraud

Fraud scoring by exact nearest-neighbour search over quantized transaction vectors,
verified with Verus.

A transaction becomes a vector of 14 features. Its score is the share of frauds among the
five nearest of a few million labelled reference vectors. The references are grouped into
256 partitions by a key of eight bits; each partition has a tree of bounding boxes, and
candidates are compared in three stages (hot, mid and cold dimensions).

## Layout

| Modules | What they hold |
| --- | --- |
| `index`, `distance`, `top5` | vectors, distances and bounds, the five nearest |
| `traversal`, `search`, `exact`, `decided`, `tallies`, `check` | what a search does, the search, that it is exact, what its answer depends on, what its counters say, whether an index can be searched |
| `kd`, `builder`, `distribution` | trees, partitions, how full they are |
| `bytes`, `layout`, `load`, `roundtrip` | the index on disk: writing, reading, and that one undoes the other |
| `lex`, `grammar`, `values`, `stream`, `references` | reading the references |
| `json`, `transaction`, `calendar`, `features` | reading a transaction |
| `http`, `client`, `pool` | requests, responses and connections |
| `fdpass`, `balance`, `settings` | passing connections on |

`app/` holds the three services (`lb`, `api`, `preprocess`): sockets, files, settings and
the floating-point part of a query.

Functions named `law_...` state what holds of several functions together.

## What is trusted

One function of the standard library is called without a proof of what it does:
`select_nth_unstable_by_key`, which divides the records of a tree node at their median.

The references are read through the trait `ByteSource`. The source in memory is verified; the
one for files, in `app/`, is trusted to hand out its bytes in order.
