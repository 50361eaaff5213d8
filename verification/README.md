# ghostlink

A verified library for a cluster that serves a language model. It plans which node holds
which layers by the nodes' VRAM, cuts plans into chunks that suit a machine, judges whether
the load is unbalanced and what to move, and keeps statistics. It also prepares the requests
to a vLLM server with an OpenAI-compatible interface, and reads its replies, whole or piece
by piece.

Every function of `src/` states what it returns in its contract, and Verus proves it from the
contracts of the outside calls listed below, which are believed.

## Layout

- `src/`: the verified library.
- `src/plan_laws.rs` and the public proof functions of the other modules: what holds of all
  plans, transfers, configurations, statistics, addresses and streams.
- `tests/`: the library run on concrete values, among them comparisons of `Binary32` with the
  machine's own 32-bit arithmetic.
- `app/`: the balancer behind its locks, and the asynchronous HTTP client. It locks, sleeps,
  logs, sends and receives, reads replies into values with `serde`, writes floating-point
  values as JSON numbers, and leaves to `reqwest` which statuses of a whole reply are errors.

## Numbers

Sizes and ratios are 32-bit floating-point values. The library holds them as `Binary32`, by
their bits, and computes on them with integers. `Real32` says what a value is, and every
operation is the exact one followed by one rounding to the nearest value.

## What is trusted

The calls of `serde_json` in `src/json.rs`, of `HeaderValue::from_str` in `src/vllm.rs`, and
of `String::push` and `String::from_utf8_lossy` have contracts that are believed. The doc
comment above each says what is claimed.

## Cluster metrics

The metrics of a cluster are a list in the order in which they are read. Whether the load is
unbalanced does not depend on that order; among equally free targets of a transfer, and among
overloaded nodes beyond the limit on transfers, the earlier ones win.
