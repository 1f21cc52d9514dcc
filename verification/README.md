# xp

Verified state-based CRDTs and the protocols that synchronize their replicas, written in Verus.

- `src/crdt` — grow-only sets, add-wins sets and positive-negative counters whose states split
  into irredundant join-decompositions (`Decompose`, `Extract`, `Measure`).
- `src/delta` — delta-state CRDTs whose deltas borrow from the state they come from: grow-only
  sets and counters, causal contexts of dots, and add-wins sets over a causal context.
- `src/replication`, `src/telemetry` — synchronization algorithms over delta-state CRDTs
  (`Baseline`, `Classic`, `Buckets`) and the record of the bytes they send.
- `src/bloom`, `src/rateless_bloom` — Bloom filters over 64-bit keys and rateless Bloom filters
  grown one slice at a time.
- `src/tracker` — the tracker of a synchronization run, and the events of many runs grouped and
  averaged by message.
- `src/sync` — the interface of the algorithms that reconcile replicas through hashes of their
  join-decompositions, and the name of the one over rateless IBLTs; the algorithms themselves
  are not part of this crate.
- `src/replicas` — pairs of replicas of the same cardinality that share a given number of
  items, built from items and totals drawn beforehand.
- `app/` — the experiments: the random draws for the replicas, link rates and durations in
  floating point, and the stopping rules of rateless Bloom filters.

Run the experiments with one of `gset`, `awset`, `pncounter` or `ratelessbf` as the argument.
