# rune_core

An authorization and configuration engine whose logic is written and proved
in Verus: a Datalog evaluator (semi-naive evaluation, stratified negation,
aggregation, incremental re-evaluation, magic sets, provenance, leapfrog
joins over tries), a fact store, a parser for `.rune` files, the bridge
between requests and Datalog facts, and an engine that combines the Datalog
answer with the answer of Cedar policies and caches the result.

Layout:

- `src/` — the verified library. Public functions state their results in
  `ensures` over mathematical models (`Seq`, `Set`, `Map` and the `V*`
  model types); laws that relate several functions are public proof
  functions named `law_*`. Calls into `cedar-policy`, `toml` and `ahash`,
  and reads of the clock, go through small trusted wrappers whose contracts
  say what those crates document. Where an outside result is a function of
  its inputs alone but too large to write out (Cedar's answer to a request,
  the document `toml` reads), it has a name, and the contracts speak of that
  name. What rests on the clock or on per-process random hash keys is not
  stated: the value of `Request::cache_key`, and evaluation times.
- `tests/` — ordinary Rust tests against the compiled library.
- `app/` — the command-line program, serialization copies of the result
  types, metrics export through the `metrics` crate, and what works on
  floating-point numbers.

Verify with Verus; run the tests with the crate's outside dependencies linked.
