# futures_ratelimit

Bounded versions of `FuturesUnordered` / `FuturesOrdered`: at most
`max_concurrent` futures are polled at any given time, and the rest wait in a
queue (or in the source iterator) until a running future completes.

Layout:

- `src/` — the verified library (Verus).
  - `running.rs`: the running sets, `FuturesOrdered` and `FuturesUnordered`
    of the `futures` crate, each held with a ghost model of the futures it
    holds. The methods that call into `futures` are trusted; their contracts
    say how the model follows the set. The model becomes unknown once the set
    is borrowed mutably.
  - `common.rs`: the `Passthrough` and `UnorderedPassthrough` traits and the
    shared specifications (free slots, refill counts, saturation) with their
    laws.
  - `ordered.rs`: `FuturesOrderedBounded` (a `VecDeque` of waiting futures)
    and `FuturesOrderedIter`. Their contracts state that outputs come in the
    order the futures were pushed or drawn, and that a balanced runner (running
    set within the limit and full while futures wait) stays balanced.
  - `unordered.rs`: `FuturesUnorderedBounded` (a `Vec` of waiting futures,
    started last pushed first) and `FuturesUnorderedIter`, whose contracts
    state that every future is yielded once and the same bound.

  A pushed future starts at once whenever the running set has a free slot;
  otherwise it waits its turn. The decisions are also offered as functions
  that take the running length as an argument (`place_back`, `place`,
  `take_started`, ...). A freshly created or cleared running set ends the
  stream at its next poll.

  Besides the per-call contracts, `src/` states whole-run laws as proof
  functions: a bounded ordered runner fed only by `push_back` (or an
  iterator runner) yields its futures' outputs in order and then ends, and an
  unordered runner yields each future's output exactly once.

  `FuturesUnordered` can take futures through a shared reference, so
  `borrow_inner` on the unordered runners takes `&mut self`: after it the
  running set's model is unknown, as after `borrow_mut_inner`.
- `app/` — the `Stream` implementations: each type wraps a runner of the
  library and delegates `poll_next` to it.
- `tests/` — tests of the library, driving the runners with
  `futures::executor::block_on`.
