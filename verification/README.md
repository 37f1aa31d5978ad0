# syntaks

Verified pieces of a Tak engine, checked with Verus.

- `src/road.rs`, `src/road/scalar.rs`: road detection on the 6x6 board. The
  flood fill is proved to compute exactly the squares reachable through
  occupied squares, and `has_road` is proved to answer whether a chain of
  occupied squares joins opposite edges, whichever edge a fill starts from.
- `src/search.rs`: score constants, the win/loss classification, and what a
  search report shows of a root move's score (which score and bounds, and the
  distance to mate).
- `src/thread.rs`: the searcher count and shared stop flag that search threads
  use, with the decisions taken on each value read from them; the rule that
  decides whether a move ends the game; the repetition rule over a thread's key
  history; per-thread bookkeeping and the score record of a root move (without
  its principal variation, which needs a move type).
- `app/lib.rs`: the blocking waits on the searcher count, which loop for as
  long as other threads keep the count up.

The crate holds no board or move representation, move generation,
evaluation, transposition table, search limits or node counters, and so no
search, best-move record or thread pool: those parts of the engine are not
part of this crate. Where a decision needs facts about a position (roads, flat
count, repetition), it takes them as plain values. The counter and the stop
flag are std atomics, of whose contents nothing is stated.
