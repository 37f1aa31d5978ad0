//! State shared between search threads.

use vstd::prelude::*;
use std::sync::Arc;
use std::sync::atomic::{AtomicBool, AtomicU32, Ordering};
use crate::search::{SCORE_INF, Score, reported_score, shown_score};

verus! {

/// Calls `atomic_wait::wait`, which blocks while `atomic` holds `value` until
/// woken and may also return spuriously. Nothing is claimed of it.
#[verifier::external_body]
fn futex_wait(atomic: &AtomicU32, value: u32) {
    atomic_wait::wait(atomic, value)
}

/// Calls `atomic_wait::wake_all`, which wakes every thread blocked waiting on
/// `atomic`. Nothing is claimed of it.
#[verifier::external_body]
fn futex_wake_all(atomic: &AtomicU32) {
    atomic_wait::wake_all(atomic)
}

/// What a thread waiting for the searcher count to fall to a target does next.
pub enum WaitAction {
    /// The count is at or below the target: stop waiting.
    Done,
    /// The count was read as this value, above the target: block until it changes.
    Sleep(u32),
}

/// The step of waiting for the count to fall to `target`, having read `count`.
pub fn next_wait_action(count: u32, target: u32) -> (a: WaitAction)
    ensures
        a == (if count > target {
            WaitAction::Sleep(count)
        } else {
            WaitAction::Done
        }),
{
    if count > target {
        WaitAction::Sleep(count)
    } else {
        WaitAction::Done
    }
}

/// The main thread, having unregistered with `remaining` threads counted
/// before it left, waits for the helper threads.
pub fn main_must_wait(remaining: u32) -> (r: bool)
    ensures
        r == (remaining > 2),
{
    remaining > 2
}

/// A helper thread, having unregistered with `remaining` threads counted
/// before it left, was the last helper and wakes the waiting main thread.
pub fn helper_wakes_main(remaining: u32) -> (r: bool)
    ensures
        r == (remaining == 2),
{
    remaining == 2
}

/// Calls `Arc::clone`, claimed to give a handle to the same counter: std
/// documents it as another pointer to the same allocation.
#[verifier::external_body]
fn clone_counter(counter: &Arc<SearcherCount>) -> (r: Arc<SearcherCount>)
    ensures
        r == *counter,
{
    Arc::clone(counter)
}

/// The search, ending with the count read as `count` before the decrement,
/// ends properly: every thread has unregistered and only the search's own
/// unit is left.
pub fn search_completes(count: u32) -> (r: bool)
    ensures
        r == (count == 1),
{
    count == 1
}

/// A count read as `count` means a search is running.
pub fn counts_as_searching(count: u32) -> (r: bool)
    ensures
        r == (count > 0),
{
    count > 0
}

/// The count of threads taking part in a search, plus one while the search runs.
pub struct SearcherCount {
    count: AtomicU32,
}

impl SearcherCount {
    pub(crate) fn new() -> Self {
        Self { count: AtomicU32::new(0) }
    }

    pub(crate) fn start(&self) {
        self.count.store(1, Ordering::Relaxed);
    }

    pub fn register_thread(&self) {
        self.count.fetch_add(1, Ordering::Release);
    }

    /// Unregisters a helper thread. The last helper, which reads the count as
    /// 2 (itself and the main thread's search), wakes the main thread waiting
    /// for the helpers. Returns whether it woke the main thread, together with
    /// the count read before the decrement.
    pub fn unregister_thread(&self) -> (r: (bool, u32))
        ensures
            r.0 == (r.1 == 2),
    {
        let remaining = self.count.fetch_sub(1, Ordering::AcqRel);
        let wakes = helper_wakes_main(remaining);
        if wakes {
            futex_wake_all(&self.count);
        }
        (wakes, remaining)
    }

    /// Reads the count: whether a search is running, that is whether the
    /// count read is above zero, together with the count read.
    pub fn is_active(&self) -> (r: (bool, u32))
        ensures
            r.0 == (r.1 > 0),
    {
        let count = self.count.load(Ordering::Relaxed);
        (counts_as_searching(count), count)
    }

    /// Unregisters the main thread. Returns whether helper threads are still
    /// registered, so that the caller must wait for the count to fall to 1,
    /// together with the count read before the decrement.
    pub fn unregister_main(&self) -> (r: (bool, u32))
        ensures
            r.0 == (r.1 > 2),
    {
        let remaining = self.count.fetch_sub(1, Ordering::AcqRel);
        (main_must_wait(remaining), remaining)
    }

    /// Ends the search. When the count read before the decrement was exactly
    /// 1, every thread having unregistered, wakes the waiters and reports
    /// completion; otherwise wakes no one and reports failure, a broken
    /// protocol that the caller reports. Returns the verdict and the count read.
    pub fn complete_search(&self) -> (r: (bool, u32))
        ensures
            r.0 == (r.1 == 1),
    {
        let count = self.count.fetch_sub(1, Ordering::AcqRel);
        if search_completes(count) {
            futex_wake_all(&self.count);
            (true, count)
        } else {
            (false, count)
        }
    }

    /// Reads the count and decides the next step of waiting for it to fall to
    /// `target`. Returns the step and the count read.
    pub fn wait_step(&self, target: u32) -> (r: (WaitAction, u32))
        ensures
            r.0 == (if r.1 > target {
                WaitAction::Sleep(r.1)
            } else {
                WaitAction::Done
            }),
    {
        let count = self.count.load(Ordering::Acquire);
        (next_wait_action(count, target), count)
    }

    /// Blocks while the count still reads `observed`.
    pub fn sleep(&self, observed: u32) {
        futex_wait(&self.count, observed);
    }

}

/// The search's record of one root move: its scores from the current and the
/// previous iteration, the bounds the shown score carries, and the effort
/// spent on it.
pub struct RootMove {
    pub score: Score,
    pub window_score: Score,
    pub display_score: Score,
    pub previous_score: Score,
    pub upper_bound: bool,
    pub lower_bound: bool,
    pub searched_depth: i32,
    pub seldepth: i32,
    pub nodes: usize,
}

impl RootMove {
    /// The shown score is never both an upper and a lower bound.
    pub open spec fn bounds_consistent(&self) -> bool {
        !(self.upper_bound && self.lower_bound)
    }

    /// A root move not searched yet.
    pub fn new() -> (r: RootMove)
        ensures
            r.score == -SCORE_INF,
            r.window_score == -SCORE_INF,
            r.display_score == -SCORE_INF,
            r.previous_score == -SCORE_INF,
            !r.upper_bound,
            !r.lower_bound,
            r.searched_depth == 1,
            r.seldepth == 0,
            r.nodes == 0,
    {
        RootMove {
            score: -SCORE_INF,
            window_score: -SCORE_INF,
            display_score: -SCORE_INF,
            previous_score: -SCORE_INF,
            upper_bound: false,
            lower_bound: false,
            searched_depth: 1,
            seldepth: 0,
            nodes: 0,
        }
    }

    /// Starts a new iteration: the current score becomes the previous one.
    pub fn start_iteration(&mut self)
        ensures
            *final(self) == (RootMove { previous_score: old(self).score, ..*old(self) }),
    {
        self.previous_score = self.score;
    }

    /// The score, and its bounds, that a search report shows for this move;
    /// `None` when it has none to show.
    pub fn reported(&self) -> (r: Option<(Score, bool, bool)>)
        requires
            self.bounds_consistent(),
        ensures
            r == shown_score(
                self.score,
                self.previous_score,
                self.display_score,
                self.upper_bound,
                self.lower_bound,
            ),
    {
        reported_score(
            self.score,
            self.previous_score,
            self.display_score,
            self.upper_bound,
            self.lower_bound,
        )
    }

    /// Records the search of this move at the root with window `(alpha,
    /// beta)`, which returned `score` after `nodes` nodes. When the move was
    /// the first searched or raised alpha (`exact_search`), its score becomes
    /// current: shown as the score, or as the window bound it failed against,
    /// marked as an upper or lower bound. Otherwise its current score is
    /// dropped.
    pub fn record_search(
        &mut self,
        score: Score,
        alpha: Score,
        beta: Score,
        exact_search: bool,
        root_depth: i32,
        seldepth: i32,
        nodes: usize,
    )
        requires
            old(self).nodes + nodes <= usize::MAX,
        ensures
            final(self).nodes == old(self).nodes + nodes,
            final(self).window_score == score,
            final(self).previous_score == old(self).previous_score,
            exact_search || old(self).bounds_consistent() ==> final(self).bounds_consistent(),
            exact_search ==> {
                &&& final(self).score == score
                &&& final(self).searched_depth == root_depth
                &&& final(self).seldepth == seldepth
                &&& final(self).upper_bound == (score <= alpha)
                &&& final(self).lower_bound == (score > alpha && score >= beta)
                &&& final(self).display_score == if score <= alpha {
                    alpha
                } else if score >= beta {
                    beta
                } else {
                    score
                }
            },
            !exact_search ==> {
                &&& final(self).score == -SCORE_INF
                &&& final(self).searched_depth == old(self).searched_depth
                &&& final(self).seldepth == old(self).seldepth
                &&& final(self).display_score == old(self).display_score
                &&& final(self).upper_bound == old(self).upper_bound
                &&& final(self).lower_bound == old(self).lower_bound
            },
    {
        self.nodes = self.nodes + nodes;
        self.window_score = score;

        if exact_search {
            self.searched_depth = root_depth;
            self.seldepth = seldepth;

            self.display_score = score;
            self.score = score;

            self.upper_bound = false;
            self.lower_bound = false;

            if score <= alpha {
                self.display_score = alpha;
                self.upper_bound = true;
            } else if score >= beta {
                self.display_score = beta;
                self.lower_bound = true;
            }
        } else {
            self.score = -SCORE_INF;
        }
    }
}

/// How a game ends, from the point of view of the player who just moved.
#[derive(Copy, Clone, Debug, Eq, PartialEq, Structural)]
pub enum TerminalState {
    Win,
    Draw,
    Loss,
}

/// The flat count of a position, from the point of view of the player who
/// just moved.
#[derive(Copy, Clone, Debug, Eq, PartialEq, Structural)]
pub enum FlatCount {
    /// The game does not end on flats.
    Undecided,
    Draw,
    MoverWins,
    OpponentWins,
}

/// How the game stands after a move, from the mover's point of view: a road
/// for the mover wins; after a spread, a road for the opponent loses; then
/// the flat count decides; then a spread into a repeated position draws.
pub open spec fn terminal_ladder(
    mover_has_road: bool,
    prev_is_spread: bool,
    opponent_has_road: bool,
    flats: FlatCount,
    repeated: bool,
) -> Option<TerminalState> {
    if mover_has_road {
        Some(TerminalState::Win)
    } else if prev_is_spread && opponent_has_road {
        Some(TerminalState::Loss)
    } else if flats == FlatCount::Draw {
        Some(TerminalState::Draw)
    } else if flats == FlatCount::MoverWins {
        Some(TerminalState::Win)
    } else if flats == FlatCount::OpponentWins {
        Some(TerminalState::Loss)
    } else if prev_is_spread && repeated {
        Some(TerminalState::Draw)
    } else {
        None
    }
}

/// What ends a game after a move. A road for the mover always wins for it,
/// whatever else holds. Failing that, a road for the opponent loses, but only
/// after a spread (a placement cannot build the opponent's road). Failing
/// that, a decided flat count gives its verdict. Failing that, a spread into a
/// repeated position draws. Nothing else ends the game, and without a spread
/// neither the opponent's road nor a repetition matters.
pub proof fn law_terminal_ladder(
    mover_has_road: bool,
    prev_is_spread: bool,
    opponent_has_road: bool,
    flats: FlatCount,
    repeated: bool,
)
    ensures
        mover_has_road ==> terminal_ladder(mover_has_road, prev_is_spread, opponent_has_road, flats,
            repeated) == Some(TerminalState::Win),
        !mover_has_road && prev_is_spread && opponent_has_road ==> terminal_ladder(
            mover_has_road,
            prev_is_spread,
            opponent_has_road,
            flats,
            repeated,
        ) == Some(TerminalState::Loss),
        !mover_has_road && !(prev_is_spread && opponent_has_road) ==> {
            let r = terminal_ladder(mover_has_road, prev_is_spread, opponent_has_road, flats, repeated);
            &&& flats == FlatCount::Draw ==> r == Some(TerminalState::Draw)
            &&& flats == FlatCount::MoverWins ==> r == Some(TerminalState::Win)
            &&& flats == FlatCount::OpponentWins ==> r == Some(TerminalState::Loss)
            &&& flats == FlatCount::Undecided ==> r == (if prev_is_spread && repeated {
                Some(TerminalState::Draw)
            } else {
                None
            })
        },
        !prev_is_spread ==> terminal_ladder(mover_has_road, prev_is_spread, opponent_has_road, flats,
            repeated) == terminal_ladder(mover_has_road, prev_is_spread, false, flats, false),
        terminal_ladder(mover_has_road, prev_is_spread, opponent_has_road, flats, repeated)
            == Some(TerminalState::Win) ==> mover_has_road || flats == FlatCount::MoverWins,
        terminal_ladder(mover_has_road, prev_is_spread, opponent_has_road, flats, repeated)
            == Some(TerminalState::Loss) ==> (prev_is_spread && opponent_has_road) || flats
            == FlatCount::OpponentWins,
        terminal_ladder(mover_has_road, prev_is_spread, opponent_has_road, flats, repeated) is None
            <==> (!mover_has_road && !(prev_is_spread && opponent_has_road) && flats
            == FlatCount::Undecided && !(prev_is_spread && repeated)),
{
}

/// Whether the game is over after a move, given the facts of the position it
/// reached: whether the mover and the opponent have roads, whether the move
/// was a spread, the flat count, and whether the position is drawn by
/// repetition.
pub fn terminal_state(
    mover_has_road: bool,
    prev_is_spread: bool,
    opponent_has_road: bool,
    flats: FlatCount,
    repeated: bool,
) -> (r: Option<TerminalState>)
    ensures
        r == terminal_ladder(mover_has_road, prev_is_spread, opponent_has_road, flats, repeated),
        mover_has_road ==> r == Some(TerminalState::Win),
        !mover_has_road && prev_is_spread && opponent_has_road ==> r == Some(TerminalState::Loss),
        r == Some(TerminalState::Win) ==> mover_has_road || flats == FlatCount::MoverWins,
        r == Some(TerminalState::Loss) ==> (prev_is_spread && opponent_has_road) || flats
            == FlatCount::OpponentWins,
        r is None <==> (!mover_has_road && !(prev_is_spread && opponent_has_road) && flats
            == FlatCount::Undecided && !(prev_is_spread && repeated)),
{
    proof {
        law_terminal_ladder(mover_has_road, prev_is_spread, opponent_has_road, flats, repeated);
    }
    if mover_has_road {
        return Some(TerminalState::Win);
    }

    if prev_is_spread && opponent_has_road {
        return Some(TerminalState::Loss);
    }

    match flats {
        FlatCount::Undecided => {},
        FlatCount::Draw => return Some(TerminalState::Draw),
        FlatCount::MoverWins => return Some(TerminalState::Win),
        FlatCount::OpponentWins => return Some(TerminalState::Loss),
    }

    if prev_is_spread && repeated {
        return Some(TerminalState::Draw);
    }

    None
}

/// How many times `key` occurs in `keys`.
pub open spec fn occurrences(keys: Seq<u64>, key: u64) -> nat
    decreases keys.len(),
{
    if keys.len() == 0 {
        0
    } else {
        occurrences(keys.drop_first(), key) + if keys[0] == key {
            1nat
        } else {
            0nat
        }
    }
}

/// The position with key `curr`, reached at search depth `ply` after the
/// positions of `key_history`, is drawn by repetition: its key occurs at least
/// once in the history when `ply > 0`, and at least twice otherwise.
pub open spec fn drawn_by_repetition(key_history: Seq<u64>, curr: u64, ply: int) -> bool {
    occurrences(key_history, curr) >= if ply > 0 {
        1nat
    } else {
        2nat
    }
}

/// The per-thread search state.
pub struct ThreadData {
    pub id: u32,
    /// Keys of the positions before the current one, most recent last.
    pub key_history: Vec<u64>,
    pub root_depth: i32,
    /// The deepest ply reached in the current iteration, plus one.
    pub seldepth: i32,
    pub pv_idx: usize,
    /// The context of the search this thread is taking part in, if any.
    pub shared: Option<Arc<SharedContext>>,
}

impl ThreadData {
    pub fn new(id: u32) -> (r: Self)
        ensures
            r.id == id,
            r.key_history@ == Seq::<u64>::empty(),
            r.root_depth == 0,
            r.seldepth == 0,
            r.pv_idx == 0,
            r.shared is None,
    {
        Self {
            id,
            key_history: Vec::with_capacity(1024),
            root_depth: 0,
            seldepth: 0,
            pv_idx: 0,
            shared: None,
        }
    }

    /// The context of the search in progress.
    pub fn shared(&self) -> (r: &SharedContext)
        requires
            self.shared is Some,
        ensures
            *r == *self.shared.unwrap(),
    {
        let shared = self.shared.as_ref().unwrap();
        &**shared
    }

    pub fn is_main_thread(&self) -> (r: bool)
        ensures
            r == (self.id == 0),
    {
        self.id == 0
    }

    pub fn reset_seldepth(&mut self)
        ensures
            *final(self) == (ThreadData { seldepth: 0, ..*old(self) }),
    {
        self.seldepth = 0;
    }

    /// Records that the search reached `ply`.
    pub fn update_seldepth(&mut self, ply: i32)
        requires
            ply < i32::MAX,
        ensures
            *final(self) == (ThreadData {
                seldepth: if old(self).seldepth >= ply + 1 {
                    old(self).seldepth
                } else {
                    (ply + 1) as i32
                },
                ..*old(self)
            }),
    {
        let next = ply + 1;
        if next > self.seldepth {
            self.seldepth = next;
        }
    }

    /// Takes back the last move's key.
    pub fn pop_move(&mut self)
        ensures
            final(self).key_history@ == if old(self).key_history@.len() > 0 {
                old(self).key_history@.drop_last()
            } else {
                old(self).key_history@
            },
            final(self).id == old(self).id,
            final(self).root_depth == old(self).root_depth,
            final(self).seldepth == old(self).seldepth,
            final(self).pv_idx == old(self).pv_idx,
            final(self).shared == old(self).shared,
    {
        self.key_history.pop();
    }

    /// Whether the position with key `curr`, at depth `ply`, repeats an earlier
    /// one: one earlier occurrence of its key is enough when `ply > 0`,
    /// otherwise two are needed.
    pub fn is_drawn_by_repetition(&self, curr: u64, ply: i32) -> (r: bool)
        requires
            ply > i32::MIN,
            ply == i32::MIN + 1 ==> occurrences(self.key_history@, curr) == 0,
        ensures
            r == drawn_by_repetition(self.key_history@, curr, ply as int),
            ply > 0 ==> (r <==> exists|i: int|
                0 <= i < self.key_history@.len() && self.key_history@[i] == curr),
            ply <= 0 ==> (r <==> exists|i: int, j: int|
                #![trigger self.key_history@[i], self.key_history@[j]]
                0 <= i < j < self.key_history@.len() && self.key_history@[i] == curr
                    && self.key_history@[j] == curr),
    {
        let mut rep_ply = ply - 1;
        let mut repetitions: i32 = 0;
        let ghost start_ply = ply as int;
        let mut i = self.key_history.len();

        while i > 0
            invariant
                i <= self.key_history.len(),
                repetitions == occurrences(self.key_history@.subrange(i as int, self.key_history.len() as int), curr),
                repetitions <= 1,
                repetitions == 1 ==> start_ply <= 0,
                rep_ply == start_ply - 1 - repetitions,
                start_ply == ply,
                ply > i32::MIN,
                ply == i32::MIN + 1 ==> occurrences(self.key_history@, curr) == 0,
            decreases i,
        {
            i = i - 1;
            let ghost suffix = self.key_history@.subrange(i as int, self.key_history.len() as int);
            assert(suffix.drop_first() =~= self.key_history@.subrange(i + 1, self.key_history.len() as int));
            let key = self.key_history[i];
            assert(occurrences(suffix, curr) == occurrences(suffix.drop_first(), curr) + if key == curr {
                1nat
            } else {
                0nat
            });
            if key == curr {
                repetitions += 1;

                let required = 1 + if rep_ply < 0 { 1 } else { 0 };
                if repetitions == required {
                    proof {
                        lemma_occurrences_prefix_suffix(self.key_history@, i as int, curr);
                        law_repetition_counts_every_earlier_position(self.key_history@, curr, ply as int);
                    }
                    return true;
                }

                proof {
                    lemma_occurrences_prefix_suffix(self.key_history@, i as int, curr);
                }
                rep_ply -= 1;
            }
        }
        assert(self.key_history@.subrange(0, self.key_history.len() as int) =~= self.key_history@);
        proof {
            law_repetition_counts_every_earlier_position(self.key_history@, curr, ply as int);
        }
        false
    }

}

/// The repetition rule looks at every earlier position: with `ply > 0` the
/// position is drawn exactly when its key occurs anywhere in the history, and
/// otherwise exactly when it occurs at two different places in it.
pub proof fn law_repetition_counts_every_earlier_position(key_history: Seq<u64>, curr: u64, ply: int)
    ensures
        ply > 0 ==> (drawn_by_repetition(key_history, curr, ply) <==> exists|i: int|
            0 <= i < key_history.len() && key_history[i] == curr),
        ply <= 0 ==> (drawn_by_repetition(key_history, curr, ply) <==> exists|i: int, j: int|
            #![trigger key_history[i], key_history[j]]
            0 <= i < j < key_history.len() && key_history[i] == curr && key_history[j] == curr),
{
    lemma_occurrences_positions(key_history, curr);
}

/// At least one occurrence is an index holding the key; at least two are two
/// distinct such indices.
proof fn lemma_occurrences_positions(s: Seq<u64>, k: u64)
    ensures
        occurrences(s, k) >= 1 <==> exists|i: int| 0 <= i < s.len() && s[i] == k,
        occurrences(s, k) >= 2 <==> exists|i: int, j: int|
            #![trigger s[i], s[j]]
            0 <= i < j < s.len() && s[i] == k && s[j] == k,
    decreases s.len(),
{
    if s.len() > 0 {
        let t = s.drop_first();
        lemma_occurrences_positions(t, k);
        if exists|i: int| 0 <= i < s.len() && s[i] == k {
            let i = choose|i: int| 0 <= i < s.len() && s[i] == k;
            if i > 0 {
                assert(t[i - 1] == k);
            }
        }
        if exists|i: int, j: int| #![trigger s[i], s[j]] 0 <= i < j < s.len() && s[i] == k && s[j] == k {
            let (i, j) = choose|i: int, j: int| #![trigger s[i], s[j]] 0 <= i < j < s.len() && s[i] == k && s[j] == k;
            assert(t[j - 1] == k);
            if i > 0 {
                assert(t[i - 1] == k);
            }
        }
        if occurrences(t, k) >= 1 {
            let i = choose|i: int| 0 <= i < t.len() && t[i] == k;
            assert(s[i + 1] == k);
            if s[0] == k {
                assert(s[0] == k && s[i + 1] == k);
            }
        }
        if occurrences(t, k) >= 2 {
            let (i, j) = choose|i: int, j: int| #![trigger t[i], t[j]] 0 <= i < j < t.len() && t[i] == k && t[j] == k;
            assert(s[i + 1] == k && s[j + 1] == k);
        }
    }
}

/// Occurrences in a suffix are no more than in the whole sequence.
proof fn lemma_occurrences_prefix_suffix(keys: Seq<u64>, i: int, key: u64)
    requires
        0 <= i <= keys.len(),
    ensures
        occurrences(keys.subrange(i, keys.len() as int), key) <= occurrences(keys, key),
    decreases i,
{
    if i > 0 {
        let s = keys.subrange(i - 1, keys.len() as int);
        assert(s.drop_first() =~= keys.subrange(i, keys.len() as int));
        lemma_occurrences_prefix_suffix(keys, i - 1, key);
    } else {
        assert(keys.subrange(0, keys.len() as int) =~= keys);
    }
}

/// The state that every search thread shares.
pub struct SharedContext {
    stopped: AtomicBool,
    counter: Arc<SearcherCount>,
}

impl SharedContext {
    pub fn new() -> Self {
        Self { stopped: AtomicBool::new(false), counter: Arc::new(SearcherCount::new()) }
    }

    /// Readies the context for a new search: clears the stop flag and counts
    /// the search as running, on the same counter that earlier calls of
    /// `get_counter` handed out.
    pub fn init_search(&mut self)
        ensures
            final(self).counter() == old(self).counter(),
    {
        self.stopped.store(false, Ordering::Relaxed);
        self.counter.start();
    }

    /// The counter of this context's searches.
    pub closed spec fn counter(&self) -> SearcherCount {
        *self.counter
    }

    /// A handle to the counter of this context's searches.
    pub fn get_counter(&self) -> (r: Arc<SearcherCount>)
        ensures
            *r == self.counter(),
    {
        clone_counter(&self.counter)
    }

    pub fn is_searching(&self) -> bool {
        self.counter.is_active().0
    }

    pub fn stop(&self) {
        self.stopped.store(true, Ordering::Relaxed);
    }

    pub fn has_stopped(&self) -> bool {
        self.stopped.load(Ordering::Relaxed)
    }
}

} // verus!
