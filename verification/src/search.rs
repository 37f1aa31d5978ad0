//! Scores and their classification.

use vstd::prelude::*;

verus! {

/// The most search threads the engine runs.
pub const MAX_THREADS: u32 = 2048;

/// A search score, in centiflats from the side to move's point of view.
pub type Score = i32;

/// A score no search result reaches.
pub const SCORE_INF: Score = 32767;
/// The score of a win on the spot.
pub const SCORE_MATE: Score = SCORE_INF - 1;
/// Scores above this are wins found by the search.
pub const SCORE_WIN: Score = 25000;

/// The deepest the search goes.
pub const MAX_DEPTH: i32 = 255;

/// The magnitude of a score.
pub open spec fn score_abs(score: int) -> int {
    if score < 0 {
        -score
    } else {
        score
    }
}

/// The score is a found win for the side to move.
pub fn is_win(score: Score) -> (r: bool)
    ensures
        r == (score > SCORE_WIN),
{
    score > SCORE_WIN
}

/// The score is a found loss for the side to move.
pub fn is_loss(score: Score) -> (r: bool)
    ensures
        r == (score < -SCORE_WIN),
{
    score < -SCORE_WIN
}

/// The score is a found win or loss.
pub fn is_decisive(score: Score) -> (r: bool)
    requires
        score > i32::MIN,
    ensures
        r == (score_abs(score as int) > SCORE_WIN),
{
    let magnitude = if score < 0 {
        -score
    } else {
        score
    };
    magnitude > SCORE_WIN
}

/// The score, and whether it is an upper or a lower bound, that a search
/// report shows for a root move; `None` when the move has no score to show.
///
/// A move whose current iteration was cut short (`score == -SCORE_INF`) shows
/// its previous iteration's score, which is exact; otherwise it shows its
/// display score with its bounds.
pub open spec fn shown_score(
    score: Score,
    previous_score: Score,
    display_score: Score,
    upper_bound: bool,
    lower_bound: bool,
) -> Option<(Score, bool, bool)> {
    let chosen = if score == -SCORE_INF {
        (previous_score, false, false)
    } else {
        (display_score, upper_bound, lower_bound)
    };
    if chosen.0 == -SCORE_INF {
        None
    } else {
        Some(chosen)
    }
}

/// A report hides a root move's score only when the score it would show is
/// the sentinel `-SCORE_INF`: every other score, decisive ones included, is
/// shown. A move searched in the current iteration shows its display score
/// and bounds; one whose current score was dropped shows its previous,
/// exact, score.
pub proof fn law_only_the_sentinel_hides_a_score(
    score: Score,
    previous_score: Score,
    display_score: Score,
    upper_bound: bool,
    lower_bound: bool,
)
    ensures
        score != -SCORE_INF && display_score != -SCORE_INF ==> shown_score(
            score,
            previous_score,
            display_score,
            upper_bound,
            lower_bound,
        ) == Some((display_score, upper_bound, lower_bound)),
        score == -SCORE_INF && previous_score != -SCORE_INF ==> shown_score(
            score,
            previous_score,
            display_score,
            upper_bound,
            lower_bound,
        ) == Some((previous_score, false, false)),
        shown_score(score, previous_score, display_score, upper_bound, lower_bound) is None <==> (
        if score == -SCORE_INF {
            previous_score == -SCORE_INF
        } else {
            display_score == -SCORE_INF
        }),
{
}

/// Chooses the score a search report shows for a root move. The shown score
/// is never both an upper and a lower bound.
pub fn reported_score(
    score: Score,
    previous_score: Score,
    display_score: Score,
    upper_bound: bool,
    lower_bound: bool,
) -> (r: Option<(Score, bool, bool)>)
    requires
        score != -SCORE_INF && display_score != -SCORE_INF ==> !(upper_bound && lower_bound),
    ensures
        r == shown_score(score, previous_score, display_score, upper_bound, lower_bound),
        r matches Some(shown) ==> !(shown.1 && shown.2),
        score != -SCORE_INF && display_score != -SCORE_INF ==> r == Some(
            (display_score, upper_bound, lower_bound),
        ),
        score == -SCORE_INF && previous_score != -SCORE_INF ==> r == Some(
            (previous_score, false, false),
        ),
        r is None <==> (if score == -SCORE_INF {
            previous_score == -SCORE_INF
        } else {
            display_score == -SCORE_INF
        }),
{
    proof {
        law_only_the_sentinel_hides_a_score(
            score,
            previous_score,
            display_score,
            upper_bound,
            lower_bound,
        );
    }
    let chosen = if score == -SCORE_INF {
        (previous_score, false, false)
    } else {
        (display_score, upper_bound, lower_bound)
    };

    if chosen.0 == -SCORE_INF {
        None
    } else {
        Some(chosen)
    }
}

/// Integer division by 2, rounding toward zero.
pub open spec fn half_toward_zero(x: int) -> int {
    if x >= 0 {
        x / 2
    } else {
        -((-x) / 2)
    }
}

/// The number of moves to mate that a decisive score stands for: positive
/// when the side to move mates, negative when it is mated.
pub fn mate_in(score: Score) -> (m: i32)
    requires
        score > i32::MIN,
        score_abs(score as int) > SCORE_WIN,
    ensures
        m == if score > 0 {
            half_toward_zero(SCORE_MATE - score + 1)
        } else {
            -half_toward_zero(SCORE_MATE + score)
        },
{
    if score > 0 {
        (SCORE_MATE - score + 1) / 2
    } else {
        -((SCORE_MATE + score) / 2)
    }
}

/// The aspiration window the search opens around the previous iteration's
/// score `last_score`, `delta` to either side and clamped to the score range.
pub fn aspiration_window(last_score: Score, delta: Score) -> (w: (Score, Score))
    requires
        -SCORE_INF <= last_score <= SCORE_INF,
        0 <= delta <= SCORE_INF,
    ensures
        w.0 == if last_score - delta < -SCORE_INF { -SCORE_INF as int } else { last_score - delta },
        w.1 == if last_score + delta > SCORE_INF { SCORE_INF as int } else { last_score + delta },
        -SCORE_INF <= w.0 <= last_score <= w.1 <= SCORE_INF,
{
    let alpha = if last_score - delta < -SCORE_INF { -SCORE_INF } else { last_score - delta };
    let beta = if last_score + delta > SCORE_INF { SCORE_INF } else { last_score + delta };
    (alpha, beta)
}

/// Widens the window `(alpha, beta)` after a search returned `score` outside
/// it: the step grows eightfold, up to `SCORE_INF`, and the bound that failed
/// moves out by the new step, clamped to the score range. Returns the new
/// alpha, beta and step.
pub fn widen_window(alpha: Score, beta: Score, delta: Score, score: Score) -> (w: (Score, Score, Score))
    requires
        -SCORE_INF <= alpha <= SCORE_INF,
        -SCORE_INF <= beta <= SCORE_INF,
        0 <= delta <= SCORE_INF,
    ensures
        w.2 == if delta * 8 > SCORE_INF { SCORE_INF as int } else { delta * 8 },
        score <= alpha ==> w.0 == (if alpha - w.2 < -SCORE_INF { -SCORE_INF as int } else { alpha - w.2 })
            && w.1 == beta,
        score > alpha ==> w.1 == (if beta + w.2 > SCORE_INF { SCORE_INF as int } else { beta + w.2 })
            && w.0 == alpha,
        -SCORE_INF <= w.0 <= alpha,
        beta <= w.1 <= SCORE_INF,
        0 <= w.2 <= SCORE_INF,
{
    let delta = if delta * 8 > SCORE_INF { SCORE_INF } else { delta * 8 };
    if score <= alpha {
        let alpha = if alpha - delta < -SCORE_INF { -SCORE_INF } else { alpha - delta };
        (alpha, beta, delta)
    } else {
        let beta = if beta + delta > SCORE_INF { SCORE_INF } else { beta + delta };
        (alpha, beta, delta)
    }
}

/// A score is decisive exactly when it is a win or a loss.
pub proof fn law_decisive_is_win_or_loss(score: Score)
    requires
        score > i32::MIN,
    ensures
        (score_abs(score as int) > SCORE_WIN) == (score > SCORE_WIN || score < -SCORE_WIN),
{
}

} // verus!
