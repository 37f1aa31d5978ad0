use syntaks::search::{aspiration_window, widen_window, is_decisive, is_loss, is_win, mate_in, reported_score, MAX_DEPTH, SCORE_INF, SCORE_MATE, SCORE_WIN};

#[test]
fn score_constants() {
    assert_eq!(SCORE_INF, 32767);
    assert_eq!(SCORE_MATE, 32766);
    assert_eq!(SCORE_WIN, 25000);
    assert_eq!(MAX_DEPTH, 255);
}

#[test]
fn wins_and_losses_are_classified() {
    assert!(is_win(SCORE_MATE));
    assert!(is_win(SCORE_WIN + 1));
    assert!(!is_win(SCORE_WIN));
    assert!(!is_win(0));
    assert!(!is_win(-SCORE_MATE));

    assert!(is_loss(-SCORE_MATE));
    assert!(is_loss(-SCORE_WIN - 1));
    assert!(!is_loss(-SCORE_WIN));
    assert!(!is_loss(0));
    assert!(!is_loss(SCORE_MATE));
}

#[test]
fn decisive_is_win_or_loss() {
    for score in [-SCORE_INF, -SCORE_MATE, -SCORE_WIN - 1, -SCORE_WIN, -1, 0, 1, SCORE_WIN, SCORE_WIN + 1, SCORE_MATE, SCORE_INF, i32::MAX, i32::MIN + 1] {
        assert_eq!(is_decisive(score), is_win(score) || is_loss(score), "score {score}");
    }
    assert!(is_decisive(SCORE_MATE - 10));
    assert!(!is_decisive(SCORE_WIN));
    assert!(!is_decisive(-SCORE_WIN));
}

#[test]
fn reported_score_prefers_the_current_iteration() {
    assert_eq!(reported_score(10, 5, 12, true, false), Some((12, true, false)));
    assert_eq!(reported_score(10, 5, 12, false, true), Some((12, false, true)));
    assert_eq!(reported_score(-SCORE_INF, 5, 12, true, false), Some((5, false, false)));
    assert_eq!(reported_score(-SCORE_INF, -SCORE_INF, 12, false, false), None);
    assert_eq!(reported_score(10, 5, -SCORE_INF, false, false), None);
}

#[test]
fn mate_distances() {
    assert_eq!(mate_in(SCORE_MATE - 1), 1);
    assert_eq!(mate_in(SCORE_MATE - 2), 1);
    assert_eq!(mate_in(SCORE_MATE - 3), 2);
    assert_eq!(mate_in(-SCORE_MATE + 2), -1);
    assert_eq!(mate_in(-SCORE_MATE + 4), -2);
    assert_eq!(mate_in(-30001), -1382);
    assert_eq!(mate_in(32000), 383);
}

#[test]
fn aspiration_windows() {
    assert_eq!(aspiration_window(100, 25), (75, 125));
    assert_eq!(aspiration_window(SCORE_INF - 10, 25), (SCORE_INF - 35, SCORE_INF));
    assert_eq!(aspiration_window(-SCORE_INF + 10, 25), (-SCORE_INF, -SCORE_INF + 35));
}

#[test]
fn windows_widen_on_the_side_that_failed() {
    assert_eq!(widen_window(75, 125, 25, 60), (-125, 125, 200));
    assert_eq!(widen_window(75, 125, 25, 130), (75, 325, 200));
    assert_eq!(widen_window(-30000, 125, 5000, -31000), (-SCORE_INF, 125, SCORE_INF));
    assert_eq!(widen_window(75, 30000, 5000, 31000), (75, SCORE_INF, SCORE_INF));
}
