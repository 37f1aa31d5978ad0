use std::sync::Arc;
use syntaks::thread::{
    counts_as_searching, search_completes, RootMove, terminal_state, FlatCount,
    helper_wakes_main, main_must_wait, next_wait_action, SharedContext, TerminalState, ThreadData,
    WaitAction,
};

fn with_history(keys: &[u64]) -> ThreadData {
    let mut thread = ThreadData::new(1);
    thread.key_history.extend_from_slice(keys);
    thread
}

fn is_drawn_by_repetition(keys: &Vec<u64>, curr: u64, ply: i32) -> bool {
    with_history(keys).is_drawn_by_repetition(curr, ply)
}

#[test]
fn repetition_inside_the_search_needs_one_occurrence() {
    let history = vec![1, 2, 3, 2, 4];
    assert!(is_drawn_by_repetition(&history, 2, 1));
    assert!(is_drawn_by_repetition(&history, 4, 3));
    assert!(!is_drawn_by_repetition(&history, 5, 3));
    assert!(!is_drawn_by_repetition(&Vec::new(), 5, 3));
}

#[test]
fn repetition_at_the_root_needs_two_occurrences() {
    let history = vec![1, 2, 3, 2, 4];
    assert!(is_drawn_by_repetition(&history, 2, 0));
    assert!(!is_drawn_by_repetition(&history, 4, 0));
    assert!(!is_drawn_by_repetition(&history, 1, 0));
    assert!(is_drawn_by_repetition(&vec![7, 7, 7], 7, -3));
    assert!(!is_drawn_by_repetition(&vec![7], 7, -3));
}

#[test]
fn wait_steps() {
    assert!(matches!(next_wait_action(3, 1), WaitAction::Sleep(3)));
    assert!(matches!(next_wait_action(1, 1), WaitAction::Done));
    assert!(matches!(next_wait_action(0, 0), WaitAction::Done));
    assert!(matches!(next_wait_action(1, 0), WaitAction::Sleep(1)));
}

#[test]
fn unregistering_decisions() {
    assert!(main_must_wait(3));
    assert!(!main_must_wait(2));
    assert!(!main_must_wait(1));
    assert!(helper_wakes_main(2));
    assert!(!helper_wakes_main(3));
    assert!(!helper_wakes_main(1));
}

#[test]
fn shared_context_lifecycle() {
    let mut ctx = SharedContext::new();
    assert!(!ctx.is_searching());
    assert!(!ctx.has_stopped());

    ctx.init_search();
    assert!(ctx.is_searching());
    assert!(!ctx.has_stopped());

    let counter = ctx.get_counter();
    counter.register_thread();
    counter.register_thread();
    counter.unregister_thread();
    assert_eq!(counter.unregister_main(), (false, 2));
    assert!(matches!(counter.wait_step(1), (WaitAction::Done, 1)));
    assert!(matches!(counter.wait_step(0), (WaitAction::Sleep(1), 1)));
    assert_eq!(counter.complete_search(), (true, 1));
    assert!(!ctx.is_searching());
    assert!(matches!(counter.wait_step(0), (WaitAction::Done, 0)));
    assert_eq!(counter.complete_search(), (false, 0));

    ctx.stop();
    assert!(ctx.has_stopped());
    drop(counter);
    ctx.init_search();
    assert!(!ctx.has_stopped());
}

#[test]
fn main_waits_while_helpers_remain() {
    let mut ctx = SharedContext::new();
    ctx.init_search();
    let counter = ctx.get_counter();
    counter.register_thread();
    counter.register_thread();
    assert_eq!(counter.unregister_main(), (true, 3));
    counter.unregister_thread();
    assert!(matches!(counter.wait_step(1), (WaitAction::Done, 1)));
    assert_eq!(counter.complete_search(), (true, 1));
}

#[test]
fn terminal_states_compare() {
    assert_eq!(TerminalState::Win, TerminalState::Win);
    assert_ne!(TerminalState::Win, TerminalState::Loss);
    assert_ne!(TerminalState::Draw, TerminalState::Loss);
}

#[test]
fn thread_data_starts_empty() {
    let thread = ThreadData::new(0);
    assert!(thread.is_main_thread());
    assert!(!ThreadData::new(3).is_main_thread());
    assert_eq!(thread.id, 0);
    assert!(thread.key_history.is_empty());
    assert_eq!(thread.root_depth, 0);
    assert_eq!(thread.seldepth, 0);
    assert_eq!(thread.pv_idx, 0);
    assert!(thread.shared.is_none());
}

#[test]
fn seldepth_tracks_the_deepest_ply() {
    let mut thread = ThreadData::new(2);
    thread.update_seldepth(4);
    assert_eq!(thread.seldepth, 5);
    thread.update_seldepth(2);
    assert_eq!(thread.seldepth, 5);
    thread.update_seldepth(9);
    assert_eq!(thread.seldepth, 10);
    thread.reset_seldepth();
    assert_eq!(thread.seldepth, 0);
    thread.update_seldepth(0);
    assert_eq!(thread.seldepth, 1);
}

#[test]
fn pop_move_takes_back_the_last_key() {
    let mut thread = with_history(&[5, 6, 7]);
    thread.pop_move();
    assert_eq!(thread.key_history, vec![5, 6]);
    thread.pop_move();
    thread.pop_move();
    assert!(thread.key_history.is_empty());
    thread.pop_move();
    assert!(thread.key_history.is_empty());
}

#[test]
fn shared_context_is_reached_through_the_thread() {
    let mut thread = ThreadData::new(0);
    let shared = Arc::new(SharedContext::new());
    thread.shared = Some(shared.clone());
    assert!(!thread.shared().has_stopped());
    shared.stop();
    assert!(thread.shared().has_stopped());
}

#[test]
fn completion_and_searching_decisions() {
    assert!(search_completes(1));
    assert!(!search_completes(2));
    assert!(!search_completes(0));
    assert!(counts_as_searching(1));
    assert!(counts_as_searching(7));
    assert!(!counts_as_searching(0));
}

#[test]
fn terminal_state_ladder() {
    let (win, draw, loss) = (TerminalState::Win, TerminalState::Draw, TerminalState::Loss);
    // A road for the mover wins before anything else.
    assert_eq!(terminal_state(true, true, true, FlatCount::OpponentWins, true), Some(win));
    // After a spread, a road for the opponent loses.
    assert_eq!(terminal_state(false, true, true, FlatCount::MoverWins, true), Some(loss));
    // Without a spread, the opponent's road is not considered.
    assert_eq!(terminal_state(false, false, true, FlatCount::Undecided, true), None);
    // Flats decide next.
    assert_eq!(terminal_state(false, false, false, FlatCount::Draw, false), Some(draw));
    assert_eq!(terminal_state(false, false, false, FlatCount::MoverWins, false), Some(win));
    assert_eq!(terminal_state(false, false, false, FlatCount::OpponentWins, false), Some(loss));
    // Then a spread into a repeated position draws.
    assert_eq!(terminal_state(false, true, false, FlatCount::Undecided, true), Some(draw));
    assert_eq!(terminal_state(false, false, false, FlatCount::Undecided, true), None);
    assert_eq!(terminal_state(false, true, false, FlatCount::Undecided, false), None);
}

#[test]
fn repetition_at_the_lowest_depths() {
    assert!(!is_drawn_by_repetition(&vec![1, 2, 3], 9, i32::MIN + 1));
    assert!(is_drawn_by_repetition(&vec![9, 9], 9, i32::MIN + 2));
    assert!(!is_drawn_by_repetition(&vec![9], 9, i32::MIN + 2));
}

#[test]
fn root_move_starts_unsearched() {
    let rm = RootMove::new();
    assert_eq!(rm.score, -32767);
    assert_eq!(rm.window_score, -32767);
    assert_eq!(rm.display_score, -32767);
    assert_eq!(rm.previous_score, -32767);
    assert!(!rm.upper_bound && !rm.lower_bound);
    assert_eq!(rm.searched_depth, 1);
    assert_eq!(rm.seldepth, 0);
    assert_eq!(rm.nodes, 0);
    assert_eq!(rm.reported(), None);
}

#[test]
fn root_move_records_searches() {
    let mut rm = RootMove::new();
    rm.record_search(40, -100, 100, true, 3, 7, 500);
    assert_eq!((rm.score, rm.display_score, rm.window_score), (40, 40, 40));
    assert!(!rm.upper_bound && !rm.lower_bound);
    assert_eq!((rm.searched_depth, rm.seldepth, rm.nodes), (3, 7, 500));
    assert_eq!(rm.reported(), Some((40, false, false)));

    // Failing low shows alpha as an upper bound.
    rm.record_search(-150, -100, 100, true, 4, 8, 100);
    assert_eq!((rm.score, rm.display_score), (-150, -100));
    assert!(rm.upper_bound && !rm.lower_bound);
    assert_eq!(rm.reported(), Some((-100, true, false)));

    // Failing high shows beta as a lower bound.
    rm.record_search(250, -100, 100, true, 4, 8, 100);
    assert_eq!((rm.score, rm.display_score), (250, 100));
    assert!(!rm.upper_bound && rm.lower_bound);
    assert_eq!(rm.nodes, 700);

    // A move that did not raise alpha loses its current score and falls back
    // on the previous iteration's.
    rm.start_iteration();
    assert_eq!(rm.previous_score, 250);
    rm.record_search(10, 20, 100, false, 5, 9, 1);
    assert_eq!(rm.score, -32767);
    assert_eq!(rm.window_score, 10);
    assert_eq!(rm.searched_depth, 4);
    assert_eq!(rm.reported(), Some((250, false, false)));
}
