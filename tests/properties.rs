use mancala_ai::mancala::{GameState, Outcome};
use mancala_ai::packed_actions::{Action, ActionQueue, MAX_LEN};
use mancala_ai::player::{AIPlayer, HumanPlayer};

fn total(state: &GameState) -> u32 {
    state.houses.iter().map(|h| *h as u32).sum()
}

fn sub_moves(action: Action) -> Vec<u8> {
    let mut copy = action;
    let mut out = Vec::new();
    while !copy.is_empty() {
        out.push(copy.pop_front());
    }
    out
}

#[test]
fn new_sequence_is_empty() {
    let action = Action::new();
    assert_eq!(action.length(), 0);
    assert!(action.is_empty());
}

#[test]
fn full_length_round_trip() {
    let mut action = Action::new();
    let pushed: Vec<u8> = (0..MAX_LEN).map(|i| (i % 6) as u8).collect();
    for sub in &pushed {
        action.push_front(*sub);
    }
    assert_eq!(action.length() as u64, MAX_LEN);
    let mut popped = Vec::new();
    for _ in 0..MAX_LEN {
        popped.push(action.pop_front());
    }
    assert_eq!(popped, pushed);
    assert!(action.is_empty());
}

#[test]
fn pop_back_returns_newest() {
    let mut action = Action::singleton(2);
    action.push_front(5);
    assert_eq!(action.length(), 2);
    assert_eq!(action.pop_back(), 5);
    assert_eq!(action, Action::singleton(2));
}

#[test]
fn equal_contents_give_equal_values() {
    let mut action = Action::new();
    action.push_front(1);
    action.push_front(3);
    assert_eq!(action.pop_front(), 1);
    assert_eq!(action, Action::singleton(3));
    assert_eq!(action.pop_front(), 3);
    assert_eq!(action, Action::new());
}

#[test]
fn sowing_conserves_seeds_from_every_house() {
    let mut start = GameState::new(4);
    start.houses[3] = 2;
    start.houses[9] = 7;
    for sub in 0..6u8 {
        let mut state = start;
        state.evaluate_subaction(sub);
        assert_eq!(total(&state), total(&start));
    }
}

#[test]
fn sowing_more_than_a_lap_skips_opponent_store() {
    let mut state = GameState::new(0);
    state.houses[0] = 20;
    state.evaluate_subaction(0);
    let expected: [u8; 14] = [1, 2, 2, 2, 2, 2, 2, 2, 1, 1, 1, 1, 1, 0];
    assert_eq!(state.houses, expected);
    assert_eq!(total(&state), 20);
}

#[test]
fn renewing_move_lands_in_store() {
    let state = GameState::new(4);
    assert!(state.is_renewing_subaction(2));
    assert!(!state.is_renewing_subaction(1));
    let mut after = state;
    after.evaluate_subaction(2);
    assert_eq!(after.houses[6], 1);
    assert_eq!(after.houses[2], 0);
}

#[test]
fn find_next_subaction_skips_empty_houses() {
    let mut state = GameState::new(0);
    state.houses[3] = 1;
    assert_eq!(state.find_next_subaction(0), Some(3));
    assert_eq!(state.find_next_subaction(3), Some(3));
    assert_eq!(state.find_next_subaction(4), None);
}

#[test]
fn swap_twice_gives_back_the_board() {
    let mut state = GameState::new(4);
    state.evaluate_action(Action::singleton(1));
    let before = state;
    state.swap_board();
    assert_ne!(state, before);
    assert_eq!(state.houses[7..14], before.houses[0..7]);
    state.swap_board();
    assert_eq!(state, before);
}

#[test]
fn finalize_sweeps_mover_side_when_opponent_is_empty() {
    let mut state = GameState::new(0);
    state.houses[0] = 3;
    state.houses[5] = 2;
    state.houses[6] = 10;
    state.houses[13] = 7;
    state.finalize_game();
    let expected: [u8; 14] = [0, 0, 0, 0, 0, 0, 15, 0, 0, 0, 0, 0, 0, 7];
    assert_eq!(state.houses, expected);
    assert_eq!(state.is_won(), Some(Outcome::P1win));
}

#[test]
fn finalize_twice_on_ended_board_changes_nothing() {
    let mut state = GameState::new(0);
    state.houses[8] = 4;
    state.houses[12] = 1;
    state.houses[6] = 3;
    assert!(state.is_ended());
    let won_before = state.is_won();
    state.finalize_game();
    let once = state;
    state.finalize_game();
    assert_eq!(state, once);
    assert_eq!(once.houses[13], 5);
    assert_eq!(state.is_won(), won_before);
    assert_eq!(won_before, Some(Outcome::P2win));
}

#[test]
fn game_goes_on_while_both_sides_have_seeds() {
    let state = GameState::new(4);
    assert!(!state.is_ended());
    assert_eq!(state.is_won(), None);
}

#[test]
fn start_position_turns_in_order() {
    let state = GameState::new(4);
    let mut iter = state.gen_actions();
    let mut turns = Vec::new();
    while let Some(action) = iter.next() {
        turns.push(sub_moves(action));
    }
    let expected: Vec<Vec<u8>> = vec![
        vec![0],
        vec![1],
        vec![2, 0],
        vec![2, 1],
        vec![2, 3],
        vec![2, 4],
        vec![2, 5],
        vec![3],
        vec![4],
        vec![5],
    ];
    assert_eq!(turns, expected);
    assert_eq!(iter.next(), None);
    assert_eq!(iter.next(), None);
}

#[test]
fn two_level_chain_turns() {
    let mut state = GameState::new(4);
    state.houses[3] = 2;
    let mut iter = state.gen_actions();
    let mut turns = Vec::new();
    while let Some(action) = iter.next() {
        turns.push(sub_moves(action));
    }
    assert_eq!(turns.len(), 13);
    assert_eq!(turns[4], vec![2, 3, 0]);
    assert_eq!(turns[7], vec![2, 3, 5]);
    assert_eq!(turns[12], vec![5]);
}

#[test]
fn ended_board_has_no_turns() {
    let mut state = GameState::new(4);
    for i in 7..13 {
        state.houses[i] = 0;
    }
    assert!(state.is_ended());
    assert_eq!(state.gen_actions().next(), None);
    assert!(state.candidates().is_empty());
}

#[test]
fn every_turn_is_complete() {
    let mut state = GameState::new(4);
    state.houses[3] = 2;
    let candidates = state.candidates();
    assert!(!candidates.is_empty());
    for (action, result) in &candidates {
        let subs = sub_moves(*action);
        let mut board = state;
        for (i, sub) in subs.iter().enumerate() {
            assert!(board.houses[*sub as usize] > 0);
            let renewing = board.is_renewing_subaction(*sub);
            board.evaluate_subaction(*sub);
            let can_go_on = board.find_next_subaction(0).is_some();
            if i + 1 < subs.len() {
                assert!(renewing && can_go_on);
            } else {
                assert!(!(renewing && can_go_on));
            }
        }
        assert_eq!(board, *result);
        assert_eq!(total(result), total(&state));
    }
}

#[test]
fn candidates_follow_the_generator() {
    let state = GameState::new(4);
    let candidates = state.candidates();
    let mut iter = state.gen_actions();
    let mut i = 0;
    while let Some(action) = iter.next() {
        assert_eq!(candidates[i].0, action);
        assert_eq!(candidates[i].1, state.evaluate_to_new_state(action));
        i += 1;
    }
    assert_eq!(i, candidates.len());
}

#[test]
fn chain_that_empties_the_side_is_one_turn() {
    let mut state = GameState::new(0);
    state.houses[4] = 2;
    state.houses[9] = 3;
    let candidates = state.candidates();
    assert_eq!(candidates.len(), 1);
    assert_eq!(sub_moves(candidates[0].0), vec![4, 5]);
    assert!(candidates[0].1.is_ended());
}

#[test]
fn ai_player_tracks_opponent_turn() {
    let start = GameState::new(4);
    let mut player = AIPlayer::new(start);
    assert_eq!(player.current_state(), start);
    assert_eq!(player.last_state, start);
    player.opponent_plays(Action::singleton(0));
    let mut expected = start;
    expected.swap_board();
    expected.evaluate_action(Action::singleton(0));
    expected.swap_board();
    assert_eq!(player.current_state(), expected);
    assert_eq!(player.last_state, start);
    assert_eq!(player.curr_state.houses[7], 0);
    assert_eq!(player.curr_state.houses[8], 5);
    player.play_action(Action::singleton(5));
    assert_eq!(player.curr_state.houses[6], 1);
    assert_eq!(player.last_state, start);
}

#[test]
fn human_player_plays_and_sees_opponent() {
    let start = GameState::new(4);
    let mut player = HumanPlayer::new(start);
    player.play_action(Action::singleton(4));
    let mut expected = start;
    expected.evaluate_action(Action::singleton(4));
    assert_eq!(player.current_state(), expected);
    player.opponent_plays(Action::singleton(1));
    expected.swap_board();
    expected.evaluate_action(Action::singleton(1));
    expected.swap_board();
    assert_eq!(player.current_state(), expected);
}
