use mancala_ai::mancala::{GameState, Outcome};
use mancala_ai::packed_actions::{Action, ActionQueue};

#[test]
fn test_action_iter() {
    let state = GameState::new(4);
    let mut iter = state.gen_actions();
    let mut actions = Vec::new();
    while let Some(action) = iter.next() {
        actions.push(action);
    }
    assert_eq!(actions.len(), 10);

    // setup two stage nested turn
    let mut state = GameState::new(4);
    state.houses[3] = 2;
    let mut iter = state.gen_actions();
    let mut actions = Vec::new();
    while let Some(action) = iter.next() {
        actions.push(action);
    }
    assert_eq!(actions.len(), 13);

    let mut state = GameState::new(0);
    state.houses[5] = 1;
    state.houses[10] = 1;
    let mut iter = state.gen_actions();
    let mut actions = Vec::new();
    while let Some(action) = iter.next() {
        actions.push(action);
    }
    assert_eq!(actions.len(), 1);
}

#[test]
fn test_evaluate_actions() {
    let mut state = GameState::new(0);
    let action = Action::singleton(4);
    state.houses[4] = 10;
    state.evaluate_action(action);
    for i in 5..13 {
        assert_eq!(state.houses[i], 1);
    }
    assert_eq!(state.houses[13], 0);
    assert_eq!(state.houses[0], 1);
    assert_eq!(state.houses[1], 1);
    assert_eq!(state.houses[2], 0);
    assert_eq!(state.houses[3], 0);
    assert_eq!(state.houses[4], 0);
}

#[test]
fn test_capture_rules() {
    let mut state = GameState::new(4);
    state.houses[4] = 0;
    let action = Action::singleton(0);
    state.evaluate_action(action);
    let expected: [u8; 14] = [0, 5, 5, 5, 0, 4, 5, 4, 0, 4, 4, 4, 4, 0];
    assert_eq!(state.houses, expected);
}

#[test]
fn test_end_game() {
    let mut state = GameState::new(4);
    assert_eq!(state.is_won(), None);
    state.finalize_game();
    assert_eq!(state.is_won(), Some(Outcome::Tie));
    state.houses[13] = 50;
    assert_eq!(state.is_won(), Some(Outcome::P2win));
    state.houses[0] = 100;
    assert_eq!(state.is_won(), Some(Outcome::P1win));
    state.swap_board();
    assert_eq!(state.is_won(), Some(Outcome::P2win));
}

#[test]
fn test_finalize_game() {
    let mut state = GameState::new(4);
    state.finalize_game();
    assert_eq!(state.houses[13], 4 * 6);
    for i in 7..13 {
        assert_eq!(state.houses[i], 0);
    }
    for i in 0..6 {
        assert_eq!(state.houses[i], 4);
    }
    assert_eq!(state.houses[6], 0);
}

#[test]
fn test_swap_board() {
    let mut state = GameState::new(4);
    let action = Action::singleton(4);
    state.evaluate_action(action);
    assert_eq!(state.houses[4], 0);
    assert_eq!(state.houses[5], 5);
    state.swap_board();
    println!("{:?}", state);
    assert_eq!(state.houses[11], 0);
    assert_eq!(state.houses[12], 5);
}
