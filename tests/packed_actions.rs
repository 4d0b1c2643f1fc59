use mancala_ai::packed_actions::{Action, ActionQueue, LEN_OFFSET};

#[test]
fn test_fifo_queue() {
    let mut action_list: Action = Action::new();
    action_list.push_front(1);
    action_list.push_front(2);
    action_list.push_front(3);
    action_list.push_front(4);
    action_list.push_front(0);
    assert_eq!(action_list.pop_front(), 1);
    assert_eq!(action_list.pop_front(), 2);
    assert_eq!(action_list.pop_back(), 0);
    assert_eq!(action_list.pop_back(), 4);
    assert_eq!(action_list.pop_front(), 3);
    assert!(action_list.is_empty());
}

#[test]
fn test_packed_internals() {
    let mut action_list: Action = Action::new();
    assert_eq!(action_list.0, 0);
    action_list.push_front(4);
    assert_eq!(action_list.0, 4 | (1 << LEN_OFFSET));
    println!("{:?}", action_list);
    action_list.push_front(3);
    assert_eq!(action_list.0, 4 << 3 | 3 | (2 << LEN_OFFSET));
    assert_eq!(action_list.pop_front(), 4);
    assert_eq!(action_list.0, 3 | (1 << LEN_OFFSET));
    action_list.push_front(2);
    println!("{:?}", action_list);
    assert_eq!(action_list.pop_front(), 3);
    assert_eq!(action_list.pop_front(), 2);
    assert_eq!(action_list.0, 0);
    action_list.push_front(3);
    assert_eq!(action_list.0, 3 | (1 << LEN_OFFSET));
}
