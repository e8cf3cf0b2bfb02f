use game99::frontier::Frontier;

#[test]
fn nothing_waits_in_a_new_frontier() {
    let mut frontier = Frontier::new();
    assert_eq!(frontier.pop(), None);
    assert_eq!(frontier.pop(), None);
    assert_eq!(frontier.retire(0, 0), None);
}

#[test]
fn the_lowest_score_leaves_first() {
    let mut frontier = Frontier::new();
    frontier.push(7, 70);
    frontier.push(3, 30);
    frontier.push(9, 90);
    frontier.push(5, 50);
    frontier.push(u128::MAX, 1);
    frontier.push(0, 2);
    assert_eq!(frontier.pop(), Some((0, Some(2))));
    assert_eq!(frontier.pop(), Some((3, Some(30))));
    assert_eq!(frontier.pop(), Some((5, Some(50))));
    frontier.push(4, 40);
    assert_eq!(frontier.pop(), Some((4, Some(40))));
    assert_eq!(frontier.pop(), Some((7, Some(70))));
    assert_eq!(frontier.pop(), Some((9, Some(90))));
    assert_eq!(frontier.pop(), Some((u128::MAX, Some(1))));
    assert_eq!(frontier.pop(), None);
}

#[test]
fn among_equal_scores_the_last_one_in_leaves_first() {
    let mut frontier = Frontier::new();
    assert_eq!(frontier.push(6, 1), 0);
    assert_eq!(frontier.push(6, 2), 1);
    assert_eq!(frontier.push(8, 9), 0);
    assert_eq!(frontier.push(6, 3), 2);
    assert_eq!(frontier.pop(), Some((6, Some(3))));
    assert_eq!(frontier.push(6, 4), 2);
    assert_eq!(frontier.pop(), Some((6, Some(4))));
    assert_eq!(frontier.pop(), Some((6, Some(2))));
    assert_eq!(frontier.pop(), Some((6, Some(1))));
    assert_eq!(frontier.push(6, 5), 0);
    assert_eq!(frontier.pop(), Some((6, Some(5))));
    assert_eq!(frontier.pop(), Some((8, Some(9))));
    assert_eq!(frontier.pop(), None);
}

#[test]
fn a_retired_slot_stays_in_place_and_holds_nothing() {
    let mut frontier = Frontier::new();
    frontier.push(6, 1);
    frontier.push(6, 2);
    frontier.push(6, 3);
    assert_eq!(frontier.retire(6, 1), Some(2));
    assert_eq!(frontier.retire(6, 1), None);
    assert_eq!(frontier.push(6, 4), 3);
    assert_eq!(frontier.pop(), Some((6, Some(4))));
    assert_eq!(frontier.pop(), Some((6, Some(3))));
    assert_eq!(frontier.pop(), Some((6, None)));
    assert_eq!(frontier.pop(), Some((6, Some(1))));
    assert_eq!(frontier.pop(), None);
}

#[test]
fn retiring_a_slot_that_does_not_exist_changes_nothing() {
    let mut frontier = Frontier::new();
    frontier.push(6, 1);
    assert_eq!(frontier.retire(6, 1), None);
    assert_eq!(frontier.retire(6, usize::MAX), None);
    assert_eq!(frontier.retire(5, 0), None);
    assert_eq!(frontier.retire(7, 0), None);
    assert_eq!(frontier.pop(), Some((6, Some(1))));
    assert_eq!(frontier.pop(), None);
}

#[test]
fn a_stack_of_retired_slots_is_still_taken_slot_by_slot() {
    let mut frontier = Frontier::new();
    frontier.push(2, 10);
    frontier.push(2, 11);
    frontier.push(3, 12);
    assert_eq!(frontier.retire(2, 0), Some(10));
    assert_eq!(frontier.retire(2, 1), Some(11));
    assert_eq!(frontier.pop(), Some((2, None)));
    assert_eq!(frontier.pop(), Some((2, None)));
    assert_eq!(frontier.pop(), Some((3, Some(12))));
    assert_eq!(frontier.pop(), None);
}
