use linkpath::frontier::{Frontier, PQEntry};

fn entry(distance: u128, idx: usize) -> PQEntry {
    PQEntry { distance, idx }
}

#[test]
fn new_frontier_is_empty() {
    let mut frontier = Frontier::new();
    assert!(frontier.is_empty());
    assert_eq!(frontier.len(), 0);
    assert_eq!(frontier.peek_best(), None);
    assert_eq!(frontier.pop_best(), None);
    assert_eq!(frontier.peek_best_n(3), vec![]);
}

#[test]
fn cheaper_entry_comes_before() {
    assert!(entry(1, 0).comes_before(&entry(2, 9)));
    assert!(!entry(2, 9).comes_before(&entry(1, 0)));
}

#[test]
fn later_node_comes_before_on_equal_cost() {
    assert!(entry(4, 7).comes_before(&entry(4, 3)));
    assert!(!entry(4, 3).comes_before(&entry(4, 7)));
    assert!(!entry(4, 3).comes_before(&entry(4, 3)));
}

#[test]
fn pop_best_returns_entries_by_ascending_cost() {
    let mut frontier = Frontier::new();
    for (cost, idx) in [(5, 1), (2, 2), (9, 3), (1, 4), (7, 5)] {
        frontier.insert(entry(cost, idx));
    }
    assert_eq!(frontier.len(), 5);
    let mut costs = Vec::new();
    while let Some(best) = frontier.pop_best() {
        costs.push(best.distance);
    }
    assert_eq!(costs, vec![1, 2, 5, 7, 9]);
    assert!(frontier.is_empty());
}

#[test]
fn pop_best_breaks_ties_by_the_larger_index() {
    let mut frontier = Frontier::new();
    frontier.insert(entry(3, 1));
    frontier.insert(entry(3, 5));
    frontier.insert(entry(3, 2));
    frontier.insert(entry(1, 0));
    assert_eq!(frontier.pop_best(), Some(entry(1, 0)));
    assert_eq!(frontier.pop_best(), Some(entry(3, 5)));
    assert_eq!(frontier.pop_best(), Some(entry(3, 2)));
    assert_eq!(frontier.pop_best(), Some(entry(3, 1)));
    assert_eq!(frontier.pop_best(), None);
}

#[test]
fn peek_best_leaves_the_entry_queued() {
    let mut frontier = Frontier::new();
    frontier.insert(entry(4, 1));
    frontier.insert(entry(2, 2));
    assert_eq!(frontier.peek_best(), Some(entry(2, 2)));
    assert_eq!(frontier.len(), 2);
    assert_eq!(frontier.pop_best(), Some(entry(2, 2)));
    assert_eq!(frontier.peek_best(), Some(entry(4, 1)));
}

#[test]
fn peek_best_n_lists_the_cheapest_in_order() {
    let mut frontier = Frontier::new();
    for (cost, idx) in [(5, 1), (2, 2), (9, 3), (2, 4), (7, 5)] {
        frontier.insert(entry(cost, idx));
    }
    assert_eq!(frontier.peek_best_n(0), vec![]);
    assert_eq!(frontier.peek_best_n(3), vec![entry(2, 4), entry(2, 2), entry(5, 1)]);
    assert_eq!(
        frontier.peek_best_n(8),
        vec![entry(2, 4), entry(2, 2), entry(5, 1), entry(7, 5), entry(9, 3)]
    );
    assert_eq!(frontier.len(), 5);
}

#[test]
fn cost_of_a_queued_entry_is_never_recomputed() {
    let mut frontier = Frontier::new();
    frontier.insert(entry(6, 1));
    frontier.insert(entry(3, 2));
    frontier.insert(entry(1, 3));
    assert_eq!(frontier.pop_best(), Some(entry(1, 3)));
    frontier.insert(entry(4, 4));
    assert_eq!(frontier.peek_best_n(3), vec![entry(3, 2), entry(4, 4), entry(6, 1)]);
}
