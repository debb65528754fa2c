use anima_solver::frontier::{Frontier, Node};
use anima_solver::State;

fn node(estimate: u128, index: usize) -> Node {
    let (state, _) = State::parse(".\n\nR 0 0").unwrap();
    Node { state, distance: index, estimate, index }
}

#[test]
fn empty_frontier_gives_nothing() {
    let mut frontier = Frontier::new();
    assert_eq!(frontier.len(), 0);
    assert!(frontier.pop().is_none());
    assert_eq!(frontier.len(), 0);
}

#[test]
fn least_estimate_comes_first() {
    let mut frontier = Frontier::new();
    let estimates = [7u128, 3, 9, 1, 8, 2, 2, 10, 0, 5, 4, 6, 3];
    for (k, e) in estimates.iter().enumerate() {
        frontier.push(node(*e, k));
        assert_eq!(frontier.len(), k + 1);
    }
    let mut seen = Vec::new();
    let mut indices = Vec::new();
    while let Some(n) = frontier.pop() {
        seen.push(n.estimate);
        indices.push(n.index);
    }
    let mut sorted = estimates.to_vec();
    sorted.sort();
    assert_eq!(seen, sorted);
    indices.sort();
    assert_eq!(indices, (0..estimates.len()).collect::<Vec<_>>());
    assert_eq!(frontier.len(), 0);
}

#[test]
fn pushes_and_pops_may_alternate() {
    let mut frontier = Frontier::new();
    frontier.push(node(5, 1));
    frontier.push(node(3, 2));
    assert_eq!(frontier.pop().unwrap().estimate, 3);
    frontier.push(node(4, 3));
    frontier.push(node(u128::MAX, 4));
    frontier.push(node(1, 5));
    assert_eq!(frontier.pop().unwrap().index, 5);
    assert_eq!(frontier.pop().unwrap().estimate, 4);
    assert_eq!(frontier.pop().unwrap().estimate, 5);
    assert_eq!(frontier.pop().unwrap().estimate, u128::MAX);
    assert!(frontier.pop().is_none());
}
