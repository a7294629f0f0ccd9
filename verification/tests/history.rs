use std::collections::HashMap;

use fvcs::history::HistoryWalk;

fn walk_all(tips: &[&str], parents: &HashMap<&str, &str>) -> HistoryWalk {
    let mut walk = HistoryWalk::new(tips.iter().map(|t| t.to_string()).collect());
    while let Some(h) = walk.next() {
        walk.report(parents.get(h.as_str()).map(|p| p.to_string()));
    }
    walk
}

#[test]
fn reachable_and_ancestor() {
    // a chain of three commits, each the parent of the next
    let chain = ["c0", "c1", "c2"];
    let parents: HashMap<&str, &str> = [(chain[2], chain[1]), (chain[1], chain[0])].into_iter().collect();
    let from_tip = walk_all(&[chain[2]], &parents);
    assert!(from_tip.is_over());
    assert_eq!(from_tip.visited_sorted().len(), 3);
    assert!(from_tip.has_visited(chain[0]));
    let from_root = walk_all(&[chain[0]], &parents);
    assert!(!from_root.has_visited(chain[2]));
    assert_eq!(from_root.visited_sorted(), vec!["c0"]);
}

#[test]
fn shared_history_visited_once() {
    let parents: HashMap<&str, &str> = [("a2", "a1"), ("b1", "a1"), ("a1", "root")].into_iter().collect();
    let mut walk = HistoryWalk::new(vec!["a2".to_string(), "b1".to_string(), "a2".to_string()]);
    let mut order = Vec::new();
    while let Some(h) = walk.next() {
        order.push(h.clone());
        assert!(!walk.is_over());
        walk.report(parents.get(h.as_str()).map(|p| p.to_string()));
    }
    assert_eq!(order, vec!["a2", "b1", "a1", "root"]);
    assert_eq!(walk.visited_sorted().len(), 4);
    assert!(walk.is_over());
}

#[test]
fn empty_walk_is_over() {
    let mut walk = HistoryWalk::new(vec![]);
    assert!(walk.is_over());
    assert_eq!(walk.next(), None);
    assert!(walk.visited_sorted().is_empty());
}

#[test]
fn log_count_limits_what_is_shown() {
    assert!(fvcs::history::log_shows_more(None, 1_000));
    assert!(fvcs::history::log_shows_more(Some(2), 1));
    assert!(!fvcs::history::log_shows_more(Some(2), 2));
    assert!(!fvcs::history::log_shows_more(Some(0), 0));
}
