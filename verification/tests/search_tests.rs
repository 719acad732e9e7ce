use limmb::mb::ResultMB;
use limmb::search::{expand, fewest_values};
use std::collections::BTreeSet;

fn set(v: &[usize]) -> BTreeSet<usize> {
    v.iter().cloned().collect()
}

#[test]
fn expand_lists_children_in_order() {
    let kids = expand(&set(&[1]), &vec![4, 2, 7]);
    assert_eq!(kids.len(), 3);
    assert_eq!(kids[0], (set(&[1, 4]), vec![]));
    assert_eq!(kids[1], (set(&[1, 2]), vec![4]));
    assert_eq!(kids[2], (set(&[1, 7]), vec![4, 2]));
    assert!(expand(&set(&[3]), &vec![]).is_empty());
}

#[test]
fn fewest_values_picks_smallest_counts() {
    let nvals = vec![5, 2, 2, 9, 1];
    let all = set(&[0, 1, 2, 3, 4]);
    assert_eq!(fewest_values(&nvals, &all, 3), set(&[4, 1, 2]));
    assert_eq!(fewest_values(&nvals, &all, 1), set(&[4]));
    assert_eq!(fewest_values(&nvals, &all, 10), all);
    assert_eq!(fewest_values(&nvals, &set(&[0, 3]), 1), set(&[0]));
    assert_eq!(fewest_values(&nvals, &set(&[]), 3), set(&[]));
}

#[test]
fn fewest_values_ties_go_to_smaller_index() {
    let nvals = vec![2, 2, 2];
    assert_eq!(fewest_values(&nvals, &set(&[0, 1, 2]), 2), set(&[0, 1]));
    assert_eq!(fewest_values(&nvals, &set(&[2, 1]), 1), set(&[1]));
}

#[test]
fn result_mb_holds_blanket_and_count() {
    let r = ResultMB { mb: set(&[1, 2]), num_ci_test: 7 };
    assert_eq!(r.mb, set(&[1, 2]));
    assert_eq!(r.num_ci_test, 7);
}

#[test]
fn expand_search_reaches_each_subset_once() {
    let mut seen: Vec<BTreeSet<usize>> = Vec::new();
    let mut stack: Vec<(BTreeSet<usize>, Vec<usize>)> = vec![(set(&[9]), vec![0, 1, 2])];
    while let Some((cur, to_add)) = stack.pop() {
        seen.push(cur.clone());
        for child in expand(&cur, &to_add) {
            stack.push(child);
        }
    }
    assert_eq!(seen.len(), 8);
    let distinct: BTreeSet<BTreeSet<usize>> = seen.iter().cloned().collect();
    assert_eq!(distinct.len(), 8);
    for s in &seen {
        assert!(s.contains(&9));
        assert!(s.iter().all(|a| [0, 1, 2, 9].contains(a)));
    }
}
