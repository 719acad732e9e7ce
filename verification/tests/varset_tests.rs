use limmb::combs::count_distinct_at;
use limmb::varset::{ordered_atts, set_of, union_sets, without};
use std::collections::BTreeSet;

fn set(v: &[usize]) -> BTreeSet<usize> {
    v.iter().cloned().collect()
}

#[test]
fn ordered_atts_lists_members_increasing() {
    assert_eq!(ordered_atts(&set(&[9, 2, 5])), vec![2, 5, 9]);
    assert_eq!(ordered_atts(&set(&[])), Vec::<usize>::new());
}

#[test]
fn set_operations() {
    assert_eq!(set_of(&vec![3, 1, 3]), set(&[1, 3]));
    assert_eq!(union_sets(&set(&[1, 4]), &set(&[4, 2])), set(&[1, 2, 4]));
    assert_eq!(without(&set(&[1, 4]), 4), set(&[1]));
    assert_eq!(without(&set(&[1, 4]), 7), set(&[1, 4]));
}

#[test]
fn count_distinct_at_counts_sub_combinations() {
    let combs = vec![vec![0, 1, 5], vec![1, 1, 5], vec![0, 2, 5], vec![0, 1, 6]];
    assert_eq!(count_distinct_at(&combs, &vec![3, 4, 8], &set(&[4, 8])), 3);
    assert_eq!(count_distinct_at(&combs, &vec![3, 4, 8], &set(&[3])), 2);
    assert_eq!(count_distinct_at(&combs, &vec![3, 4, 8], &set(&[8])), 2);
    assert_eq!(count_distinct_at(&combs, &vec![3, 4, 8], &set(&[])), 1);
    assert_eq!(count_distinct_at(&vec![], &vec![3, 4, 8], &set(&[3])), 0);
    assert_eq!(count_distinct_at(&combs, &vec![3, 4, 8], &set(&[3, 4, 8])), 4);
}
