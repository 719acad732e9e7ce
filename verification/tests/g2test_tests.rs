use limmb::dataset::DataSet;
use limmb::g2test::{below_max_df, checked_scale, g2_df, g2_df_checked, g2_df_eff, g2_df_eff_checked, g2_df_map};
use limmb::prob_map::ProbabilityMap;
use std::collections::BTreeSet;

fn set(v: &[usize]) -> BTreeSet<usize> {
    v.iter().cloned().collect()
}

fn sample() -> DataSet {
    DataSet::new(vec![vec![0, 0, 0], vec![1, 1, 1], vec![0, 2, 0], vec![0, 2, 1]])
}

#[test]
fn g2_df_multiplies_value_counts() {
    let d = sample();
    assert_eq!(d.nvals, vec![2, 3, 2]);
    assert_eq!(g2_df(&d, 0, &set(&[1]), &set(&[2])), 2 * 1 * 2);
    assert_eq!(g2_df(&d, 1, &set(&[0, 2]), &set(&[])), 3 * 2);
    assert_eq!(g2_df(&d, 2, &set(&[]), &set(&[0, 1])), 0);
}

#[test]
fn g2_df_checked_agrees_or_refuses() {
    let d = sample();
    assert_eq!(g2_df_checked(&d, 0, &set(&[1]), &set(&[2])), Some(4));
    assert_eq!(g2_df_checked(&d, 3, &set(&[1]), &set(&[2])), None);
    assert_eq!(g2_df_checked(&d, 0, &set(&[5]), &set(&[2])), None);
    assert_eq!(g2_df_checked(&d, 0, &set(&[1]), &set(&[4])), None);
}

#[test]
fn g2_df_eff_uses_condition_size() {
    let d = sample();
    assert_eq!(g2_df_eff(&set(&[1]), 0, &d, 3), 2 * 1 * 3);
    assert_eq!(g2_df_eff(&set(&[0, 2]), 1, &d, 1), 3 * 2);
}

#[test]
fn g2_df_map_counts_extra_combinations() {
    let d = sample();
    let full = ProbabilityMap::new(&d);
    let xtc = full.marginalize(&set(&[0, 1, 2]));
    let xc = full.marginalize(&set(&[1, 2]));
    let tc = full.marginalize(&set(&[0, 2]));
    let c = full.marginalize(&set(&[2]));
    assert_eq!(xc.get_size(), 4);
    assert_eq!(tc.get_size(), 3);
    assert_eq!(c.get_size(), 2);
    assert_eq!(g2_df_map(&xtc, &xc, &tc, &c), (4 - 2) + (3 - 2));
}

#[test]
fn checked_scale_products_and_overflow() {
    assert_eq!(checked_scale(3, &vec![2, 5], &set(&[0, 1])), Some(30));
    assert_eq!(checked_scale(3, &vec![2, 5], &set(&[])), Some(3));
    assert_eq!(checked_scale(usize::MAX, &vec![2], &set(&[0])), None);
    assert_eq!(checked_scale(1, &vec![2], &set(&[1])), None);
}

#[test]
fn g2_df_eff_checked_agrees_or_refuses() {
    let d = sample();
    assert_eq!(g2_df_eff_checked(&set(&[1]), 0, &d, 3), Some(6));
    assert_eq!(g2_df_eff_checked(&set(&[1]), 9, &d, 3), None);
    assert_eq!(g2_df_eff_checked(&set(&[1]), 0, &d, usize::MAX), None);
    assert_eq!(g2_df_eff_checked(&set(&[]), 0, &d, usize::MAX), Some(0));
}

#[test]
fn below_max_df_keeps_small_additions_in_order() {
    let d = sample();
    // adding 1 to {} gives (3 - 1) * (2 - 1) * 2 = 4; adding 2 gives 1 * 1 * 2 = 2
    assert_eq!(below_max_df(&d, 0, &set(&[]), &set(&[2]), &vec![1, 2], 5), Some(vec![1, 2]));
    assert_eq!(below_max_df(&d, 0, &set(&[]), &set(&[2]), &vec![1, 2], 3), Some(vec![2]));
    assert_eq!(below_max_df(&d, 0, &set(&[]), &set(&[2]), &vec![2, 1], 4), Some(vec![2]));
    assert_eq!(below_max_df(&d, 0, &set(&[]), &set(&[2]), &vec![2, 7], 4), None);
    assert_eq!(below_max_df(&d, 0, &set(&[]), &set(&[2]), &vec![], 4), Some(vec![]));
}
