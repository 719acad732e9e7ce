use limmb::combs::count_distinct_at;
use limmb::dataset::DataSet;
use limmb::prob_map::ProbabilityMap;
use std::collections::{BTreeSet, HashMap};

fn sample() -> DataSet {
    DataSet::new(vec![
        vec![0, 1, 0],
        vec![1, 1, 0],
        vec![0, 0, 1],
        vec![0, 1, 1],
        vec![1, 1, 0],
    ])
}

fn set(v: &[usize]) -> BTreeSet<usize> {
    v.iter().cloned().collect()
}

#[test]
fn prob_map_new_counts_full_rows() {
    let d = sample();
    let p = ProbabilityMap::new(&d);
    assert_eq!(p.get_atts(), &set(&[0, 1, 2]));
    assert_eq!(p.get_size(), 4);
    assert_eq!(p.f(&vec![1, 1, 0]), 2);
    assert_eq!(p.f(&vec![0, 1, 0]), 1);
    assert_eq!(p.f(&vec![1, 0, 0]), 0);
    assert_eq!(p.f(&vec![0, 1]), 0);
    assert!(std::ptr::eq(p.get_dataset(), &d));
}

#[test]
fn prob_map_new_marg_counts_projection() {
    let d = sample();
    let p = ProbabilityMap::new_marg(&d, set(&[2, 0]));
    assert_eq!(p.get_size(), 3);
    assert_eq!(p.f(&vec![0, 0]), 1);
    assert_eq!(p.f(&vec![1, 0]), 2);
    assert_eq!(p.f(&vec![0, 1]), 2);
    assert_eq!(p.f(&vec![1, 1]), 0);
}

#[test]
fn prob_map_new_marg_of_no_attributes() {
    let d = sample();
    let p = ProbabilityMap::new_marg(&d, BTreeSet::new());
    assert_eq!(p.get_size(), 1);
    assert_eq!(p.f(&vec![]), 5);
    assert_eq!(p.get_combs(), vec![Vec::<usize>::new()]);
}

#[test]
fn prob_map_marginalize_matches_new_marg() {
    let d = sample();
    let full = ProbabilityMap::new(&d);
    for marg in [set(&[0]), set(&[1]), set(&[2]), set(&[0, 1]), set(&[0, 2]), set(&[1, 2]), set(&[])] {
        let m = full.marginalize(&marg);
        let n = ProbabilityMap::new_marg(&d, marg.clone());
        assert_eq!(m.get_atts(), &marg);
        assert_eq!(m.get_size(), n.get_size());
        let mut combs = n.get_combs();
        combs.sort();
        let mut mcombs = m.get_combs();
        mcombs.sort();
        assert_eq!(combs, mcombs);
        for c in combs {
            assert_eq!(m.f(&c), n.f(&c));
        }
    }
}

#[test]
fn prob_map_marginalize_vec_and_remove_att() {
    let d = sample();
    let full = ProbabilityMap::new(&d);
    let v = full.marginalize_vec(&vec![1, 1]);
    assert_eq!(v.get_atts(), &set(&[1]));
    assert_eq!(v.f(&vec![1]), 4);
    assert_eq!(v.f(&vec![0]), 1);
    let r = full.remove_att(2);
    assert_eq!(r.get_atts(), &set(&[0, 1]));
    assert_eq!(r.f(&vec![1, 1]), 2);
    assert_eq!(r.f(&vec![0, 1]), 2);
    assert_eq!(r.f(&vec![0, 0]), 1);
    let same = full.remove_att(7);
    assert_eq!(same.get_atts(), &set(&[0, 1, 2]));
    assert_eq!(same.f(&vec![1, 1, 0]), 2);
}

#[test]
fn prob_map_counts_add_up_to_rows() {
    let d = sample();
    let p = ProbabilityMap::new_marg(&d, set(&[0, 2]));
    let total: usize = p.get_combs().iter().map(|c| p.f(c)).sum();
    assert_eq!(total, 5);
}

#[test]
fn prob_map_get_combs_once_each() {
    let d = sample();
    let p = ProbabilityMap::new_marg(&d, set(&[1]));
    let mut combs = p.get_combs();
    combs.sort();
    assert_eq!(combs, vec![vec![0], vec![1]]);
}

#[test]
fn prob_map_f_map_reads_the_table_attributes() {
    let d = sample();
    let p = ProbabilityMap::new_marg(&d, set(&[0, 1]));
    let mut vals: HashMap<usize, usize> = HashMap::new();
    vals.insert(0, 1);
    vals.insert(1, 1);
    vals.insert(2, 9);
    assert_eq!(p.f_map(&vals), 2);
    vals.insert(0, 0);
    assert_eq!(p.f_map(&vals), 2);
}

#[test]
fn prob_map_clone_keeps_counts() {
    let d = sample();
    let p = ProbabilityMap::new_marg(&d, set(&[0, 1]));
    let c = p.clone();
    assert_eq!(c.get_atts(), p.get_atts());
    assert_eq!(c.get_size(), p.get_size());
    for comb in p.get_combs() {
        assert_eq!(c.f(&comb), p.f(&comb));
    }
}

#[test]
fn prob_map_predict_takes_most_frequent_value() {
    let d = sample();
    let p = ProbabilityMap::new(&d);
    let mut cond: HashMap<usize, usize> = HashMap::new();
    cond.insert(1, 1);
    cond.insert(2, 0);
    assert_eq!(p.predict(&mut cond, 0), 1);
    assert_eq!(cond[&0], 1);
    assert_eq!(cond[&1], 1);
    assert_eq!(cond[&2], 0);
}

#[test]
fn prob_map_predict_breaks_ties_to_smallest() {
    let d = sample();
    let p = ProbabilityMap::new(&d);
    let mut cond: HashMap<usize, usize> = HashMap::new();
    cond.insert(0, 0);
    cond.insert(1, 1);
    assert_eq!(p.predict(&mut cond, 2), 0);
    assert_eq!(cond[&2], 1);
}

#[test]
fn prob_map_predict_unseen_condition_gives_zero() {
    let d = sample();
    let p = ProbabilityMap::new(&d);
    let mut cond: HashMap<usize, usize> = HashMap::new();
    cond.insert(0, 1);
    cond.insert(1, 0);
    assert_eq!(p.predict(&mut cond, 2), 0);
}

#[test]
fn prob_map_distinct_values_are_the_marginal_combinations() {
    let d = sample();
    let p = ProbabilityMap::new_marg(&d, set(&[0, 1, 2]));
    let atts: Vec<usize> = p.get_atts().iter().cloned().collect();
    for sub in [set(&[0]), set(&[1, 2]), set(&[0, 2]), set(&[])] {
        let m = ProbabilityMap::new_marg(&d, sub.clone());
        assert_eq!(count_distinct_at(&p.get_combs(), &atts, &sub), m.get_size());
    }
}
