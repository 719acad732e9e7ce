use limmb::dataset::DataSet;
use limmb::prob_map::ProbabilityMap;
use limmb::prob_tids::ProbabilityTIDs;
use std::collections::{BTreeSet, HashMap};

fn sample() -> DataSet {
    DataSet::new(vec![
        vec![0, 1, 0],
        vec![1, 1, 0],
        vec![0, 0, 1],
        vec![0, 1, 1],
        vec![1, 1, 0],
    ])
}

fn set(v: &[usize]) -> BTreeSet<usize> {
    v.iter().cloned().collect()
}

fn same_counts(a: &ProbabilityTIDs, b: &ProbabilityTIDs) {
    assert_eq!(a.get_atts(), b.get_atts());
    assert_eq!(a.get_size(), b.get_size());
    let mut ca = a.get_combs();
    ca.sort();
    let mut cb = b.get_combs();
    cb.sort();
    assert_eq!(ca, cb);
    for c in ca {
        assert_eq!(a.f(&c), b.f(&c));
    }
}

#[test]
fn prob_tids_new_marg_counts_rows() {
    let d = sample();
    let p = ProbabilityTIDs::new_marg(&d, set(&[0, 1]));
    assert_eq!(p.get_size(), 3);
    assert_eq!(p.f(&vec![1, 1]), 2);
    assert_eq!(p.f(&vec![0, 1]), 2);
    assert_eq!(p.f(&vec![0, 0]), 1);
    assert_eq!(p.f(&vec![1, 0]), 0);
    assert!(std::ptr::eq(p.get_dataset(), &d));
}

#[test]
fn prob_tids_new_covers_all_attributes() {
    let d = sample();
    let p = ProbabilityTIDs::new(&d);
    assert_eq!(p.get_atts(), &set(&[0, 1, 2]));
    assert_eq!(p.get_size(), 4);
    assert_eq!(p.f(&vec![1, 1, 0]), 2);
}

#[test]
fn prob_tids_merge_of_atoms_is_the_joint_table() {
    let d = sample();
    let a = ProbabilityTIDs::new_marg(&d, set(&[0]));
    let b = ProbabilityTIDs::new_marg(&d, set(&[2]));
    let m = a.merge(&b);
    same_counts(&m, &ProbabilityTIDs::new_marg(&d, set(&[0, 2])));
    assert_eq!(m.f(&vec![1, 0]), 2);
    assert_eq!(m.f(&vec![1, 1]), 0);
}

#[test]
fn prob_tids_merge_with_shared_attributes() {
    let d = sample();
    let a = ProbabilityTIDs::new_marg(&d, set(&[0, 1]));
    let b = ProbabilityTIDs::new_marg(&d, set(&[1, 2]));
    let m = a.merge(&b);
    same_counts(&m, &ProbabilityTIDs::new(&d));
    let n = b.merge(&a);
    same_counts(&n, &m);
}

#[test]
fn prob_tids_merge_with_empty_table() {
    let d = sample();
    let e = ProbabilityTIDs::new_marg(&d, BTreeSet::new());
    assert_eq!(e.get_size(), 1);
    assert_eq!(e.f(&vec![]), 5);
    let a = ProbabilityTIDs::new_marg(&d, set(&[1]));
    same_counts(&e.merge(&a), &a);
    same_counts(&a.merge(&e), &a);
    same_counts(&a.merge(&a), &a);
}

#[test]
fn prob_tids_f_map_and_clone() {
    let d = sample();
    let p = ProbabilityTIDs::new_marg(&d, set(&[1, 2]));
    let mut vals: HashMap<usize, usize> = HashMap::new();
    vals.insert(1, 1);
    vals.insert(2, 0);
    assert_eq!(p.f_map(&vals), 3);
    let c = p.clone();
    same_counts(&c, &p);
}

#[test]
fn prob_tids_into_prob_map_keeps_counts() {
    let d = sample();
    let p = ProbabilityTIDs::new_marg(&d, set(&[0, 2]));
    let combs = p.get_combs();
    let counts: Vec<usize> = combs.iter().map(|c| p.f(c)).collect();
    let m: ProbabilityMap = ProbabilityMap::from(p);
    assert_eq!(m.get_atts(), &set(&[0, 2]));
    assert_eq!(m.get_size(), combs.len());
    for (c, n) in combs.iter().zip(counts) {
        assert_eq!(m.f(c), n);
    }
    let q = ProbabilityTIDs::new_marg(&d, set(&[1]));
    let mq: ProbabilityMap = q.into();
    assert_eq!(mq.f(&vec![1]), 4);
}
