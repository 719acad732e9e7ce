use limmb::dataset::DataSet;
use std::collections::{BTreeSet, HashMap};

fn sample() -> DataSet {
    DataSet::new(vec![vec![5, 7], vec![3, 7], vec![5, 8], vec![9, 8]])
}

#[test]
fn dataset_new_indexes_values_by_first_appearance() {
    let d = sample();
    assert_eq!(d.natts, 2);
    assert_eq!(d.sample_size, 4);
    assert_eq!(d.nvals, vec![3, 2]);
    assert_eq!(d.att_val_to_idx[0][&5], 0);
    assert_eq!(d.att_val_to_idx[0][&3], 1);
    assert_eq!(d.att_val_to_idx[0][&9], 2);
    assert_eq!(d.att_val_to_idx[0].len(), 3);
    assert_eq!(d.att_val_to_idx[1][&7], 0);
    assert_eq!(d.att_val_to_idx[1][&8], 1);
    assert_eq!(d.data[3], vec![9, 8]);
}

#[test]
fn dataset_comb_id_counts_by_index() {
    let d = sample();
    assert_eq!(d.get_comb_id(&vec![0, 1], &vec![9, 8]), 2 + 1 * 3);
    assert_eq!(d.get_comb_id(&vec![1, 0], &vec![8, 3]), 1 + 1 * 2);
}

#[test]
fn dataset_get_vals_inverts_comb_id() {
    let d = sample();
    let atts: BTreeSet<usize> = [0, 1].into_iter().collect();
    let vals = d.get_vals(&atts, 5);
    assert_eq!(vals.len(), 2);
    assert_eq!(vals[&0], 2);
    assert_eq!(vals[&1], 1);
    assert_eq!(d.get_vals_vec(&vec![1, 0], 5), vec![1, 2]);
    assert_eq!(d.get_vals_vec(&vec![0, 1], 5), vec![2, 1]);
}

#[test]
fn dataset_comb_id_map_and_vec() {
    let d = sample();
    let atts: BTreeSet<usize> = [0, 1].into_iter().collect();
    let mut vals: HashMap<usize, usize> = HashMap::new();
    vals.insert(0, 3);
    vals.insert(1, 8);
    assert_eq!(d.get_comb_id_map(&atts, &vals), 1 + 1 * 3);
    assert_eq!(d.get_comb_id_vec(&vec![1], &vec![5, 8]), 1);
    assert_eq!(d.get_comb_id_vec(&vec![0, 1], &vec![9, 7]), 2);
}

fn position(d: &DataSet, row: &Vec<usize>) -> usize {
    d.data.iter().position(|r| std::ptr::eq(r, row)).unwrap()
}

#[test]
fn dataset_random_sample_is_distinct_rows() {
    let d = sample();
    for size in 0..5 {
        let s = d.gen_random_sample(size);
        assert_eq!(s.len(), size);
        let mut seen: BTreeSet<usize> = BTreeSet::new();
        for row in s {
            assert!(seen.insert(position(&d, row)));
        }
    }
}

#[test]
fn dataset_random_sample_of_all_rows_is_a_permutation() {
    let d = sample();
    let s = d.gen_random_sample(4);
    let seen: BTreeSet<usize> = s.iter().map(|r| position(&d, r)).collect();
    assert_eq!(seen, [0, 1, 2, 3].into_iter().collect());
}
