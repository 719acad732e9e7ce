use limmb::metadata::MetaData;
use std::collections::{BTreeSet, HashMap};

fn sample() -> Vec<Vec<usize>> {
    vec![vec![0, 1], vec![2, 0], vec![1, 1]]
}

#[test]
fn metadata_new_counts_values() {
    let m = MetaData::new(&sample());
    assert_eq!(m.natts, 2);
    assert_eq!(m.sample_size, 3);
    assert_eq!(m.nvals, vec![3, 2]);
}

#[test]
fn metadata_new_short_rows() {
    let data = vec![vec![0, 4, 1], vec![3]];
    let m = MetaData::new(&data);
    assert_eq!(m.natts, 3);
    assert_eq!(m.nvals, vec![4, 5, 2]);
}

#[test]
fn metadata_comb_id_is_mixed_radix() {
    let m = MetaData::new(&sample());
    assert_eq!(m.get_comb_id(&vec![0, 1], &vec![2, 1]), 5);
    assert_eq!(m.get_comb_id(&vec![1, 0], &vec![1, 2]), 5);
    assert_eq!(m.get_comb_id(&vec![], &vec![]), 0);
}

#[test]
fn metadata_get_vals_inverts_comb_id() {
    let m = MetaData::new(&sample());
    let atts: BTreeSet<usize> = [0, 1].into_iter().collect();
    for a in 0..3 {
        for b in 0..2 {
            let id = m.get_comb_id(&vec![0, 1], &vec![a, b]);
            let vals = m.get_vals(&atts, id);
            assert_eq!(vals.len(), 2);
            assert_eq!(vals[&0], a);
            assert_eq!(vals[&1], b);
        }
    }
}

#[test]
fn metadata_get_vals_last_takes_the_rest() {
    let m = MetaData::new(&sample());
    let atts: BTreeSet<usize> = [0, 1].into_iter().collect();
    let vals = m.get_vals(&atts, 7);
    assert_eq!(vals[&0], 1);
    assert_eq!(vals[&1], 2);
}

#[test]
fn metadata_comb_id_map_and_vec() {
    let m = MetaData::new(&sample());
    let atts: BTreeSet<usize> = [0, 1].into_iter().collect();
    let mut vals: HashMap<usize, usize> = HashMap::new();
    vals.insert(0, 1);
    vals.insert(1, 1);
    assert_eq!(m.get_comb_id_map(&atts, &vals), 4);
    assert_eq!(m.get_comb_id_vec(&vec![1], &vec![2, 1]), 1);
    assert_eq!(m.get_comb_id_vec(&vec![1, 0], &vec![2, 1]), 1 + 2 * 2);
}
