//! A discrete data set: rows of attribute values, and for each attribute the
//! index of each value it takes, in order of first appearance.
use vstd::prelude::*;
use std::collections::BTreeSet;
use std::collections::HashMap;

use crate::combs::{project, rows_of};
use crate::metadata::{decode_comb_id, project_row, values_at};
use crate::radix::{
    decode_digit, lemma_value_mono, radices_of, radix_value, weight, weights_fit,
};
use crate::random::{random_index, thread_rng};
use crate::varset::{is_var_order, ordered_atts, var_seq};

verus! {

/// Rows of attribute values; `natts` attributes, read from the first row;
/// for each attribute, the index of each value it takes (`att_val_to_idx`)
/// and how many values it takes (`nvals`); `sample_size` rows.
pub struct DataSet {
    pub data: Vec<Vec<usize>>,
    pub natts: usize,
    pub att_val_to_idx: Vec<HashMap<usize, usize>>,
    pub nvals: Vec<usize>,
    pub sample_size: usize,
}

/// The distinct values of column `c`, in the order in which the rows first
/// show them.
pub open spec fn first_seen(rows: Seq<Seq<usize>>, c: int) -> Seq<usize>
    decreases rows.len(),
{
    if rows.len() == 0 {
        Seq::empty()
    } else {
        let prev = first_seen(rows.drop_last(), c);
        let last = rows.last();
        if 0 <= c < last.len() && !prev.contains(last[c]) {
            prev.push(last[c])
        } else {
            prev
        }
    }
}

/// `m` gives each value of `vals` its position there.
pub open spec fn indexes(m: Map<usize, usize>, vals: Seq<usize>) -> bool {
    &&& m.dom() == vals.to_set()
    &&& forall|j: int| 0 <= j < vals.len() ==> #[trigger] m[vals[j]] == j
}

/// The index digits of the values `vals` at the attributes `atts`.
pub open spec fn index_digits(
    maps: Seq<HashMap<usize, usize>>,
    atts: Seq<usize>,
    vals: Seq<usize>,
) -> Seq<nat> {
    Seq::new(atts.len(), |i: int| maps[atts[i] as int]@[vals[i]] as nat)
}

/// Some row takes the value `v` in column `c`.
pub open spec fn column_takes(rows: Seq<Seq<usize>>, c: int, v: usize) -> bool {
    exists|i: int| 0 <= i < rows.len() && 0 <= c < rows[i].len() && rows[i][c] == v
}

/// The distinct values of a column are listed once each, every value the
/// column takes is listed, and every listed value is taken by some row.
pub proof fn law_first_seen(rows: Seq<Seq<usize>>, c: int)
    ensures
        first_seen(rows, c).no_duplicates(),
        first_seen(rows, c).len() <= rows.len(),
        forall|i: int| 0 <= i < rows.len() && 0 <= c < rows[i].len() ==> first_seen(rows, c).contains(
            #[trigger] rows[i][c],
        ),
        forall|j: int| 0 <= j < first_seen(rows, c).len() ==> column_takes(rows, c, #[trigger] first_seen(rows, c)[j]),
    decreases rows.len(),
{
    if rows.len() > 0 {
        let d = rows.drop_last();
        law_first_seen(d, c);
        let prev = first_seen(d, c);
        let cur = first_seen(rows, c);
        assert forall|i: int| 0 <= i < rows.len() && 0 <= c < rows[i].len() implies cur.contains(#[trigger] rows[i][c]) by {
            if i < rows.len() - 1 {
                assert(d[i] == rows[i]);
                assert(prev.contains(d[i][c]));
                let k = choose|k: int| 0 <= k < prev.len() && prev[k] == d[i][c];
                assert(cur[k] == prev[k]);
            } else {
                if !prev.contains(rows[i][c]) {
                    assert(cur[prev.len() as int] == rows[i][c]);
                }
                else {
                    let k = choose|k: int| 0 <= k < prev.len() && prev[k] == rows[i][c];
                    assert(cur[k] == prev[k]);
                }
            }
        }
        assert forall|j: int| 0 <= j < cur.len() implies column_takes(rows, c, #[trigger] cur[j]) by {
            if j < prev.len() {
                assert(cur[j] == prev[j]);
                assert(column_takes(d, c, prev[j]));
                let i = choose|i: int| 0 <= i < d.len() && 0 <= c < d[i].len() && d[i][c] == prev[j];
                assert(rows[i] == d[i]);
                assert(0 <= i < rows.len() && 0 <= c < rows[i].len() && rows[i][c] == cur[j]);
            } else {
                let i = rows.len() - 1;
                assert(rows[i] == rows.last());
                assert(0 <= i < rows.len() && 0 <= c < rows[i].len() && rows[i][c] == cur[j]);
            }
        }
    }
}

proof fn lemma_first_seen_step(rows: Seq<Seq<usize>>, c: int, k: int)
    requires
        0 <= k < rows.len(),
    ensures
        first_seen(rows.take(k + 1), c) == ({
            let prev = first_seen(rows.take(k), c);
            if 0 <= c < rows[k].len() && !prev.contains(rows[k][c]) {
                prev.push(rows[k][c])
            } else {
                prev
            }
        }),
{
    assert(rows.take(k + 1).drop_last() == rows.take(k));
}

proof fn lemma_indexes_len(m: Map<usize, usize>, vals: Seq<usize>)
    requires
        indexes(m, vals),
        vals.no_duplicates(),
    ensures
        m.dom().finite(),
        m.dom().len() == vals.len(),
{
    vals.unique_seq_to_set();
}

impl DataSet {
    /// Takes the number of attributes from the first row and gives each value
    /// of each attribute an index, in order of first appearance.
    pub fn new(data: Vec<Vec<usize>>) -> (d: Self)
        requires
            data.len() > 0,
            forall|i: int| 0 <= i < data.len() ==> #[trigger] data[i].len() <= data[0].len(),
        ensures
            d.data == data,
            d.natts == data[0].len(),
            d.sample_size == data.len(),
            d.nvals.len() == d.natts,
            d.att_val_to_idx.len() == d.natts,
            forall|c: int| 0 <= c < d.natts ==> d.nvals[c] == first_seen(rows_of(data@), c).len(),
            forall|c: int| 0 <= c < d.natts ==> indexes(#[trigger] d.att_val_to_idx[c]@, first_seen(rows_of(data@), c)),
    {
        broadcast use vstd::std_specs::hash::group_hash_axioms;

        let ghost rows = rows_of(data@);
        let natts = data[0].len();
        let mut att_val_to_idx: Vec<HashMap<usize, usize>> = Vec::new();
        let mut nvals: Vec<usize> = Vec::new();
        let mut c: usize = 0;
        while c < natts
            invariant
                c <= natts,
                nvals.len() == c,
                att_val_to_idx.len() == c,
                forall|j: int| 0 <= j < c ==> nvals[j] == 0,
                forall|j: int| 0 <= j < c ==> #[trigger] att_val_to_idx[j]@ == Map::<usize, usize>::empty(),
            decreases natts - c,
        {
            att_val_to_idx.push(HashMap::new());
            nvals.push(0);
            c = c + 1;
        }
        proof {
            assert forall|j: int| 0 <= j < natts implies indexes(#[trigger] att_val_to_idx[j]@, first_seen(rows.take(0), j)) by {
                assert(first_seen(rows.take(0), j) =~= Seq::<usize>::empty());
                assert(Seq::<usize>::empty().to_set() =~= Set::empty());
            }
        }
        let sample_size = data.len();
        let mut k: usize = 0;
        while k < data.len()
            invariant
                k <= data.len(),
                rows == rows_of(data@),
                natts == data[0].len(),
                nvals.len() == natts,
                att_val_to_idx.len() == natts,
                forall|i: int| 0 <= i < data.len() ==> #[trigger] data[i].len() <= data[0].len(),
                forall|j: int| 0 <= j < natts ==> nvals[j] == first_seen(rows.take(k as int), j).len(),
                forall|j: int| 0 <= j < natts ==> indexes(#[trigger] att_val_to_idx[j]@, first_seen(rows.take(k as int), j)),
            decreases data.len() - k,
        {
            let row = &data[k];
            let mut i: usize = 0;
            while i < row.len()
                invariant
                    k < data.len(),
                    row == &data[k as int],
                    rows == rows_of(data@),
                    row.len() <= natts,
                    nvals.len() == natts,
                    att_val_to_idx.len() == natts,
                    i <= row.len(),
                    forall|j: int| 0 <= j < natts ==> nvals[j] == (if j < i {
                        first_seen(rows.take(k + 1), j)
                    } else {
                        first_seen(rows.take(k as int), j)
                    }).len(),
                    forall|j: int| 0 <= j < natts ==> indexes(#[trigger] att_val_to_idx[j]@, if j < i {
                        first_seen(rows.take(k + 1), j)
                    } else {
                        first_seen(rows.take(k as int), j)
                    }),
                decreases row.len() - i,
            {
                proof {
                    lemma_first_seen_step(rows, i as int, k as int);
                    assert(rows[k as int] == row@);
                    law_first_seen(rows.take(k as int), i as int);
                    law_first_seen(rows.take(k + 1), i as int);
                }
                let ghost s = first_seen(rows.take(k as int), i as int);
                if !att_val_to_idx[i].contains_key(&row[i]) {
                    proof {
                        lemma_indexes_len(att_val_to_idx[i as int]@, s);
                        assert(!s.contains(row@[i as int])) by {
                            if s.contains(row@[i as int]) {
                                assert(s.to_set().contains(row@[i as int]));
                            }
                        }
                    }
                    let cur_idx = att_val_to_idx[i].len();
                    let ghost before = att_val_to_idx[i as int]@;
                    att_val_to_idx[i].insert(row[i], cur_idx);
                    nvals.set(i, cur_idx + 1);
                    proof {
                        let s2 = s.push(row@[i as int]);
                        assert(att_val_to_idx[i as int]@ == before.insert(row@[i as int], cur_idx));
                        assert(att_val_to_idx[i as int]@.dom() =~= s2.to_set()) by {
                            s.lemma_push_to_set_commute(row@[i as int]);
                        }
                        assert forall|j: int| 0 <= j < s2.len() implies #[trigger] att_val_to_idx[i as int]@[s2[j]] == j by {
                            if j < s.len() {
                                assert(s2[j] == s[j]);
                                assert(s[j] != row@[i as int]);
                            }
                        }
                    }
                } else {
                    proof {
                        assert(s.to_set().contains(row@[i as int]));
                    }
                }
                i = i + 1;
            }
            proof {
                assert forall|j: int| 0 <= j < natts && j >= row.len() implies first_seen(rows.take(k + 1), j) == first_seen(rows.take(k as int), j) by {
                    lemma_first_seen_step(rows, j, k as int);
                    assert(rows[k as int] == row@);
                }
            }
            k = k + 1;
        }
        assert(rows.take(data.len() as int) == rows);
        DataSet { data, natts, att_val_to_idx, nvals, sample_size }
    }

    /// Numbers the combination that gives attribute `atts[i]` the value
    /// `vals[i]`: each value counts by its index, with radix `nvals[atts[i]]`
    /// at position `i`.
    pub fn get_comb_id(&self, atts: &Vec<usize>, vals: &Vec<usize>) -> (id: usize)
        requires
            atts.len() <= vals.len(),
            forall|i: int|
                0 <= i < atts.len() ==> #[trigger] atts[i] < self.nvals.len() && atts[i] < self.att_val_to_idx.len()
                    && self.att_val_to_idx[atts[i] as int]@.contains_key(vals[i]),
            weights_fit(radices_of(self.nvals@, atts@)),
            radix_value(index_digits(self.att_val_to_idx@, atts@, vals@), radices_of(self.nvals@, atts@), atts.len() as int) <= usize::MAX,
        ensures
            id == radix_value(index_digits(self.att_val_to_idx@, atts@, vals@), radices_of(self.nvals@, atts@), atts.len() as int),
    {
        broadcast use vstd::std_specs::hash::group_hash_axioms;

        let ghost r = radices_of(self.nvals@, atts@);
        let ghost d = index_digits(self.att_val_to_idx@, atts@, vals@);
        let mut base: usize = 1;
        let mut hash: usize = 0;
        let mut i: usize = 0;
        while i < atts.len()
            invariant
                i <= atts.len(),
                atts.len() <= vals.len(),
                r == radices_of(self.nvals@, atts@),
                d == index_digits(self.att_val_to_idx@, atts@, vals@),
                forall|j: int|
                    0 <= j < atts.len() ==> #[trigger] atts[j] < self.nvals.len() && atts[j] < self.att_val_to_idx.len()
                        && self.att_val_to_idx[atts[j] as int]@.contains_key(vals[j]),
                weights_fit(r),
                radix_value(d, r, atts.len() as int) <= usize::MAX,
                hash == radix_value(d, r, i as int),
                base == weight(r, i as int),
            decreases atts.len() - i,
        {
            let att = atts[i];
            let idx = *self.att_val_to_idx[att].get(&vals[i]).unwrap();
            proof {
                assert(self.att_val_to_idx[atts[i as int] as int]@.contains_key(vals[i as int]));
                assert(idx == d[i as int]);
                lemma_value_mono(d, r, i + 1, atts.len() as int);
                vstd::arithmetic::mul::lemma_mul_nonnegative(d[i as int] as int, weight(r, i as int) as int);
                assert(weight(r, i + 1) <= usize::MAX);
            }
            hash = hash + idx * base;
            base = base * self.nvals[att];
            i = i + 1;
        }
        hash
    }

    /// Decodes `comb_id` into one index per attribute of `atts`, taking the
    /// attributes in increasing order.
    pub fn get_vals(&self, atts: &BTreeSet<usize>, comb_id: usize) -> (vals: HashMap<usize, usize>)
        requires
            forall|a: usize| atts@.contains(a) ==> a < self.nvals.len() && self.nvals[a as int] > 0,
            weight(radices_of(self.nvals@, var_seq(atts@)), var_seq(atts@).len() as int) <= usize::MAX,
        ensures
            vals@.dom() == atts@,
            forall|i: int|
                0 <= i < var_seq(atts@).len() ==> vals@[var_seq(atts@)[i]] == decode_digit(
                    comb_id as nat,
                    radices_of(self.nvals@, var_seq(atts@)),
                    i,
                ),
    {
        broadcast use vstd::std_specs::hash::group_hash_axioms;

        let att_ord = ordered_atts(atts);
        let vals_ord = decode_comb_id(&self.nvals, &att_ord, comb_id);
        let mut vals: HashMap<usize, usize> = HashMap::new();
        let mut i: usize = 0;
        while i < att_ord.len()
            invariant
                i <= att_ord.len(),
                vals_ord.len() == att_ord.len(),
                is_var_order(att_ord@),
                vals@.dom() == att_ord@.take(i as int).to_set(),
                forall|j: int| 0 <= j < i ==> vals@.contains_key(#[trigger] att_ord@[j]) && vals@[att_ord@[j]] == vals_ord@[j],
            decreases att_ord.len() - i,
        {
            let ghost before = vals@;
            vals.insert(att_ord[i], vals_ord[i]);
            proof {
                assert forall|j: int| 0 <= j < i implies att_ord@[j] != att_ord@[i as int] by {}
                assert(vals@ == before.insert(att_ord@[i as int], vals_ord@[i as int]));
                att_ord@.take(i as int).lemma_push_to_set_commute(att_ord@[i as int]);
                assert(att_ord@.take(i + 1) == att_ord@.take(i as int).push(att_ord@[i as int]));
            }
            i = i + 1;
        }
        assert(att_ord@.take(i as int) == att_ord@);
        vals
    }

    /// Decodes `comb_id` into one index per attribute of `atts`, in the order
    /// of `atts`.
    pub fn get_vals_vec(&self, atts: &Vec<usize>, comb_id: usize) -> (vals: Vec<usize>)
        requires
            forall|i: int| 0 <= i < atts.len() ==> atts[i] < self.nvals.len() && self.nvals[atts[i] as int] > 0,
            weight(radices_of(self.nvals@, atts@), atts.len() as int) <= usize::MAX,
        ensures
            vals.len() == atts.len(),
            forall|i: int| 0 <= i < atts.len() ==> vals[i] == decode_digit(comb_id as nat, radices_of(self.nvals@, atts@), i),
    {
        decode_comb_id(&self.nvals, atts, comb_id)
    }

    /// The number of the combination that `vals` gives the attributes of
    /// `att_subset`, taken in increasing order.
    pub fn get_comb_id_map(&self, att_subset: &BTreeSet<usize>, vals: &HashMap<usize, usize>) -> (id: usize)
        requires
            forall|a: usize|
                #[trigger] att_subset@.contains(a) ==> vals@.contains_key(a) && a < self.nvals.len() && a < self.att_val_to_idx.len()
                    && self.att_val_to_idx[a as int]@.contains_key(vals@[a]),
            weights_fit(radices_of(self.nvals@, var_seq(att_subset@))),
            radix_value(
                index_digits(self.att_val_to_idx@, var_seq(att_subset@), var_seq(att_subset@).map_values(|a: usize| vals@[a])),
                radices_of(self.nvals@, var_seq(att_subset@)),
                var_seq(att_subset@).len() as int,
            ) <= usize::MAX,
        ensures
            id == radix_value(
                index_digits(self.att_val_to_idx@, var_seq(att_subset@), var_seq(att_subset@).map_values(|a: usize| vals@[a])),
                radices_of(self.nvals@, var_seq(att_subset@)),
                var_seq(att_subset@).len() as int,
            ),
    {
        let atts = ordered_atts(att_subset);
        proof {
            assert forall|i: int| 0 <= i < atts.len() implies vals@.contains_key(#[trigger] atts@[i]) by {
                assert(att_subset@.contains(atts@[i]));
            }
        }
        let vals_v = values_at(&atts, vals);
        proof {
            assert forall|i: int| 0 <= i < atts.len() implies #[trigger] atts@[i] < self.nvals.len() && atts@[i] < self.att_val_to_idx.len()
                    && self.att_val_to_idx[atts@[i] as int]@.contains_key(vals_v[i]) by {
                assert(att_subset@.contains(atts@[i]));
            }
        }
        self.get_comb_id(&atts, &vals_v)
    }

    /// The number of the combination that the full row `vals` gives the
    /// attributes `att_subset`.
    pub fn get_comb_id_vec(&self, att_subset: &Vec<usize>, vals: &Vec<usize>) -> (id: usize)
        requires
            forall|i: int|
                0 <= i < att_subset.len() ==> #[trigger] att_subset[i] < vals.len() && att_subset[i] < self.nvals.len()
                    && att_subset[i] < self.att_val_to_idx.len()
                    && self.att_val_to_idx[att_subset[i] as int]@.contains_key(vals[att_subset[i] as int]),
            weights_fit(radices_of(self.nvals@, att_subset@)),
            radix_value(
                index_digits(self.att_val_to_idx@, att_subset@, project(vals@, att_subset@)),
                radices_of(self.nvals@, att_subset@),
                att_subset.len() as int,
            ) <= usize::MAX,
        ensures
            id == radix_value(
                index_digits(self.att_val_to_idx@, att_subset@, project(vals@, att_subset@)),
                radices_of(self.nvals@, att_subset@),
                att_subset.len() as int,
            ),
    {
        let atts = att_subset.clone();
        proof {
            assert forall|i: int| 0 <= i < atts.len() implies #[trigger] atts@[i] < vals.len() by {
                assert(att_subset@[i] == atts@[i]);
            }
        }
        let vals_v = project_row(vals, &atts);
        self.get_comb_id(&atts, &vals_v)
    }

    /// Draws `size` distinct rows at random.
    pub fn gen_random_sample(&self, size: usize) -> (sample: Vec<&Vec<usize>>)
        requires
            size <= self.sample_size,
            self.sample_size <= self.data.len(),
        ensures
            sample.len() == size,
            exists|idx: Seq<usize>|
                {
                    &&& idx.len() == size
                    &&& idx.no_duplicates()
                    &&& forall|k: int|
                        0 <= k < size ==> idx[k] < self.sample_size && #[trigger] sample@[k] == &self.data@[idx[k] as int]
                },
            exists|draws: Seq<usize>|
                {
                    &&& valid_draws(self.sample_size, draws)
                    &&& draws.len() == size
                    &&& forall|k: int|
                        0 <= k < size ==> #[trigger] sample@[k] == &self.data@[sample_of(self.sample_size, draws)[k] as int]
                },
    {
        let (random_indices, Ghost(draws)) = gen_random_sample_indices(self.sample_size, size);
        let mut sample: Vec<&Vec<usize>> = Vec::new();
        let mut k: usize = 0;
        while k < random_indices.len()
            invariant
                k <= random_indices.len(),
                random_indices.len() == size,
                self.sample_size <= self.data.len(),
                forall|j: int| 0 <= j < size ==> random_indices[j] < self.sample_size,
                sample.len() == k,
                forall|j: int| 0 <= j < k ==> #[trigger] sample@[j] == &self.data@[random_indices[j] as int],
            decreases random_indices.len() - k,
        {
            sample.push(&self.data[random_indices[k]]);
            k = k + 1;
        }
        assert(forall|j: int| 0 <= j < size ==> random_indices@[j] < self.sample_size);
        assert(forall|j: int| 0 <= j < size ==> #[trigger] sample@[j] == &self.data@[sample_of(self.sample_size, draws)[j] as int]);
        sample
    }
}

/// `0..n` after the swaps of a partial Fisher-Yates shuffle: step `i` swaps
/// positions `i` and `draws[i]`.
pub open spec fn shuffled(n: usize, draws: Seq<usize>) -> Seq<usize>
    decreases draws.len(),
{
    if draws.len() == 0 {
        Seq::new(n as nat, |k: int| k as usize)
    } else {
        let s = shuffled(n, draws.drop_last());
        let i = draws.len() - 1;
        let j = draws.last() as int;
        s.update(i, s[j]).update(j, s[i])
    }
}

/// Draws that a partial Fisher-Yates shuffle of `0..n` can make: the `i`-th
/// lies in `i..n`.
pub open spec fn valid_draws(n: usize, draws: Seq<usize>) -> bool {
    &&& draws.len() <= n
    &&& forall|i: int| 0 <= i < draws.len() ==> i <= #[trigger] draws[i] < n
}

/// The indices that a partial Fisher-Yates shuffle of `0..n` with the draws
/// `draws` selects: the first `draws.len()` entries after the swaps.
pub open spec fn sample_of(n: usize, draws: Seq<usize>) -> Seq<usize> {
    shuffled(n, draws).take(draws.len() as int)
}

/// After any valid draws, the shuffle holds each index of `0..n` once.
proof fn lemma_shuffled_permutation(n: usize, draws: Seq<usize>)
    requires
        valid_draws(n, draws),
    ensures
        shuffled(n, draws).len() == n,
        shuffled(n, draws).no_duplicates(),
        forall|k: int| 0 <= k < n ==> #[trigger] shuffled(n, draws)[k] < n,
    decreases draws.len(),
{
    if draws.len() > 0 {
        let d = draws.drop_last();
        assert(valid_draws(n, d)) by {
            assert forall|i: int| 0 <= i < d.len() implies i <= #[trigger] d[i] < n by {
                assert(d[i] == draws[i]);
            }
        }
        lemma_shuffled_permutation(n, d);
        let s = shuffled(n, d);
        let i = draws.len() - 1;
        let j = draws.last() as int;
        assert(draws[i] == draws.last());
        let t = shuffled(n, draws);
        assert forall|p: int, q: int| 0 <= p < q < n implies t[p] != t[q] by {
            let sp = if p == i { j } else if p == j { i } else { p };
            let sq = if q == i { j } else if q == j { i } else { q };
            assert(t[p] == s[sp]);
            assert(t[q] == s[sq]);
        }
        assert forall|k: int| 0 <= k < n implies #[trigger] t[k] < n by {
            let sk = if k == i { j } else if k == j { i } else { k };
            assert(t[k] == s[sk]);
        }
    }
}

/// A partial Fisher-Yates shuffle selects `draws.len()` distinct indices
/// below `n`, whatever the draws.
pub proof fn law_sample_distinct(n: usize, draws: Seq<usize>)
    requires
        valid_draws(n, draws),
    ensures
        sample_of(n, draws).len() == draws.len(),
        sample_of(n, draws).no_duplicates(),
        forall|k: int| 0 <= k < draws.len() ==> #[trigger] sample_of(n, draws)[k] < n,
{
    lemma_shuffled_permutation(n, draws);
    let t = shuffled(n, draws);
    let s = sample_of(n, draws);
    assert forall|p: int, q: int| 0 <= p < q < s.len() implies s[p] != s[q] by {
        assert(s[p] == t[p] && s[q] == t[q]);
    }
    assert forall|k: int| 0 <= k < draws.len() implies #[trigger] s[k] < n by {
        assert(s[k] == t[k]);
    }
}

/// The draws that take index `k` first and leave every later position
/// where it is.
pub open spec fn draws_taking_first(k: usize, size: nat) -> Seq<usize> {
    Seq::new(size, |i: int| if i == 0 { k } else { i as usize })
}

proof fn lemma_taking_first(n: usize, k: usize, size: nat, m: nat)
    requires
        0 < m <= size <= n,
        k < n,
    ensures
        shuffled(n, draws_taking_first(k, size).take(m as int))[0] == k,
        shuffled(n, draws_taking_first(k, size).take(m as int)).len() == n,
    decreases m,
{
    let d = draws_taking_first(k, size);
    let dm = d.take(m as int);
    if m == 1 {
        assert(dm.drop_last() =~= Seq::<usize>::empty());
        assert(dm.last() == k);
        let s0 = shuffled(n, dm.drop_last());
        assert(s0 == Seq::new(n as nat, |q: int| q as usize));
        assert(s0[k as int] == k);
        assert(s0[0] == 0);
        assert(dm.len() == 1);
        assert(shuffled(n, dm) == s0.update(0, s0[k as int]).update(k as int, s0[0]));
    } else {
        lemma_taking_first(n, k, size, (m - 1) as nat);
        assert(dm.drop_last() == d.take(m - 1));
        assert(dm.last() == (m - 1) as usize);
        let s = shuffled(n, d.take(m - 1));
        let i = m - 1;
        assert(dm.len() == m);
        assert(shuffled(n, dm) == s.update(i, s[i]).update(i, s[i]));
        assert(s.update(i, s[i]).update(i, s[i]) =~= s);
    }
}

/// Every index below `n` can be drawn: for each `k < n` and each sample
/// size from 1 to `n` there are valid draws whose sample starts with `k`.
pub proof fn law_sample_reaches_every_index(n: usize, size: nat, k: usize)
    requires
        0 < size <= n,
        k < n,
    ensures
        exists|draws: Seq<usize>|
            #![trigger sample_of(n, draws)]
            valid_draws(n, draws) && draws.len() == size && sample_of(n, draws)[0] == k,
{
    let d = draws_taking_first(k, size);
    lemma_taking_first(n, k, size, size);
    assert(d.take(size as int) == d);
    assert(valid_draws(n, d));
    assert(sample_of(n, d)[0] == shuffled(n, d)[0]);
}

/// The first `size` entries of a partial Fisher-Yates shuffle of `0..n` with
/// the given draws.
pub fn sample_from_draws(n: usize, draws: &Vec<usize>) -> (r: Vec<usize>)
    requires
        valid_draws(n, draws@),
    ensures
        r@ == sample_of(n, draws@),
{
    let mut indices: Vec<usize> = Vec::new();
    let mut t: usize = 0;
    while t < n
        invariant
            t <= n,
            indices.len() == t,
            forall|k: int| 0 <= k < t ==> indices[k] == k,
        decreases n - t,
    {
        indices.push(t);
        t = t + 1;
    }
    assert(indices@ =~= shuffled(n, draws@.take(0)));
    let mut i: usize = 0;
    while i < draws.len()
        invariant
            i <= draws.len(),
            valid_draws(n, draws@),
            indices@ == shuffled(n, draws@.take(i as int)),
            indices.len() == n,
        decreases draws.len() - i,
    {
        let j = draws[i];
        let a = indices[i];
        let b = indices[j];
        indices.set(i, b);
        indices.set(j, a);
        proof {
            assert(draws@.take(i + 1).drop_last() == draws@.take(i as int));
            assert(draws@.take(i + 1).last() == j);
        }
        i = i + 1;
    }
    assert(draws@.take(i as int) == draws@);
    let mut r: Vec<usize> = Vec::new();
    let mut k: usize = 0;
    while k < draws.len()
        invariant
            k <= draws.len(),
            draws.len() <= n,
            indices.len() == n,
            r@ == indices@.take(k as int),
        decreases draws.len() - k,
    {
        r.push(indices[k]);
        assert(indices@.take(k + 1) == indices@.take(k as int).push(indices@[k as int]));
        k = k + 1;
    }
    r
}

/// The first `size` entries of a partial Fisher-Yates shuffle of `0..n`,
/// with the `i`-th swap partner drawn at random from `i..n`; the draws are
/// returned alongside.
fn gen_random_sample_indices(n: usize, size: usize) -> (r: (Vec<usize>, Ghost<Seq<usize>>))
    requires
        size <= n,
    ensures
        r.0.len() == size,
        r.0@.no_duplicates(),
        forall|k: int| 0 <= k < size ==> r.0[k] < n,
        valid_draws(n, r.1@),
        r.1@.len() == size,
        r.0@ == sample_of(n, r.1@),
{
    let mut rng = thread_rng();
    let mut draws: Vec<usize> = Vec::new();
    let mut i: usize = 0;
    while i < size
        invariant
            size <= n,
            i <= size,
            draws.len() == i,
            forall|k: int| 0 <= k < i ==> k <= #[trigger] draws@[k] < n,
        decreases size - i,
    {
        let j = random_index(&mut rng, i, n);
        draws.push(j);
        i = i + 1;
    }
    let r = sample_from_draws(n, &draws);
    proof {
        law_sample_distinct(n, draws@);
    }
    (r, Ghost(draws@))
}

} // verus!
