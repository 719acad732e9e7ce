//! A frequency table over a data set: for a set of attributes, each
//! combination of values that the rows take there, with how many rows take it.
use vstd::prelude::*;
use std::collections::BTreeSet;
use std::collections::HashMap;

use crate::combs::{
    complete_keys, count_rows, observed_combs, find_comb, index_of, law_marginal_counts, lemma_count_le,
    lemma_count_pos, lemma_count_take_succ, lemma_project_compose, lemma_sum_matching_mono,
    lemma_sum_matching_take_succ, project, rows_of, sum_matching, views,
};
use crate::dataset::DataSet;
use crate::prob_tids::ProbabilityTIDs;
use crate::metadata::{project_row, values_at};
use crate::varset::{all_atts, copy_set, is_var_order, ordered_atts, set_of, var_seq, without};

verus! {

/// `keys` lists, once each, the combinations that the rows take at `atts`,
/// and `freqs` gives each its number of rows.
pub open spec fn is_count_table(
    rows: Seq<Seq<usize>>,
    atts: Seq<usize>,
    keys: Seq<Seq<usize>>,
    freqs: Seq<usize>,
) -> bool {
    &&& keys.len() == freqs.len()
    &&& keys.no_duplicates()
    &&& forall|j: int|
        0 <= j < keys.len() ==> (#[trigger] keys[j]).len() == atts.len() && freqs[j] == count_rows(
            rows,
            atts,
            keys[j],
        ) && freqs[j] > 0
    &&& complete_keys(rows, atts, keys)
}

/// The number of rows of a data set that take each combination of values
/// at a set of attributes. What it holds is fixed by the data set
/// (`source`) and the attributes (`att_set`): `f` gives the count of any
/// combination, `get_combs` the combinations that occur.
pub struct ProbabilityMap<'a> {
    dataset: &'a DataSet,
    atts: BTreeSet<usize>,
    att_order: Vec<usize>,
    combs: Vec<Vec<usize>>,
    freqs: Vec<usize>,
}

impl<'a> ProbabilityMap<'a> {
    #[verifier::type_invariant]
    spec fn wf(self) -> bool {
        &&& self.att_order@ == var_seq(self.atts@)
        &&& is_var_order(self.att_order@)
        &&& self.att_order@.to_set() == self.atts@
        &&& is_count_table(rows_of(self.dataset.data@), self.att_order@, views(self.combs@), self.freqs@)
    }

    /// The data set that the table counts.
    pub closed spec fn source(&self) -> DataSet {
        *self.dataset
    }

    /// The attributes of the table.
    pub closed spec fn att_set(&self) -> Set<usize> {
        self.atts@
    }

    pub open spec fn rows(&self) -> Seq<Seq<usize>> {
        rows_of(self.source().data@)
    }

    /// The attributes of the table in increasing order: the order of the
    /// values in a combination.
    pub open spec fn att_seq(&self) -> Seq<usize> {
        var_seq(self.att_set())
    }

    /// How many rows take the values that `cond` gives the attributes of the
    /// table, with attribute `t` given the value `v`.
    pub open spec fn count_with(&self, cond: Map<usize, usize>, t: usize, v: int) -> nat {
        count_rows(self.rows(), self.att_seq(), with_value(cond, t, v, self.att_seq()))
    }

    /// Counts the rows of `dataset` by their values at the attributes `vars`.
    pub fn new_marg(dataset: &'a DataSet, vars: BTreeSet<usize>) -> (p: Self)
        requires
            forall|i: int, a: usize|
                0 <= i < dataset.data.len() && #[trigger] vars@.contains(a) ==> a < (#[trigger] dataset.data[i]).len(),
        ensures
            p.source() == *dataset,
            p.att_set() == vars@,
    {
        let ghost rows = rows_of(dataset.data@);
        let att_order = ordered_atts(&vars);
        let mut combs: Vec<Vec<usize>> = Vec::new();
        let mut freqs: Vec<usize> = Vec::new();
        let mut k: usize = 0;
        proof {
            assert(rows.take(0) =~= Seq::<Seq<usize>>::empty());
            assert(views(combs@) =~= Seq::<Seq<usize>>::empty());
        }
        while k < dataset.data.len()
            invariant
                k <= dataset.data.len(),
                rows == rows_of(dataset.data@),
                att_order@ == var_seq(vars@),
                forall|t: int| 0 <= t < att_order.len() ==> vars@.contains(#[trigger] att_order@[t]),
                forall|i: int, a: usize|
                    0 <= i < dataset.data.len() && #[trigger] vars@.contains(a) ==> a < (#[trigger] dataset.data[i]).len(),
                is_count_table(rows.take(k as int), att_order@, views(combs@), freqs@),
            decreases dataset.data.len() - k,
        {
            let row = &dataset.data[k];
            proof {
                assert forall|t: int| 0 <= t < att_order.len() implies att_order@[t] < row.len() by {
                    assert(vars@.contains(att_order@[t]));
                }
            }
            let sub = project_row(row, &att_order);
            let ghost keys = views(combs@);
            let ghost a = att_order@;
            let ghost pre = rows.take(k as int);
            let ghost post = rows.take(k + 1);
            proof {
                assert(rows[k as int] == row@);
                assert forall|c: Seq<usize>| #![trigger count_rows(post, a, c)]
                    count_rows(post, a, c) == count_rows(pre, a, c) + if project(row@, a) == c { 1nat } else { 0nat } by {
                    lemma_count_take_succ(rows, a, c, k as int);
                }
                assert forall|i: int| 0 <= i < k + 1 implies post[i] == rows[i] by {}
                lemma_count_le(pre, a, sub@);
            }
            match find_comb(&combs, &sub) {
                Some(j) => {
                    let f = freqs[j];
                    proof {
                        assert(keys[j as int] == sub@);
                        assert(f == count_rows(pre, a, sub@));
                        assert(pre.len() == k);
                    }
                    freqs.set(j, f + 1);
                    proof {
                        assert(keys[j as int] == sub@);
                        assert forall|t: int| 0 <= t < keys.len() implies (#[trigger] keys[t]).len() == a.len()
                            && freqs@[t] == count_rows(post, a, keys[t]) && freqs@[t] > 0 by {
                            assert(count_rows(post, a, keys[t]) == count_rows(pre, a, keys[t]) + if project(row@, a) == keys[t] { 1nat } else { 0nat });
                            if t != j {
                                assert(keys[t] != keys[j as int]);
                            }
                        }
                        assert forall|i: int| 0 <= i < post.len() implies keys.contains(#[trigger] project(post[i], a)) by {
                            if i < k {
                                assert(pre[i] == post[i]);
                            } else {
                                assert(keys[j as int] == project(post[i], a));
                            }
                        }
                    }
                },
                None => {
                    proof {
                        lemma_count_pos(pre, a, sub@);
                        if count_rows(pre, a, sub@) > 0 {
                            let i = choose|i: int| 0 <= i < pre.len() && project(pre[i], a) == sub@;
                            assert(keys.contains(project(pre[i], a)));
                        }
                    }
                    combs.push(sub);
                    freqs.push(1);
                    proof {
                        let keys2 = views(combs@);
                        assert(keys2 =~= keys.push(sub@));
                        assert(keys2.no_duplicates()) by {
                            assert forall|p: int, q: int| 0 <= p < keys2.len() && 0 <= q < keys2.len() && p != q implies keys2[p] != keys2[q] by {
                                if p < keys.len() && q < keys.len() {
                                    assert(keys2[p] == keys[p] && keys2[q] == keys[q]);
                                } else if p < keys.len() {
                                    assert(keys.contains(keys2[p]));
                                } else {
                                    assert(keys.contains(keys2[q]));
                                }
                            }
                        }
                        assert forall|t: int| 0 <= t < keys2.len() implies (#[trigger] keys2[t]).len() == a.len()
                            && freqs@[t] == count_rows(post, a, keys2[t]) && freqs@[t] > 0 by {
                            assert(count_rows(post, a, keys2[t]) == count_rows(pre, a, keys2[t]) + if project(row@, a) == keys2[t] { 1nat } else { 0nat });
                            if t < keys.len() {
                                assert(keys2[t] == keys[t]);
                                assert(keys.contains(keys[t]));
                            }
                        }
                        assert forall|i: int| 0 <= i < post.len() implies keys2.contains(#[trigger] project(post[i], a)) by {
                            if i < k {
                                assert(pre[i] == post[i]);
                                assert(keys.contains(project(pre[i], a)));
                                let t = choose|t: int| 0 <= t < keys.len() && keys[t] == project(pre[i], a);
                                assert(keys2[t] == keys[t]);
                            } else {
                                assert(keys2[keys.len() as int] == project(post[i], a));
                            }
                        }
                    }
                },
            }
            k = k + 1;
        }
        assert(rows.take(k as int) == rows);
        ProbabilityMap { dataset, atts: vars, att_order, combs, freqs }
    }

    /// Sums the counts over the attributes that are not in `marg`: the table
    /// of the same data set over the attributes `marg`.
    pub fn marginalize(&self, marg: &BTreeSet<usize>) -> (p: Self)
        requires
            marg@.subset_of(self.att_set()),
        ensures
            p.source() == self.source(),
            p.att_set() == marg@,
    {
        proof {
            use_type_invariant(self);
        }
        let ghost rows = rows_of(self.dataset.data@);
        let ghost a = self.att_order@;
        let ghost keys = views(self.combs@);
        let marg_order = ordered_atts(marg);
        let ghost b = marg_order@;
        // the position in `att_order` of each attribute of `marg_order`
        let mut pos: Vec<usize> = Vec::new();
        let mut k: usize = 0;
        while k < marg_order.len()
            invariant
                k <= marg_order.len(),
                marg@.subset_of(self.atts@),
                self.att_order@.to_set() == self.atts@,
                forall|t: int| 0 <= t < marg_order.len() ==> marg@.contains(#[trigger] marg_order@[t]),
                a == self.att_order@,
                b == marg_order@,
                pos.len() == k,
                forall|t: int| 0 <= t < k ==> #[trigger] pos@[t] < a.len() && a[pos@[t] as int] == b[t],
            decreases marg_order.len() - k,
        {
            proof {
                assert(marg@.contains(marg_order@[k as int]));
                assert(self.att_order@.to_set().contains(marg_order@[k as int]));
            }
            let p = index_of(&self.att_order, marg_order[k]).unwrap();
            pos.push(p);
            proof {
                assert(pos@[k as int] == p);
            }
            k = k + 1;
        }
        proof {
            assert forall|i: int| 0 <= i < rows.len() implies project(project(rows[i], a), pos@) == #[trigger] project(rows[i], b) by {
                lemma_project_compose(rows[i], a, pos@, b);
            }
        }
        let mut out_combs: Vec<Vec<usize>> = Vec::new();
        let mut out_freqs: Vec<usize> = Vec::new();
        let mut j: usize = 0;
        proof {
            assert(views(out_combs@) =~= Seq::<Seq<usize>>::empty());
            assert(rows.len() == self.dataset.data.len());
            assert forall|c: Seq<usize>| !views(out_combs@).contains(c) implies #[trigger] sum_matching(rows, a, keys.take(0), pos@, c) == 0 by {
                assert(keys.take(0) =~= Seq::<Seq<usize>>::empty());
            }
        }
        while j < self.combs.len()
            invariant
                j <= self.combs.len(),
                rows == rows_of(self.dataset.data@),
                rows.len() <= usize::MAX,
                a == self.att_order@,
                keys == views(self.combs@),
                is_count_table(rows, a, keys, self.freqs@),
                pos.len() == b.len(),
                forall|t: int| 0 <= t < b.len() ==> #[trigger] pos@[t] < a.len() && a[pos@[t] as int] == b[t],
                forall|i: int| 0 <= i < rows.len() ==> project(project(rows[i], a), pos@) == #[trigger] project(rows[i], b),
                views(out_combs@).len() == out_freqs.len(),
                views(out_combs@).no_duplicates(),
                forall|t: int|
                    0 <= t < out_freqs.len() ==> (#[trigger] views(out_combs@)[t]).len() == b.len()
                        && out_freqs@[t] > 0
                        && out_freqs@[t] == sum_matching(rows, a, keys.take(j as int), pos@, views(out_combs@)[t]),
                forall|c: Seq<usize>|
                    !views(out_combs@).contains(c) ==> #[trigger] sum_matching(rows, a, keys.take(j as int), pos@, c) == 0,
            decreases self.combs.len() - j,
        {
            proof {
                assert(keys[j as int].len() == a.len());
                assert(keys[j as int] == self.combs@[j as int]@);
                assert forall|t: int| 0 <= t < pos.len() implies pos@[t] < self.combs@[j as int].len() by {
                    assert(pos@[t] < a.len());
                }
            }
            let sub = project_row(&self.combs[j], &pos);
            let ghost jj: int = j as int;
            let ghost out_keys = views(out_combs@);
            proof {
                assert(sub@ == project(keys[jj], pos@));
                assert forall|c: Seq<usize>| #![trigger sum_matching(rows, a, keys.take(jj + 1), pos@, c)]
                    sum_matching(rows, a, keys.take(jj + 1), pos@, c) == sum_matching(rows, a, keys.take(jj), pos@, c)
                        + if project(keys[jj], pos@) == c { count_rows(rows, a, keys[jj]) } else { 0 } by {
                    lemma_sum_matching_take_succ(rows, a, keys, pos@, c, jj);
                }
                lemma_sum_matching_mono(rows, a, keys, pos@, sub@, jj + 1);
                law_marginal_counts(rows, a, keys, pos@, b, sub@);
                lemma_count_le(rows, b, sub@);
            }
            let found = find_comb(&out_combs, &sub);
            match found {
                Some(t) => {
                    let f = out_freqs[t];
                    proof {
                        assert(out_keys[t as int] == sub@);
                        assert(f == sum_matching(rows, a, keys.take(jj), pos@, sub@));
                    }
                    out_freqs.set(t, f + self.freqs[j]);
                },
                None => {
                    out_combs.push(sub);
                    out_freqs.push(self.freqs[j]);
                },
            }
            proof {
                let out2 = views(out_combs@);
                assert(self.freqs@[jj] == count_rows(rows, a, keys[jj]));
                match found {
                    Some(t) => {
                        assert(out2 == out_keys);
                        assert forall|u: int| 0 <= u < out_freqs.len() implies (#[trigger] out2[u]).len() == b.len()
                            && out_freqs@[u] > 0
                            && out_freqs@[u] == sum_matching(rows, a, keys.take(jj + 1), pos@, out2[u]) by {
                            if u != t {
                                assert(out_keys[u] != out_keys[t as int]);
                            }
                        }
                        assert forall|c: Seq<usize>| !out2.contains(c) implies #[trigger] sum_matching(rows, a, keys.take(jj + 1), pos@, c) == 0 by {
                            if project(keys[jj], pos@) == c {
                                assert(out2[t as int] == sub@);
                            }
                        }
                    },
                    None => {
                        assert(out2 =~= out_keys.push(sub@));
                        assert(out2.no_duplicates()) by {
                            assert forall|p: int, q: int| 0 <= p < out2.len() && 0 <= q < out2.len() && p != q implies out2[p] != out2[q] by {
                                if p < out_keys.len() && q < out_keys.len() {
                                    assert(out2[p] == out_keys[p] && out2[q] == out_keys[q]);
                                } else if p < out_keys.len() {
                                    assert(out_keys.contains(out2[p]));
                                } else {
                                    assert(out_keys.contains(out2[q]));
                                }
                            }
                        }
                        assert(sum_matching(rows, a, keys.take(jj), pos@, sub@) == 0);
                        assert forall|u: int| 0 <= u < out_freqs.len() implies (#[trigger] out2[u]).len() == b.len()
                            && out_freqs@[u] > 0
                            && out_freqs@[u] == sum_matching(rows, a, keys.take(jj + 1), pos@, out2[u]) by {
                            if u < out_keys.len() {
                                assert(out2[u] == out_keys[u]);
                                assert(out_keys.contains(out_keys[u]));
                                assert(out_keys[u] != sub@);
                            }
                        }
                        assert forall|c: Seq<usize>| !out2.contains(c) implies #[trigger] sum_matching(rows, a, keys.take(jj + 1), pos@, c) == 0 by {
                            assert(out2[out_keys.len() as int] == sub@);
                            if out_keys.contains(c) {
                                let u = choose|u: int| 0 <= u < out_keys.len() && out_keys[u] == c;
                                assert(out2[u] == c);
                            }
                        }
                    },
                }
            }
            proof {
                let out2 = views(out_combs@);
                assert forall|u: int| 0 <= u < out_freqs.len() implies (#[trigger] out2[u]).len() == b.len()
                    && out_freqs@[u] > 0
                    && out_freqs@[u] == sum_matching(rows, a, keys.take(jj + 1), pos@, out2[u]) by {
                    match found {
                        Some(t) => {},
                        None => {},
                    }
                }
            }
            j = j + 1;
            proof {
                assert(keys.take(j as int) == keys.take(jj + 1));
                let out2 = views(out_combs@);
                assert forall|u: int| 0 <= u < out_freqs.len() implies (#[trigger] out2[u]).len() == b.len()
                    && out_freqs@[u] > 0
                    && out_freqs@[u] == sum_matching(rows, a, keys.take(j as int), pos@, out2[u]) by {
                    assert(out_freqs@[u] == sum_matching(rows, a, keys.take(jj + 1), pos@, out2[u]));
                }
            }
        }
        proof {
            assert(keys.take(j as int) == keys);
            let out = views(out_combs@);
            assert forall|t: int| 0 <= t < out.len() implies (#[trigger] out[t]).len() == b.len()
                && out_freqs@[t] == count_rows(rows, b, out[t]) && out_freqs@[t] > 0 by {
                law_marginal_counts(rows, a, keys, pos@, b, out[t]);
            }
            assert forall|i: int| 0 <= i < rows.len() implies out.contains(#[trigger] project(rows[i], b)) by {
                let c = project(rows[i], b);
                lemma_count_pos(rows, b, c);
                law_marginal_counts(rows, a, keys, pos@, b, c);
            }
        }
        let atts = copy_set(marg);
        ProbabilityMap { dataset: self.dataset, atts, att_order: marg_order, combs: out_combs, freqs: out_freqs }
    }

    /// The table over all attributes of the data set.
    pub fn new(dataset: &'a DataSet) -> (p: Self)
        requires
            forall|i: int| 0 <= i < dataset.data.len() ==> dataset.natts <= (#[trigger] dataset.data[i]).len(),
        ensures
            p.source() == *dataset,
            p.att_set() == Set::new(|a: usize| a < dataset.natts),
    {
        let all = all_atts(dataset.natts);
        ProbabilityMap::new_marg(dataset, all)
    }

    /// `marginalize` onto the attributes listed in `marg`.
    pub fn marginalize_vec(&self, marg: &Vec<usize>) -> (p: Self)
        requires
            forall|i: int| 0 <= i < marg.len() ==> self.att_set().contains(#[trigger] marg@[i]),
        ensures
            p.source() == self.source(),
            p.att_set() == marg@.to_set(),
    {
        let set = set_of(marg);
        proof {
            assert forall|x: usize| set@.contains(x) implies self.att_set().contains(x) by {
                let i = choose|i: int| 0 <= i < marg.len() && marg@[i] == x;
            }
        }
        self.marginalize(&set)
    }

    /// `marginalize` onto all attributes of the table but `rem_att`.
    pub fn remove_att(&self, rem_att: usize) -> (p: Self)
        ensures
            p.source() == self.source(),
            p.att_set() == self.att_set().remove(rem_att),
    {
        let new_atts = without(&self.atts, rem_att);
        self.marginalize(&new_atts)
    }

    /// How many rows take the values `comb` at the attributes of the table,
    /// in increasing order of attribute.
    pub fn f(&self, comb: &Vec<usize>) -> (r: usize)
        ensures
            r == count_rows(self.rows(), self.att_seq(), comb@),
    {
        proof {
            use_type_invariant(self);
        }
        match find_comb(&self.combs, comb) {
            Some(j) => {
                proof {
                    assert(views(self.combs@)[j as int] == comb@);
                }
                self.freqs[j]
            },
            None => {
                proof {
                    let rows = rows_of(self.dataset.data@);
                    lemma_count_pos(rows, self.att_order@, comb@);
                    if count_rows(rows, self.att_order@, comb@) > 0 {
                        let i = choose|i: int| 0 <= i < rows.len() && project(rows[i], self.att_order@) == comb@;
                        assert(views(self.combs@).contains(project(rows[i], self.att_order@)));
                    }
                }
                0
            },
        }
    }

    /// How many rows take the values that `vals` gives the attributes of the
    /// table.
    pub fn f_map(&self, vals: &HashMap<usize, usize>) -> (r: usize)
        requires
            forall|a: usize| self.att_set().contains(a) ==> vals@.contains_key(a),
        ensures
            r == count_rows(self.rows(), self.att_seq(), self.att_seq().map_values(|a: usize| vals@[a])),
    {
        proof {
            use_type_invariant(self);
            assert forall|k: int| 0 <= k < self.att_order.len() implies vals@.contains_key(#[trigger] self.att_order@[k]) by {
                assert(self.att_order@.to_set().contains(self.att_order@[k]));
                assert(self.att_set().contains(self.att_order@[k]));
            }
        }
        let comb = values_at(&self.att_order, vals);
        self.f(&comb)
    }

    /// The combinations that the rows take at the attributes of the table,
    /// once each, in no particular order.
    pub fn get_combs(&self) -> (r: Vec<Vec<usize>>)
        ensures
            views(r@).no_duplicates(),
            views(r@).to_set() == observed_combs(self.rows(), self.att_seq()),
    {
        proof {
            use_type_invariant(self);
            lemma_keys_observed(rows_of(self.dataset.data@), self.att_order@, views(self.combs@), self.freqs@);
        }
        let r = copy_combs(&self.combs);
        r
    }

    /// The attributes of the table.
    pub fn get_atts(&self) -> (r: &BTreeSet<usize>)
        ensures
            r@ == self.att_set(),
    {
        &self.atts
    }

    /// The data set that the table counts.
    pub fn get_dataset(&self) -> (r: &'a DataSet)
        ensures
            *r == self.source(),
    {
        self.dataset
    }

    /// How many distinct combinations the rows take at the attributes of the
    /// table.
    pub fn get_size(&self) -> (r: usize)
        ensures
            r == observed_combs(self.rows(), self.att_seq()).len(),
    {
        proof {
            use_type_invariant(self);
            lemma_keys_observed(rows_of(self.dataset.data@), self.att_order@, views(self.combs@), self.freqs@);
        }
        self.combs.len()
    }

    /// A table of the same data set over the same attributes.
    pub fn clone(&self) -> (p: Self)
        ensures
            p.source() == self.source(),
            p.att_set() == self.att_set(),
    {
        proof {
            use_type_invariant(self);
        }
        let combs = copy_combs(&self.combs);
        let freqs = self.freqs.clone();
        let att_order = self.att_order.clone();
        let atts = copy_set(&self.atts);
        proof {
            assert(freqs@ == self.freqs@);
            assert(att_order@ == self.att_order@);
        }
        ProbabilityMap { dataset: self.dataset, atts, att_order, combs, freqs }
    }

    /// The value of `target_att`, among `0..nvals[target_att]`, whose
    /// combination with the values of `condition` is the most frequent; the
    /// smallest such value on ties, and 0 when no such combination occurs.
    /// `condition` is left giving `target_att` the last value tried.
    pub fn predict(&self, condition: &mut HashMap<usize, usize>, target_att: usize) -> (r: usize)
        requires
            target_att < self.source().nvals.len(),
            self.source().nvals[target_att as int] > 0 ==> forall|a: usize|
                self.att_set().contains(a) && a != target_att ==> old(condition)@.contains_key(a),
        ensures
            ({
                let n = self.source().nvals[target_att as int];
                &&& n == 0 ==> r == 0 && final(condition)@ == old(condition)@
                &&& n > 0 ==> {
                    &&& r < n
                    &&& final(condition)@ == old(condition)@.insert(target_att, (n - 1) as usize)
                    &&& forall|v: int| 0 <= v < n ==> #[trigger] self.count_with(old(condition)@, target_att, v)
                        <= self.count_with(old(condition)@, target_att, r as int)
                    &&& forall|v: int| 0 <= v < r ==> #[trigger] self.count_with(old(condition)@, target_att, v)
                        < self.count_with(old(condition)@, target_att, r as int)
                }
            }),
    {
        broadcast use vstd::std_specs::hash::group_hash_axioms;

        proof {
            use_type_invariant(self);
        }
        let ghost c0 = condition@;
        let ghost rows = self.rows();
        let ghost a = self.att_seq();
        let n = self.dataset.nvals[target_att];
        let mut max_freq: usize = 0;
        let mut max_val: usize = 0;
        let mut i: usize = 0;
        while i < n
            invariant
                i <= n,
                n == self.source().nvals[target_att as int],
                a == self.att_order@,
                a == self.att_seq(),
                rows == self.rows(),
                c0 == old(condition)@,
                n > 0 ==> forall|x: usize| self.atts@.contains(x) && x != target_att ==> c0.contains_key(x),
                self.att_order@.to_set() == self.atts@,
                condition@ == if i == 0 { c0 } else { c0.insert(target_att, (i - 1) as usize) },
                forall|v: int| 0 <= v < i ==> count_rows(rows, a, with_value(c0, target_att, v, a)) <= max_freq,
                max_freq == 0 ==> max_val == 0,
                max_freq > 0 ==> max_val < i && count_rows(rows, a, with_value(c0, target_att, max_val as int, a)) == max_freq
                    && forall|v: int| 0 <= v < max_val ==> count_rows(rows, a, with_value(c0, target_att, v, a)) < max_freq,
            decreases n - i,
        {
            condition.insert(target_att, i);
            proof {
                assert(condition@ == c0.insert(target_att, i));
                assert forall|k: int| 0 <= k < self.att_order.len() implies condition@.contains_key(#[trigger] self.att_order@[k]) by {
                    assert(self.att_order@.to_set().contains(self.att_order@[k]));
                }
            }
            let cur_comb = values_at(&self.att_order, condition);
            proof {
                assert(cur_comb@ =~= with_value(c0, target_att, i as int, a));
            }
            let f = self.f(&cur_comb);
            proof {
                assert(f == count_rows(rows, a, with_value(c0, target_att, i as int, a)));
            }
            if f > max_freq {
                max_freq = f;
                max_val = i;
            }
            proof {
                assert forall|v: int| 0 <= v < i + 1 implies count_rows(rows, a, with_value(c0, target_att, v, a)) <= max_freq by {
                }
            }
            i = i + 1;
        }
        max_val
    }
}

/// The values that `cond` gives the attributes `atts`, with `t` given `v`.
pub open spec fn with_value(cond: Map<usize, usize>, t: usize, v: int, atts: Seq<usize>) -> Seq<usize> {
    atts.map_values(|x: usize| if x == t { v as usize } else { cond[x] })
}

impl<'a> From<ProbabilityTIDs<'a>> for ProbabilityMap<'a> {
    /// The counts of a row table: each combination with the number of its
    /// rows.
    fn from(prob_tids: ProbabilityTIDs<'a>) -> (p: Self)
        ensures
            p.source() == prob_tids.source(),
            p.att_set() == prob_tids.att_set(),
    {
        let (atts, att_order, combs, freqs) = prob_tids.counts();
        ProbabilityMap { dataset: prob_tids.get_dataset(), atts, att_order, combs, freqs }
    }
}

/// `from` has no spec function: its contract above says what it returns.
impl<'a> vstd::std_specs::convert::FromSpecImpl<ProbabilityTIDs<'a>> for ProbabilityMap<'a> {
    open spec fn obeys_from_spec() -> bool {
        false
    }

    open spec fn from_spec(v: ProbabilityTIDs<'a>) -> Self {
        arbitrary()
    }
}

/// A copy of the combinations.
pub fn copy_combs(combs: &Vec<Vec<usize>>) -> (r: Vec<Vec<usize>>)
    ensures
        views(r@) == views(combs@),
{
    let mut r: Vec<Vec<usize>> = Vec::new();
    let mut k: usize = 0;
    while k < combs.len()
        invariant
            k <= combs.len(),
            r.len() == k,
            forall|i: int| 0 <= i < k ==> (#[trigger] r@[i])@ == combs@[i]@,
        decreases combs.len() - k,
    {
        let c = combs[k].clone();
        r.push(c);
        k = k + 1;
    }
    assert(views(r@) =~= views(combs@));
    r
}

/// The keys of a count table are the observed combinations.
pub proof fn lemma_keys_observed(rows: Seq<Seq<usize>>, atts: Seq<usize>, keys: Seq<Seq<usize>>, freqs: Seq<usize>)
    requires
        is_count_table(rows, atts, keys, freqs),
    ensures
        keys.to_set() == observed_combs(rows, atts),
        observed_combs(rows, atts).finite(),
        observed_combs(rows, atts).len() == keys.len(),
{
    assert(keys.to_set() =~= observed_combs(rows, atts)) by {
        assert forall|c: Seq<usize>| keys.to_set().contains(c) implies observed_combs(rows, atts).contains(c) by {
            let j = choose|j: int| 0 <= j < keys.len() && keys[j] == c;
            assert(freqs[j] > 0);
        }
        assert forall|c: Seq<usize>| observed_combs(rows, atts).contains(c) implies keys.to_set().contains(c) by {
            lemma_count_pos(rows, atts, c);
            let i = choose|i: int| 0 <= i < rows.len() && project(rows[i], atts) == c;
            assert(keys.contains(project(rows[i], atts)));
        }
    }
    keys.unique_seq_to_set();
}

} // verus!
