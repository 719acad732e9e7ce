//! A table of row sets over a data set: for a set of attributes, each
//! combination of values that the rows take there, with the set of the
//! indices of the rows that take it.
use vstd::prelude::*;
use std::collections::BTreeSet;
use std::collections::HashMap;
use bit_set::BitSet;

use crate::bitset::{
    bitset_clone, bitset_insert, bitset_intersection, bitset_len, bitset_members, bitset_with_capacity,
};
use crate::combs::{
    complete_keys, count_rows, find_comb, index_of, lemma_count_pos, lemma_count_take_succ,
    lemma_matching_len, lemma_matching_take_succ, matching_rows, observed_combs, project, rows_of,
    views,
};
use crate::dataset::DataSet;
use crate::join::{agree, compatible, is_join_layout, join_comb, join_of, lemma_join_injective, lemma_join_row, law_join_rows};
use crate::metadata::{project_row, values_at};
use crate::prob_map::{copy_combs, is_count_table};
use crate::varset::{all_atts, copy_set, is_var_order, ordered_atts, union_sets, var_seq};

verus! {

/// The members of each set.
pub open spec fn member_sets(tids: Seq<BitSet>) -> Seq<Set<usize>> {
    tids.map_values(|b: BitSet| bitset_members(b))
}

/// `keys` lists, once each, the combinations that the rows take at `atts`,
/// and `sets` gives each the indices of the rows that take it.
pub open spec fn is_row_table(
    rows: Seq<Seq<usize>>,
    atts: Seq<usize>,
    keys: Seq<Seq<usize>>,
    sets: Seq<Set<usize>>,
) -> bool {
    &&& keys.len() == sets.len()
    &&& keys.no_duplicates()
    &&& forall|j: int|
        0 <= j < keys.len() ==> (#[trigger] keys[j]).len() == atts.len() && sets[j] == matching_rows(
            rows,
            atts,
            keys[j],
        ) && count_rows(rows, atts, keys[j]) > 0
    &&& complete_keys(rows, atts, keys)
}

/// The indices of the rows of a data set that take each combination of
/// values at a set of attributes. What it holds is fixed by the data set
/// (`source`) and the attributes (`att_set`): `f` gives the number of rows
/// of any combination, `get_combs` the combinations that occur.
pub struct ProbabilityTIDs<'a> {
    dataset: &'a DataSet,
    atts: BTreeSet<usize>,
    att_order: Vec<usize>,
    combs: Vec<Vec<usize>>,
    tids: Vec<BitSet>,
}

impl<'a> ProbabilityTIDs<'a> {
    #[verifier::type_invariant]
    spec fn wf(self) -> bool {
        &&& self.att_order@ == var_seq(self.atts@)
        &&& is_var_order(self.att_order@)
        &&& self.att_order@.to_set() == self.atts@
        &&& is_row_table(rows_of(self.dataset.data@), self.att_order@, views(self.combs@), member_sets(self.tids@))
    }

    /// The data set whose rows the table sorts.
    pub closed spec fn source(&self) -> DataSet {
        *self.dataset
    }

    /// The attributes of the table.
    pub closed spec fn att_set(&self) -> Set<usize> {
        self.atts@
    }

    pub open spec fn rows(&self) -> Seq<Seq<usize>> {
        rows_of(self.source().data@)
    }

    /// The attributes of the table in increasing order.
    pub open spec fn att_seq(&self) -> Seq<usize> {
        var_seq(self.att_set())
    }

    /// Sorts the rows of `dataset` by their values at the attributes `vars`.
    pub fn new_marg(dataset: &'a DataSet, vars: BTreeSet<usize>) -> (p: Self)
        requires
            forall|i: int, a: usize|
                0 <= i < dataset.data.len() && #[trigger] vars@.contains(a) ==> a < (#[trigger] dataset.data[i]).len(),
        ensures
            p.source() == *dataset,
            p.att_set() == vars@,
    {
        let ghost rows = rows_of(dataset.data@);
        let n = dataset.data.len();
        let att_order = ordered_atts(&vars);
        let mut combs: Vec<Vec<usize>> = Vec::new();
        let mut tids: Vec<BitSet> = Vec::new();
        let mut k: usize = 0;
        proof {
            assert(rows.take(0) =~= Seq::<Seq<usize>>::empty());
            assert(views(combs@) =~= Seq::<Seq<usize>>::empty());
        }
        while k < dataset.data.len()
            invariant
                k <= dataset.data.len(),
                n == dataset.data.len(),
                rows == rows_of(dataset.data@),
                att_order@ == var_seq(vars@),
                forall|t: int| 0 <= t < att_order.len() ==> vars@.contains(#[trigger] att_order@[t]),
                forall|i: int, a: usize|
                    0 <= i < dataset.data.len() && #[trigger] vars@.contains(a) ==> a < (#[trigger] dataset.data[i]).len(),
                is_row_table(rows.take(k as int), att_order@, views(combs@), member_sets(tids@)),
            decreases dataset.data.len() - k,
        {
            let row = &dataset.data[k];
            proof {
                assert forall|t: int| 0 <= t < att_order.len() implies att_order@[t] < row.len() by {
                    assert(vars@.contains(att_order@[t]));
                }
            }
            let sub = project_row(row, &att_order);
            let ghost keys = views(combs@);
            let ghost sets = member_sets(tids@);
            let ghost a = att_order@;
            let ghost pre = rows.take(k as int);
            let ghost post = rows.take(k + 1);
            proof {
                assert(rows[k as int] == row@);
                assert(rows.len() == n);
                assert forall|c: Seq<usize>| #![trigger count_rows(post, a, c)]
                    count_rows(post, a, c) == count_rows(pre, a, c) + if project(row@, a) == c { 1nat } else { 0nat } by {
                    lemma_count_take_succ(rows, a, c, k as int);
                }
                assert forall|c: Seq<usize>| #![trigger matching_rows(post, a, c)]
                    matching_rows(post, a, c) == if project(row@, a) == c {
                        matching_rows(pre, a, c).insert(k)
                    } else {
                        matching_rows(pre, a, c)
                    } by {
                    lemma_matching_take_succ(rows, a, c, k as int);
                }
                assert forall|i: int| 0 <= i < k + 1 implies post[i] == rows[i] by {}
            }
            match find_comb(&combs, &sub) {
                Some(j) => {
                    bitset_insert(&mut tids[j], k);
                    proof {
                        let sets2 = member_sets(tids@);
                        assert(keys[j as int] == sub@);
                        assert forall|t: int| 0 <= t < keys.len() implies (#[trigger] keys[t]).len() == a.len()
                            && sets2[t] == matching_rows(post, a, keys[t]) && count_rows(post, a, keys[t]) > 0 by {
                            assert(count_rows(post, a, keys[t]) == count_rows(pre, a, keys[t]) + if project(row@, a) == keys[t] { 1nat } else { 0nat });
                            assert(matching_rows(post, a, keys[t]) == if project(row@, a) == keys[t] {
                                matching_rows(pre, a, keys[t]).insert(k)
                            } else {
                                matching_rows(pre, a, keys[t])
                            });
                            if t != j {
                                assert(keys[t] != keys[j as int]);
                                assert(sets2[t] == sets[t]);
                            }
                        }
                        assert forall|i: int| 0 <= i < post.len() implies keys.contains(#[trigger] project(post[i], a)) by {
                            if i < k {
                                assert(pre[i] == post[i]);
                            } else {
                                assert(keys[j as int] == project(post[i], a));
                            }
                        }
                    }
                },
                None => {
                    proof {
                        lemma_count_pos(pre, a, sub@);
                        if count_rows(pre, a, sub@) > 0 {
                            let i = choose|i: int| 0 <= i < pre.len() && project(pre[i], a) == sub@;
                            assert(keys.contains(project(pre[i], a)));
                        }
                        assert(pre.len() == k);
                        assert(pre.len() <= usize::MAX);
                        lemma_matching_len(pre, a, sub@);
                        assert(matching_rows(pre, a, sub@) =~= Set::<usize>::empty());
                    }
                    let mut bs = bitset_with_capacity(n);
                    bitset_insert(&mut bs, k);
                    combs.push(sub);
                    tids.push(bs);
                    proof {
                        let keys2 = views(combs@);
                        let sets2 = member_sets(tids@);
                        assert(keys2 =~= keys.push(sub@));
                        assert(sets2 =~= sets.push(bitset_members(bs)));
                        assert(keys2.no_duplicates()) by {
                            assert forall|p: int, q: int| 0 <= p < keys2.len() && 0 <= q < keys2.len() && p != q implies keys2[p] != keys2[q] by {
                                if p < keys.len() && q < keys.len() {
                                    assert(keys2[p] == keys[p] && keys2[q] == keys[q]);
                                } else if p < keys.len() {
                                    assert(keys.contains(keys2[p]));
                                } else {
                                    assert(keys.contains(keys2[q]));
                                }
                            }
                        }
                        assert forall|t: int| 0 <= t < keys2.len() implies (#[trigger] keys2[t]).len() == a.len()
                            && sets2[t] == matching_rows(post, a, keys2[t]) && count_rows(post, a, keys2[t]) > 0 by {
                            assert(count_rows(post, a, keys2[t]) == count_rows(pre, a, keys2[t]) + if project(row@, a) == keys2[t] { 1nat } else { 0nat });
                            assert(matching_rows(post, a, keys2[t]) == if project(row@, a) == keys2[t] {
                                matching_rows(pre, a, keys2[t]).insert(k)
                            } else {
                                matching_rows(pre, a, keys2[t])
                            });
                            if t < keys.len() {
                                assert(keys2[t] == keys[t]);
                                assert(sets2[t] == sets[t]);
                                assert(keys.contains(keys[t]));
                            } else {
                                assert(Set::<usize>::empty().insert(k) =~= matching_rows(pre, a, sub@).insert(k));
                            }
                        }
                        assert forall|i: int| 0 <= i < post.len() implies keys2.contains(#[trigger] project(post[i], a)) by {
                            if i < k {
                                assert(pre[i] == post[i]);
                                assert(keys.contains(project(pre[i], a)));
                                let t = choose|t: int| 0 <= t < keys.len() && keys[t] == project(pre[i], a);
                                assert(keys2[t] == keys[t]);
                            } else {
                                assert(keys2[keys.len() as int] == project(post[i], a));
                            }
                        }
                    }
                },
            }
            k = k + 1;
        }
        assert(rows.take(k as int) == rows);
        ProbabilityTIDs { dataset, atts: vars, att_order, combs, tids }
    }

    /// The table over all attributes of the data set.
    pub fn new(dataset: &'a DataSet) -> (p: Self)
        requires
            forall|i: int| 0 <= i < dataset.data.len() ==> dataset.natts <= (#[trigger] dataset.data[i]).len(),
        ensures
            p.source() == *dataset,
            p.att_set() == Set::new(|a: usize| a < dataset.natts),
    {
        let all = all_atts(dataset.natts);
        ProbabilityTIDs::new_marg(dataset, all)
    }

    /// How many rows take the values `comb` at the attributes of the table,
    /// in increasing order of attribute.
    pub fn f(&self, comb: &Vec<usize>) -> (r: usize)
        ensures
            r == count_rows(self.rows(), self.att_seq(), comb@),
    {
        proof {
            use_type_invariant(self);
        }
        let ghost rows = rows_of(self.dataset.data@);
        match find_comb(&self.combs, comb) {
            Some(j) => {
                proof {
                    assert(views(self.combs@)[j as int] == comb@);
                    assert(member_sets(self.tids@)[j as int] == bitset_members(self.tids@[j as int]));
                    assert(rows.len() == self.dataset.data.len());
                    lemma_matching_len(rows, self.att_order@, comb@);
                }
                bitset_len(&self.tids[j])
            },
            None => {
                proof {
                    lemma_count_pos(rows, self.att_order@, comb@);
                    if count_rows(rows, self.att_order@, comb@) > 0 {
                        let i = choose|i: int| 0 <= i < rows.len() && project(rows[i], self.att_order@) == comb@;
                        assert(views(self.combs@).contains(project(rows[i], self.att_order@)));
                    }
                }
                0
            },
        }
    }

    /// How many rows take the values that `vals` gives the attributes of the
    /// table.
    pub fn f_map(&self, vals: &HashMap<usize, usize>) -> (r: usize)
        requires
            forall|a: usize| self.att_set().contains(a) ==> vals@.contains_key(a),
        ensures
            r == count_rows(self.rows(), self.att_seq(), self.att_seq().map_values(|a: usize| vals@[a])),
    {
        proof {
            use_type_invariant(self);
            assert forall|k: int| 0 <= k < self.att_order.len() implies vals@.contains_key(#[trigger] self.att_order@[k]) by {
                assert(self.att_order@.to_set().contains(self.att_order@[k]));
                assert(self.att_set().contains(self.att_order@[k]));
            }
        }
        let comb = values_at(&self.att_order, vals);
        self.f(&comb)
    }

    /// The combinations that the rows take at the attributes of the table,
    /// once each, in no particular order.
    pub fn get_combs(&self) -> (r: Vec<Vec<usize>>)
        ensures
            views(r@).no_duplicates(),
            views(r@).to_set() == observed_combs(self.rows(), self.att_seq()),
    {
        proof {
            use_type_invariant(self);
            lemma_row_keys_observed(rows_of(self.dataset.data@), self.att_order@, views(self.combs@), member_sets(self.tids@));
        }
        copy_combs(&self.combs)
    }

    /// The attributes of the table.
    pub fn get_atts(&self) -> (r: &BTreeSet<usize>)
        ensures
            r@ == self.att_set(),
    {
        &self.atts
    }

    /// The data set whose rows the table sorts.
    pub fn get_dataset(&self) -> (r: &'a DataSet)
        ensures
            *r == self.source(),
    {
        self.dataset
    }

    /// How many distinct combinations the rows take at the attributes of the
    /// table.
    pub fn get_size(&self) -> (r: usize)
        ensures
            r == observed_combs(self.rows(), self.att_seq()).len(),
    {
        proof {
            use_type_invariant(self);
            lemma_row_keys_observed(rows_of(self.dataset.data@), self.att_order@, views(self.combs@), member_sets(self.tids@));
        }
        self.combs.len()
    }

    /// A table of the same data set over the same attributes.
    pub fn clone(&self) -> (p: Self)
        ensures
            p.source() == self.source(),
            p.att_set() == self.att_set(),
    {
        proof {
            use_type_invariant(self);
        }
        let combs = copy_combs(&self.combs);
        let mut tids: Vec<BitSet> = Vec::new();
        let mut k: usize = 0;
        while k < self.tids.len()
            invariant
                k <= self.tids.len(),
                tids.len() == k,
                forall|i: int| 0 <= i < k ==> bitset_members(#[trigger] tids@[i]) == bitset_members(self.tids@[i]),
            decreases self.tids.len() - k,
        {
            let b = bitset_clone(&self.tids[k]);
            tids.push(b);
            k = k + 1;
        }
        assert(member_sets(tids@) =~= member_sets(self.tids@));
        let att_order = self.att_order.clone();
        let atts = copy_set(&self.atts);
        proof {
            assert(att_order@ == self.att_order@);
        }
        ProbabilityTIDs { dataset: self.dataset, atts, att_order, combs, tids }
    }

    /// The table's attributes, their increasing order, its combinations and
    /// the number of rows of each.
    pub(crate) fn counts(&self) -> (r: (BTreeSet<usize>, Vec<usize>, Vec<Vec<usize>>, Vec<usize>))
        ensures
            r.0@ == self.att_set(),
            r.1@ == var_seq(r.0@),
            is_var_order(r.1@),
            r.1@.to_set() == r.0@,
            is_count_table(self.rows(), r.1@, views(r.2@), r.3@),
    {
        proof {
            use_type_invariant(self);
        }
        let ghost rows = rows_of(self.dataset.data@);
        let ghost a = self.att_order@;
        let ghost keys = views(self.combs@);
        assert(rows.len() == self.dataset.data.len());
        let mut freqs: Vec<usize> = Vec::new();
        let mut k: usize = 0;
        while k < self.tids.len()
            invariant
                k <= self.tids.len(),
                rows == rows_of(self.dataset.data@),
                rows.len() <= usize::MAX,
                keys == views(self.combs@),
                is_row_table(rows, a, keys, member_sets(self.tids@)),
                freqs.len() == k,
                forall|i: int| 0 <= i < k ==> #[trigger] freqs@[i] == count_rows(rows, a, keys[i]),
            decreases self.tids.len() - k,
        {
            proof {
                assert(member_sets(self.tids@)[k as int] == bitset_members(self.tids@[k as int]));
                lemma_matching_len(rows, a, keys[k as int]);
            }
            let c = bitset_len(&self.tids[k]);
            freqs.push(c);
            k = k + 1;
        }
        let combs = copy_combs(&self.combs);
        let att_order = self.att_order.clone();
        let atts = copy_set(&self.atts);
        proof {
            assert(att_order@ == self.att_order@);
        }
        (atts, att_order, combs, freqs)
    }

    /// Joins two tables of the same data set: the table over the union of
    /// their attributes, whose row sets are the intersections of those of
    /// the agreeing pairs of combinations, where these are not empty.
    pub fn merge(&self, other: &ProbabilityTIDs) -> (p: ProbabilityTIDs<'a>)
        requires
            other.source() == self.source(),
        ensures
            p.source() == self.source(),
            p.att_set() == self.att_set().union(other.att_set()),
    {
        proof {
            use_type_invariant(self);
            use_type_invariant(other);
        }
        let ghost rows = rows_of(self.dataset.data@);
        let ghost a = self.att_order@;
        let ghost b = other.att_order@;
        let ghost keys1 = views(self.combs@);
        let ghost keys2 = views(other.combs@);
        let new_atts = union_sets(&self.atts, &other.atts);
        let u_order = ordered_atts(&new_atts);
        let ghost u = u_order@;
        // where each attribute of the union is found in the two tables
        let mut in_a: Vec<bool> = Vec::new();
        let mut pa: Vec<usize> = Vec::new();
        let mut pb: Vec<usize> = Vec::new();
        let mut k: usize = 0;
        while k < u_order.len()
            invariant
                k <= u_order.len(),
                u == u_order@,
                a == self.att_order@,
                b == other.att_order@,
                u.to_set() == a.to_set().union(b.to_set()),
                in_a.len() == k,
                pa.len() == k,
                pb.len() == k,
                forall|t: int|
                    0 <= t < k ==> if #[trigger] in_a@[t] {
                        pa@[t] < a.len() && a[pa@[t] as int] == u[t]
                    } else {
                        pb@[t] < b.len() && b[pb@[t] as int] == u[t] && !a.contains(u[t])
                    },
            decreases u_order.len() - k,
        {
            let x = u_order[k];
            match index_of(&self.att_order, x) {
                Some(p) => {
                    in_a.push(true);
                    pa.push(p);
                    pb.push(0);
                },
                None => {
                    proof {
                        assert(u.to_set().contains(u[k as int]));
                        assert(!a.to_set().contains(x));
                        assert(b.to_set().contains(x));
                    }
                    let q = match index_of(&other.att_order, x) {
                        Some(q) => q,
                        None => {
                            proof {
                                let t = choose|t: int| 0 <= t < b.len() && b[t] == x;
                                assert(b.contains(x));
                            }
                            0
                        },
                    };
                    in_a.push(false);
                    pa.push(0);
                    pb.push(q);
                },
            }
            proof {
                assert(in_a@[k as int] ==> pa@[k as int] < a.len() && a[pa@[k as int] as int] == u[k as int]);
            }
            k = k + 1;
        }
        // where each attribute of `other` is found in `self`
        let mut shared: Vec<Option<usize>> = Vec::new();
        let mut q: usize = 0;
        while q < other.att_order.len()
            invariant
                q <= other.att_order.len(),
                a == self.att_order@,
                b == other.att_order@,
                shared.len() == q,
                forall|t: int|
                    0 <= t < q ==> match #[trigger] shared@[t] {
                        Some(p) => p < a.len() && a[p as int] == b[t],
                        None => !a.contains(b[t]),
                    },
            decreases other.att_order.len() - q,
        {
            let found = index_of(&self.att_order, other.att_order[q]);
            shared.push(found);
            proof {
                assert(shared@[q as int] == found);
            }
            q = q + 1;
        }
        proof {
            assert(rows_of(other.dataset.data@) == rows);
            assert(rows.len() == self.dataset.data.len());
            assert(merge_inputs(rows, a, b, u, in_a@, pa@, pb@, shared@, keys1, keys2));
            lemma_merge_start(rows, a, b, u, in_a@, pa@, pb@, shared@, keys1, keys2);
        }
        let mut combs: Vec<Vec<usize>> = Vec::new();
        let mut tids: Vec<BitSet> = Vec::new();
        let ghost mut pairs: Seq<(int, int)> = Seq::empty();
        proof {
            assert(views(combs@) =~= Seq::<Seq<usize>>::empty());
            assert(member_sets(tids@) =~= Seq::<Set<usize>>::empty());
        }
        let mut j1: usize = 0;
        while j1 < self.combs.len()
            invariant
                j1 <= self.combs.len(),
                keys1 == views(self.combs@),
                keys2 == views(other.combs@),
                is_row_table(rows, a, keys1, member_sets(self.tids@)),
                is_row_table(rows, b, keys2, member_sets(other.tids@)),
                merge_inputs(rows, a, b, u, in_a@, pa@, pb@, shared@, keys1, keys2),
                merge_state(rows, a, b, u, in_a@, pa@, pb@, shared@, keys1, keys2, views(combs@), member_sets(tids@), pairs, j1 as int, 0),
            decreases self.combs.len() - j1,
        {
            let mut j2: usize = 0;
            while j2 < other.combs.len()
                invariant
                    j1 < self.combs.len(),
                    j2 <= other.combs.len(),
                    keys1 == views(self.combs@),
                    keys2 == views(other.combs@),
                    is_row_table(rows, a, keys1, member_sets(self.tids@)),
                    is_row_table(rows, b, keys2, member_sets(other.tids@)),
                    merge_inputs(rows, a, b, u, in_a@, pa@, pb@, shared@, keys1, keys2),
                    merge_state(rows, a, b, u, in_a@, pa@, pb@, shared@, keys1, keys2, views(combs@), member_sets(tids@), pairs, j1 as int, j2 as int),
                decreases other.combs.len() - j2,
            {
                let c1 = &self.combs[j1];
                let c2 = &other.combs[j2];
                let ghost s1 = matching_rows(rows, a, keys1[j1 as int]);
                let ghost s2 = matching_rows(rows, b, keys2[j2 as int]);
                proof {
                    assert(c1@ == keys1[j1 as int]);
                    assert(c2@ == keys2[j2 as int]);
                    assert(c1@.len() == a.len());
                    assert(c2@.len() == b.len());
                    assert(member_sets(self.tids@)[j1 as int] == s1);
                    assert(member_sets(other.tids@)[j2 as int] == s2);
                }
                if agree(c1, c2, &shared) {
                    let inter = bitset_intersection(&self.tids[j1], &other.tids[j2]);
                    if bitset_len(&inter) > 0 {
                        let uc = join_comb(c1, c2, &in_a, &pa, &pb);
                        proof {
                            lemma_merge_push(
                                rows, a, b, u, in_a@, pa@, pb@, shared@, keys1, keys2,
                                views(combs@), member_sets(tids@), pairs, j1 as int, j2 as int,
                                uc@, bitset_members(inter),
                            );
                        }
                        let ghost old_keys = views(combs@);
                        let ghost old_sets = member_sets(tids@);
                        combs.push(uc);
                        tids.push(inter);
                        proof {
                            assert(views(combs@) =~= old_keys.push(uc@));
                            assert(member_sets(tids@) =~= old_sets.push(bitset_members(inter)));
                            pairs = pairs.push((j1 as int, j2 as int));
                        }
                    } else {
                        proof {
                            lemma_merge_skip(
                                rows, a, b, u, in_a@, pa@, pb@, shared@, keys1, keys2,
                                views(combs@), member_sets(tids@), pairs, j1 as int, j2 as int,
                            );
                        }
                    }
                } else {
                    proof {
                        lemma_merge_skip(
                            rows, a, b, u, in_a@, pa@, pb@, shared@, keys1, keys2,
                            views(combs@), member_sets(tids@), pairs, j1 as int, j2 as int,
                        );
                    }
                }
                j2 = j2 + 1;
            }
            proof {
                lemma_merge_next(
                    rows, a, b, u, in_a@, pa@, pb@, shared@, keys1, keys2,
                    views(combs@), member_sets(tids@), pairs, j1 as int,
                );
            }
            j1 = j1 + 1;
        }
        proof {
            lemma_merge_done(rows, a, b, u, in_a@, pa@, pb@, shared@, keys1, keys2, views(combs@), member_sets(tids@), pairs);
        }
        ProbabilityTIDs { dataset: self.dataset, atts: new_atts, att_order: u_order, combs, tids }
    }
}


/// The keys of a row table are the observed combinations.
pub proof fn lemma_row_keys_observed(rows: Seq<Seq<usize>>, atts: Seq<usize>, keys: Seq<Seq<usize>>, sets: Seq<Set<usize>>)
    requires
        is_row_table(rows, atts, keys, sets),
    ensures
        keys.to_set() == observed_combs(rows, atts),
        observed_combs(rows, atts).finite(),
        observed_combs(rows, atts).len() == keys.len(),
{
    assert(keys.to_set() =~= observed_combs(rows, atts)) by {
        assert forall|c: Seq<usize>| keys.to_set().contains(c) implies observed_combs(rows, atts).contains(c) by {
            let j = choose|j: int| 0 <= j < keys.len() && keys[j] == c;
            assert(count_rows(rows, atts, keys[j]) > 0);
        }
        assert forall|c: Seq<usize>| observed_combs(rows, atts).contains(c) implies keys.to_set().contains(c) by {
            lemma_count_pos(rows, atts, c);
            let i = choose|i: int| 0 <= i < rows.len() && project(rows[i], atts) == c;
            assert(keys.contains(project(rows[i], atts)));
        }
    }
    keys.unique_seq_to_set();
}

/// `p` comes before `(j1, j2)` in the order in which `merge` visits pairs of
/// combinations.
pub open spec fn before(p: (int, int), j1: int, j2: int) -> bool {
    p.0 < j1 || (p.0 == j1 && p.1 < j2)
}

/// The position of `c` in `keys`.
pub open spec fn key_index(keys: Seq<Seq<usize>>, c: Seq<usize>) -> int {
    choose|j: int| 0 <= j < keys.len() && keys[j] == c
}

proof fn lemma_key_index(keys: Seq<Seq<usize>>, c: Seq<usize>)
    requires
        keys.contains(c),
    ensures
        0 <= key_index(keys, c) < keys.len(),
        keys[key_index(keys, c)] == c,
{
}

proof fn lemma_key_index_at(keys: Seq<Seq<usize>>, j: int)
    requires
        keys.no_duplicates(),
        0 <= j < keys.len(),
    ensures
        key_index(keys, keys[j]) == j,
{
    assert(keys.contains(keys[j]));
}

/// What `merge` knows of each table it joins: the layout of the joined
/// attributes, and that each table lists, once each, the combinations of the
/// rows.
pub open spec fn merge_inputs(
    rows: Seq<Seq<usize>>,
    a: Seq<usize>,
    b: Seq<usize>,
    u: Seq<usize>,
    in_a: Seq<bool>,
    pa: Seq<usize>,
    pb: Seq<usize>,
    shared: Seq<Option<usize>>,
    keys1: Seq<Seq<usize>>,
    keys2: Seq<Seq<usize>>,
) -> bool {
    &&& is_join_layout(a, b, u, in_a, pa, pb, shared)
    &&& rows.len() <= usize::MAX
    &&& keys1.no_duplicates()
    &&& keys2.no_duplicates()
    &&& forall|j: int| 0 <= j < keys1.len() ==> (#[trigger] keys1[j]).len() == a.len()
    &&& forall|j: int| 0 <= j < keys2.len() ==> (#[trigger] keys2[j]).len() == b.len()
    &&& complete_keys(rows, a, keys1)
    &&& complete_keys(rows, b, keys2)
}

/// The output entry `(key, set)` comes from the pair `p` of input
/// combinations, visited before `(j1, j2)`.
pub open spec fn pair_entry(
    rows: Seq<Seq<usize>>,
    u: Seq<usize>,
    in_a: Seq<bool>,
    pa: Seq<usize>,
    pb: Seq<usize>,
    shared: Seq<Option<usize>>,
    keys1: Seq<Seq<usize>>,
    keys2: Seq<Seq<usize>>,
    p: (int, int),
    key: Seq<usize>,
    set: Set<usize>,
    j1: int,
    j2: int,
) -> bool {
    &&& 0 <= p.0 < keys1.len()
    &&& 0 <= p.1 < keys2.len()
    &&& before(p, j1, j2)
    &&& compatible(keys1[p.0], keys2[p.1], shared)
    &&& key == join_of(keys1[p.0], keys2[p.1], in_a, pa, pb)
    &&& key.len() == u.len()
    &&& set == matching_rows(rows, u, key)
    &&& count_rows(rows, u, key) > 0
}

/// The pair of positions, in the two tables, of the combinations of row `r`.
pub open spec fn row_pair(keys1: Seq<Seq<usize>>, keys2: Seq<Seq<usize>>, a: Seq<usize>, b: Seq<usize>, r: Seq<usize>) -> (
    int,
    int,
) {
    (key_index(keys1, project(r, a)), key_index(keys2, project(r, b)))
}

/// The state of `merge` once it has visited the pairs before `(j1, j2)`:
/// each output entry comes from a visited pair, and every row whose pair was
/// visited has its combination among the output keys.
#[verifier::opaque]
pub open spec fn merge_state(
    rows: Seq<Seq<usize>>,
    a: Seq<usize>,
    b: Seq<usize>,
    u: Seq<usize>,
    in_a: Seq<bool>,
    pa: Seq<usize>,
    pb: Seq<usize>,
    shared: Seq<Option<usize>>,
    keys1: Seq<Seq<usize>>,
    keys2: Seq<Seq<usize>>,
    out_keys: Seq<Seq<usize>>,
    out_sets: Seq<Set<usize>>,
    pairs: Seq<(int, int)>,
    j1: int,
    j2: int,
) -> bool {
    &&& out_keys.len() == pairs.len()
    &&& out_sets.len() == pairs.len()
    &&& out_keys.no_duplicates()
    &&& forall|t: int|
        0 <= t < pairs.len() ==> pair_entry(
            rows,
            u,
            in_a,
            pa,
            pb,
            shared,
            keys1,
            keys2,
            #[trigger] pairs[t],
            out_keys[t],
            out_sets[t],
            j1,
            j2,
        )
    &&& forall|i: int|
        0 <= i < rows.len() && before(row_pair(keys1, keys2, a, b, #[trigger] rows[i]), j1, j2)
            ==> out_keys.contains(project(rows[i], u))
}

proof fn lemma_merge_start(
    rows: Seq<Seq<usize>>,
    a: Seq<usize>,
    b: Seq<usize>,
    u: Seq<usize>,
    in_a: Seq<bool>,
    pa: Seq<usize>,
    pb: Seq<usize>,
    shared: Seq<Option<usize>>,
    keys1: Seq<Seq<usize>>,
    keys2: Seq<Seq<usize>>,
)
    requires
        merge_inputs(rows, a, b, u, in_a, pa, pb, shared, keys1, keys2),
    ensures
        merge_state(rows, a, b, u, in_a, pa, pb, shared, keys1, keys2, Seq::empty(), Seq::empty(), Seq::empty(), 0, 0),
{
    reveal(merge_state);
    assert forall|i: int|
        0 <= i < rows.len() && before(row_pair(keys1, keys2, a, b, #[trigger] rows[i]), 0, 0) implies false by {
        lemma_key_index(keys1, project(rows[i], a));
    }
}

/// A pair whose rows are none leaves the state as it was.
proof fn lemma_merge_skip(
    rows: Seq<Seq<usize>>,
    a: Seq<usize>,
    b: Seq<usize>,
    u: Seq<usize>,
    in_a: Seq<bool>,
    pa: Seq<usize>,
    pb: Seq<usize>,
    shared: Seq<Option<usize>>,
    keys1: Seq<Seq<usize>>,
    keys2: Seq<Seq<usize>>,
    out_keys: Seq<Seq<usize>>,
    out_sets: Seq<Set<usize>>,
    pairs: Seq<(int, int)>,
    j1: int,
    j2: int,
)
    requires
        merge_inputs(rows, a, b, u, in_a, pa, pb, shared, keys1, keys2),
        merge_state(rows, a, b, u, in_a, pa, pb, shared, keys1, keys2, out_keys, out_sets, pairs, j1, j2),
        0 <= j1 < keys1.len(),
        0 <= j2 < keys2.len(),
        compatible(keys1[j1], keys2[j2], shared) ==> matching_rows(rows, a, keys1[j1]).intersect(
            matching_rows(rows, b, keys2[j2]),
        ).len() == 0,
    ensures
        merge_state(rows, a, b, u, in_a, pa, pb, shared, keys1, keys2, out_keys, out_sets, pairs, j1, j2 + 1),
{
    reveal(merge_state);
    assert forall|t: int| 0 <= t < pairs.len() implies pair_entry(
        rows,
        u,
        in_a,
        pa,
        pb,
        shared,
        keys1,
        keys2,
        #[trigger] pairs[t],
        out_keys[t],
        out_sets[t],
        j1,
        j2 + 1,
    ) by {
        assert(pair_entry(rows, u, in_a, pa, pb, shared, keys1, keys2, pairs[t], out_keys[t], out_sets[t], j1, j2));
    }
    assert forall|i: int|
        0 <= i < rows.len() && before(row_pair(keys1, keys2, a, b, #[trigger] rows[i]), j1, j2 + 1)
            implies out_keys.contains(project(rows[i], u)) by {
        let r = rows[i];
        if !before(row_pair(keys1, keys2, a, b, r), j1, j2) {
            lemma_key_index(keys1, project(r, a));
            lemma_key_index(keys2, project(r, b));
            assert(keys1[j1] == project(r, a));
            assert(keys2[j2] == project(r, b));
            lemma_join_row(r, a, b, u, in_a, pa, pb, shared);
            let s = matching_rows(rows, a, keys1[j1]).intersect(matching_rows(rows, b, keys2[j2]));
            lemma_matching_len(rows, a, keys1[j1]);
            assert(s.contains(i as usize));
            assert(s.finite());
            if s.len() == 0 {
                s.lemma_len0_is_empty();
            }
        }
    }
}

/// A pair whose rows are some adds the joined combination with those rows.
proof fn lemma_merge_push(
    rows: Seq<Seq<usize>>,
    a: Seq<usize>,
    b: Seq<usize>,
    u: Seq<usize>,
    in_a: Seq<bool>,
    pa: Seq<usize>,
    pb: Seq<usize>,
    shared: Seq<Option<usize>>,
    keys1: Seq<Seq<usize>>,
    keys2: Seq<Seq<usize>>,
    out_keys: Seq<Seq<usize>>,
    out_sets: Seq<Set<usize>>,
    pairs: Seq<(int, int)>,
    j1: int,
    j2: int,
    key: Seq<usize>,
    set: Set<usize>,
)
    requires
        merge_inputs(rows, a, b, u, in_a, pa, pb, shared, keys1, keys2),
        merge_state(rows, a, b, u, in_a, pa, pb, shared, keys1, keys2, out_keys, out_sets, pairs, j1, j2),
        0 <= j1 < keys1.len(),
        0 <= j2 < keys2.len(),
        compatible(keys1[j1], keys2[j2], shared),
        key == join_of(keys1[j1], keys2[j2], in_a, pa, pb),
        set == matching_rows(rows, a, keys1[j1]).intersect(matching_rows(rows, b, keys2[j2])),
        set.len() > 0,
    ensures
        merge_state(
            rows,
            a,
            b,
            u,
            in_a,
            pa,
            pb,
            shared,
            keys1,
            keys2,
            out_keys.push(key),
            out_sets.push(set),
            pairs.push((j1, j2)),
            j1,
            j2 + 1,
        ),
{
    reveal(merge_state);
    let ok2 = out_keys.push(key);
    let os2 = out_sets.push(set);
    let ps2 = pairs.push((j1, j2));
    law_join_rows(rows, a, b, u, in_a, pa, pb, shared, keys1[j1], keys2[j2]);
    lemma_matching_len(rows, u, key);
    assert(key.len() == u.len());
    assert forall|t: int| 0 <= t < ps2.len() implies pair_entry(
        rows,
        u,
        in_a,
        pa,
        pb,
        shared,
        keys1,
        keys2,
        #[trigger] ps2[t],
        ok2[t],
        os2[t],
        j1,
        j2 + 1,
    ) by {
        if t < pairs.len() {
            assert(ps2[t] == pairs[t] && ok2[t] == out_keys[t] && os2[t] == out_sets[t]);
            assert(pair_entry(rows, u, in_a, pa, pb, shared, keys1, keys2, pairs[t], out_keys[t], out_sets[t], j1, j2));
        }
    }
    assert(ok2.no_duplicates()) by {
        assert forall|s: int, t: int| 0 <= s < ok2.len() && 0 <= t < ok2.len() && s != t implies ok2[s] != ok2[t] by {
            if s < out_keys.len() && t < out_keys.len() {
                assert(ok2[s] == out_keys[s] && ok2[t] == out_keys[t]);
            } else {
                let o = if s < out_keys.len() { s } else { t };
                let p = pairs[o];
                assert(pair_entry(rows, u, in_a, pa, pb, shared, keys1, keys2, pairs[o], out_keys[o], out_sets[o], j1, j2));
                if out_keys[o] == key {
                    lemma_join_injective(a, b, u, in_a, pa, pb, shared, keys1[p.0], keys2[p.1], keys1[j1], keys2[j2]);
                    lemma_key_index_at(keys1, p.0);
                    lemma_key_index_at(keys1, j1);
                    lemma_key_index_at(keys2, p.1);
                    lemma_key_index_at(keys2, j2);
                }
                assert(ok2[o] == out_keys[o]);
            }
        }
    }
    assert forall|i: int|
        0 <= i < rows.len() && before(row_pair(keys1, keys2, a, b, #[trigger] rows[i]), j1, j2 + 1)
            implies ok2.contains(project(rows[i], u)) by {
        let r = rows[i];
        if before(row_pair(keys1, keys2, a, b, r), j1, j2) {
            assert(out_keys.contains(project(r, u)));
            let t = choose|t: int| 0 <= t < out_keys.len() && out_keys[t] == project(r, u);
            assert(ok2[t] == out_keys[t]);
        } else {
            lemma_key_index(keys1, project(r, a));
            lemma_key_index(keys2, project(r, b));
            lemma_join_row(r, a, b, u, in_a, pa, pb, shared);
            assert(ok2[out_keys.len() as int] == key);
        }
    }
}

/// Having visited a whole row of pairs, go on to the next.
proof fn lemma_merge_next(
    rows: Seq<Seq<usize>>,
    a: Seq<usize>,
    b: Seq<usize>,
    u: Seq<usize>,
    in_a: Seq<bool>,
    pa: Seq<usize>,
    pb: Seq<usize>,
    shared: Seq<Option<usize>>,
    keys1: Seq<Seq<usize>>,
    keys2: Seq<Seq<usize>>,
    out_keys: Seq<Seq<usize>>,
    out_sets: Seq<Set<usize>>,
    pairs: Seq<(int, int)>,
    j1: int,
)
    requires
        merge_inputs(rows, a, b, u, in_a, pa, pb, shared, keys1, keys2),
        merge_state(rows, a, b, u, in_a, pa, pb, shared, keys1, keys2, out_keys, out_sets, pairs, j1, keys2.len() as int),
    ensures
        merge_state(rows, a, b, u, in_a, pa, pb, shared, keys1, keys2, out_keys, out_sets, pairs, j1 + 1, 0),
{
    reveal(merge_state);
    let n2 = keys2.len() as int;
    assert forall|t: int| 0 <= t < pairs.len() implies pair_entry(
        rows,
        u,
        in_a,
        pa,
        pb,
        shared,
        keys1,
        keys2,
        #[trigger] pairs[t],
        out_keys[t],
        out_sets[t],
        j1 + 1,
        0,
    ) by {
        assert(pair_entry(rows, u, in_a, pa, pb, shared, keys1, keys2, pairs[t], out_keys[t], out_sets[t], j1, n2));
    }
    assert forall|i: int|
        0 <= i < rows.len() && before(row_pair(keys1, keys2, a, b, #[trigger] rows[i]), j1 + 1, 0)
            implies out_keys.contains(project(rows[i], u)) by {
        lemma_key_index(keys2, project(rows[i], b));
        assert(before(row_pair(keys1, keys2, a, b, rows[i]), j1, n2));
    }
}

/// Once every pair is visited, the output is the row table of the union.
proof fn lemma_merge_done(
    rows: Seq<Seq<usize>>,
    a: Seq<usize>,
    b: Seq<usize>,
    u: Seq<usize>,
    in_a: Seq<bool>,
    pa: Seq<usize>,
    pb: Seq<usize>,
    shared: Seq<Option<usize>>,
    keys1: Seq<Seq<usize>>,
    keys2: Seq<Seq<usize>>,
    out_keys: Seq<Seq<usize>>,
    out_sets: Seq<Set<usize>>,
    pairs: Seq<(int, int)>,
)
    requires
        merge_inputs(rows, a, b, u, in_a, pa, pb, shared, keys1, keys2),
        merge_state(rows, a, b, u, in_a, pa, pb, shared, keys1, keys2, out_keys, out_sets, pairs, keys1.len() as int, 0),
    ensures
        is_row_table(rows, u, out_keys, out_sets),
{
    reveal(merge_state);
    let n1 = keys1.len() as int;
    assert forall|j: int| 0 <= j < out_keys.len() implies (#[trigger] out_keys[j]).len() == u.len() && out_sets[j]
        == matching_rows(rows, u, out_keys[j]) && count_rows(rows, u, out_keys[j]) > 0 by {
        assert(pair_entry(rows, u, in_a, pa, pb, shared, keys1, keys2, pairs[j], out_keys[j], out_sets[j], n1, 0));
    }
    assert forall|i: int| 0 <= i < rows.len() implies out_keys.contains(#[trigger] project(rows[i], u)) by {
        lemma_key_index(keys1, project(rows[i], a));
        assert(before(row_pair(keys1, keys2, a, b, rows[i]), n1, 0));
    }
}

} // verus!
