//! Per-attribute value counts of a data set whose values are already small
//! integers, and the numbering of value combinations by them.
use vstd::prelude::*;
use std::collections::BTreeSet;
use std::collections::HashMap;

use crate::combs::{project, rows_of};
use crate::radix::{
    all_positive, decode_digit, lemma_value_mono, lemma_weight_mono, lemma_weight_pos, nat_seq,
    radices_of, radix_value, weight, weights_fit,
};
use crate::varset::{ordered_atts, var_seq};

verus! {

/// The number of attributes, one more than the largest value of each
/// attribute (`nvals`), and the number of rows of a data set.
pub struct MetaData {
    pub natts: usize,
    pub nvals: Vec<usize>,
    pub sample_size: usize,
}

/// One more than the largest value of column `c` among the rows that have
/// that column, or 0 when none has it.
pub open spec fn col_bound(rows: Seq<Seq<usize>>, c: int) -> nat
    decreases rows.len(),
{
    if rows.len() == 0 {
        0
    } else {
        let prev = col_bound(rows.drop_last(), c);
        let last = rows.last();
        let here: nat = if 0 <= c < last.len() {
            last[c] as nat + 1
        } else {
            0
        };
        if here > prev {
            here
        } else {
            prev
        }
    }
}

/// Every value of a column lies below its bound, and a positive bound is
/// reached by some row.
pub proof fn law_col_bound(rows: Seq<Seq<usize>>, c: int)
    ensures
        forall|i: int| 0 <= i < rows.len() && 0 <= c < rows[i].len() ==> rows[i][c] < col_bound(rows, c),
        col_bound(rows, c) > 0 ==> exists|i: int|
            0 <= i < rows.len() && 0 <= c < rows[i].len() && rows[i][c] + 1 == col_bound(rows, c),
    decreases rows.len(),
{
    if rows.len() > 0 {
        let d = rows.drop_last();
        law_col_bound(d, c);
        assert forall|i: int| 0 <= i < rows.len() && 0 <= c < rows[i].len() implies rows[i][c] < col_bound(rows, c) by {
            if i < rows.len() - 1 {
                assert(d[i] == rows[i]);
            }
        }
        if col_bound(rows, c) > 0 {
            if col_bound(rows, c) == col_bound(d, c) && col_bound(d, c) > 0 {
                let i = choose|i: int|
                    0 <= i < d.len() && 0 <= c < d[i].len() && d[i][c] + 1 == col_bound(d, c);
                assert(rows[i] == d[i]);
            } else {
                let i = rows.len() - 1;
                assert(rows[i] == rows.last());
                assert(0 <= c < rows[i].len() && rows[i][c] + 1 == col_bound(rows, c));
            }
        }
    }
}

proof fn lemma_col_bound_step(rows: Seq<Seq<usize>>, c: int, k: int)
    requires
        0 <= k < rows.len(),
    ensures
        col_bound(rows.take(k + 1), c) == ({
            let prev = col_bound(rows.take(k), c);
            let here: nat = if 0 <= c < rows[k].len() {
                rows[k][c] as nat + 1
            } else {
                0
            };
            if here > prev {
                here
            } else {
                prev
            }
        }),
{
    assert(rows.take(k + 1).drop_last() == rows.take(k));
}

impl MetaData {
    /// Reads the number of attributes from the first row and, for each
    /// attribute, one more than its largest value.
    pub fn new(data: &Vec<Vec<usize>>) -> (m: Self)
        requires
            data.len() > 0,
            forall|i: int| 0 <= i < data.len() ==> #[trigger] data[i].len() <= data[0].len(),
            forall|i: int, c: int|
                0 <= i < data.len() && 0 <= c < data[i].len() ==> #[trigger] data[i]@[c] < usize::MAX,
        ensures
            m.natts == data[0].len(),
            m.sample_size == data.len(),
            m.nvals.len() == m.natts,
            forall|c: int| 0 <= c < m.natts ==> m.nvals[c] == col_bound(rows_of(data@), c),
    {
        let ghost rows = rows_of(data@);
        let natts = data[0].len();
        let sample_size = data.len();
        let mut nvals: Vec<usize> = Vec::new();
        let mut c: usize = 0;
        while c < natts
            invariant
                c <= natts,
                nvals.len() == c,
                forall|j: int| 0 <= j < c ==> nvals[j] == 0,
            decreases natts - c,
        {
            nvals.push(0);
            c = c + 1;
        }
        assert forall|j: int| 0 <= j < natts implies nvals[j] == col_bound(rows.take(0), j) by {}
        let mut k: usize = 0;
        while k < data.len()
            invariant
                k <= data.len(),
                rows == rows_of(data@),
                natts == data[0].len(),
                nvals.len() == natts,
                forall|i: int| 0 <= i < data.len() ==> #[trigger] data[i].len() <= data[0].len(),
                forall|i: int, c: int|
                    0 <= i < data.len() && 0 <= c < data[i].len() ==> #[trigger] data[i]@[c] < usize::MAX,
                forall|j: int| 0 <= j < natts ==> nvals[j] == col_bound(rows.take(k as int), j),
            decreases data.len() - k,
        {
            let row = &data[k];
            let mut i: usize = 0;
            while i < row.len()
                invariant
                    k < data.len(),
                    row == &data[k as int],
                    row.len() <= natts,
                    nvals.len() == natts,
                    i <= row.len(),
                    forall|c: int| 0 <= c < row.len() ==> row@[c] < usize::MAX,
                    forall|j: int| 0 <= j < natts ==> nvals[j] == if j < i {
                        let prev = col_bound(rows.take(k as int), j);
                        let here: nat = row@[j] as nat + 1;
                        if here > prev { here } else { prev }
                    } else {
                        col_bound(rows.take(k as int), j)
                    },
                decreases row.len() - i,
            {
                let v = row[i] + 1;
                if v > nvals[i] {
                    nvals.set(i, v);
                }
                i = i + 1;
            }
            proof {
                assert forall|j: int| 0 <= j < natts implies nvals[j] == col_bound(rows.take(k + 1), j) by {
                    lemma_col_bound_step(rows, j, k as int);
                    assert(rows[k as int] == row@);
                }
            }
            k = k + 1;
        }
        assert(rows.take(data.len() as int) == rows);
        MetaData { natts, nvals, sample_size }
    }

    /// Numbers the combination that gives attribute `atts[i]` the value
    /// `vals[i]`, with radix `nvals[atts[i]]` at position `i`.
    pub fn get_comb_id(&self, atts: &Vec<usize>, vals: &Vec<usize>) -> (id: usize)
        requires
            atts.len() <= vals.len(),
            forall|i: int| 0 <= i < atts.len() ==> atts[i] < self.nvals.len(),
            weights_fit(radices_of(self.nvals@, atts@)),
            radix_value(nat_seq(vals@), radices_of(self.nvals@, atts@), atts.len() as int) <= usize::MAX,
        ensures
            id == radix_value(nat_seq(vals@), radices_of(self.nvals@, atts@), atts.len() as int),
    {
        let ghost r = radices_of(self.nvals@, atts@);
        let ghost d = nat_seq(vals@);
        let mut base: usize = 1;
        let mut hash: usize = 0;
        let mut i: usize = 0;
        while i < atts.len()
            invariant
                i <= atts.len(),
                atts.len() <= vals.len(),
                r == radices_of(self.nvals@, atts@),
                d == nat_seq(vals@),
                forall|j: int| 0 <= j < atts.len() ==> atts[j] < self.nvals.len(),
                weights_fit(r),
                radix_value(d, r, atts.len() as int) <= usize::MAX,
                hash == radix_value(d, r, i as int),
                base == weight(r, i as int),
            decreases atts.len() - i,
        {
            proof {
                lemma_value_mono(d, r, i + 1, atts.len() as int);
                vstd::arithmetic::mul::lemma_mul_nonnegative(d[i as int] as int, weight(r, i as int) as int);
                assert(weight(r, i + 1) <= usize::MAX);
            }
            hash = hash + vals[i] * base;
            base = base * self.nvals[atts[i]];
            i = i + 1;
        }
        hash
    }

    /// Decodes `comb_id` into one value per attribute of `atts`, taking the
    /// attributes in increasing order.
    pub fn get_vals(&self, atts: &BTreeSet<usize>, comb_id: usize) -> (vals: HashMap<usize, usize>)
        requires
            forall|a: usize| atts@.contains(a) ==> a < self.nvals.len() && self.nvals[a as int] > 0,
            weight(radices_of(self.nvals@, var_seq(atts@)), var_seq(atts@).len() as int) <= usize::MAX,
        ensures
            vals@.dom() == atts@,
            forall|i: int|
                0 <= i < var_seq(atts@).len() ==> vals@[var_seq(atts@)[i]] == decode_digit(
                    comb_id as nat,
                    radices_of(self.nvals@, var_seq(atts@)),
                    i,
                ),
    {
        broadcast use vstd::std_specs::hash::group_hash_axioms;

        let att_ord = ordered_atts(atts);
        let digits = decode_comb_id(&self.nvals, &att_ord, comb_id);
        let mut vals: HashMap<usize, usize> = HashMap::new();
        let mut i: usize = 0;
        while i < att_ord.len()
            invariant
                i <= att_ord.len(),
                digits.len() == att_ord.len(),
                crate::varset::is_var_order(att_ord@),
                vals@.dom() == att_ord@.take(i as int).to_set(),
                forall|j: int| 0 <= j < i ==> vals@.contains_key(#[trigger] att_ord@[j]) && vals@[att_ord@[j]] == digits@[j],
            decreases att_ord.len() - i,
        {
            let ghost before = vals@;
            vals.insert(att_ord[i], digits[i]);
            proof {
                assert forall|j: int| 0 <= j < i implies att_ord@[j] != att_ord@[i as int] by {}
                assert(vals@ == before.insert(att_ord@[i as int], digits@[i as int]));
                assert forall|j: int| 0 <= j < i + 1 implies vals@.contains_key(att_ord@[j]) && vals@[att_ord@[j]] == digits@[j] by {
                    if j < i {
                        assert(before.contains_key(att_ord@[j]));
                    }
                }
                att_ord@.take(i as int).lemma_push_to_set_commute(att_ord@[i as int]);
                assert(att_ord@.take(i + 1) == att_ord@.take(i as int).push(att_ord@[i as int]));
            }
            i = i + 1;
        }
        assert(att_ord@.take(i as int) == att_ord@);
        assert(att_ord@ == var_seq(atts@));
        vals
    }

    /// The number of the combination that `vals` gives the attributes of
    /// `att_subset`, taken in increasing order.
    pub fn get_comb_id_map(&self, att_subset: &BTreeSet<usize>, vals: &HashMap<usize, usize>) -> (id: usize)
        requires
            forall|a: usize| att_subset@.contains(a) ==> vals@.contains_key(a) && a < self.nvals.len(),
            weights_fit(radices_of(self.nvals@, var_seq(att_subset@))),
            radix_value(
                nat_seq(var_seq(att_subset@).map_values(|a: usize| vals@[a])),
                radices_of(self.nvals@, var_seq(att_subset@)),
                var_seq(att_subset@).len() as int,
            ) <= usize::MAX,
        ensures
            id == radix_value(
                nat_seq(var_seq(att_subset@).map_values(|a: usize| vals@[a])),
                radices_of(self.nvals@, var_seq(att_subset@)),
                var_seq(att_subset@).len() as int,
            ),
    {
        let atts = ordered_atts(att_subset);
        let vals_v = values_at(&atts, vals);
        self.get_comb_id(&atts, &vals_v)
    }

    /// The number of the combination that the full row `vals` gives the
    /// attributes `att_subset`.
    pub fn get_comb_id_vec(&self, att_subset: &Vec<usize>, vals: &Vec<usize>) -> (id: usize)
        requires
            forall|i: int| 0 <= i < att_subset.len() ==> att_subset[i] < vals.len() && att_subset[i] < self.nvals.len(),
            weights_fit(radices_of(self.nvals@, att_subset@)),
            radix_value(
                nat_seq(project(vals@, att_subset@)),
                radices_of(self.nvals@, att_subset@),
                att_subset.len() as int,
            ) <= usize::MAX,
        ensures
            id == radix_value(
                nat_seq(project(vals@, att_subset@)),
                radices_of(self.nvals@, att_subset@),
                att_subset.len() as int,
            ),
    {
        let atts = att_subset.clone();
        let vals_v = project_row(vals, &atts);
        self.get_comb_id(&atts, &vals_v)
    }
}

/// The values that `vals` gives the attributes `atts`, in that order.
pub fn values_at(atts: &Vec<usize>, vals: &HashMap<usize, usize>) -> (r: Vec<usize>)
    requires
        forall|i: int| 0 <= i < atts.len() ==> vals@.contains_key(atts[i]),
    ensures
        r@ == atts@.map_values(|a: usize| vals@[a]),
{
    broadcast use vstd::std_specs::hash::group_hash_axioms;

    let mut r: Vec<usize> = Vec::new();
    let mut i: usize = 0;
    while i < atts.len()
        invariant
            i <= atts.len(),
            forall|j: int| 0 <= j < atts.len() ==> vals@.contains_key(atts[j]),
            r@ == atts@.take(i as int).map_values(|a: usize| vals@[a]),
        decreases atts.len() - i,
    {
        let v = *vals.get(&atts[i]).unwrap();
        r.push(v);
        assert(atts@.take(i + 1) == atts@.take(i as int).push(atts@[i as int]));
        i = i + 1;
    }
    assert(atts@.take(i as int) == atts@);
    r
}

/// The values of `row` at the attributes `atts`, in that order.
pub fn project_row(row: &Vec<usize>, atts: &Vec<usize>) -> (r: Vec<usize>)
    requires
        forall|i: int| 0 <= i < atts.len() ==> atts[i] < row.len(),
    ensures
        r@ == project(row@, atts@),
{
    let mut r: Vec<usize> = Vec::new();
    let mut i: usize = 0;
    while i < atts.len()
        invariant
            i <= atts.len(),
            forall|j: int| 0 <= j < atts.len() ==> atts[j] < row.len(),
            r@ == project(row@, atts@.take(i as int)),
        decreases atts.len() - i,
    {
        r.push(row[atts[i]]);
        assert(project(row@, atts@.take(i + 1)) =~= project(row@, atts@.take(i as int)).push(row@[atts@[i as int] as int]));
        i = i + 1;
    }
    assert(atts@.take(i as int) == atts@);
    r
}

/// Decodes `comb_id` into one digit per attribute of `atts`, attribute `a`
/// having radix `nvals[a]`; the last attribute takes all that is left.
pub fn decode_comb_id(nvals: &Vec<usize>, atts: &Vec<usize>, comb_id: usize) -> (digits: Vec<usize>)
    requires
        forall|i: int| 0 <= i < atts.len() ==> atts[i] < nvals.len() && nvals[atts[i] as int] > 0,
        weight(radices_of(nvals@, atts@), atts.len() as int) <= usize::MAX,
    ensures
        digits.len() == atts.len(),
        forall|i: int| 0 <= i < atts.len() ==> digits[i] == decode_digit(comb_id as nat, radices_of(nvals@, atts@), i),
{
    let ghost r = radices_of(nvals@, atts@);
    let n = atts.len();
    assert(all_positive(r));
    let mut base: usize = 1;
    let mut k: usize = 0;
    while k < n
        invariant
            k <= n,
            n == atts.len(),
            r == radices_of(nvals@, atts@),
            all_positive(r),
            forall|i: int| 0 <= i < atts.len() ==> atts[i] < nvals.len(),
            weight(r, n as int) <= usize::MAX,
            base == weight(r, k as int),
        decreases n - k,
    {
        proof {
            lemma_weight_mono(r, k + 1, n as int);
        }
        base = base * nvals[atts[k]];
        k = k + 1;
    }
    let mut digits: Vec<usize> = Vec::new();
    let mut j: usize = 0;
    while j < n
        invariant
            j <= n,
            digits.len() == j,
        decreases n - j,
    {
        digits.push(0);
        j = j + 1;
    }
    let mut rem = comb_id;
    let mut i = n;
    while i > 0
        invariant
            i <= n,
            n == atts.len(),
            r == radices_of(nvals@, atts@),
            all_positive(r),
            forall|t: int| 0 <= t < atts.len() ==> atts[t] < nvals.len(),
            digits.len() == n,
            base == weight(r, i as int),
            rem == if i == n {
                comb_id as nat
            } else {
                comb_id as nat % weight(r, i as int)
            },
            forall|t: int| i <= t < n ==> digits[t] == decode_digit(comb_id as nat, r, t),
        decreases i,
    {
        i = i - 1;
        proof {
            lemma_weight_pos(r, i as int);
            vstd::arithmetic::div_mod::lemma_div_multiples_vanish(
                weight(r, i as int) as int,
                r[i as int] as int,
            );
            vstd::arithmetic::mul::lemma_mul_is_commutative(
                weight(r, i as int) as int,
                r[i as int] as int,
            );
            if i + 1 < n {
                vstd::arithmetic::div_mod::lemma_mod_mod(
                    comb_id as int,
                    weight(r, i as int) as int,
                    r[i as int] as int,
                );
            }
        }
        base = base / nvals[atts[i]];
        digits.set(i, rem / base);
        rem = rem % base;
    }
    digits
}

} // verus!
