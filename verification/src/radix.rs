//! Mixed-radix numbering of value combinations: a combination of values
//! `d[0], d[1], ...` whose positions take `r[0], r[1], ...` values is numbered
//! `d[0] + r[0] * (d[1] + r[1] * (...))`.
use vstd::prelude::*;
use vstd::arithmetic::div_mod::*;
use vstd::arithmetic::mul::*;

verus! {

/// Product of the first `k` radices: the weight of the digit at position `k`.
pub open spec fn weight(radices: Seq<nat>, k: int) -> nat
    decreases k,
{
    if k <= 0 {
        1
    } else {
        weight(radices, k - 1) * radices[k - 1]
    }
}

/// Product of the radices at positions `j..k`.
pub open spec fn span(radices: Seq<nat>, j: int, k: int) -> nat
    decreases k - j,
{
    if k <= j {
        1
    } else {
        span(radices, j, k - 1) * radices[k - 1]
    }
}

/// Mixed-radix number of the first `k` digits.
pub open spec fn radix_value(digits: Seq<nat>, radices: Seq<nat>, k: int) -> nat
    decreases k,
{
    if k <= 0 {
        0
    } else {
        radix_value(digits, radices, k - 1) + digits[k - 1] * weight(radices, k - 1)
    }
}

/// The digit at position `i` that decoding the number `id` yields: the last
/// position takes all that is left above the lower positions.
pub open spec fn decode_digit(id: nat, radices: Seq<nat>, i: int) -> nat {
    if i == radices.len() - 1 {
        id / weight(radices, i)
    } else {
        (id % weight(radices, i + 1)) / weight(radices, i)
    }
}

/// All digits that decoding `id` yields, one per radix.
pub open spec fn decode(id: nat, radices: Seq<nat>) -> Seq<nat> {
    Seq::new(radices.len(), |i: int| decode_digit(id, radices, i))
}

pub open spec fn all_positive(radices: Seq<nat>) -> bool {
    forall|i: int| 0 <= i < radices.len() ==> radices[i] > 0
}

/// Each digit lies below its radix.
pub open spec fn digits_in_range(digits: Seq<nat>, radices: Seq<nat>) -> bool {
    &&& digits.len() == radices.len()
    &&& forall|i: int| 0 <= i < radices.len() ==> digits[i] < radices[i]
}

pub open spec fn nat_seq(s: Seq<usize>) -> Seq<nat> {
    s.map_values(|x: usize| x as nat)
}

/// The radices of the attributes `atts` when attribute `a` takes `nvals[a]` values.
pub open spec fn radices_of(nvals: Seq<usize>, atts: Seq<usize>) -> Seq<nat> {
    Seq::new(atts.len(), |i: int| nvals[atts[i] as int] as nat)
}

/// Every partial product of the radices fits in a `usize`.
pub open spec fn weights_fit(radices: Seq<nat>) -> bool {
    forall|k: int| 0 <= k <= radices.len() ==> weight(radices, k) <= usize::MAX
}

pub proof fn lemma_weight_pos(radices: Seq<nat>, k: int)
    requires
        all_positive(radices),
        0 <= k <= radices.len(),
    ensures
        weight(radices, k) > 0,
    decreases k,
{
    if k > 0 {
        lemma_weight_pos(radices, k - 1);
        lemma_mul_strictly_positive(weight(radices, k - 1) as int, radices[k - 1] as int);
    }
}

pub proof fn lemma_weight_split(radices: Seq<nat>, j: int, k: int)
    requires
        0 <= j <= k,
    ensures
        weight(radices, k) == weight(radices, j) * span(radices, j, k),
    decreases k - j,
{
    if k > j {
        lemma_weight_split(radices, j, k - 1);
        lemma_mul_is_associative(
            weight(radices, j) as int,
            span(radices, j, k - 1) as int,
            radices[k - 1] as int,
        );
    } else {
        lemma_mul_basics(weight(radices, j) as int);
    }
}

pub proof fn lemma_weight_mono(radices: Seq<nat>, j: int, k: int)
    requires
        all_positive(radices),
        0 <= j <= k <= radices.len(),
    ensures
        weight(radices, j) <= weight(radices, k),
    decreases k - j,
{
    if k > j {
        lemma_weight_mono(radices, j, k - 1);
        lemma_weight_pos(radices, k - 1);
        lemma_mul_increases(radices[k - 1] as int, weight(radices, k - 1) as int);
        lemma_mul_is_commutative(radices[k - 1] as int, weight(radices, k - 1) as int);
    }
}

/// The partial numbers only grow with more digits.
pub proof fn lemma_value_mono(digits: Seq<nat>, radices: Seq<nat>, j: int, k: int)
    requires
        0 <= j <= k,
    ensures
        radix_value(digits, radices, j) <= radix_value(digits, radices, k),
    decreases k - j,
{
    if k > j {
        lemma_value_mono(digits, radices, j, k - 1);
        lemma_mul_nonnegative(digits[k - 1] as int, weight(radices, k - 1) as int);
    }
}

/// A number with in-range digits stays below the weight of the next position.
pub proof fn lemma_value_bound(digits: Seq<nat>, radices: Seq<nat>, k: int)
    requires
        digits_in_range(digits, radices),
        0 <= k <= radices.len(),
    ensures
        radix_value(digits, radices, k) < weight(radices, k),
    decreases k,
{
    if k > 0 {
        lemma_value_bound(digits, radices, k - 1);
        let w = weight(radices, k - 1) as int;
        let d = digits[k - 1] as int;
        let r = radices[k - 1] as int;
        lemma_mul_inequality(d, r - 1, w);
        lemma_mul_is_distributive_sub_other_way(w, r, 1);
        lemma_mul_is_commutative(w, r);
    }
}

/// With in-range digits, the number reduced modulo the weight of position `j`
/// is the number of the first `j` digits.
pub proof fn lemma_value_mod(digits: Seq<nat>, radices: Seq<nat>, j: int, k: int)
    requires
        digits_in_range(digits, radices),
        all_positive(radices),
        0 <= j <= k <= radices.len(),
    ensures
        radix_value(digits, radices, k) % weight(radices, j) == radix_value(digits, radices, j),
    decreases k - j,
{
    lemma_weight_pos(radices, j);
    if k == j {
        lemma_value_bound(digits, radices, j);
        lemma_small_mod(radix_value(digits, radices, j), weight(radices, j));
    } else {
        lemma_value_mod(digits, radices, j, k - 1);
        lemma_weight_split(radices, j, k - 1);
        let wj = weight(radices, j) as int;
        let q = (digits[k - 1] * span(radices, j, k - 1)) as int;
        lemma_mul_is_associative(digits[k - 1] as int, wj, span(radices, j, k - 1) as int);
        lemma_mul_is_commutative(digits[k - 1] as int, wj);
        lemma_mul_is_associative(wj, digits[k - 1] as int, span(radices, j, k - 1) as int);
        lemma_mod_multiples_vanish(q, radix_value(digits, radices, k - 1) as int, wj);
    }
}

/// Decoding the number of in-range digits gives the digits back.
pub proof fn law_decode_encode(digits: Seq<nat>, radices: Seq<nat>)
    requires
        digits_in_range(digits, radices),
        all_positive(radices),
    ensures
        decode(radix_value(digits, radices, radices.len() as int), radices) == digits,
{
    let n = radices.len() as int;
    let id = radix_value(digits, radices, n);
    assert forall|i: int| 0 <= i < n implies decode_digit(id, radices, i) == digits[i] by {
        lemma_weight_pos(radices, i);
        lemma_value_bound(digits, radices, i);
        let wi = weight(radices, i) as int;
        lemma_mul_is_commutative(digits[i] as int, wi);
        lemma_div_multiples_vanish_fancy(digits[i] as int, radix_value(digits, radices, i) as int, wi);
        if i < n - 1 {
            lemma_value_mod(digits, radices, i + 1, n);
        }
    }
    assert(decode(id, radices) =~= digits);
}

proof fn lemma_decode_prefix(id: nat, radices: Seq<nat>, k: int)
    requires
        all_positive(radices),
        0 <= k < radices.len(),
    ensures
        radix_value(decode(id, radices), radices, k) == id % weight(radices, k),
    decreases k,
{
    let dec = decode(id, radices);
    if k == 0 {
        lemma_fundamental_div_mod(id as int, 1);
        lemma_mod_pos_bound(id as int, 1);
    } else {
        lemma_decode_prefix(id, radices, k - 1);
        lemma_weight_pos(radices, k - 1);
        let w = weight(radices, k - 1) as int;
        let x = id % weight(radices, k);
        lemma_mod_mod(id as int, w, radices[k - 1] as int);
        lemma_fundamental_div_mod(x as int, w);
        lemma_mul_is_commutative(w, x as int / w);
        assert(dec[k - 1] == x / (w as nat));
    }
}

/// Numbering the digits that decoding yields gives the number back, for a
/// number below the product of all radices; and those digits are in range.
pub proof fn law_encode_decode(id: nat, radices: Seq<nat>)
    requires
        all_positive(radices),
        id < weight(radices, radices.len() as int),
    ensures
        radix_value(decode(id, radices), radices, radices.len() as int) == id,
        digits_in_range(decode(id, radices), radices),
{
    let n = radices.len() as int;
    let dec = decode(id, radices);
    if n == 0 {
        return;
    }
    lemma_decode_prefix(id, radices, n - 1);
    lemma_weight_pos(radices, n - 1);
    let w = weight(radices, n - 1) as int;
    lemma_fundamental_div_mod(id as int, w);
    lemma_mul_is_commutative(w, id as int / w);
    assert forall|i: int| 0 <= i < n implies dec[i] < radices[i] by {
        lemma_weight_pos(radices, i);
        let wi = weight(radices, i) as int;
        if i < n - 1 {
            lemma_weight_pos(radices, i + 1);
            let x = id % weight(radices, i + 1);
            lemma_mod_pos_bound(id as int, weight(radices, i + 1) as int);
            lemma_mul_is_commutative(wi, radices[i] as int);
            lemma_multiply_divide_lt(x as int, wi, radices[i] as int);
        } else {
            lemma_mul_is_commutative(wi, radices[i] as int);
            lemma_multiply_divide_lt(id as int, wi, radices[i] as int);
        }
    }
}

} // verus!
