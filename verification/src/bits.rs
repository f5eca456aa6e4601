//! Candidate masks: a `u16` holds one bit per digit, bit `d` standing for digit `d`.
//!
//! Everything the engine needs to know about masks is stated here over four
//! predicates (`offers`, `within`, `single`, `count`), so that the grid theory never
//! has to reason about machine words itself.

use vstd::prelude::*;

verus! {

/// The mask that holds digit `d` alone.
pub open spec fn bit(d: u16) -> u16 {
    1u16 << d
}

/// Digit `d` is a candidate in mask `m`.
pub open spec fn offers(m: u16, d: u16) -> bool {
    d < 16 && m & bit(d) != 0
}

/// Every candidate of `a` is a candidate of `b`.
pub open spec fn within(a: u16, b: u16) -> bool {
    a & !b == 0
}

/// The two masks have no candidate in common.
pub open spec fn disjoint(a: u16, b: u16) -> bool {
    a & b == 0
}

/// Mask `m` with digit `d` struck out.
pub open spec fn clear(m: u16, d: u16) -> u16 {
    m & !bit(d)
}

/// The mask holds exactly one candidate.
pub open spec fn single(m: u16) -> bool {
    m != 0 && m & ((m - 1) as u16) == 0
}

/// How many of the digits below `k` are candidates in `m`.
pub open spec fn count_below(m: u16, k: nat) -> nat
    decreases k,
{
    if k == 0 {
        0
    } else {
        count_below(m, (k - 1) as nat) + if offers(m, (k - 1) as u16) {
            1nat
        } else {
            0nat
        }
    }
}

/// The number of candidates in `m`.
pub open spec fn count(m: u16) -> nat {
    count_below(m, 16)
}

/// The mask with the digits `1..=size` as candidates.
pub open spec fn full_mask(size: u16) -> u16 {
    (((1u32 << ((size + 1) as u32)) - 2) as u16)
}

/// `within` is an order, and what lies within a mask shares its solved
/// state, its disjointness and its candidates.
pub proof fn lemma_within()
    by (bit_vector)
    ensures
        forall|a: u16| #[trigger] within(a, a),
        forall|a: u16, b: u16, c: u16|
            #[trigger] within(a, b) && #[trigger] within(b, c) ==> within(a, c),
        forall|a: u16, b: u16| #[trigger] within(a, b) && within(b, a) ==> a == b,
        forall|a: u16, b: u16| #[trigger] within(a, b) && single(b) && a != 0 ==> a == b,
        forall|a: u16, b: u16, c: u16|
            #[trigger] within(a, b) && #[trigger] disjoint(b, c) ==> disjoint(a, c),
        forall|a: u16, b: u16, c: u16|
            #[trigger] within(a, b) && #[trigger] disjoint(c, b) ==> disjoint(c, a),
        forall|a: u16, b: u16, d: u16|
            #[trigger] within(a, b) && #[trigger] offers(a, d) ==> offers(b, d),
{
}

/// The mask of one digit: it is single, and it is the only single mask
/// that offers the digit.
pub proof fn lemma_bit()
    by (bit_vector)
    ensures
        forall|d: u16| d < 16 ==> single(#[trigger] bit(d)) && bit(d) != 0,
        forall|m: u16, d: u16| single(m) && #[trigger] offers(m, d) ==> m == bit(d),
        forall|m: u16, d: u16| #[trigger] offers(m, d) && m != bit(d) ==> !single(m),
        forall|d: u16, e: u16| e < 16 ==> #[trigger] offers(bit(e), d) == (d == e),
        forall|m: u16, d: u16| d < 16 ==> #[trigger] disjoint(m, bit(d)) == !offers(m, d),
        forall|m: u16, d: u16| d < 16 ==> #[trigger] disjoint(bit(d), m) == !offers(m, d),
        forall|d: u16| !#[trigger] offers(0u16, d),
        forall|m: u16, d: u16| #[trigger] offers(m, d) ==> within(bit(d), m),
{
}

/// Striking a digit: what it leaves of a mask.
pub proof fn lemma_clear()
    by (bit_vector)
    ensures
        forall|m: u16, d: u16|
            d < 16 ==> within(#[trigger] clear(m, d), m) && !offers(clear(m, d), d),
        forall|m: u16, d: u16| offers(m, d) && m != bit(d) ==> #[trigger] clear(m, d) != 0,
        forall|m: u16, d: u16| offers(m, d) && #[trigger] clear(m, d) == 0 ==> m == bit(d),
        forall|m: u16, d: u16| d < 16 && !offers(m, d) ==> #[trigger] clear(m, d) == m,
        forall|m: u16, d: u16| offers(m, d) ==> #[trigger] clear(m, d) != m,
        forall|x: u16, m: u16, d: u16|
            d < 16 && #[trigger] within(x, m) && !#[trigger] offers(x, d) ==>
                within(x, clear(m, d)),
        forall|m: u16, d: u16, e: u16|
            e < 16 ==> #[trigger] offers(clear(m, e), d) == (offers(m, d) && d != e),
{
}

/// The candidates of a union, an intersection, a difference and a complement.
pub proof fn lemma_ops()
    by (bit_vector)
    ensures
        forall|a: u16, b: u16, d: u16|
            #[trigger] offers(a | b, d) == (offers(a, d) || offers(b, d)),
        forall|a: u16, b: u16, d: u16|
            #[trigger] offers(a & b, d) == (offers(a, d) && offers(b, d)),
        forall|a: u16, b: u16, d: u16|
            #[trigger] offers(a ^ b, d) == (offers(a, d) != offers(b, d)),
        forall|a: u16, d: u16| d < 16 ==> #[trigger] offers(!a, d) == !offers(a, d),
        forall|a: u16, b: u16| #[trigger] within(a, a | b) && within(b, a | b),
        forall|a: u16, b: u16| #[trigger] within(a & b, a) && within(a & b, b),
{
}

/// The two masks agree on digit `d`.
pub open spec fn agree(a: u16, b: u16, d: u16) -> bool {
    offers(a, d) == offers(b, d)
}

/// Two masks with the same candidates are the same mask.
pub proof fn lemma_mask_ext(a: u16, b: u16)
    requires
        forall|d: u16| d < 16 ==> offers(a, d) == offers(b, d),
    ensures
        a == b,
{
    assert(agree(a, b, 0));
    assert(agree(a, b, 1));
    assert(agree(a, b, 2));
    assert(agree(a, b, 3));
    assert(agree(a, b, 4));
    assert(agree(a, b, 5));
    assert(agree(a, b, 6));
    assert(agree(a, b, 7));
    assert(agree(a, b, 8));
    assert(agree(a, b, 9));
    assert(agree(a, b, 10));
    assert(agree(a, b, 11));
    assert(agree(a, b, 12));
    assert(agree(a, b, 13));
    assert(agree(a, b, 14));
    assert(agree(a, b, 15));
    assert(a == b) by (bit_vector)
        requires
            agree(a, b, 0),
            agree(a, b, 1),
            agree(a, b, 2),
            agree(a, b, 3),
            agree(a, b, 4),
            agree(a, b, 5),
            agree(a, b, 6),
            agree(a, b, 7),
            agree(a, b, 8),
            agree(a, b, 9),
            agree(a, b, 10),
            agree(a, b, 11),
            agree(a, b, 12),
            agree(a, b, 13),
            agree(a, b, 14),
            agree(a, b, 15),
    ;
}

/// A mask whose candidates are all candidates of another lies within it.
pub proof fn lemma_within_by_offers(a: u16, b: u16)
    requires
        forall|d: u16| d < 16 && offers(a, d) ==> offers(b, d),
    ensures
        within(a, b),
{
    lemma_ops();
    lemma_mask_ext(a & b, a);
    assert(within(a, b)) by (bit_vector)
        requires
            a & b == a,
    ;
}

/// A mask that is not empty has a candidate.
pub proof fn lemma_nonzero_offers(m: u16) -> (d: u16)
    requires
        m != 0,
    ensures
        offers(m, d),
{
    lemma_bit();
    if forall|e: u16| e < 16 ==> !offers(m, e) {
        lemma_mask_ext(m, 0);
    }
    choose|e: u16| e < 16 && offers(m, e)
}

proof fn lemma_count_below_within(a: u16, b: u16, k: nat)
    requires
        within(a, b),
    ensures
        count_below(a, k) <= count_below(b, k),
    decreases k,
{
    lemma_within();
    if k > 0 {
        lemma_count_below_within(a, b, (k - 1) as nat);
    }
}

proof fn lemma_count_below_clear(m: u16, d: u16, k: nat)
    requires
        offers(m, d),
        k <= 16,
    ensures
        count_below(clear(m, d), k) + (if d < k { 1nat } else { 0nat }) == count_below(m, k),
    decreases k,
{
    lemma_clear();
    if k > 0 {
        lemma_count_below_clear(m, d, (k - 1) as nat);
    }
}

proof fn lemma_count_below_zero(k: nat)
    ensures
        count_below(0, k) == 0,
    decreases k,
{
    lemma_bit();
    if k > 0 {
        lemma_count_below_zero((k - 1) as nat);
    }
}

/// A smaller candidate set has no more candidates.
pub proof fn lemma_count_within(a: u16, b: u16)
    requires
        within(a, b),
    ensures
        count(a) <= count(b),
{
    lemma_count_below_within(a, b, 16);
}

/// A strictly smaller candidate set has fewer candidates.
pub proof fn lemma_count_strict(a: u16, b: u16)
    requires
        within(a, b),
        a != b,
    ensures
        count(a) < count(b),
{
    lemma_within();
    lemma_clear();
    if forall|d: u16| d < 16 ==> offers(a, d) == offers(b, d) {
        lemma_mask_ext(a, b);
    }
    let d = choose|d: u16| d < 16 && offers(a, d) != offers(b, d);
    assert(offers(b, d) && !offers(a, d));
    lemma_count_clear(b, d);
    lemma_count_within(a, clear(b, d));
}

/// Striking out a candidate lowers the count by one.
pub proof fn lemma_count_clear(m: u16, d: u16)
    requires
        offers(m, d),
    ensures
        count(clear(m, d)) + 1 == count(m),
{
    lemma_count_below_clear(m, d, 16);
}

/// Only the empty mask counts zero candidates.
pub proof fn lemma_count_zero(m: u16)
    ensures
        (count(m) == 0) == (m == 0),
{
    if m == 0 {
        lemma_count_below_zero(16);
    } else {
        let d = lemma_nonzero_offers(m);
        lemma_count_clear(m, d);
    }
}

/// `single` is the same as counting exactly one candidate.
pub proof fn lemma_count_single(m: u16)
    ensures
        (count(m) == 1) == single(m),
{
    lemma_bit();
    lemma_clear();
    lemma_count_zero(m);
    if m != 0 {
        let d = lemma_nonzero_offers(m);
        lemma_count_clear(m, d);
        lemma_count_zero(clear(m, d));
    }
}

/// A mask with two candidates has another candidate beside each of them.
pub proof fn lemma_count_two(m: u16, d: u16) -> (e: u16)
    requires
        count(m) == 2,
        offers(m, d),
    ensures
        e != d,
        offers(m, e),
{
    lemma_clear();
    lemma_count_clear(m, d);
    lemma_count_zero(clear(m, d));
    lemma_nonzero_offers(clear(m, d))
}

/// The place of digit `d` among the candidates of `m`: how many lower ones there are.
pub open spec fn rank(m: u16, d: u16) -> nat {
    count_below(m, d as nat)
}

proof fn lemma_count_below_grows(m: u16, a: nat, b: nat)
    requires
        a <= b,
    ensures
        count_below(m, a) <= count_below(m, b),
    decreases b,
{
    if a < b {
        lemma_count_below_grows(m, a, (b - 1) as nat);
    }
}

/// The candidates of a mask have the places `0`, `1`, ... below its count,
/// the lower candidate the lower place.
pub proof fn lemma_rank(m: u16, d: u16, e: u16)
    requires
        offers(m, d),
        offers(m, e),
    ensures
        rank(m, d) < count(m),
        d < e ==> rank(m, d) < rank(m, e),
        rank(m, d) == rank(m, e) ==> d == e,
{
    lemma_count_below_grows(m, (d + 1) as nat, 16);
    if d < e {
        lemma_count_below_grows(m, (d + 1) as nat, e as nat);
    }
    if e < d {
        lemma_count_below_grows(m, (e + 1) as nat, d as nat);
    }
}

proof fn lemma_rank_below(m: u16, j: nat, k: nat) -> (d: u16)
    requires
        k <= 16,
        j < count_below(m, k),
    ensures
        d < k,
        offers(m, d),
        rank(m, d) == j,
    decreases k,
{
    if j < count_below(m, (k - 1) as nat) {
        lemma_rank_below(m, j, (k - 1) as nat)
    } else {
        (k - 1) as u16
    }
}

/// Every place below the count of a mask is the place of one of its candidates.
pub proof fn lemma_rank_onto(m: u16, j: nat) -> (d: u16)
    requires
        j < count(m),
    ensures
        offers(m, d),
        rank(m, d) == j,
{
    lemma_rank_below(m, j, 16)
}

/// The full mask of a grid holds exactly the digits `1..=size`.
pub proof fn lemma_full_mask(size: u16)
    by (bit_vector)
    requires
        1 <= size <= 15,
    ensures
        full_mask(size) != 0,
        forall|d: u16| #[trigger] offers(full_mask(size), d) == (1 <= d && d <= size),
{
}

/// Whether digit `d` is a candidate in `m`.
pub fn is_set(m: u16, d: u16) -> (r: bool)
    requires
        d < 16,
    ensures
        r == offers(m, d),
{
    m & (1u16 << d) != 0
}

/// Whether `m` holds exactly one candidate.
pub fn is_single(m: u16) -> (r: bool)
    ensures
        r == single(m),
{
    m != 0 && m & (m - 1) == 0
}

/// The mask of digit `d` alone.
pub fn bit_of(d: u16) -> (r: u16)
    requires
        d < 16,
    ensures
        r == bit(d),
        r != 0,
        single(r),
{
    proof {
        lemma_bit();
    }
    1u16 << d
}

/// Mask `m` without digit `d`.
pub fn cleared(m: u16, d: u16) -> (r: u16)
    requires
        d < 16,
    ensures
        r == clear(m, d),
{
    m & !(1u16 << d)
}

/// The number of candidates in `m`.
pub fn count_ones(m: u16) -> (r: u32)
    ensures
        r == count(m),
        r <= 16,
{
    let mut r: u32 = 0;
    let mut d: u16 = 0;
    while d < 16
        invariant
            d <= 16,
            r == count_below(m, d as nat),
            r <= d,
        decreases 16 - d,
    {
        if is_set(m, d) {
            r += 1;
        }
        d += 1;
    }
    r
}

/// The smallest candidate of a mask that is not empty.
pub fn lowest_digit(m: u16) -> (d: u16)
    requires
        m != 0,
    ensures
        offers(m, d),
        forall|e: u16| e < d ==> !offers(m, e),
{
    let mut d: u16 = 0;
    while d < 16
        invariant
            d <= 16,
            forall|e: u16| e < d ==> !offers(m, e),
        decreases 16 - d,
    {
        if is_set(m, d) {
            return d;
        }
        d += 1;
    }
    proof {
        let e = lemma_nonzero_offers(m);
    }
    d
}

/// The mask with the digits `1..=size` as candidates.
pub fn default_mask(size: usize) -> (r: u16)
    requires
        1 <= size <= 15,
    ensures
        r == full_mask(size as u16),
        r != 0,
        forall|d: u16| #[trigger] offers(r, d) == (1 <= d && d <= size),
{
    proof {
        lemma_full_mask(size as u16);
    }
    let s: u32 = size as u32;
    assert(2 <= (1u32 << ((s + 1) as u32)) <= 0x10000) by (bit_vector)
        requires
            1 <= s <= 15,
    ;
    ((1u32 << (s + 1)) - 2) as u16
}

} // verus!
