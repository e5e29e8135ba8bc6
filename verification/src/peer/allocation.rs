//! Sharing the pieces of a file among peers, in inverse proportion to ping.
//!
//! A peer with ping `p` weighs `1 / p`. To stay with whole numbers, every
//! weight is multiplied by the product of the pings of all peers that
//! answered: the weight of a peer is then the product of the pings of the
//! others, and the shares are exact quotients of whole numbers. Each peer
//! first gets the whole part of its share; the pieces that are then left
//! over go, one each, to the peers with the largest fractional remainders (on
//! a tie, to the peer that comes first).

use vstd::prelude::*;
use vstd::arithmetic::div_mod::lemma_fundamental_div_mod;
use vstd::arithmetic::div_mod::lemma_mod_bound;
use crate::error::RfsError;
use crate::natural::Natural;

verus! {

/// The ping of a peer that did not answer: such a peer gets no piece.
pub const PING_UNUSABLE: u128 = 0xFFFF_FFFF_FFFF_FFFF_FFFF_FFFF_FFFF_FFFF;

/// The ping that a peer is weighed by: its ping, or one microsecond where
/// the measurement came out as zero.
pub open spec fn effective_ping(ping: u128) -> nat {
    if ping == 0 {
        1
    } else {
        ping as nat
    }
}

/// What peer `k` adds to the product of pings that leaves out peer `skip`:
/// its effective ping, or nothing where it is left out or did not answer.
pub open spec fn factor(pings: Seq<u128>, skip: int, k: int) -> nat {
    if k == skip || pings[k] == PING_UNUSABLE {
        1
    } else {
        effective_ping(pings[k])
    }
}

/// The product of the effective pings of the peers before `upto` that
/// answered, but for peer `skip`.
pub open spec fn ping_product(pings: Seq<u128>, skip: int, upto: int) -> nat
    decreases upto,
{
    if upto <= 0 {
        1
    } else {
        ping_product(pings, skip, upto - 1) * factor(pings, skip, upto - 1)
    }
}

/// The weight of peer `i`: the product of the effective pings of all other
/// peers that answered, and zero for a peer that did not answer. Among the
/// peers that answered, the weights are to each other as the values of
/// `1 / ping`.
pub open spec fn peer_weight(pings: Seq<u128>, i: int) -> nat {
    if pings[i] == PING_UNUSABLE {
        0
    } else {
        ping_product(pings, i, pings.len() as int)
    }
}

/// The sum of the weights of the peers before `upto`.
pub open spec fn weight_sum(pings: Seq<u128>, upto: int) -> nat
    decreases upto,
{
    if upto <= 0 {
        0
    } else {
        weight_sum(pings, upto - 1) + peer_weight(pings, upto - 1)
    }
}

/// The sum of the weights of all peers.
pub open spec fn total_weight(pings: Seq<u128>) -> nat {
    weight_sum(pings, pings.len() as int)
}

/// Whether at least one peer answered.
pub open spec fn any_reachable(pings: Seq<u128>) -> bool {
    exists|i: int| 0 <= i < pings.len() && pings[i] != PING_UNUSABLE
}

/// The whole part of the share of peer `i` in `n` pieces.
pub open spec fn quota(n: nat, pings: Seq<u128>, i: int) -> nat {
    (n * peer_weight(pings, i)) / total_weight(pings)
}

/// The fractional part of the share of peer `i`, in units of
/// `1 / total_weight(pings)`.
pub open spec fn remainder(n: nat, pings: Seq<u128>, i: int) -> nat {
    (n * peer_weight(pings, i)) % total_weight(pings)
}

/// Peer `i` is served before peer `j` when left-over pieces are handed out.
pub open spec fn outranks(n: nat, pings: Seq<u128>, i: int, j: int) -> bool {
    remainder(n, pings, i) > remainder(n, pings, j) || (remainder(n, pings, i) == remainder(
        n,
        pings,
        j,
    ) && i < j)
}

/// The number of pieces that an allocation hands out.
pub open spec fn allocation_total(r: Seq<u64>) -> nat
    decreases r.len(),
{
    if r.len() == 0 {
        0
    } else {
        allocation_total(r.drop_last()) + r.last() as nat
    }
}

/// `r` is the allocation of `n` pieces to the peers with the given pings:
/// it hands out `n` pieces in all, every peer gets its quota or, where its
/// share has a fractional part, one piece more, whoever gets one more
/// outranks whoever does not, and a peer that did not answer gets nothing.
pub open spec fn is_allocation(n: nat, pings: Seq<u128>, r: Seq<u64>) -> bool {
    &&& r.len() == pings.len()
    &&& allocation_total(r) == n
    &&& forall|i: int| 0 <= i < r.len() && pings[i] == PING_UNUSABLE ==> r[i] == 0
    &&& forall|i: int|
        0 <= i < r.len() ==> r[i] == quota(n, pings, i) || (r[i] == quota(n, pings, i) + 1
            && remainder(n, pings, i) > 0)
    &&& forall|i: int, j: int|
        0 <= i < r.len() && 0 <= j < r.len() && r[i] == quota(n, pings, i) + 1 && r[j] == quota(
            n,
            pings,
            j,
        ) ==> outranks(n, pings, i, j)
}

/// The sum of the quotas of the peers before `upto`.
spec fn quota_sum(n: nat, pings: Seq<u128>, upto: int) -> nat
    decreases upto,
{
    if upto <= 0 {
        0
    } else {
        quota_sum(n, pings, upto - 1) + quota(n, pings, upto - 1)
    }
}

/// The sum of the remainders of the peers before `upto`.
spec fn remainder_sum(n: nat, pings: Seq<u128>, upto: int) -> nat
    decreases upto,
{
    if upto <= 0 {
        0
    } else {
        remainder_sum(n, pings, upto - 1) + remainder(n, pings, upto - 1)
    }
}

/// The sum of the remainders of the peers before `upto` that have not been
/// given an extra piece.
spec fn free_mass(n: nat, pings: Seq<u128>, bumped: Seq<bool>, upto: int) -> nat
    decreases upto,
{
    if upto <= 0 {
        0
    } else {
        free_mass(n, pings, bumped, upto - 1) + if bumped[upto - 1] {
            0nat
        } else {
            remainder(n, pings, upto - 1)
        }
    }
}

proof fn lemma_allocation_total_push(r: Seq<u64>, x: u64)
    ensures
        allocation_total(r.push(x)) == allocation_total(r) + x,
{
    assert(r.push(x).drop_last() =~= r);
}

proof fn lemma_allocation_total_bump(r: Seq<u64>, b: int)
    requires
        0 <= b < r.len(),
        r[b] < u64::MAX,
    ensures
        allocation_total(r.update(b, (r[b] + 1) as u64)) == allocation_total(r) + 1,
    decreases r.len(),
{
    let r2 = r.update(b, (r[b] + 1) as u64);
    if b == r.len() - 1 {
        assert(r2.drop_last() =~= r.drop_last());
    } else {
        assert(r2.drop_last() =~= r.drop_last().update(b, (r[b] + 1) as u64));
        lemma_allocation_total_bump(r.drop_last(), b);
    }
}

proof fn lemma_allocation_total_member(r: Seq<u64>, i: int)
    requires
        0 <= i < r.len(),
    ensures
        r[i] <= allocation_total(r),
    decreases r.len(),
{
    if i < r.len() - 1 {
        lemma_allocation_total_member(r.drop_last(), i);
    }
}

proof fn lemma_ping_product_positive(pings: Seq<u128>, skip: int, upto: int)
    ensures
        ping_product(pings, skip, upto) >= 1,
    decreases upto,
{
    if upto > 0 {
        lemma_ping_product_positive(pings, skip, upto - 1);
        let a = ping_product(pings, skip, upto - 1) as int;
        let b = factor(pings, skip, upto - 1) as int;
        assert(a * b >= 1) by (nonlinear_arith)
            requires
                a >= 1,
                b >= 1,
        ;
    }
}

proof fn lemma_weight_sum_monotonic(pings: Seq<u128>, a: int, b: int)
    requires
        a <= b,
    ensures
        weight_sum(pings, a) <= weight_sum(pings, b),
    decreases b - a,
{
    if a < b {
        lemma_weight_sum_monotonic(pings, a, b - 1);
    }
}

proof fn lemma_weight_member(pings: Seq<u128>, i: int)
    requires
        0 <= i < pings.len(),
    ensures
        peer_weight(pings, i) <= total_weight(pings),
{
    lemma_weight_sum_monotonic(pings, i + 1, pings.len() as int);
}

proof fn lemma_weight_sum_zero(pings: Seq<u128>, upto: int)
    requires
        0 <= upto <= pings.len(),
    ensures
        weight_sum(pings, upto) == 0 <==> forall|i: int|
            0 <= i < upto ==> pings[i] == PING_UNUSABLE,
    decreases upto,
{
    if upto > 0 {
        lemma_weight_sum_zero(pings, upto - 1);
        lemma_ping_product_positive(pings, upto - 1, pings.len() as int);
    }
}

proof fn lemma_total_weight_zero(pings: Seq<u128>)
    ensures
        total_weight(pings) == 0 <==> !any_reachable(pings),
{
    lemma_weight_sum_zero(pings, pings.len() as int);
}

/// What the whole parts of the shares leave over is the sum of the
/// remainders, in units of the total weight.
proof fn lemma_shares_sum(n: nat, pings: Seq<u128>, upto: int)
    requires
        total_weight(pings) > 0,
    ensures
        quota_sum(n, pings, upto) * total_weight(pings) + remainder_sum(n, pings, upto) == n
            * weight_sum(pings, upto),
    decreases upto,
{
    let total = total_weight(pings) as int;
    if upto <= 0 {
        assert(0 * total + 0 == n * 0) by (nonlinear_arith);
    } else {
        lemma_shares_sum(n, pings, upto - 1);
        let w = peer_weight(pings, upto - 1) as int;
        let num = (n * peer_weight(pings, upto - 1)) as int;
        lemma_fundamental_div_mod(num, total);
        let q = num / total;
        let r = num % total;
        let qs = quota_sum(n, pings, upto - 1) as int;
        let ws = weight_sum(pings, upto - 1) as int;
        assert((qs + q) * total == qs * total + total * q) by (nonlinear_arith);
        assert(n * (ws + w) == n * ws + n * w) by (nonlinear_arith);
    }
}

proof fn lemma_quota_sum_bound(n: nat, pings: Seq<u128>, upto: int)
    requires
        total_weight(pings) > 0,
        upto <= pings.len(),
    ensures
        quota_sum(n, pings, upto) <= n,
{
    lemma_shares_sum(n, pings, upto);
    lemma_weight_sum_monotonic(pings, upto, pings.len() as int);
    let total = total_weight(pings) as int;
    let given = quota_sum(n, pings, upto) as int;
    let rems = remainder_sum(n, pings, upto) as int;
    let part = weight_sum(pings, upto) as int;
    let m = n as int;
    assert(given <= m) by (nonlinear_arith)
        requires
            0 <= m,
            0 < total,
            0 <= rems,
            0 <= part <= total,
            given * total + rems == m * part,
    ;
}

proof fn lemma_free_mass_none_bumped(n: nat, pings: Seq<u128>, bumped: Seq<bool>, upto: int)
    requires
        upto <= bumped.len(),
        forall|i: int| 0 <= i < bumped.len() ==> !bumped[i],
    ensures
        free_mass(n, pings, bumped, upto) == remainder_sum(n, pings, upto),
    decreases upto,
{
    if upto > 0 {
        lemma_free_mass_none_bumped(n, pings, bumped, upto - 1);
    }
}

proof fn lemma_free_mass_bump(n: nat, pings: Seq<u128>, bumped: Seq<bool>, b: int, upto: int)
    requires
        0 <= b < bumped.len(),
        upto <= bumped.len(),
        !bumped[b],
    ensures
        free_mass(n, pings, bumped.update(b, true), upto) + (if b < upto {
            remainder(n, pings, b)
        } else {
            0nat
        }) == free_mass(n, pings, bumped, upto),
    decreases upto,
{
    if upto > 0 {
        lemma_free_mass_bump(n, pings, bumped, b, upto - 1);
    }
}

proof fn lemma_free_mass_positive(n: nat, pings: Seq<u128>, bumped: Seq<bool>, upto: int)
    requires
        upto <= bumped.len(),
        free_mass(n, pings, bumped, upto) > 0,
    ensures
        exists|j: int| 0 <= j < upto && !bumped[j] && remainder(n, pings, j) > 0,
    decreases upto,
{
    if upto > 0 {
        if !bumped[upto - 1] && remainder(n, pings, upto - 1) > 0 {
        } else {
            lemma_free_mass_positive(n, pings, bumped, upto - 1);
        }
    }
}

proof fn lemma_weight_times_ping(pings: Seq<u128>, i: int, upto: int)
    requires
        0 <= i < pings.len(),
        0 <= upto <= pings.len(),
        pings[i] != PING_UNUSABLE,
    ensures
        ping_product(pings, i, upto) * (if i < upto {
            effective_ping(pings[i])
        } else {
            1nat
        }) == ping_product(pings, -1, upto),
    decreases upto,
{
    if upto > 0 {
        lemma_weight_times_ping(pings, i, upto - 1);
        let before = ping_product(pings, i, upto - 1) as int;
        let full = ping_product(pings, -1, upto - 1) as int;
        let e = effective_ping(pings[i]) as int;
        if upto - 1 == i {
            assert(before * 1 == full);
            assert((before * 1) * e == full * e) by (nonlinear_arith)
                requires
                    before * 1 == full,
            ;
        } else {
            let f = factor(pings, -1, upto - 1) as int;
            let g = (if i < upto - 1 {
                e
            } else {
                1int
            });
            assert((before * f) * g == (before * g) * f) by (nonlinear_arith);
        }
    }
}

/// The weights are to each other as the values of `1 / ping`: for two peers
/// that answered, weight times effective ping is the same number.
pub proof fn lemma_weight_is_inverse_to_ping(pings: Seq<u128>, i: int, j: int)
    requires
        0 <= i < pings.len(),
        0 <= j < pings.len(),
        pings[i] != PING_UNUSABLE,
        pings[j] != PING_UNUSABLE,
    ensures
        peer_weight(pings, i) * effective_ping(pings[i]) == peer_weight(pings, j)
            * effective_ping(pings[j]),
        peer_weight(pings, i) >= 1,
{
    lemma_weight_times_ping(pings, i, pings.len() as int);
    lemma_weight_times_ping(pings, j, pings.len() as int);
    lemma_ping_product_positive(pings, i, pings.len() as int);
}

/// Every share is less than one piece away from the exact share
/// `n * peer_weight / total_weight`.
pub proof fn lemma_share_is_within_one_piece(n: nat, pings: Seq<u128>, r: Seq<u64>, i: int)
    requires
        is_allocation(n, pings, r),
        any_reachable(pings),
        0 <= i < pings.len(),
    ensures
        r[i] * total_weight(pings) < n * peer_weight(pings, i) + total_weight(pings),
        n * peer_weight(pings, i) < r[i] * total_weight(pings) + total_weight(pings),
{
    lemma_total_weight_zero(pings);
    let total = total_weight(pings) as int;
    let num = (n * peer_weight(pings, i)) as int;
    lemma_fundamental_div_mod(num, total);
    lemma_mod_bound(num, total);
    let q = num / total;
    let rem = num % total;
    let share = r[i] as int;
    assert(q == quota(n, pings, i));
    assert(rem == remainder(n, pings, i));
    if share == q {
        assert(share * total == total * q) by (nonlinear_arith)
            requires
                share == q,
        ;
    } else {
        assert(share == q + 1 && rem > 0);
        assert(share * total == total * q + total) by (nonlinear_arith)
            requires
                share == q + 1,
        ;
    }
}

/// A peer with the lower ping never gets fewer pieces.
pub proof fn lemma_lower_ping_gets_no_less(
    n: nat,
    pings: Seq<u128>,
    r: Seq<u64>,
    i: int,
    j: int,
)
    requires
        is_allocation(n, pings, r),
        0 <= i < pings.len(),
        0 <= j < pings.len(),
        0 < pings[i] < pings[j],
    ensures
        r[i] >= r[j],
{
    if pings[j] != PING_UNUSABLE {
        lemma_weight_is_inverse_to_ping(pings, i, j);
        lemma_weight_is_inverse_to_ping(pings, j, i);
        lemma_total_weight_zero(pings);
        lemma_weight_member(pings, i);
        let wi = peer_weight(pings, i) as int;
        let wj = peer_weight(pings, j) as int;
        let pi = effective_ping(pings[i]) as int;
        let pj = effective_ping(pings[j]) as int;
        let total = total_weight(pings) as int;
        let m = n as int;
        assert(wi > wj) by (nonlinear_arith)
            requires
                wi * pi == wj * pj,
                0 < pi < pj,
                wi >= 1,
                wj >= 1,
        ;
        let ti = m * wi;
        let tj = m * wj;
        assert(ti >= tj && (m > 0 ==> ti > tj)) by (nonlinear_arith)
            requires
                ti == m * wi,
                tj == m * wj,
                wi > wj,
                m >= 0,
        ;
        lemma_fundamental_div_mod(ti, total);
        lemma_fundamental_div_mod(tj, total);
        lemma_mod_bound(ti, total);
        lemma_mod_bound(tj, total);
        let qi = ti / total;
        let qj = tj / total;
        assert(qi >= qj) by (nonlinear_arith)
            requires
                ti == total * qi + ti % total,
                tj == total * qj + tj % total,
                0 <= ti % total < total,
                0 <= tj % total < total,
                ti >= tj,
                total > 0,
        ;
        if qi == qj && r[j] == qj + 1 && r[i] == qi {
            assert(outranks(n, pings, j, i));
            assert(ti % total >= tj % total);
            assert(m == 0);
            assert(0 * wj == 0) by (nonlinear_arith);
            assert(qj == 0);
            lemma_allocation_total_member(r, j);
        }
    }
}

/// The weight of peer `i`.
fn weight_of(pings: &Vec<u128>, i: usize) -> (w: Natural)
    requires
        i < pings@.len(),
    ensures
        w@ == peer_weight(pings@, i as int),
{
    if pings[i] == PING_UNUSABLE {
        return Natural::from_u64(0);
    }
    let mut product = Natural::from_u64(1);
    let mut k: usize = 0;
    while k < pings.len()
        invariant
            0 <= k <= pings@.len(),
            product@ == ping_product(pings@, i as int, k as int),
        decreases pings@.len() - k,
    {
        if k != i && pings[k] != PING_UNUSABLE {
            let ping = if pings[k] == 0 {
                1
            } else {
                pings[k]
            };
            product = product.times_u128(ping);
        } else {
            proof {
                assert(product@ * 1 == product@) by (nonlinear_arith);
            }
        }
        k = k + 1;
    }
    product
}

/// The weight of every peer, and the sum of the weights.
fn weights_of(pings: &Vec<u128>) -> (res: (Vec<Natural>, Natural))
    ensures
        res.0@.len() == pings@.len(),
        forall|i: int| 0 <= i < pings@.len() ==> (#[trigger] res.0@[i])@ == peer_weight(pings@, i),
        res.1@ == total_weight(pings@),
{
    let mut weights: Vec<Natural> = Vec::new();
    let mut total = Natural::from_u64(0);
    let mut i: usize = 0;
    while i < pings.len()
        invariant
            0 <= i <= pings@.len(),
            weights@.len() == i,
            forall|j: int| 0 <= j < i ==> (#[trigger] weights@[j])@ == peer_weight(pings@, j),
            total@ == weight_sum(pings@, i as int),
        decreases pings@.len() - i,
    {
        let w = weight_of(pings, i);
        total = total.plus(&w);
        weights.push(w);
        i = i + 1;
    }
    (weights, total)
}

/// The whole part and the remainder of every share, and the number of pieces
/// that the whole parts hand out.
fn whole_shares(n: u64, pings: &Vec<u128>, weights: &Vec<Natural>, total: &Natural) -> (res: (
    Vec<u64>,
    Vec<Natural>,
    u64,
))
    requires
        weights@.len() == pings@.len(),
        forall|i: int|
            0 <= i < pings@.len() ==> (#[trigger] weights@[i])@ == peer_weight(pings@, i),
        total@ == total_weight(pings@),
        total@ > 0,
    ensures
        res.0@.len() == pings@.len(),
        res.1@.len() == pings@.len(),
        forall|i: int| 0 <= i < pings@.len() ==> res.0@[i] == quota(n as nat, pings@, i),
        forall|i: int|
            0 <= i < pings@.len() ==> (#[trigger] res.1@[i])@ == remainder(n as nat, pings@, i),
        res.2 == allocation_total(res.0@),
        res.2 == quota_sum(n as nat, pings@, pings@.len() as int),
        res.2 <= n,
{
    let mut alloc: Vec<u64> = Vec::new();
    let mut rems: Vec<Natural> = Vec::new();
    let mut given: u64 = 0;
    let mut i: usize = 0;
    while i < pings.len()
        invariant
            0 <= i <= pings@.len(),
            weights@.len() == pings@.len(),
            forall|j: int|
                0 <= j < pings@.len() ==> (#[trigger] weights@[j])@ == peer_weight(pings@, j),
            total@ == total_weight(pings@),
            total@ > 0,
            alloc@.len() == i,
            rems@.len() == i,
            forall|j: int| 0 <= j < i ==> alloc@[j] == quota(n as nat, pings@, j),
            forall|j: int|
                0 <= j < i ==> (#[trigger] rems@[j])@ == remainder(n as nat, pings@, j),
            given == allocation_total(alloc@),
            given == quota_sum(n as nat, pings@, i as int),
            given <= n,
        decreases pings@.len() - i,
    {
        let share = weights[i].times_u64(n);
        proof {
            let w = peer_weight(pings@, i as int) as int;
            let s = total@ as int;
            let m = n as int;
            lemma_weight_member(pings@, i as int);
            assert(weights@[i as int]@ == w);
            assert(w * m == m * w) by (nonlinear_arith);
            assert(m * w < 0x1_0000_0000_0000_0000 * s) by (nonlinear_arith)
                requires
                    0 <= w <= s,
                    0 < s,
                    0 <= m < 0x1_0000_0000_0000_0000,
            ;
            lemma_fundamental_div_mod(m * w, s);
            lemma_quota_sum_bound(n as nat, pings@, i + 1);
        }
        let q = match share.quotient(total) {
            Some(q) => q,
            None => 0,
        };
        let covered = total.times_u64(q);
        let rem = match share.minus(&covered) {
            Some(rem) => rem,
            None => Natural::from_u64(0),
        };
        proof {
            lemma_allocation_total_push(alloc@, q);
        }
        alloc.push(q);
        rems.push(rem);
        given = given + q;
        i = i + 1;
    }
    (alloc, rems, given)
}

/// Among the peers that have no extra piece yet, the one with the largest
/// remainder; of several such, the first.
fn best_free(rems: &Vec<Natural>, bumped: &Vec<bool>) -> (b: usize)
    requires
        rems@.len() == bumped@.len(),
        exists|j: int| 0 <= j < rems@.len() && !bumped@[j],
    ensures
        b < rems@.len(),
        !bumped@[b as int],
        forall|j: int|
            0 <= j < rems@.len() && !bumped@[j] && j != b ==> rems@[b as int]@ > (
            #[trigger] rems@[j])@ || (rems@[b as int]@ == rems@[j]@ && b < j),
{
    let mut best: usize = 0;
    let mut found = false;
    let mut j: usize = 0;
    while j < rems.len()
        invariant
            0 <= j <= rems.len(),
            rems@.len() == bumped@.len(),
            found ==> best < j && !bumped@[best as int],
            !found ==> forall|m: int| 0 <= m < j ==> bumped@[m],
            found ==> forall|m: int|
                0 <= m < j && !bumped@[m] && m != best ==> rems@[best as int]@ > (
                #[trigger] rems@[m])@ || (rems@[best as int]@ == rems@[m]@ && best < m),
        decreases rems.len() - j,
    {
        if !bumped[j] {
            if !found || rems[best].less_than(&rems[j]) {
                best = j;
                found = true;
            }
        }
        j = j + 1;
    }
    best
}

/// Shares `n_pieces` pieces among the peers with the given pings, in inverse
/// proportion to ping.
///
/// Fails with `NoReachablePeers` exactly when no peer has a usable ping.
/// Otherwise the result is the one allocation that `is_allocation` describes.
pub fn calculate_pieces_ratio(n_pieces: u64, pings: &Vec<u128>) -> (res: Result<Vec<u64>, RfsError>)
    ensures
        res is Ok <==> any_reachable(pings@),
        res is Err ==> res == Err::<Vec<u64>, RfsError>(RfsError::NoReachablePeers),
        res is Ok ==> is_allocation(n_pieces as nat, pings@, res->Ok_0@),
{
    let (weights, total) = weights_of(pings);
    proof {
        lemma_total_weight_zero(pings@);
    }
    if total.is_zero() {
        return Err(RfsError::NoReachablePeers);
    }
    let (mut alloc, rems, given) = whole_shares(n_pieces, pings, &weights, &total);
    let left: u64 = n_pieces - given;
    let mut bumped: Vec<bool> = Vec::new();
    let mut i: usize = 0;
    while i < pings.len()
        invariant
            0 <= i <= pings.len(),
            bumped@.len() == i,
            forall|j: int| 0 <= j < i ==> !bumped@[j],
        decreases pings.len() - i,
    {
        bumped.push(false);
        i = i + 1;
    }
    let ghost n = n_pieces as nat;
    let ghost len = pings@.len() as int;
    let ghost weight = total@;
    proof {
        lemma_free_mass_none_bumped(n, pings@, bumped@, len);
        lemma_shares_sum(n, pings@, len);
        assert((n - given) * weight == n * weight - given * weight) by (nonlinear_arith);
    }
    let mut t: u64 = 0;
    while t < left
        invariant
            0 <= t <= left,
            left == n_pieces - given,
            given <= n_pieces,
            n == n_pieces,
            len == pings@.len(),
            weight > 0,
            weight == total_weight(pings@),
            alloc@.len() == pings@.len(),
            rems@.len() == pings@.len(),
            bumped@.len() == pings@.len(),
            forall|j: int|
                0 <= j < pings@.len() ==> (#[trigger] rems@[j])@ == remainder(n, pings@, j),
            forall|j: int|
                0 <= j < pings@.len() ==> alloc@[j] == quota(n, pings@, j) + if bumped@[j] {
                    1nat
                } else {
                    0nat
                },
            allocation_total(alloc@) == given + t,
            forall|a: int, b: int|
                0 <= a < pings@.len() && 0 <= b < pings@.len() && bumped@[a] && !bumped@[b]
                    ==> outranks(n, pings@, a, b),
            forall|j: int| 0 <= j < pings@.len() && bumped@[j] ==> remainder(n, pings@, j) > 0,
            free_mass(n, pings@, bumped@, len) >= (left - t) * weight,
        decreases left - t,
    {
        proof {
            assert((left - t) * weight >= weight) by (nonlinear_arith)
                requires
                    left - t >= 1,
                    weight > 0,
            ;
            lemma_free_mass_positive(n, pings@, bumped@, len);
        }
        let ghost witness = choose|j: int|
            0 <= j < len && !bumped@[j] && remainder(n, pings@, j) > 0;
        let b = best_free(&rems, &bumped);
        proof {
            assert(rems@[witness]@ == remainder(n, pings@, witness));
            assert(rems@[b as int]@ >= rems@[witness]@);
            assert forall|j: int| 0 <= j < len && !bumped@[j] && j != b implies outranks(
                n,
                pings@,
                b as int,
                j,
            ) by {
                assert(rems@[j]@ == remainder(n, pings@, j));
                assert(rems@[b as int]@ == remainder(n, pings@, b as int));
            }
            lemma_free_mass_bump(n, pings@, bumped@, b as int, len);
            lemma_mod_bound((n * peer_weight(pings@, b as int)) as int, weight as int);
            assert((left - (t + 1)) * weight == (left - t) * weight - weight)
                by (nonlinear_arith);
            lemma_allocation_total_member(alloc@, b as int);
            lemma_allocation_total_bump(alloc@, b as int);
        }
        let bumped_value = alloc[b] + 1;
        alloc.set(b, bumped_value);
        bumped.set(b, true);
        t = t + 1;
    }
    proof {
        assert forall|i: int| 0 <= i < pings@.len() && pings@[i] == PING_UNUSABLE implies alloc@[i]
            == 0 by {
            assert(peer_weight(pings@, i) == 0);
            assert(n * 0 == 0);
            assert(remainder(n, pings@, i) == 0);
            assert(quota(n, pings@, i) == 0);
        }
    }
    Ok(alloc)
}

/// The share of peer `i` rounded to the nearest whole number, halves upwards.
pub open spec fn rounded_share(n: nat, pings: Seq<u128>, i: int) -> nat {
    if 2 * remainder(n, pings, i) >= total_weight(pings) {
        quota(n, pings, i) + 1
    } else {
        quota(n, pings, i)
    }
}

/// Where the rounded shares add up to the number of pieces, they are the
/// allocation: left-over pieces are handed out only to mend a sum that
/// rounding gets wrong.
pub proof fn lemma_rounding_that_adds_up(n: nat, pings: Seq<u128>, r: Seq<u64>)
    requires
        any_reachable(pings),
        r.len() == pings.len(),
        forall|i: int| 0 <= i < r.len() ==> r[i] == rounded_share(n, pings, i),
        allocation_total(r) == n,
    ensures
        is_allocation(n, pings, r),
{
    lemma_total_weight_zero(pings);
    assert forall|i: int| 0 <= i < r.len() && pings[i] == PING_UNUSABLE implies r[i] == 0 by {
        assert(peer_weight(pings, i) == 0);
        assert(n * 0 == 0);
        assert(remainder(n, pings, i) == 0);
        assert(quota(n, pings, i) == 0);
    }
}

/// An allocation to a single peer gives it every piece.
pub proof fn lemma_single_peer_gets_all(n: nat, pings: Seq<u128>, r: Seq<u64>)
    requires
        is_allocation(n, pings, r),
        pings.len() == 1,
    ensures
        r[0] == n,
{
    assert(r.drop_last().len() == 0);
    assert(allocation_total(r.drop_last()) == 0);
    assert(r.last() == r[0]);
}

proof fn lemma_total_strictly_larger(a: Seq<u64>, b: Seq<u64>, i: int)
    requires
        a.len() == b.len(),
        0 <= i < a.len(),
        a[i] > b[i],
        forall|j: int| 0 <= j < a.len() ==> a[j] >= b[j],
    ensures
        allocation_total(a) > allocation_total(b),
    decreases a.len(),
{
    if i < a.len() - 1 {
        lemma_total_strictly_larger(a.drop_last(), b.drop_last(), i);
    } else {
        lemma_total_not_smaller(a.drop_last(), b.drop_last());
    }
}

proof fn lemma_total_not_smaller(a: Seq<u64>, b: Seq<u64>)
    requires
        a.len() == b.len(),
        forall|j: int| 0 <= j < a.len() ==> a[j] >= b[j],
    ensures
        allocation_total(a) >= allocation_total(b),
    decreases a.len(),
{
    if a.len() > 0 {
        lemma_total_not_smaller(a.drop_last(), b.drop_last());
    }
}

/// The pings and the number of pieces determine the allocation: two
/// allocations of the same pieces to the same peers are equal.
pub proof fn lemma_allocation_unique(n: nat, pings: Seq<u128>, r1: Seq<u64>, r2: Seq<u64>)
    requires
        is_allocation(n, pings, r1),
        is_allocation(n, pings, r2),
    ensures
        r1 == r2,
{
    assert forall|i: int| 0 <= i < r1.len() implies r1[i] == r2[i] by {
        lemma_share_not_larger(n, pings, r1, r2, i);
        lemma_share_not_larger(n, pings, r2, r1, i);
    }
    assert(r1 =~= r2);
}

proof fn lemma_share_not_larger(n: nat, pings: Seq<u128>, a: Seq<u64>, b: Seq<u64>, i: int)
    requires
        is_allocation(n, pings, a),
        is_allocation(n, pings, b),
        0 <= i < a.len(),
    ensures
        a[i] <= b[i],
{
    if a[i] > b[i] {
        if forall|j: int| 0 <= j < a.len() ==> a[j] >= b[j] {
            lemma_total_strictly_larger(a, b, i);
        } else {
            let j = choose|j: int| 0 <= j < a.len() && !(a[j] >= b[j]);
            assert(outranks(n, pings, i, j));
            assert(outranks(n, pings, j, i));
        }
    }
}

/// The index of the first piece of peer `i`: the number of pieces of the
/// peers before it.
pub open spec fn range_start(r: Seq<u64>, i: int) -> nat {
    allocation_total(r.take(i))
}

/// Piece `k` is one of the pieces of peer `i`.
pub open spec fn owns(r: Seq<u64>, i: int, k: nat) -> bool {
    0 <= i < r.len() && range_start(r, i) <= k < range_start(r, i) + r[i]
}

proof fn lemma_range_start_next(r: Seq<u64>, i: int)
    requires
        0 <= i < r.len(),
    ensures
        range_start(r, i + 1) == range_start(r, i) + r[i],
{
    assert(r.take(i + 1).drop_last() =~= r.take(i));
}

proof fn lemma_range_start_monotonic(r: Seq<u64>, i: int, j: int)
    requires
        0 <= i <= j <= r.len(),
    ensures
        range_start(r, i) <= range_start(r, j),
    decreases j - i,
{
    if i < j {
        lemma_range_start_monotonic(r, i, j - 1);
        lemma_range_start_next(r, j - 1);
    }
}

proof fn lemma_owner_exists(r: Seq<u64>, k: nat, upto: int)
    requires
        0 <= upto <= r.len(),
        k < range_start(r, upto),
    ensures
        exists|i: int| owns(r, i, k),
    decreases upto,
{
    if upto == 0 {
        assert(r.take(0) =~= Seq::<u64>::empty());
    } else {
        lemma_range_start_next(r, upto - 1);
        if k < range_start(r, upto - 1) {
            lemma_owner_exists(r, k, upto - 1);
        } else {
            assert(owns(r, upto - 1, k));
        }
    }
}

/// The ranges of the peers are disjoint and cover the pieces: every piece
/// below the total belongs to exactly one peer.
pub proof fn lemma_piece_has_one_owner(r: Seq<u64>, k: nat)
    requires
        k < allocation_total(r),
    ensures
        exists|i: int| owns(r, i, k),
        forall|i: int, j: int| owns(r, i, k) && owns(r, j, k) ==> i == j,
{
    assert(r.take(r.len() as int) =~= r);
    lemma_owner_exists(r, k, r.len() as int);
    assert forall|i: int, j: int| owns(r, i, k) && owns(r, j, k) implies i == j by {
        if i < j {
            lemma_range_start_next(r, i);
            lemma_range_start_monotonic(r, i + 1, j);
        } else if j < i {
            lemma_range_start_next(r, j);
            lemma_range_start_monotonic(r, j + 1, i);
        }
    }
}

/// Lists the pieces of every peer: peer 0 gets the first `pieces_ratio[0]`
/// piece indices, peer 1 the next `pieces_ratio[1]`, and so on.
pub fn assign_pieces(pieces_ratio: Vec<u64>) -> (res: Vec<Vec<u64>>)
    requires
        allocation_total(pieces_ratio@) <= u64::MAX,
    ensures
        res@.len() == pieces_ratio@.len(),
        forall|i: int| 0 <= i < res@.len() ==> (#[trigger] res@[i])@.len() == pieces_ratio@[i],
        forall|i: int, j: int|
            0 <= i < res@.len() && 0 <= j < pieces_ratio@[i] ==> (#[trigger] res@[i]@[j])
                == range_start(pieces_ratio@, i) + j,
{
    let mut next: u64 = 0;
    let mut res: Vec<Vec<u64>> = Vec::new();
    let mut s: usize = 0;
    proof {
        assert(pieces_ratio@.take(0) =~= Seq::<u64>::empty());
    }
    while s < pieces_ratio.len()
        invariant
            0 <= s <= pieces_ratio@.len(),
            allocation_total(pieces_ratio@) <= u64::MAX,
            res@.len() == s,
            next == range_start(pieces_ratio@, s as int),
            forall|i: int| 0 <= i < s ==> (#[trigger] res@[i])@.len() == pieces_ratio@[i],
            forall|i: int, j: int|
                0 <= i < s && 0 <= j < pieces_ratio@[i] ==> (#[trigger] res@[i]@[j])
                    == range_start(pieces_ratio@, i) + j,
        decreases pieces_ratio@.len() - s,
    {
        let count = pieces_ratio[s];
        proof {
            lemma_range_start_next(pieces_ratio@, s as int);
            lemma_range_start_monotonic(pieces_ratio@, s + 1, pieces_ratio@.len() as int);
            assert(pieces_ratio@.take(pieces_ratio@.len() as int) =~= pieces_ratio@);
        }
        let mut connection_pieces: Vec<u64> = Vec::new();
        let mut done: u64 = 0;
        while done < count
            invariant
                0 <= done <= count,
                next + count <= u64::MAX,
                connection_pieces@.len() == done,
                forall|j: int| 0 <= j < done ==> connection_pieces@[j] == next + j,
            decreases count - done,
        {
            connection_pieces.push(next + done);
            done = done + 1;
        }
        res.push(connection_pieces);
        next = next + count;
        s = s + 1;
    }
    res
}

} // verus!
