//! Single-integer addresses of cells: the depth-prefixed `uniq` value and the
//! nesting-ordered `zuniq` value.

use vstd::prelude::*;
use crate::cell::{
    is_cell, lemma_npix_bound, lemma_pow4_add, lemma_pow4_mono, lemma_pow4_pos, lemma_pow4_values, n_hash, pow4, pow4_u64,
    HealpixError, DEPTH_MAX,
};

verus! {

/// A cell: a depth and an index at that depth.
#[derive(Debug, Clone, Copy, PartialEq, Eq, Structural)]
pub struct UniqTuple {
    pub depth: u8,
    pub hash: u64,
}

/// The `uniq` address: a sentinel bit `16 * 4^depth` above the index.
pub open spec fn uniq_of(depth: nat, hash: nat) -> nat {
    16 * pow4(depth) + hash
}

proof fn lemma_uniq_depth_bounds(d: nat, h: nat)
    requires
        is_cell(d, h),
    ensures
        16 * pow4(d) <= uniq_of(d, h) < 16 * pow4(d + 1),
{
    assert(pow4(d + 1) == 4 * pow4(d));
}

/// Distinct cells, at any depths, have distinct `uniq` addresses.
pub proof fn uniq_injective(d1: nat, h1: nat, d2: nat, h2: nat)
    requires
        is_cell(d1, h1),
        is_cell(d2, h2),
        uniq_of(d1, h1) == uniq_of(d2, h2),
    ensures
        d1 == d2,
        h1 == h2,
{
    lemma_uniq_depth_bounds(d1, h1);
    lemma_uniq_depth_bounds(d2, h2);
    if d1 < d2 {
        lemma_pow4_mono(d1 + 1, d2);
    } else if d2 < d1 {
        lemma_pow4_mono(d2 + 1, d1);
    }
}

/// The `uniq` address of the cell `(depth, hash)`.
pub fn hpx_to_uniq(depth: u8, hash: u64) -> (r: Result<u64, HealpixError>)
    ensures
        depth > 29 ==> r == Err::<u64, HealpixError>(HealpixError::InvalidDepth),
        depth <= 29 && !is_cell(depth as nat, hash as nat) ==> r == Err::<u64, HealpixError>(
            HealpixError::InvalidRange,
        ),
        is_cell(depth as nat, hash as nat) ==> r == Ok::<u64, HealpixError>(
            uniq_of(depth as nat, hash as nat) as u64,
        ),
{
    if depth > DEPTH_MAX {
        return Err(HealpixError::InvalidDepth);
    }
    if hash >= n_hash(depth) {
        return Err(HealpixError::InvalidRange);
    }
    proof {
        lemma_npix_bound(depth as nat);
    }
    Ok(16 * pow4_u64(depth) + hash)
}

/// The cell whose `uniq` address is `uniq`; `InvalidDepth` when the sentinel
/// bit stands for a depth above 29, `InvalidRange` when no cell has it.
pub fn hpx_from_uniq(uniq: u64) -> (r: Result<UniqTuple, HealpixError>)
    ensures
        r matches Ok(c) ==> is_cell(c.depth as nat, c.hash as nat) && uniq_of(
            c.depth as nat,
            c.hash as nat,
        ) == uniq,
        uniq >= 0x8000_0000_0000_0000 ==> r == Err::<UniqTuple, HealpixError>(HealpixError::InvalidDepth),
        uniq < 0x8000_0000_0000_0000 && r is Err ==> r == Err::<UniqTuple, HealpixError>(HealpixError::InvalidRange),
        forall|d: u8, h: u64|
            is_cell(d as nat, h as nat) && uniq_of(d as nat, h as nat) == uniq ==> r == Ok::<
                UniqTuple,
                HealpixError,
            >(UniqTuple { depth: d, hash: h }),
{
    // a sentinel bit at position 63 stands for depth 30
    if uniq >= 0x8000_0000_0000_0000 {
        proof {
            assert forall|d: u8, h: u64| is_cell(d as nat, h as nat) implies uniq_of(d as nat, h as nat) < 0x8000_0000_0000_0000 by {
                lemma_npix_bound(d as nat);
                lemma_pow4_values();
            }
        }
        return Err(HealpixError::InvalidDepth);
    }
    if uniq < 16 {
        return Err(HealpixError::InvalidRange);
    }
    let mut d: u8 = 0;
    let mut p: u64 = 16;
    while d < DEPTH_MAX && uniq / 4 >= p
        invariant
            d <= 29,
            p == 16 * pow4(d as nat),
            p <= uniq,
        decreases 29 - d,
    {
        proof {
            lemma_npix_bound((d + 1) as nat);
            lemma_pow4_values();
        }
        p = p * 4;
        d = d + 1;
    }
    let h = uniq - p;
    proof {
        assert(pow4((d + 1) as nat) == 4 * pow4(d as nat));
        assert forall|d2: u8, h2: u64|
            is_cell(d2 as nat, h2 as nat) && uniq_of(d2 as nat, h2 as nat) == uniq implies d2 == d
            && h2 == h by {
            lemma_uniq_depth_bounds(d2 as nat, h2 as nat);
            if d2 < d {
                lemma_pow4_mono(d2 as nat + 1, d as nat);
            } else if d2 > d {
                lemma_pow4_mono(d as nat + 1, d2 as nat);
            }
        }
    }
    if h >= n_hash(d) {
        return Err(HealpixError::InvalidRange);
    }
    Ok(UniqTuple { depth: d, hash: h })
}



/// Number of cells in the quad tree under a cell at `depth`, itself included,
/// down to depth 29: `1 + 4 + ... + 4^(29 - depth)`.
pub open spec fn subtree_size(depth: nat) -> nat
    decreases 29 - depth,
{
    if depth >= 29 {
        1
    } else {
        1 + 4 * subtree_size(depth + 1)
    }
}

/// The `zuniq` address: the rank of the cell `(depth, hash)` in a depth-first,
/// pre-order walk of the twelve base cells' quad trees down to depth 29. A
/// cell comes right before its descendants, which come before its next
/// sibling.
pub open spec fn zuniq_of(depth: nat, hash: nat) -> nat
    decreases depth,
{
    if depth == 0 {
        hash * subtree_size(0)
    } else {
        zuniq_of((depth - 1) as nat, hash / 4) + 1 + (hash % 4) * subtree_size(depth)
    }
}

/// The number of cells in all twelve trees.
pub const N_ZUNIQ: u64 = 4611686018427387900;

proof fn lemma_subtree_size(d: nat)
    requires
        d <= 29,
    ensures
        1 <= subtree_size(d) <= subtree_size(0),
        d < 29 ==> subtree_size(d) == 1 + 4 * subtree_size(d + 1),
        12 * subtree_size(0) == N_ZUNIQ,
    decreases d,
{
    assert(subtree_size(0) == 384307168202282325) by {
        reveal_with_fuel(subtree_size, 31);
    }
    if d > 0 {
        lemma_subtree_size((d - 1) as nat);
        lemma_subtree_pos(d);
    } else {
        lemma_subtree_pos(0);
    }
}

proof fn lemma_subtree_pos(d: nat)
    ensures
        subtree_size(d) >= 1,
    decreases 29 - d,
{
    if d < 29 {
        lemma_subtree_pos(d + 1);
    }
}

/// One level down: a child comes after its parent and its subtree ends
/// inside the parent's.
proof fn lemma_zuniq_step(d: nat, h: nat)
    requires
        1 <= d <= 29,
    ensures
        zuniq_of((d - 1) as nat, h / 4) < zuniq_of(d, h),
        zuniq_of(d, h) + subtree_size(d) <= zuniq_of((d - 1) as nat, h / 4) + subtree_size((d - 1) as nat),
{
    lemma_subtree_size((d - 1) as nat);
    let s = subtree_size(d);
    assert((h % 4) * s + s <= 4 * s) by (nonlinear_arith)
        requires
            h % 4 < 4,
            s >= 1,
    ;
}

/// A descendant `k` levels down lies inside the ancestor's subtree, after
/// the ancestor.
proof fn lemma_zuniq_descendant(d: nat, h: nat, k: nat, j: nat)
    requires
        k >= 1,
        d + k <= 29,
        j / pow4(k) == h,
    ensures
        zuniq_of(d, h) < zuniq_of(d + k, j),
        zuniq_of(d + k, j) + subtree_size(d + k) <= zuniq_of(d, h) + subtree_size(d),
    decreases k,
{
    assert(pow4(k) == 4 * pow4((k - 1) as nat));
    lemma_pow4_pos((k - 1) as nat);
    vstd::arithmetic::div_mod::lemma_div_denominator(j as int, 4, pow4((k - 1) as nat) as int);
    lemma_zuniq_step(d + k, j);
    if k > 1 {
        lemma_zuniq_descendant(d, h, (k - 1) as nat, j / 4);
    } else {
        assert(pow4(0) == 1);
    }
}

/// A cell's subtree ends where the next cell of its depth begins, or before.
proof fn lemma_zuniq_next(d: nat, h: nat)
    requires
        d <= 29,
    ensures
        zuniq_of(d, h) + subtree_size(d) <= zuniq_of(d, h + 1),
    decreases d,
{
    if d == 0 {
        assert((h + 1) * subtree_size(0) == h * subtree_size(0) + subtree_size(0)) by (nonlinear_arith);
    } else {
        lemma_subtree_size((d - 1) as nat);
        let s = subtree_size(d);
        if h % 4 < 3 {
            assert((h + 1) / 4 == h / 4 && (h + 1) % 4 == h % 4 + 1);
            assert(((h % 4) + 1) * s == (h % 4) * s + s) by (nonlinear_arith);
        } else {
            assert((h + 1) / 4 == h / 4 + 1 && (h + 1) % 4 == 0);
            lemma_zuniq_next((d - 1) as nat, h / 4);
            assert((h % 4) * s + s <= 4 * s) by (nonlinear_arith)
                requires
                    h % 4 < 4,
            ;
        }
    }
}

proof fn lemma_zuniq_apart(d: nat, a: nat, b: nat)
    requires
        d <= 29,
        a < b,
    ensures
        zuniq_of(d, a) + subtree_size(d) <= zuniq_of(d, b),
    decreases b - a,
{
    lemma_zuniq_next(d, a);
    if a + 1 < b {
        lemma_zuniq_apart(d, a + 1, b);
        lemma_subtree_pos(d);
    }
}

proof fn lemma_ancestor_index(d: nat, h: nat, k: nat)
    requires
        is_cell(d + k, h),
    ensures
        is_cell(d, h / pow4(k)),
{
    lemma_pow4_add(d, k);
    lemma_pow4_pos(k);
    let p = pow4(k);
    assert(h / p < 12 * pow4(d)) by (nonlinear_arith)
        requires
            h < 12 * (pow4(d) * p),
            p > 0,
    ;
}

/// Every cell's address is below `N_ZUNIQ`.
proof fn lemma_zuniq_bound(d: nat, h: nat)
    requires
        is_cell(d, h),
    ensures
        zuniq_of(d, h) + subtree_size(d) <= N_ZUNIQ,
{
    lemma_subtree_size(d);
    let h0 = h / pow4(d);
    assert(d == 0 + d);
    lemma_ancestor_index(0, h, d);
    assert(pow4(0) == 1);
    assert((h0 + 1) * subtree_size(0) <= 12 * subtree_size(0)) by (nonlinear_arith)
        requires
            h0 < 12,
    ;
    assert(zuniq_of(0, h0) == h0 * subtree_size(0));
    assert((h0 + 1) * subtree_size(0) == h0 * subtree_size(0) + subtree_size(0)) by (nonlinear_arith);
    if d > 0 {
        lemma_zuniq_descendant(0, h0, d, h);
    } else {
        assert(h0 == h);
    }
}

/// Distinct cells, at any depths, have distinct `zuniq` addresses.
pub proof fn zuniq_injective(d1: nat, h1: nat, d2: nat, h2: nat)
    requires
        is_cell(d1, h1),
        is_cell(d2, h2),
        zuniq_of(d1, h1) == zuniq_of(d2, h2),
    ensures
        d1 == d2,
        h1 == h2,
{
    if d1 <= d2 {
        lemma_zuniq_injective_ordered(d1, h1, d2, h2);
    } else {
        lemma_zuniq_injective_ordered(d2, h2, d1, h1);
    }
}

proof fn lemma_zuniq_injective_ordered(d1: nat, h1: nat, d2: nat, h2: nat)
    requires
        d1 <= d2,
        is_cell(d1, h1),
        is_cell(d2, h2),
        zuniq_of(d1, h1) == zuniq_of(d2, h2),
    ensures
        d1 == d2,
        h1 == h2,
{
    let k = (d2 - d1) as nat;
    let a = h2 / pow4(k);
    lemma_subtree_pos(d1);
    if k == 0 {
        assert(pow4(0) == 1);
        if h1 < h2 {
            lemma_zuniq_apart(d1, h1, h2);
        } else if h2 < h1 {
            lemma_zuniq_apart(d1, h2, h1);
        }
    } else {
        lemma_zuniq_descendant(d1, a, k, h2);
        if a == h1 {
        } else if h1 < a {
            lemma_zuniq_apart(d1, h1, a);
        } else {
            lemma_zuniq_apart(d1, a, h1);
        }
    }
}

/// Nesting order of `zuniq` addresses: a descendant `(depth + k, j)` of
/// `(depth, hash)`, `k >= 1` levels down, lies after its ancestor and before
/// the ancestor's next sibling.
pub proof fn zuniq_nesting(depth: nat, hash: nat, k: nat, j: nat)
    requires
        depth + k <= 29,
        k >= 1,
        j / pow4(k) == hash,
    ensures
        zuniq_of(depth, hash) < zuniq_of(depth + k, j) < zuniq_of(depth, hash + 1),
{
    lemma_zuniq_descendant(depth, hash, k, j);
    lemma_zuniq_next(depth, hash);
    lemma_subtree_pos(depth + k);
}

fn subtree_size_u64(depth: u8) -> (r: u64)
    requires
        depth <= 29,
    ensures
        r == subtree_size(depth as nat),
{
    let mut s: u64 = 1;
    let mut k: u8 = 29;
    while k > depth
        invariant
            depth <= k <= 29,
            s == subtree_size(k as nat),
        decreases k,
    {
        proof {
            lemma_subtree_size((k - 1) as nat);
            lemma_subtree_size(0);
        }
        s = 1 + 4 * s;
        k = k - 1;
    }
    s
}

fn zuniq_rec(depth: u8, hash: u64) -> (r: u64)
    requires
        is_cell(depth as nat, hash as nat),
    ensures
        r == zuniq_of(depth as nat, hash as nat),
    decreases depth,
{
    proof {
        lemma_zuniq_bound(depth as nat, hash as nat);
        lemma_subtree_size(depth as nat);
    }
    if depth == 0 {
        hash * subtree_size_u64(0)
    } else {
        proof {
            assert((depth - 1 + 1) as nat == depth as nat);
            assert(pow4(1) == 4) by {
                assert(pow4(0) == 1);
            }
            lemma_ancestor_index((depth - 1) as nat, hash as nat, 1);
        }
        let p = zuniq_rec(depth - 1, hash / 4);
        p + 1 + (hash % 4) * subtree_size_u64(depth)
    }
}

/// The `zuniq` address of the cell `(depth, hash)`.
pub fn hpx_to_zuniq(depth: u8, hash: u64) -> (r: Result<u64, HealpixError>)
    ensures
        depth > 29 ==> r == Err::<u64, HealpixError>(HealpixError::InvalidDepth),
        depth <= 29 && !is_cell(depth as nat, hash as nat) ==> r == Err::<u64, HealpixError>(
            HealpixError::InvalidRange,
        ),
        is_cell(depth as nat, hash as nat) ==> r == Ok::<u64, HealpixError>(
            zuniq_of(depth as nat, hash as nat) as u64,
        ),
{
    if depth > DEPTH_MAX {
        return Err(HealpixError::InvalidDepth);
    }
    if hash >= n_hash(depth) {
        return Err(HealpixError::InvalidRange);
    }
    Ok(zuniq_rec(depth, hash))
}

/// The cell whose `zuniq` address is `zuniq`; `InvalidRange` when no cell has it
/// (at or above `N_ZUNIQ`).
pub fn hpx_from_zuniq(zuniq: u64) -> (r: Result<UniqTuple, HealpixError>)
    ensures
        r is Err <==> zuniq >= N_ZUNIQ,
        r is Err ==> r == Err::<UniqTuple, HealpixError>(HealpixError::InvalidRange),
        r matches Ok(c) ==> is_cell(c.depth as nat, c.hash as nat) && zuniq_of(
            c.depth as nat,
            c.hash as nat,
        ) == zuniq,
        forall|d: u8, h: u64|
            is_cell(d as nat, h as nat) && zuniq_of(d as nat, h as nat) == zuniq ==> r == Ok::<
                UniqTuple,
                HealpixError,
            >(UniqTuple { depth: d, hash: h }),
{
    proof {
        lemma_subtree_size(0);
        assert forall|d: u8, h: u64| is_cell(d as nat, h as nat) implies zuniq_of(d as nat, h as nat) < N_ZUNIQ by {
            lemma_zuniq_bound(d as nat, h as nat);
            lemma_subtree_pos(d as nat);
        }
    }
    if zuniq >= N_ZUNIQ {
        return Err(HealpixError::InvalidRange);
    }
    let s0 = subtree_size_u64(0);
    let mut h: u64 = zuniq / s0;
    let mut r: u64 = zuniq % s0;
    let mut d: u8 = 0;
    proof {
        assert(h < 12) by (nonlinear_arith)
            requires
                zuniq < 12 * s0,
                h == zuniq / s0,
                s0 > 0,
        ;
        assert(pow4(0) == 1);
        assert(zuniq == h * s0 + r) by (nonlinear_arith)
            requires
                h == zuniq / s0,
                r == zuniq % s0,
                s0 > 0,
        ;
    }
    while r > 0
        invariant
            d <= 29,
            is_cell(d as nat, h as nat),
            zuniq == zuniq_of(d as nat, h as nat) + r,
            r < subtree_size(d as nat),
        decreases 29 - d,
    {
        proof {
            lemma_subtree_size(d as nat);
            assert(d < 29);
            lemma_npix_bound((d + 1) as nat);
            assert(pow4((d + 1) as nat) == 4 * pow4(d as nat));
            assert(4 * h + 3 < 12 * pow4((d + 1) as nat));
        }
        let s = subtree_size_u64(d + 1);
        proof {
            lemma_subtree_pos((d + 1) as nat);
        }
        let rm = r - 1;
        let c = rm / s;
        let r2 = rm % s;
        proof {
            assert(c < 4) by (nonlinear_arith)
                requires
                    rm < 4 * s,
                    c == rm / s,
                    s > 0,
            ;
            assert(rm == c * s + r2) by (nonlinear_arith)
                requires
                    c == rm / s,
                    r2 == rm % s,
                    s > 0,
            ;
            assert(pow4((d + 1) as nat) == 4 * pow4(d as nat));
            let h2 = 4 * h + c;
            assert(h2 / 4 == h && h2 % 4 == c);
        }
        h = 4 * h + c;
        r = r2;
        d = d + 1;
    }
    proof {
        assert forall|d2: u8, h2: u64|
            is_cell(d2 as nat, h2 as nat) && zuniq_of(d2 as nat, h2 as nat) == zuniq implies d2 == d && h2 == h by {
            zuniq_injective(d2 as nat, h2 as nat, d as nat, h as nat);
        }
    }
    Ok(UniqTuple { depth: d, hash: h })
}

} // verus!
