//! The sentinel code of a cell: its index with a sentinel bit appended,
//! scaled to the finest depth. Flagged-coverage entries are built on it.

use vstd::prelude::*;
use crate::cell::{
    is_cell, lemma_pow4_add, lemma_pow4_pos, n_hash, pow4,
    HealpixError, DEPTH_MAX,
};
use crate::uniq::UniqTuple;

verus! {

/// `(2 * hash + 1) * 4^(29 - depth)`.
pub open spec fn sentinel_code(depth: nat, hash: nat) -> nat {
    (2 * hash + 1) * pow4((29 - depth) as nat)
}

proof fn lemma_cancel(a: nat, b: nat, m: nat)
    requires
        m > 0,
        a * m == b * m,
    ensures
        a == b,
{
    if a < b {
        assert(a * m < b * m) by (nonlinear_arith)
            requires
                a < b,
                m > 0,
        ;
    } else if a > b {
        assert(b * m < a * m) by (nonlinear_arith)
            requires
                b < a,
                m > 0,
        ;
    }
}

/// An odd number times `4^k` determines both the odd number and `k`.
proof fn lemma_odd_pow4_unique(o1: nat, k1: nat, o2: nat, k2: nat)
    requires
        o1 % 2 == 1,
        o2 % 2 == 1,
        o1 * pow4(k1) == o2 * pow4(k2),
    ensures
        o1 == o2,
        k1 == k2,
{
    if k1 < k2 {
        lemma_odd_pow4_shift(o1, k1, o2, k2);
    } else if k2 < k1 {
        lemma_odd_pow4_shift(o2, k2, o1, k1);
    } else {
        lemma_pow4_pos(k1);
        lemma_cancel(o1, o2, pow4(k1));
    }
}

proof fn lemma_odd_pow4_shift(o1: nat, k1: nat, o2: nat, k2: nat)
    requires
        k1 < k2,
        o1 * pow4(k1) == o2 * pow4(k2),
    ensures
        o1 % 2 == 0,
{
    let q = pow4((k2 - k1 - 1) as nat);
    lemma_pow4_add(k1, (k2 - k1) as nat);
    assert(pow4((k2 - k1) as nat) == 4 * q);
    lemma_pow4_pos(k1);
    assert(o2 * pow4(k2) == (o2 * 4 * q) * pow4(k1)) by (nonlinear_arith)
        requires
            pow4(k2) == pow4(k1) * (4 * q),
    ;
    lemma_cancel(o1, o2 * 4 * q, pow4(k1));
    let y = o2 * 2 * q;
    assert(o2 * 4 * q == 2 * y) by (nonlinear_arith)
        requires
            y == o2 * 2 * q,
    ;
    assert((2 * y) % 2 == 0);
}

/// The cell whose sentinel code is `code`; `InvalidRange` when no cell has it.
pub fn decode_sentinel(zuniq: u64) -> (r: Result<UniqTuple, HealpixError>)
    ensures
        r matches Ok(c) ==> is_cell(c.depth as nat, c.hash as nat) && sentinel_code(
            c.depth as nat,
            c.hash as nat,
        ) == zuniq,
        r is Err ==> r == Err::<UniqTuple, HealpixError>(HealpixError::InvalidRange),
        forall|d: u8, h: u64|
            is_cell(d as nat, h as nat) && sentinel_code(d as nat, h as nat) == zuniq ==> r == Ok::<
                UniqTuple,
                HealpixError,
            >(UniqTuple { depth: d, hash: h }),
{
    let mut k: u8 = 0;
    let mut v: u64 = zuniq;
    assert(pow4(0) == 1);
    while k < DEPTH_MAX && v % 4 == 0
        invariant
            k <= 29,
            v * pow4(k as nat) == zuniq,
        decreases 29 - k,
    {
        proof {
            assert(pow4((k + 1) as nat) == 4 * pow4(k as nat));
            assert((v / 4) * pow4((k + 1) as nat) == v * pow4(k as nat)) by (nonlinear_arith)
                requires
                    v % 4 == 0,
                    pow4((k + 1) as nat) == 4 * pow4(k as nat),
            ;
        }
        v = v / 4;
        k = k + 1;
    }
    let d: u8 = DEPTH_MAX - k;
    proof {
        assert forall|d2: u8, h2: u64|
            is_cell(d2 as nat, h2 as nat) && sentinel_code(d2 as nat, h2 as nat) == zuniq implies d2 == d
            && 2 * h2 + 1 == v by {
            let k2 = (29 - d2) as nat;
            if k2 > k {
                // v would still hold a factor of four
                let q = pow4((k2 - k - 1) as nat);
                lemma_pow4_add(k as nat, (k2 - k) as nat);
                assert(pow4((k2 - k) as nat) == 4 * q);
                lemma_pow4_pos(k as nat);
                assert((2 * h2 + 1) * pow4(k2) == ((2 * h2 + 1) * q * 4) * pow4(k as nat))
                    by (nonlinear_arith)
                    requires
                        pow4(k2) == pow4(k as nat) * (4 * q),
                ;
                lemma_cancel(v as nat, ((2 * h2 + 1) * q * 4) as nat, pow4(k as nat));
                assert(((2 * h2 + 1) * q * 4) % 4 == 0) by (nonlinear_arith);
            } else {
                if v % 2 == 0 {
                    let q = pow4((k - k2) as nat);
                    lemma_pow4_add(k2, (k - k2) as nat);
                    assert(v * pow4(k as nat) == (v * q) * pow4(k2)) by (nonlinear_arith)
                        requires
                            pow4(k as nat) == pow4(k2) * q,
                    ;
                    lemma_pow4_pos(k2);
                    lemma_cancel((2 * h2 + 1) as nat, (v * q) as nat, pow4(k2));
                    let y = (v / 2) * q;
                    assert(v * q == 2 * y) by (nonlinear_arith)
                        requires
                            v % 2 == 0,
                            y == (v / 2) * q,
                    ;
                    assert((2 * y) % 2 == 0);
                } else {
                    lemma_odd_pow4_unique((2 * h2 + 1) as nat, k2, v as nat, k as nat);
                }
            }
        }
    }
    if v % 2 == 0 {
        return Err(HealpixError::InvalidRange);
    }
    let h = v / 2;
    if h >= n_hash(d) {
        return Err(HealpixError::InvalidRange);
    }
    Ok(UniqTuple { depth: d, hash: h })
}

} // verus!
