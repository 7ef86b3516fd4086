//! Cell arithmetic in the nested scheme: depths, powers of four, parents,
//! children and siblings.

use vstd::prelude::*;

verus! {

/// The finest depth of the hierarchy.
pub const DEPTH_MAX: u8 = 29;

/// Number of cells at the finest depth: `12 * 4^29`.
pub const NPIX_MAX: u64 = 3458764513820540928;

/// Errors reported at the boundary of the library.
#[derive(Debug, Clone, Copy, PartialEq, Eq, Structural)]
pub enum HealpixError {
    /// A depth outside `0..=29`.
    InvalidDepth,
    /// A malformed range or cell index.
    InvalidRange,
    /// Text that does not follow the coverage notation.
    MalformedText,
    /// An argument that breaks the precondition of an operation.
    PreconditionViolation,
}

/// `4^n`.
pub open spec fn pow4(n: nat) -> nat
    decreases n,
{
    if n == 0 {
        1
    } else {
        4 * pow4((n - 1) as nat)
    }
}

/// `2^n`.
pub open spec fn pow2n(n: nat) -> nat
    decreases n,
{
    if n == 0 {
        1
    } else {
        2 * pow2n((n - 1) as nat)
    }
}

/// Number of cells at `depth`.
pub open spec fn n_hash_spec(depth: nat) -> nat {
    12 * pow4(depth)
}

/// `(depth, hash)` names a cell.
pub open spec fn is_cell(depth: nat, hash: nat) -> bool {
    depth <= 29 && hash < n_hash_spec(depth)
}

pub proof fn lemma_pow4_pos(n: nat)
    ensures
        pow4(n) >= 1,
    decreases n,
{
    if n > 0 {
        lemma_pow4_pos((n - 1) as nat);
    }
}

pub proof fn lemma_pow4_add(a: nat, b: nat)
    ensures
        pow4(a + b) == pow4(a) * pow4(b),
    decreases a,
{
    if a > 0 {
        lemma_pow4_add((a - 1) as nat, b);
        assert(pow4(a) == 4 * pow4((a - 1) as nat));
        assert(pow4(a + b) == 4 * pow4((a - 1 + b) as nat));
        assert(4 * (pow4((a - 1) as nat) * pow4(b)) == (4 * pow4((a - 1) as nat)) * pow4(b))
            by (nonlinear_arith);
    } else {
        assert(pow4(0) == 1);
        assert(a + b == b);
    }
}

pub proof fn lemma_pow4_mono(a: nat, b: nat)
    requires
        a <= b,
    ensures
        pow4(a) <= pow4(b),
{
    lemma_pow4_add(a, (b - a) as nat);
    lemma_pow4_pos((b - a) as nat);
    lemma_pow4_pos(a);
    assert(pow4(a) * pow4((b - a) as nat) >= pow4(a)) by (nonlinear_arith)
        requires
            pow4((b - a) as nat) >= 1,
            pow4(a) >= 1,
    ;
}

pub proof fn lemma_pow4_values()
    ensures
        pow4(29) == 288230376151711744,
        pow4(31) == 4611686018427387904,
        12 * pow4(29) == NPIX_MAX,
{
    reveal_with_fuel(pow4, 32);
}

/// Every power of four up to depth 29 leaves room for the whole sky.
pub proof fn lemma_npix_bound(d: nat)
    requires
        d <= 29,
    ensures
        12 * pow4(d) <= NPIX_MAX,
        pow4(d) <= pow4(29),
{
    lemma_pow4_values();
    lemma_pow4_mono(d, 29);
}

/// `4^n` as a machine integer.
pub fn pow4_u64(n: u8) -> (r: u64)
    requires
        n <= 31,
    ensures
        r == pow4(n as nat),
{
    let mut r: u64 = 1;
    let mut i: u8 = 0;
    while i < n
        invariant
            i <= n,
            n <= 31,
            r == pow4(i as nat),
        decreases n - i,
    {
        proof {
            lemma_pow4_values();
            lemma_pow4_mono((i + 1) as nat, 31);
        }
        r = r * 4;
        i = i + 1;
    }
    r
}

/// Number of cells at `depth`.
pub fn n_hash(depth: u8) -> (r: u64)
    requires
        depth <= 29,
    ensures
        r == n_hash_spec(depth as nat),
{
    proof {
        lemma_npix_bound(depth as nat);
    }
    12 * pow4_u64(depth)
}

/// Number of cells along a side of a base cell at `depth`: `2^depth`.
pub fn hpx_nside(depth: u8) -> (r: Result<u32, HealpixError>)
    ensures
        depth <= 29 ==> r == Ok::<u32, HealpixError>(pow2n(depth as nat) as u32),
        depth > 29 ==> r == Err::<u32, HealpixError>(HealpixError::InvalidDepth),
{
    if depth > DEPTH_MAX {
        return Err(HealpixError::InvalidDepth);
    }
    let mut r: u32 = 1;
    let mut i: u8 = 0;
    proof {
        lemma_pow2n_mono(0, 29);
    }
    while i < depth
        invariant
            i <= depth,
            depth <= 29,
            r == pow2n(i as nat),
            r <= pow2n(29),
        decreases depth - i,
    {
        proof {
            lemma_pow2n_29();
            lemma_pow2n_mono((i + 1) as nat, 29);
        }
        r = r * 2;
        i = i + 1;
    }
    Ok(r)
}

proof fn lemma_pow2n_29()
    ensures
        pow2n(29) == 536870912,
{
    reveal_with_fuel(pow2n, 30);
}

pub proof fn lemma_pow2n_mono(a: nat, b: nat)
    requires
        a <= b,
    ensures
        pow2n(a) <= pow2n(b),
    decreases b,
{
    if a < b {
        lemma_pow2n_mono(a, (b - 1) as nat);
    }
}

/// The ancestor of `hash` that lies `delta_depth` levels higher.
pub fn hpx_parent(hash: u64, delta_depth: u8) -> (r: u64)
    requires
        delta_depth <= 31,
    ensures
        r == hash as nat / pow4(delta_depth as nat),
{
    proof {
        lemma_pow4_pos(delta_depth as nat);
    }
    hash / pow4_u64(delta_depth)
}

/// The half-open range of the descendants of `hash` that lie `delta_depth`
/// levels lower.
pub fn hpx_children(hash: u64, delta_depth: u8) -> (r: std::ops::Range<u64>)
    requires
        delta_depth <= 31,
        (hash + 1) * pow4(delta_depth as nat) <= u64::MAX,
    ensures
        r.start == hash * pow4(delta_depth as nat),
        r.end == (hash + 1) * pow4(delta_depth as nat),
{
    let p = pow4_u64(delta_depth);
    proof {
        lemma_pow4_pos(delta_depth as nat);
        assert(hash * p <= (hash + 1) * p) by (nonlinear_arith);
        assert(hash + 1 <= (hash + 1) * p) by (nonlinear_arith)
            requires
                p >= 1,
        ;
    }
    std::ops::Range { start: hash * p, end: (hash + 1) * p }
}

/// First sibling (sharing the parent of `(depth, hash)`) as a spec.
pub open spec fn siblings_first(depth: nat, hash: nat) -> int {
    if depth == 0 {
        0
    } else {
        hash - hash % 4
    }
}

/// Last sibling (sharing the parent of `(depth, hash)`) as a spec.
pub open spec fn siblings_last(depth: nat, hash: nat) -> int {
    if depth == 0 {
        11
    } else {
        hash - hash % 4 + 3
    }
}

/// The inclusive range of the cells that share the parent of `(depth, hash)`:
/// the four children of that parent, or the twelve base cells at depth 0.
pub fn hpx_siblings(depth: u8, hash: u64) -> (r: (u64, u64))
    ensures
        r.0 == siblings_first(depth as nat, hash as nat),
        r.1 == siblings_last(depth as nat, hash as nat),
{
    if depth == 0 {
        (0, 11)
    } else {
        let first = hash - hash % 4;
        (first, first + 3)
    }
}

} // verus!
