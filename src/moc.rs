//! Range coverages: a maximum depth and a normalized list of finest-depth
//! ranges, with their set algebra.

use std::ops::Range;
use vstd::prelude::*;
use vstd::arithmetic::div_mod::{lemma_div_is_ordered, lemma_fundamental_div_mod, lemma_mod_bound, lemma_mod_multiples_basic};
use crate::cell::{
    lemma_pow4_add, lemma_pow4_pos, lemma_pow4_values, pow4, HealpixError, DEPTH_MAX, NPIX_MAX,
    pow4_u64,
};
use crate::ranges::{
    aligned, complement_ranges, full_set, in_ranges, lemma_canonical, multiple_of, ranges_set,
    ranges_wf, union_ranges, push_merge, lemma_take_step,
};

verus! {

/// A coverage of the sphere: sorted, disjoint, non-adjacent half-open ranges
/// of finest-depth (depth 29) indices, each bound on the grid of `depth_max`.
pub struct RangeMOCPSQL {
    pub depth_max: u8,
    pub ranges: Vec<Range<u64>>,
}

/// Number of finest-depth indices in one cell at `depth`.
pub open spec fn granularity(depth: nat) -> nat {
    pow4((29 - depth) as nat)
}

impl RangeMOCPSQL {
    /// The coverage invariant.
    pub open spec fn wf(&self) -> bool {
        &&& self.depth_max <= 29
        &&& ranges_wf(self.ranges@)
        &&& aligned(self.ranges@, granularity(self.depth_max as nat))
    }

    /// The finest-depth indices covered.
    pub open spec fn cells(&self) -> Set<int> {
        ranges_set(self.ranges@)
    }
}

/// A coarser grid divides a finer one.
pub proof fn lemma_granularity_divides(x: int, d1: nat, d2: nat)
    requires
        d1 <= d2 <= 29,
        multiple_of(x, granularity(d1)),
    ensures
        multiple_of(x, granularity(d2)),
{
    let g1 = granularity(d1);
    let g2 = granularity(d2);
    let q = pow4((d2 - d1) as nat);
    lemma_pow4_add((d2 - d1) as nat, (29 - d2) as nat);
    assert(((d2 - d1) + (29 - d2)) as nat == (29 - d1) as nat);
    lemma_pow4_pos((29 - d1) as nat);
    lemma_pow4_pos((29 - d2) as nat);
    let k = x / (g1 as int);
    assert(x == k * (g1 as int)) by (nonlinear_arith)
        requires
            x % (g1 as int) == 0,
            g1 > 0,
            k == x / (g1 as int),
    ;
    assert(x == (k * q) * g2) by (nonlinear_arith)
        requires
            x == k * (g1 as int),
            g1 == q * g2,
    ;
    lemma_mod_multiples_basic(k * q, g2 as int);
}

pub proof fn lemma_aligned_finer(s: Seq<Range<u64>>, d1: nat, d2: nat)
    requires
        d1 <= d2 <= 29,
        aligned(s, granularity(d1)),
    ensures
        aligned(s, granularity(d2)),
{
    assert forall|i: int| 0 <= i < s.len() implies multiple_of(#[trigger] s[i].start as int, granularity(d2))
        && multiple_of(s[i].end as int, granularity(d2)) by {
        lemma_granularity_divides(s[i].start as int, d1, d2);
        lemma_granularity_divides(s[i].end as int, d1, d2);
    }
}

pub proof fn lemma_npix_on_grid(d: nat)
    requires
        d <= 29,
    ensures
        multiple_of(NPIX_MAX as int, granularity(d)),
        granularity(d) > 0,
{
    lemma_pow4_values();
    assert(multiple_of(NPIX_MAX as int, granularity(0))) by {
        lemma_mod_multiples_basic(12, pow4(29) as int);
    }
    lemma_granularity_divides(NPIX_MAX as int, 0, d);
    lemma_pow4_pos((29 - d) as nat);
}

fn copy_ranges(s: &Vec<Range<u64>>) -> (r: Vec<Range<u64>>)
    ensures
        r@ == s@,
{
    let mut out: Vec<Range<u64>> = Vec::new();
    let mut i: usize = 0;
    while i < s.len()
        invariant
            i <= s.len(),
            out@ == s@.take(i as int),
        decreases s.len() - i,
    {
        out.push(Range { start: s[i].start, end: s[i].end });
        i = i + 1;
        assert(out@ =~= s@.take(i as int));
    }
    assert(s@.take(s.len() as int) =~= s@);
    out
}

fn max_depth(a: u8, b: u8) -> (r: u8)
    ensures
        r == if a >= b { a } else { b },
{
    if a >= b { a } else { b }
}

fn not_ref(moc: &RangeMOCPSQL) -> (r: RangeMOCPSQL)
    requires
        moc.wf(),
    ensures
        r.wf(),
        r.depth_max == moc.depth_max,
        r.cells() == full_set().difference(moc.cells()),
{
    proof {
        lemma_npix_on_grid(moc.depth_max as nat);
    }
    let ranges = complement_ranges(&moc.ranges, Ghost(granularity(moc.depth_max as nat)));
    RangeMOCPSQL { depth_max: moc.depth_max, ranges }
}

fn or_ref(moc: &RangeMOCPSQL, other: &RangeMOCPSQL) -> (r: RangeMOCPSQL)
    requires
        moc.wf(),
        other.wf(),
    ensures
        r.wf(),
        r.depth_max == max_depth_spec(moc.depth_max, other.depth_max),
        r.cells() == moc.cells().union(other.cells()),
{
    let d = max_depth(moc.depth_max, other.depth_max);
    proof {
        lemma_aligned_finer(moc.ranges@, moc.depth_max as nat, d as nat);
        lemma_aligned_finer(other.ranges@, other.depth_max as nat, d as nat);
    }
    let ranges = union_ranges(&moc.ranges, &other.ranges, Ghost(granularity(d as nat)));
    RangeMOCPSQL { depth_max: d, ranges }
}

/// The larger of two depths.
pub open spec fn max_depth_spec(a: u8, b: u8) -> u8 {
    if a >= b { a } else { b }
}

proof fn lemma_cells_in_sphere(moc: &RangeMOCPSQL)
    requires
        ranges_wf(moc.ranges@),
    ensures
        moc.cells().subset_of(full_set()),
{
    assert forall|x: int| moc.cells().contains(x) implies full_set().contains(x) by {
        crate::ranges::lemma_in_ranges_below_last(moc.ranges@, x);
    }
}

fn and_ref(moc: &RangeMOCPSQL, other: &RangeMOCPSQL) -> (r: RangeMOCPSQL)
    requires
        moc.wf(),
        other.wf(),
    ensures
        r.wf(),
        r.depth_max == max_depth_spec(moc.depth_max, other.depth_max),
        r.cells() == moc.cells().intersect(other.cells()),
{
    let na = not_ref(moc);
    let nb = not_ref(other);
    let u = or_ref(&na, &nb);
    let r = not_ref(&u);
    proof {
        lemma_cells_in_sphere(moc);
        lemma_cells_in_sphere(other);
        assert(r.cells() =~= moc.cells().intersect(other.cells()));
    }
    r
}

fn minus_ref(moc: &RangeMOCPSQL, other: &RangeMOCPSQL) -> (r: RangeMOCPSQL)
    requires
        moc.wf(),
        other.wf(),
    ensures
        r.wf(),
        r.depth_max == max_depth_spec(moc.depth_max, other.depth_max),
        r.cells() == moc.cells().difference(other.cells()),
{
    let nb = not_ref(other);
    let r = and_ref(moc, &nb);
    proof {
        lemma_cells_in_sphere(moc);
        assert(r.cells() =~= moc.cells().difference(other.cells()));
    }
    r
}

/// The complement of `moc` over the sphere, at the same depth.
pub fn moc_not(moc: RangeMOCPSQL) -> (r: RangeMOCPSQL)
    requires
        moc.wf(),
    ensures
        r.wf(),
        r.depth_max == moc.depth_max,
        r.cells() == full_set().difference(moc.cells()),
{
    not_ref(&moc)
}

/// Same as [`moc_not`].
pub fn moc_complement(moc: RangeMOCPSQL) -> (r: RangeMOCPSQL)
    requires
        moc.wf(),
    ensures
        r.wf(),
        r.depth_max == moc.depth_max,
        r.cells() == full_set().difference(moc.cells()),
{
    moc_not(moc)
}

/// The intersection of two coverages, at the finer of their depths.
pub fn moc_and(moc: RangeMOCPSQL, other: RangeMOCPSQL) -> (r: RangeMOCPSQL)
    requires
        moc.wf(),
        other.wf(),
    ensures
        r.wf(),
        r.depth_max == max_depth_spec(moc.depth_max, other.depth_max),
        r.cells() == moc.cells().intersect(other.cells()),
{
    and_ref(&moc, &other)
}

/// Same as [`moc_and`].
pub fn moc_intersection(moc: RangeMOCPSQL, other: RangeMOCPSQL) -> (r: RangeMOCPSQL)
    requires
        moc.wf(),
        other.wf(),
    ensures
        r.wf(),
        r.depth_max == max_depth_spec(moc.depth_max, other.depth_max),
        r.cells() == moc.cells().intersect(other.cells()),
{
    moc_and(moc, other)
}

/// The union of two coverages, at the finer of their depths.
pub fn moc_or(moc: RangeMOCPSQL, other: RangeMOCPSQL) -> (r: RangeMOCPSQL)
    requires
        moc.wf(),
        other.wf(),
    ensures
        r.wf(),
        r.depth_max == max_depth_spec(moc.depth_max, other.depth_max),
        r.cells() == moc.cells().union(other.cells()),
{
    or_ref(&moc, &other)
}

/// Same as [`moc_or`].
pub fn moc_union(moc: RangeMOCPSQL, other: RangeMOCPSQL) -> (r: RangeMOCPSQL)
    requires
        moc.wf(),
        other.wf(),
    ensures
        r.wf(),
        r.depth_max == max_depth_spec(moc.depth_max, other.depth_max),
        r.cells() == moc.cells().union(other.cells()),
{
    moc_or(moc, other)
}

/// The cells of `moc` that are not in `other`, at the finer of their depths.
pub fn moc_minus(moc: RangeMOCPSQL, other: RangeMOCPSQL) -> (r: RangeMOCPSQL)
    requires
        moc.wf(),
        other.wf(),
    ensures
        r.wf(),
        r.depth_max == max_depth_spec(moc.depth_max, other.depth_max),
        r.cells() == moc.cells().difference(other.cells()),
{
    minus_ref(&moc, &other)
}

/// The cells in exactly one of two coverages, at the finer of their depths.
pub fn moc_xor(moc: RangeMOCPSQL, other: RangeMOCPSQL) -> (r: RangeMOCPSQL)
    requires
        moc.wf(),
        other.wf(),
    ensures
        r.wf(),
        r.depth_max == max_depth_spec(moc.depth_max, other.depth_max),
        r.cells() == moc.cells().difference(other.cells()).union(
            other.cells().difference(moc.cells()),
        ),
{
    let left = minus_ref(&moc, &other);
    let right = minus_ref(&other, &moc);
    or_ref(&left, &right)
}

/// The ranges of `moc`.
pub fn moc_to_ranges(moc: RangeMOCPSQL) -> (r: Vec<Range<u64>>)
    ensures
        r@ == moc.ranges@,
{
    moc.ranges
}


/// Identities of the coverage algebra, over the covered sets that the
/// operations' contracts speak of: double complement, idempotence, excluded
/// middle, contradiction, symmetric difference as two differences, and
/// commutativity of intersection, union and symmetric difference. Since a set
/// has exactly one well-formed range list (`coverage_unique`), equal sets at
/// equal depths are equal coverages.
pub proof fn coverage_algebra(a: RangeMOCPSQL, b: RangeMOCPSQL)
    requires
        a.wf(),
        b.wf(),
    ensures
        full_set().difference(full_set().difference(a.cells())) == a.cells(),
        a.cells().intersect(a.cells()) == a.cells(),
        a.cells().union(full_set().difference(a.cells())) == full_set(),
        a.cells().intersect(full_set().difference(a.cells())) == Set::<int>::empty(),
        a.cells().difference(b.cells()).union(b.cells().difference(a.cells())) == full_set().difference(
            b.cells(),
        ).intersect(a.cells()).union(full_set().difference(a.cells()).intersect(b.cells())),
        a.cells().intersect(b.cells()) == b.cells().intersect(a.cells()),
        a.cells().union(b.cells()) == b.cells().union(a.cells()),
        a.cells().difference(b.cells()).union(b.cells().difference(a.cells())) == b.cells().difference(
            a.cells(),
        ).union(a.cells().difference(b.cells())),
        max_depth_spec(a.depth_max, b.depth_max) == max_depth_spec(b.depth_max, a.depth_max),
{
    lemma_cells_in_sphere(&a);
    lemma_cells_in_sphere(&b);
    assert(full_set().difference(full_set().difference(a.cells())) =~= a.cells());
    assert(a.cells().intersect(a.cells()) =~= a.cells());
    assert(a.cells().union(full_set().difference(a.cells())) =~= full_set());
    assert(a.cells().intersect(full_set().difference(a.cells())) =~= Set::<int>::empty());
    assert(a.cells().difference(b.cells()).union(b.cells().difference(a.cells())) =~= full_set().difference(
        b.cells(),
    ).intersect(a.cells()).union(full_set().difference(a.cells()).intersect(b.cells())));
    assert(a.cells().intersect(b.cells()) =~= b.cells().intersect(a.cells()));
    assert(a.cells().union(b.cells()) =~= b.cells().union(a.cells()));
    assert(a.cells().difference(b.cells()).union(b.cells().difference(a.cells())) =~= b.cells().difference(
        a.cells(),
    ).union(a.cells().difference(b.cells())));
}

/// Two well-formed coverages at the same depth that cover the same indices
/// are the same coverage.
pub proof fn coverage_unique(a: RangeMOCPSQL, b: RangeMOCPSQL)
    requires
        a.wf(),
        b.wf(),
        a.depth_max == b.depth_max,
        a.cells() == b.cells(),
    ensures
        a.ranges@ == b.ranges@,
{
    lemma_canonical(a.ranges@, b.ranges@);
}

/// `[start, end)` is a range that a coverage at `depth_max` can hold.
pub open spec fn valid_range(r: Range<u64>, depth_max: nat) -> bool {
    &&& r.start <= r.end <= NPIX_MAX
    &&& multiple_of(r.start as int, granularity(depth_max))
    &&& multiple_of(r.end as int, granularity(depth_max))
}

/// Builds a coverage from ranges in any order, possibly overlapping or
/// touching: they are sorted and merged. `InvalidDepth` for a depth above 29;
/// `InvalidRange` for a range that is reversed, leaves the sphere or has a
/// bound off the grid of `depth_max`.
#[verifier::spinoff_prover]
pub fn create_range_moc_psql(depth_max: u8, ranges: Vec<Range<u64>>) -> (r: Result<
    RangeMOCPSQL,
    HealpixError,
>)
    ensures
        depth_max > 29 ==> r == Err::<RangeMOCPSQL, HealpixError>(HealpixError::InvalidDepth),
        depth_max <= 29 && (exists|i: int|
            0 <= i < ranges@.len() && !valid_range(#[trigger] ranges@[i], depth_max as nat))
            ==> r == Err::<RangeMOCPSQL, HealpixError>(HealpixError::InvalidRange),
        depth_max <= 29 && (forall|i: int|
            0 <= i < ranges@.len() ==> valid_range(#[trigger] ranges@[i], depth_max as nat))
            ==> r is Ok,
        r matches Ok(m) ==> m.wf() && m.depth_max == depth_max && m.cells() == ranges_set(
            ranges@,
        ),
{
    if depth_max > DEPTH_MAX {
        return Err(HealpixError::InvalidDepth);
    }
    let g = pow4_u64(DEPTH_MAX - depth_max);
    proof {
        lemma_npix_on_grid(depth_max as nat);
    }
    let ghost gr = granularity(depth_max as nat);
    // `acc` holds the runs already merged; `run` grows while starts ascend
    let mut acc: Vec<Range<u64>> = Vec::new();
    let mut run: Vec<Range<u64>> = Vec::new();
    let mut i: usize = 0;
    while i < ranges.len()
        invariant
            g == gr,
            gr == granularity(depth_max as nat),
            gr > 0,
            depth_max <= 29,
            i <= ranges.len(),
            ranges_wf(acc@),
            aligned(acc@, gr),
            ranges_wf(run@),
            aligned(run@, gr),
            forall|k: int| 0 <= k < i ==> valid_range(#[trigger] ranges@[k], depth_max as nat),
            forall|x: int| (in_ranges(acc@, x) || in_ranges(run@, x)) <==> in_ranges(ranges@.take(i as int), x),
        decreases ranges.len() - i,
    {
        let start = ranges[i].start;
        let end = ranges[i].end;
        if start > end || end > NPIX_MAX || start % g != 0 || end % g != 0 {
            proof {
                let rr = ranges@[i as int];
                assert(rr.start == start && rr.end == end);
                if start <= end && end <= NPIX_MAX {
                    if start % g != 0 {
                        assert(!multiple_of(rr.start as int, gr));
                    } else {
                        assert(!multiple_of(rr.end as int, gr));
                    }
                }
                assert(!valid_range(rr, depth_max as nat));
            }
            return Err(HealpixError::InvalidRange);
        }
        proof {
            assert(ranges@.take(i + 1).drop_last() =~= ranges@.take(i as int));
            assert(ranges@.take(i + 1).last() == ranges@[i as int]);
        }
        let ghost acc0 = acc@;
        let ghost run0 = run@;
        assert(forall|x: int| (in_ranges(acc0, x) || in_ranges(run0, x)) <==> in_ranges(ranges@.take(i as int), x));
        if start < end {
            let n = run.len();
            if n > 0 && run[n - 1].start > start {
                let ghost old_acc = acc@;
                let ghost old_run = run@;
                acc = union_ranges(&acc, &run, Ghost(gr));
                run = Vec::new();
                proof {
                    assert forall|x: int| (in_ranges(acc@, x) || in_ranges(run@, x)) <==> (in_ranges(old_acc, x) || in_ranges(old_run, x)) by {
                        assert(ranges_set(acc@).contains(x) == (ranges_set(old_acc).contains(x) || ranges_set(old_run).contains(x)));
                    }
                }
            }
            push_merge(&mut run, start, end, Ghost(gr));
            proof {
                assert forall|x: int| (in_ranges(acc@, x) || in_ranges(run@, x)) <==> (in_ranges(acc0, x) || in_ranges(run0, x) || (start <= x < end)) by {
                }
            }
        }
        proof {
            assert forall|x: int| (in_ranges(acc@, x) || in_ranges(run@, x)) <==> in_ranges(ranges@.take(i + 1), x) by {
                assert(in_ranges(ranges@.take(i + 1), x) == ((start <= x < end) || in_ranges(ranges@.take(i as int), x)));
                assert((in_ranges(acc0, x) || in_ranges(run0, x)) <==> in_ranges(ranges@.take(i as int), x));
                assert((in_ranges(acc@, x) || in_ranges(run@, x)) <==> (in_ranges(acc0, x) || in_ranges(run0, x) || (start <= x < end)));
            }
        }
        i = i + 1;
    }
    let out = union_ranges(&acc, &run, Ghost(gr));
    proof {
        assert(ranges@.take(ranges@.len() as int) =~= ranges@);
        assert forall|x: int| #[trigger] ranges_set(out@).contains(x) == ranges_set(ranges@).contains(x) by {
            assert(ranges_set(out@).contains(x) == (ranges_set(acc@).contains(x) || ranges_set(run@).contains(x)));
        }
        assert(ranges_set(out@) =~= ranges_set(ranges@));
    }
    Ok(RangeMOCPSQL { depth_max, ranges: out })
}


/// The indices of every cell of size `g` that holds an index of `s`.
pub open spec fn degraded(s: Set<int>, g: nat) -> Set<int> {
    Set::new(|x: int| exists|y: int| #[trigger] s.contains(y) && y / (g as int) == x / (g as int))
}

/// `x / g == k` when `x` lies in the `k`-th block of size `g`.
proof fn lemma_div_band(x: int, k: int, g: int)
    requires
        g > 0,
        k * g <= x < (k + 1) * g,
    ensures
        x / g == k,
{
    lemma_fundamental_div_mod(x, g);
    lemma_mod_bound(x, g);
    let q = x / g;
    let r = x % g;
    assert(q == k) by (nonlinear_arith)
        requires
            x == g * q + r,
            0 <= r < g,
            k * g <= x,
            x < (k + 1) * g,
            g > 0,
    ;
}

proof fn lemma_div_mono(x: int, y: int, g: int)
    requires
        g > 0,
        x <= y,
    ensures
        x / g <= y / g,
{
    lemma_div_is_ordered(x, y, g);
}

/// The indices of the blocks of size `g` that meet `[s, e)` form the range
/// `[(s / g) * g, ((e - 1) / g + 1) * g)`.
proof fn lemma_rounded_range(s: int, e: int, g: int, x: int)
    requires
        g > 0,
        0 <= s < e,
    ensures
        ((s / g) * g <= x < ((e - 1) / g + 1) * g) <==> (exists|y: int|
            s <= y < e && #[trigger] (y / g) == x / g),
{
    lemma_fundamental_div_mod(s, g);
    lemma_mod_bound(s, g);
    lemma_fundamental_div_mod(e - 1, g);
    lemma_mod_bound(e - 1, g);
    let lo = (s / g) * g;
    let hi = ((e - 1) / g + 1) * g;
    if lo <= x < hi {
        if x < s {
            assert(x < (s / g + 1) * g) by (nonlinear_arith)
                requires
                    x < s,
                    s == g * (s / g) + s % g,
                    s % g < g,
            ;
            lemma_div_band(x, s / g, g);
            assert(s / g == x / g);
        } else if x >= e {
            assert(((e - 1) / g) * g <= x) by (nonlinear_arith)
                requires
                    ((e - 1) / g) * g <= e - 1,
                    x >= e,
            ;
            lemma_div_band(x, (e - 1) / g, g);
            assert((e - 1) / g == x / g);
        }
    }
    if exists|y: int| s <= y < e && #[trigger] (y / g) == x / g {
        let y = choose|y: int| s <= y < e && #[trigger] (y / g) == x / g;
        lemma_div_mono(s, y, g);
        lemma_div_mono(y, e - 1, g);
        lemma_fundamental_div_mod(x, g);
        lemma_mod_bound(x, g);
        assert(lo <= x) by (nonlinear_arith)
            requires
                lo == (s / g) * g,
                s / g <= x / g,
                x == g * (x / g) + x % g,
                x % g >= 0,
                g > 0,
        ;
        assert(x < hi) by (nonlinear_arith)
            requires
                hi == ((e - 1) / g + 1) * g,
                x / g <= (e - 1) / g,
                x == g * (x / g) + x % g,
                x % g < g,
                g > 0,
        ;
    }
}

/// The coverage at the coarser depth `new_depth` that holds every coarse cell
/// meeting `moc`. A depth at or above `depth_max` leaves `moc` as it is.
pub fn moc_degrade(moc: RangeMOCPSQL, new_depth: u8) -> (r: RangeMOCPSQL)
    requires
        moc.wf(),
    ensures
        r.wf(),
        new_depth >= moc.depth_max ==> r.ranges@ == moc.ranges@ && r.depth_max == moc.depth_max,
        new_depth < moc.depth_max ==> r.depth_max == new_depth && r.cells() == degraded(
            moc.cells(),
            granularity(new_depth as nat),
        ),
{
    if new_depth >= moc.depth_max {
        return moc;
    }
    let g = pow4_u64(DEPTH_MAX - new_depth);
    let ghost gr = granularity(new_depth as nat);
    proof {
        lemma_npix_on_grid(new_depth as nat);
    }
    let ghost s = moc.ranges@;
    let mut out: Vec<Range<u64>> = Vec::new();
    let mut i: usize = 0;
    while i < moc.ranges.len()
        invariant
            s == moc.ranges@,
            ranges_wf(s),
            g == gr,
            gr == granularity(new_depth as nat),
            gr > 0,
            multiple_of(NPIX_MAX as int, gr),
            i <= s.len(),
            ranges_wf(out@),
            aligned(out@, gr),
            out@.len() > 0 && i < s.len() ==> out@.last().start <= (s[i as int].start / g) * g,
            forall|x: int| in_ranges(out@, x) <==> (exists|y: int| in_ranges(s.take(i as int), y) && #[trigger] (y / (gr as int)) == x / (gr as int)),
        decreases s.len() - i,
    {
        let start = moc.ranges[i].start;
        let end = moc.ranges[i].end;
        proof {
            let si = start as int;
            let ei = end as int;
            let gi = g as int;
            let np = NPIX_MAX as int;
            let qs = si / gi;
            let qe = (ei - 1) / gi;
            lemma_fundamental_div_mod(si, gi);
            lemma_mod_bound(si, gi);
            lemma_fundamental_div_mod(ei - 1, gi);
            lemma_mod_bound(ei - 1, gi);
            lemma_fundamental_div_mod(np, gi);
            lemma_mod_bound(np, gi);
            let k = np / gi;
            assert(np == gi * k);
            assert(qe < k) by (nonlinear_arith)
                requires
                    ei - 1 == gi * qe + (ei - 1) % gi,
                    (ei - 1) % gi >= 0,
                    ei - 1 < np,
                    np == gi * k,
                    gi > 0,
            ;
            assert((qe + 1) * gi <= np) by (nonlinear_arith)
                requires
                    qe < k,
                    np == gi * k,
                    gi > 0,
            ;
            assert(qs * gi <= si) by (nonlinear_arith)
                requires
                    si == gi * qs + si % gi,
                    si % gi >= 0,
            ;
            lemma_div_mono(si, ei - 1, gi);
            assert(qs * gi < (qe + 1) * gi) by (nonlinear_arith)
                requires
                    qs <= qe,
                    gi > 0,
            ;
            lemma_mod_multiples_basic(qs, gi);
            lemma_mod_multiples_basic(qe + 1, gi);
        }
        let lo = (start / g) * g;
        let hi = ((end - 1) / g + 1) * g;
        let ghost before = out@;
        push_merge(&mut out, lo, hi, Ghost(gr));
        proof {
            assert forall|x: int| in_ranges(out@, x) <==> (exists|y: int| in_ranges(s.take(i + 1), y) && #[trigger] (y / (gr as int)) == x / (gr as int)) by {
                lemma_rounded_range(start as int, end as int, g as int, x);
                assert(hi == ((end as int - 1) / (g as int) + 1) * (g as int));
                if exists|y: int| in_ranges(s.take(i + 1), y) && #[trigger] (y / (gr as int)) == x / (gr as int) {
                    let y = choose|y: int| in_ranges(s.take(i + 1), y) && #[trigger] (y / (gr as int)) == x / (gr as int);
                    lemma_take_step(s, i as int, y);
                }
                if exists|y: int| in_ranges(s.take(i as int), y) && #[trigger] (y / (gr as int)) == x / (gr as int) {
                    let y = choose|y: int| in_ranges(s.take(i as int), y) && #[trigger] (y / (gr as int)) == x / (gr as int);
                    lemma_take_step(s, i as int, y);
                }
                if exists|y: int| start <= y < end && #[trigger] (y / (gr as int)) == x / (gr as int) {
                    let y = choose|y: int| start <= y < end && #[trigger] (y / (gr as int)) == x / (gr as int);
                    lemma_take_step(s, i as int, y);
                }
            }
            if i + 1 < s.len() {
                assert(s[i as int].end < s[i + 1].start);
                let gi = g as int;
                let s1 = s[i + 1].start as int;
                lemma_div_mono(start as int, s1, gi);
                assert((start as int / gi) * gi <= (s1 / gi) * gi) by (nonlinear_arith)
                    requires
                        start as int / gi <= s1 / gi,
                        gi > 0,
                ;
            }
        }
        i = i + 1;
    }
    proof {
        assert(s.take(s.len() as int) =~= s);
        assert forall|x: int| #[trigger] ranges_set(out@).contains(x) == degraded(moc.cells(), gr).contains(x) by {
            if in_ranges(out@, x) {
                let y = choose|y: int| in_ranges(s.take(s.len() as int), y) && #[trigger] (y / (gr as int)) == x / (gr as int);
                assert(moc.cells().contains(y));
            }
            if degraded(moc.cells(), gr).contains(x) {
                let y = choose|y: int| #[trigger] moc.cells().contains(y) && y / (gr as int) == x / (gr as int);
                assert(in_ranges(s.take(s.len() as int), y));
            }
        }
        assert(ranges_set(out@) =~= degraded(moc.cells(), gr));
    }
    RangeMOCPSQL { depth_max: new_depth, ranges: out }
}

/// Degrading never loses an index: every coverage is inside its degraded
/// coverage, at any depth.
pub proof fn degrade_covers(moc: RangeMOCPSQL, new_depth: u8)
    requires
        moc.wf(),
        new_depth <= 29,
    ensures
        moc.cells().subset_of(degraded(moc.cells(), granularity(new_depth as nat))),
{
    assert forall|x: int| moc.cells().contains(x) implies degraded(moc.cells(), granularity(new_depth as nat)).contains(x) by {
        assert(moc.cells().contains(x) && x / (granularity(new_depth as nat) as int) == x / (granularity(new_depth as nat) as int));
    }
}


/// Whether the finest-depth index `idx` is covered by `moc` (a binary search
/// over its ranges).
pub fn moc_contains_index(moc: &RangeMOCPSQL, idx: u64) -> (r: bool)
    requires
        moc.wf(),
    ensures
        r == moc.cells().contains(idx as int),
{
    let ghost s = moc.ranges@;
    let mut lo: usize = 0;
    let mut hi: usize = moc.ranges.len();
    while lo < hi
        invariant
            s == moc.ranges@,
            ranges_wf(s),
            lo <= hi <= s.len(),
            forall|k: int| 0 <= k < lo ==> #[trigger] s[k].end <= idx,
            forall|k: int| hi <= k < s.len() ==> idx < #[trigger] s[k].start,
        decreases hi - lo,
    {
        let mid = lo + (hi - lo) / 2;
        if moc.ranges[mid].end <= idx {
            proof {
                assert forall|k: int| 0 <= k <= mid implies #[trigger] s[k].end <= idx by {
                    if k < mid {
                        crate::ranges::lemma_wf_sorted(s, k, mid as int);
                    }
                }
            }
            lo = mid + 1;
        } else if idx < moc.ranges[mid].start {
            proof {
                assert forall|k: int| mid <= k < s.len() implies idx < #[trigger] s[k].start by {
                    if k > mid {
                        crate::ranges::lemma_wf_sorted(s, mid as int, k);
                    }
                }
            }
            hi = mid;
        } else {
            proof {
                crate::ranges::lemma_in_ranges_index(s, idx as int);
            }
            return true;
        }
    }
    proof {
        crate::ranges::lemma_in_ranges_index(s, idx as int);
        if in_ranges(s, idx as int) {
            let k = choose|k: int| 0 <= k < s.len() && #[trigger] s[k].start <= idx < s[k].end;
            // the search has closed: every index lies below `lo` or at `hi` and above
            assert(k < lo || k >= hi);
        }
    }
    false
}

} // verus!
