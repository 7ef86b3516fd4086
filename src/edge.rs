//! Cells around a cell: its neighbours, its internal and external edges, and
//! the dilation of a range coverage by one ring of cells.

use std::ops::Range;
use vstd::prelude::*;
use crate::cell::{
    is_cell, lemma_npix_bound, n_hash, n_hash_spec, pow4, pow4_u64, HealpixError, DEPTH_MAX, NPIX_MAX,
};
use crate::moc::{create_range_moc_psql, granularity, valid_range, RangeMOCPSQL};
use crate::normalized::lemma_cells_fit;
use crate::ranges::{in_ranges, multiple_of};

verus! {

/// The neighbours of a cell, indexed by compass direction: south, south-east,
/// east, south-west, center, north-east, west, north-west, north. A direction
/// without a neighbour holds `None`.
#[derive(Debug)]
pub struct MainWindMapPSQL {
    pub array: Vec<Option<u64>>,
}

/// The cells that cdshealpix's `nested::neighbours` gives, by direction.
pub uninterp spec fn neighbours_of(depth: u8, hash: u64, include_center: bool) -> Seq<Option<u64>>;

/// The cells that cdshealpix's `nested::external_edge` gives.
pub uninterp spec fn external_edge_of(depth: u8, hash: u64, delta_depth: u8) -> Seq<u64>;

/// The cells that cdshealpix's `nested::internal_edge` gives.
pub uninterp spec fn internal_edge_of(depth: u8, hash: u64, delta_depth: u8) -> Seq<u64>;

/// Relies on cdshealpix's `nested::neighbours`: the neighbours of the cell
/// `(depth, hash)` by direction, each a cell of that depth; the center slot
/// holds the cell itself when asked, and nothing otherwise.
#[verifier::external_body]
fn neighbours_raw(depth: u8, hash: u64, include_center: bool) -> (r: Vec<Option<u64>>)
    requires
        is_cell(depth as nat, hash as nat),
    ensures
        r@.len() == 9,
        r@ == neighbours_of(depth, hash, include_center),
        forall|k: int| 0 <= k < r@.len() ==> opt_cell_ok(#[trigger] r@[k], depth as nat),
        r@[4] == (if include_center { Some(hash) } else { None }),
{
    let map = cdshealpix::nested::neighbours(depth, hash, include_center);
    let mut array: Vec<Option<u64>> = vec![None; 9];
    for (direction, value) in map.entries_vec() {
        array[direction as usize] = Some(value);
    }
    array
}

/// Relies on cdshealpix's `nested::external_edge`: the cells at depth
/// `depth + delta_depth` that touch the cell `(depth, hash)` from outside,
/// each a cell of that depth.
#[verifier::external_body]
fn external_edge_raw(depth: u8, hash: u64, delta_depth: u8) -> (r: Vec<u64>)
    requires
        is_cell(depth as nat, hash as nat),
        depth + delta_depth <= 29,
    ensures
        r@ == external_edge_of(depth, hash, delta_depth),
        forall|k: int| 0 <= k < r@.len() ==> (#[trigger] r@[k]) < n_hash_spec((depth + delta_depth) as nat),
{
    cdshealpix::nested::external_edge(depth, hash, delta_depth).into_vec()
}

/// Relies on cdshealpix's `nested::internal_edge`: the cells at depth
/// `depth + delta_depth` inside the cell `(depth, hash)` along its border.
#[verifier::external_body]
fn internal_edge_raw(depth: u8, hash: u64, delta_depth: u8) -> (r: Vec<u64>)
    requires
        is_cell(depth as nat, hash as nat),
        depth + delta_depth < 29,
    ensures
        r@ == internal_edge_of(depth, hash, delta_depth),
{
    cdshealpix::nested::internal_edge(depth, hash, delta_depth).into_vec()
}

/// The neighbours of the cell `(depth, hash)`. `InvalidDepth` for a depth
/// above 29, `InvalidRange` for an index outside that depth.
pub fn hpx_neighbours(depth: u8, hash: u64, include_center: bool) -> (r: Result<MainWindMapPSQL, HealpixError>)
    ensures
        depth > 29 ==> (r matches Err(e) && e == HealpixError::InvalidDepth),
        depth <= 29 && !is_cell(depth as nat, hash as nat) ==> (r matches Err(e) && e == HealpixError::InvalidRange),
        is_cell(depth as nat, hash as nat) ==> (r matches Ok(m) && m.array@ == neighbours_of(depth, hash, include_center) && m.array@.len() == 9),
        r matches Ok(m) ==> m.array@[4] == (if include_center { Some(hash) } else { None }) && forall|k: int| 0 <= k < m.array@.len() ==> opt_cell_ok(#[trigger] m.array@[k], depth as nat),
{
    if depth > DEPTH_MAX {
        return Err(HealpixError::InvalidDepth);
    }
    if hash >= n_hash(depth) {
        return Err(HealpixError::InvalidRange);
    }
    Ok(MainWindMapPSQL { array: neighbours_raw(depth, hash, include_center) })
}

/// The cells `delta_depth` levels down that touch the cell `(depth, hash)`
/// from outside. `InvalidDepth` when `depth + delta_depth` exceeds 29,
/// `InvalidRange` for an index outside `depth`.
pub fn hpx_external_edge(depth: u8, hash: u64, delta_depth: u8) -> (r: Result<Vec<u64>, HealpixError>)
    ensures
        depth + delta_depth > 29 ==> r == Err::<Vec<u64>, HealpixError>(HealpixError::InvalidDepth),
        depth + delta_depth <= 29 && !is_cell(depth as nat, hash as nat) ==> r == Err::<Vec<u64>, HealpixError>(HealpixError::InvalidRange),
        depth + delta_depth <= 29 && is_cell(depth as nat, hash as nat) ==> (r matches Ok(v) && v@ == external_edge_of(depth, hash, delta_depth)),
        r matches Ok(v) ==> forall|k: int| 0 <= k < v@.len() ==> (#[trigger] v@[k]) < n_hash_spec((depth + delta_depth) as nat),
{
    if depth > DEPTH_MAX || delta_depth > DEPTH_MAX - depth {
        return Err(HealpixError::InvalidDepth);
    }
    if hash >= n_hash(depth) {
        return Err(HealpixError::InvalidRange);
    }
    Ok(external_edge_raw(depth, hash, delta_depth))
}

/// The cells `delta_depth` levels down inside the cell `(depth, hash)` along
/// its border. `InvalidDepth` unless `depth + delta_depth` is below 29,
/// `InvalidRange` for an index outside `depth`.
pub fn hpx_internal_edge(depth: u8, hash: u64, delta_depth: u8) -> (r: Result<Vec<u64>, HealpixError>)
    ensures
        depth + delta_depth >= 29 ==> r == Err::<Vec<u64>, HealpixError>(HealpixError::InvalidDepth),
        depth + delta_depth < 29 && !is_cell(depth as nat, hash as nat) ==> r == Err::<Vec<u64>, HealpixError>(HealpixError::InvalidRange),
        depth + delta_depth < 29 && is_cell(depth as nat, hash as nat) ==> (r matches Ok(v) && v@ == internal_edge_of(depth, hash, delta_depth)),
{
    if depth >= DEPTH_MAX || delta_depth >= DEPTH_MAX - depth {
        return Err(HealpixError::InvalidDepth);
    }
    if hash >= n_hash(depth) {
        return Err(HealpixError::InvalidRange);
    }
    Ok(internal_edge_raw(depth, hash, delta_depth))
}

/// `x` lies in one of the cells `cells` at `depth`.
pub open spec fn in_cells_at(cells: Seq<u64>, depth: nat, x: int) -> bool {
    exists|i: int| 0 <= i < cells.len() && #[trigger] cells[i] * granularity(depth) <= x < (cells[i] + 1) * granularity(depth)
}

/// `moc` with the cells `cells` at its depth added. `InvalidRange` when one
/// of them is not a cell of that depth.
pub fn moc_expand_with(moc: &RangeMOCPSQL, cells: &Vec<u64>) -> (r: Result<RangeMOCPSQL, HealpixError>)
    requires
        moc.wf(),
    ensures
        r is Ok <==> forall|i: int| 0 <= i < cells@.len() ==> (#[trigger] cells@[i]) < n_hash_spec(moc.depth_max as nat),
        r is Err ==> r == Err::<RangeMOCPSQL, HealpixError>(HealpixError::InvalidRange),
        r matches Ok(m) ==> m.wf() && m.depth_max == moc.depth_max && m.cells() == moc.cells().union(Set::new(|x: int| in_cells_at(cells@, moc.depth_max as nat, x))),
{
    let d = moc.depth_max;
    let g = pow4_u64(DEPTH_MAX - d);
    let nh = n_hash(d);
    let ghost gr = granularity(d as nat);
    let mut ranges: Vec<Range<u64>> = Vec::new();
    let mut i: usize = 0;
    while i < moc.ranges.len()
        invariant
            moc.wf(),
            d == moc.depth_max,
            i <= moc.ranges@.len(),
            ranges@.len() == i,
            forall|k: int| 0 <= k < i ==> #[trigger] ranges@[k] == moc.ranges@[k],
        decreases moc.ranges.len() - i,
    {
        ranges.push(Range { start: moc.ranges[i].start, end: moc.ranges[i].end });
        i = i + 1;
    }
    proof {
        assert(ranges@ =~= moc.ranges@);
        assert forall|k: int| 0 <= k < ranges@.len() implies valid_range(#[trigger] ranges@[k], d as nat) by {
            assert(moc.ranges@[k].start < moc.ranges@[k].end);
            assert(multiple_of(moc.ranges@[k].start as int, granularity(d as nat)));
        }
    }
    let mut j: usize = 0;
    while j < cells.len()
        invariant
            moc.wf(),
            d == moc.depth_max,
            g == gr,
            gr == granularity(d as nat),
            nh == n_hash_spec(d as nat),
            j <= cells@.len(),
            ranges@.len() == moc.ranges@.len() + j,
            forall|k: int| 0 <= k < j ==> (#[trigger] cells@[k]) < nh,
            forall|k: int| 0 <= k < ranges@.len() ==> valid_range(#[trigger] ranges@[k], d as nat),
            forall|x: int| in_ranges(ranges@, x) <==> (in_ranges(moc.ranges@, x) || in_cells_at(cells@.take(j as int), d as nat, x)),
        decreases cells.len() - j,
    {
        let h = cells[j];
        if h >= nh {
            return Err(HealpixError::InvalidRange);
        }
        proof {
            lemma_cells_fit(d as nat, h as nat + 1);
            crate::cell::lemma_pow4_pos((29 - d) as nat);
            assert(h * g <= (h + 1) * g) by (nonlinear_arith);
            vstd::arithmetic::div_mod::lemma_mod_multiples_basic(h as int, g as int);
            vstd::arithmetic::div_mod::lemma_mod_multiples_basic(h as int + 1, g as int);
        }
        let ghost before = ranges@;
        ranges.push(Range { start: h * g, end: (h + 1) * g });
        proof {
            assert(ranges@.drop_last() =~= before);
            assert forall|x: int| in_ranges(ranges@, x) <==> (in_ranges(moc.ranges@, x) || in_cells_at(cells@.take(j + 1), d as nat, x)) by {
                let t = cells@.take(j + 1);
                assert(in_ranges(ranges@, x) == ((h * g <= x < (h + 1) * g) || in_ranges(before, x)));
                assert(in_ranges(before, x) <==> (in_ranges(moc.ranges@, x) || in_cells_at(cells@.take(j as int), d as nat, x)));
                if in_cells_at(t, d as nat, x) {
                    let k = choose|k: int| 0 <= k < t.len() && #[trigger] t[k] * granularity(d as nat) <= x < (t[k] + 1) * granularity(d as nat);
                    if k < j {
                        assert(cells@.take(j as int)[k] == t[k]);
                    }
                }
                if in_cells_at(cells@.take(j as int), d as nat, x) {
                    let k = choose|k: int| 0 <= k < cells@.take(j as int).len() && #[trigger] cells@.take(j as int)[k] * granularity(d as nat) <= x < (cells@.take(j as int)[k] + 1) * granularity(d as nat);
                    assert(t[k] == cells@.take(j as int)[k]);
                }
                if h * g <= x < (h + 1) * g {
                    assert(t[j as int] == h);
                    assert(t[j as int] * granularity(d as nat) <= x < (t[j as int] + 1) * granularity(d as nat));
                }
            }
        }
        j = j + 1;
    }
    let res = create_range_moc_psql(d, ranges);
    proof {
        assert(cells@.take(cells@.len() as int) =~= cells@);
    }
    match res {
        Ok(m) => {
            proof {
                assert(m.cells() =~= moc.cells().union(Set::new(|x: int| in_cells_at(cells@, moc.depth_max as nat, x))));
            }
            Ok(m)
        },
        Err(e) => Err(e),
    }
}


pub proof fn lemma_fit_is_cell(depth: nat, hi: nat)
    requires
        depth <= 29,
        hi * granularity(depth) <= crate::cell::NPIX_MAX,
    ensures
        hi <= 12 * pow4(depth),
{
    crate::cell::lemma_pow4_add(depth, (29 - depth) as nat);
    crate::cell::lemma_pow4_values();
    crate::cell::lemma_pow4_pos((29 - depth) as nat);
    let g = granularity(depth);
    assert(hi <= 12 * pow4(depth)) by (nonlinear_arith)
        requires
            hi * g <= 12 * (pow4(depth) * g),
            g > 0,
    ;
}

/// `x` lies in the cell `o` at `depth`, when there is one.
pub open spec fn in_opt_cell(o: Option<u64>, depth: nat, x: int) -> bool {
    match o {
        Some(n) => n * granularity(depth) <= x < (n + 1) * granularity(depth),
        None => false,
    }
}

/// `o`, when there is one, is a cell at `depth`.
pub open spec fn opt_cell_ok(o: Option<u64>, depth: nat) -> bool {
    match o {
        Some(n) => n < n_hash_spec(depth),
        None => true,
    }
}

/// `x` lies in one of the first `k` cells of `ring`.
pub open spec fn ring_prefix(ring: Seq<Option<u64>>, k: int, depth: nat, x: int) -> bool {
    exists|j: int| 0 <= j < k && in_opt_cell(#[trigger] ring[j], depth, x)
}

/// `x` lies in a neighbour (from `neighbours_of`) of a cell `h` at `depth`
/// with `h * 4^(29 - depth) < bound` whose first index is in `cov`.
pub open spec fn ring_below(depth: nat, cov: Set<int>, bound: int, x: int) -> bool {
    exists|h: u64, k: int|
        h * granularity(depth) < bound && cov.contains(h * granularity(depth)) && 0 <= k
            < neighbours_of(depth as u8, h, false).len() && in_opt_cell(#[trigger] neighbours_of(depth as u8, h, false)[k], depth, x)
}

/// `x` lies in a neighbour of a covered cell at `depth`.
pub open spec fn ring_of(depth: nat, cov: Set<int>, x: int) -> bool {
    exists|h: u64, k: int|
        cov.contains(h * granularity(depth)) && 0 <= k < neighbours_of(depth as u8, h, false).len()
            && in_opt_cell(#[trigger] neighbours_of(depth as u8, h, false)[k], depth, x)
}

proof fn lemma_push_cell(s: Seq<u64>, n: u64, d: nat, x: int)
    ensures
        in_cells_at(s.push(n), d, x) <==> (in_cells_at(s, d, x) || (n * granularity(d) <= x < (n + 1)
            * granularity(d))),
{
    let t = s.push(n);
    if in_cells_at(t, d, x) {
        let i = choose|i: int| 0 <= i < t.len() && #[trigger] t[i] * granularity(d) <= x < (t[i] + 1) * granularity(d);
        if i < s.len() {
            assert(s[i] == t[i]);
        }
    }
    if in_cells_at(s, d, x) {
        let i = choose|i: int| 0 <= i < s.len() && #[trigger] s[i] * granularity(d) <= x < (s[i] + 1) * granularity(d);
        assert(t[i] == s[i]);
    }
    if n * granularity(d) <= x < (n + 1) * granularity(d) {
        assert(t[s.len() as int] == n);
    }
}

/// Only the cell `h` has its first index in `[h * g, (h + 1) * g)`.
proof fn lemma_one_cell(h: int, h2: int, g: int)
    requires
        g > 0,
        h * g <= h2 * g < (h + 1) * g,
    ensures
        h2 == h,
{
    if h2 < h {
        assert(h2 * g + g <= h * g) by (nonlinear_arith)
            requires
                h2 < h,
                g > 0,
        ;
    } else if h2 > h {
        assert((h + 1) * g <= h2 * g) by (nonlinear_arith)
            requires
                h2 > h,
                g > 0,
        ;
    }
}

/// Appends the cells of `ring` to `edges`.
#[verifier::spinoff_prover]
fn push_ring(edges: &mut Vec<u64>, ring: &Vec<Option<u64>>, Ghost(dm): Ghost<nat>)
    requires
        forall|j: int| 0 <= j < ring@.len() ==> opt_cell_ok(#[trigger] ring@[j], dm),
        forall|j: int| 0 <= j < old(edges)@.len() ==> (#[trigger] old(edges)@[j]) < n_hash_spec(dm),
    ensures
        forall|j: int| 0 <= j < final(edges)@.len() ==> (#[trigger] final(edges)@[j]) < n_hash_spec(dm),
        forall|x: int| in_cells_at(final(edges)@, dm, x) <==> (in_cells_at(old(edges)@, dm, x) || ring_prefix(ring@, ring@.len() as int, dm, x)),
{
    let ghost base = edges@;
    let mut k: usize = 0;
    while k < ring.len()
        invariant
            k <= ring@.len(),
            base == old(edges)@,
            forall|j: int| 0 <= j < ring@.len() ==> opt_cell_ok(#[trigger] ring@[j], dm),
            forall|j: int| 0 <= j < edges@.len() ==> (#[trigger] edges@[j]) < n_hash_spec(dm),
            forall|x: int| in_cells_at(edges@, dm, x) <==> (in_cells_at(base, dm, x) || ring_prefix(ring@, k as int, dm, x)),
        decreases ring.len() - k,
    {
        let ghost before = edges@;
        match ring[k] {
            Some(n) => {
                edges.push(n);
                proof {
                    assert(ring@[k as int] == Some(n));
                    assert forall|x: int| in_opt_cell(ring@[k as int], dm, x) <==> (n * granularity(dm) <= x < (n + 1) * granularity(dm)) by {}
                    assert(forall|x: int| in_cells_at(before, dm, x) <==> (in_cells_at(base, dm, x) || ring_prefix(ring@, k as int, dm, x)));
                    assert forall|x: int| in_cells_at(edges@, dm, x) <==> (in_cells_at(base, dm, x) || ring_prefix(ring@, k + 1, dm, x)) by {
                        lemma_push_cell(before, n, dm, x);
                        if ring_prefix(ring@, k + 1, dm, x) {
                            let j = choose|j: int| 0 <= j < k + 1 && in_opt_cell(#[trigger] ring@[j], dm, x);
                            if j < k {
                                assert(ring_prefix(ring@, k as int, dm, x));
                            }
                        }
                        if ring_prefix(ring@, k as int, dm, x) {
                            let j = choose|j: int| 0 <= j < k && in_opt_cell(#[trigger] ring@[j], dm, x);
                            assert(0 <= j < k + 1);
                        }
                    }
                }
            },
            None => {
                proof {
                    assert(ring@[k as int] is None);
                    assert(edges@ == before);
                    assert(!in_opt_cell(ring@[k as int], dm, 0));
                    assert forall|x: int| in_cells_at(edges@, dm, x) <==> (in_cells_at(base, dm, x) || ring_prefix(ring@, k + 1, dm, x)) by {
                        assert(in_cells_at(edges@, dm, x) <==> (in_cells_at(base, dm, x) || ring_prefix(ring@, k as int, dm, x)));
                        assert(!in_opt_cell(ring@[k as int], dm, x));
                        if ring_prefix(ring@, k + 1, dm, x) {
                            let j = choose|j: int| 0 <= j < k + 1 && in_opt_cell(#[trigger] ring@[j], dm, x);
                            assert(j < k);
                        }
                        if ring_prefix(ring@, k as int, dm, x) {
                            let j = choose|j: int| 0 <= j < k && in_opt_cell(#[trigger] ring@[j], dm, x);
                            assert(0 <= j < k + 1);
                        }
                    }
                }
            },
        }
        let ghost k0 = k as int;
        k = k + 1;
        assert(k as int == k0 + 1);
        assert forall|x: int| in_cells_at(edges@, dm, x) <==> (in_cells_at(base, dm, x) || ring_prefix(ring@, k as int, dm, x)) by {
            assert(in_cells_at(edges@, dm, x) <==> (in_cells_at(base, dm, x) || ring_prefix(ring@, k0 + 1, dm, x)));
        }
    }
}

/// `moc` grown by one ring of cells at its depth: every neighbour (by
/// cdshealpix's `nested::neighbours`) of a covered cell at `depth_max` is
/// added.
#[verifier::spinoff_prover]
pub fn moc_expanded(moc: RangeMOCPSQL) -> (r: RangeMOCPSQL)
    requires
        moc.wf(),
    ensures
        r.wf(),
        r.depth_max == moc.depth_max,
        r.cells() == moc.cells().union(
            Set::new(|x: int| ring_of(moc.depth_max as nat, moc.cells(), x)),
        ),
{
    let dm = moc.depth_max;
    let ghost gr = granularity(dm as nat);
    let ghost cov = moc.cells();
    let g = pow4_u64(DEPTH_MAX - dm);
    proof {
        crate::cell::lemma_pow4_pos((29 - dm) as nat);
    }
    let mut edges: Vec<u64> = Vec::new();
    let mut i: usize = 0;
    while i < moc.ranges.len()
        invariant
            moc.wf(),
            dm == moc.depth_max,
            cov == moc.cells(),
            g == gr,
            gr == granularity(dm as nat),
            gr > 0,
            i <= moc.ranges@.len(),
            forall|k: int| 0 <= k < edges@.len() ==> (#[trigger] edges@[k]) < n_hash_spec(dm as nat),
            forall|x: int| in_cells_at(edges@, dm as nat, x) <==> ring_below(dm as nat, cov, if i == 0 { 0 } else { moc.ranges@[i - 1].end as int }, x),
        decreases moc.ranges.len() - i,
    {
        let start = moc.ranges[i].start;
        let end = moc.ranges[i].end;
        let ghost prev: int = if i == 0 { 0 } else { moc.ranges@[i - 1].end as int };
        proof {
            assert(start < end);
            if i > 0 {
                assert(moc.ranges@[i - 1].end < moc.ranges@[i as int].start);
            }
            // no covered cell starts in the gap before this range
            assert forall|x: int| ring_below(dm as nat, cov, prev, x) <==> ring_below(dm as nat, cov, start as int, x) by {
                if ring_below(dm as nat, cov, start as int, x) {
                    let (h, k) = choose|h: u64, k: int|
                        h * granularity(dm as nat) < start as int && cov.contains(h * granularity(dm as nat)) && 0 <= k
                            < neighbours_of(dm, h, false).len() && in_opt_cell(#[trigger] neighbours_of(dm, h, false)[k], dm as nat, x);
                    let y = h * granularity(dm as nat);
                    if y >= prev {
                        crate::ranges::lemma_in_ranges_index(moc.ranges@, y);
                        let m = choose|m: int| 0 <= m < moc.ranges@.len() && #[trigger] moc.ranges@[m].start <= y < moc.ranges@[m].end;
                        if m < i {
                            if m < i - 1 {
                                crate::ranges::lemma_wf_sorted(moc.ranges@, m, i - 1);
                            }
                        } else if m > i {
                            crate::ranges::lemma_wf_sorted(moc.ranges@, i as int, m);
                        }
                    }
                }
            }
            vstd::arithmetic::div_mod::lemma_fundamental_div_mod(start as int, g as int);
            vstd::arithmetic::div_mod::lemma_fundamental_div_mod(end as int, g as int);
            assert(multiple_of(start as int, gr) && multiple_of(end as int, gr));
        }
        let mut h: u64 = start / g;
        let hend = end / g;
        proof {
            assert(h * g == start) by (nonlinear_arith)
                requires
                    start == g * (start / g) + start % g,
                    start % g == 0,
                    h == start / g,
            ;
            assert(hend * g == end) by (nonlinear_arith)
                requires
                    end == g * (end / g) + end % g,
                    end % g == 0,
                    hend == end / g,
            ;
            assert(h <= hend) by (nonlinear_arith)
                requires
                    h * g == start,
                    hend * g == end,
                    start < end,
                    g > 0,
            ;
        }
        while h < hend
            invariant
                moc.wf(),
                dm == moc.depth_max,
                cov == moc.cells(),
                g == gr,
                gr == granularity(dm as nat),
                gr > 0,
                i < moc.ranges@.len(),
                start == moc.ranges@[i as int].start,
                end == moc.ranges@[i as int].end,
                start as int <= h * g <= end,
                hend * g == end,
                h <= hend,
                forall|k: int| 0 <= k < edges@.len() ==> (#[trigger] edges@[k]) < n_hash_spec(dm as nat),
                forall|x: int| in_cells_at(edges@, dm as nat, x) <==> ring_below(dm as nat, cov, h * g, x),
            decreases hend - h,
        {
            proof {
                assert(h * g < end) by (nonlinear_arith)
                    requires
                        h < hend,
                        hend * g == end,
                        g > 0,
                ;
                assert(cov.contains(h * g)) by {
                    assert(moc.ranges@[i as int].start <= h * g < moc.ranges@[i as int].end);
                    crate::ranges::lemma_in_ranges_index(moc.ranges@, h * g);
                }
                crate::ranges::lemma_in_ranges_below_last(moc.ranges@, h * g);
                assert(h * g < NPIX_MAX);
                assert(h < n_hash_spec(dm as nat)) by {
                    crate::cell::lemma_pow4_add(dm as nat, (29 - dm) as nat);
                    crate::cell::lemma_pow4_values();
                    assert(h < 12 * pow4(dm as nat)) by (nonlinear_arith)
                        requires
                            h * g < 12 * (pow4(dm as nat) * g),
                            g > 0,
                    ;
                }
            }
            let ring = neighbours_raw(dm, h, false);
            let ghost base = edges@;
            push_ring(&mut edges, &ring, Ghost(dm as nat));
            proof {
                let hg = h * g;
                assert((h + 1) * g == hg + g) by (nonlinear_arith)
                    requires
                        hg == h * g,
                ;
                assert((h + 1) * g <= end) by (nonlinear_arith)
                    requires
                        h < hend,
                        hend * g == end,
                        g > 0,
                ;
                assert forall|x: int| in_cells_at(edges@, dm as nat, x) <==> ring_below(dm as nat, cov, (h + 1) * g, x) by {
                    assert(in_cells_at(edges@, dm as nat, x) <==> (in_cells_at(base, dm as nat, x) || ring_prefix(ring@, ring@.len() as int, dm as nat, x)));
                    assert(in_cells_at(base, dm as nat, x) <==> ring_below(dm as nat, cov, h * g, x));
                    if ring_below(dm as nat, cov, (h + 1) * g, x) {
                        let (h2, k2) = choose|h2: u64, k2: int|
                            h2 * granularity(dm as nat) < (h + 1) * g && cov.contains(h2 * granularity(dm as nat)) && 0 <= k2
                                < neighbours_of(dm, h2, false).len() && in_opt_cell(#[trigger] neighbours_of(dm, h2, false)[k2], dm as nat, x);
                        if h2 * g >= hg {
                            lemma_one_cell(h as int, h2 as int, g as int);
                            assert(ring@[k2] == neighbours_of(dm, h2, false)[k2]);
                            assert(in_opt_cell(ring@[k2], dm as nat, x));
                        } else {
                            assert(ring_below(dm as nat, cov, h * g, x));
                        }
                    }
                    if ring_prefix(ring@, ring@.len() as int, dm as nat, x) {
                        let j = choose|j: int| 0 <= j < ring@.len() && in_opt_cell(#[trigger] ring@[j], dm as nat, x);
                        assert(neighbours_of(dm, h, false)[j] == ring@[j]);
                        assert(ring_below(dm as nat, cov, (h + 1) * g, x));
                    }
                    if ring_below(dm as nat, cov, h * g, x) {
                        let (h2, k2) = choose|h2: u64, k2: int|
                            h2 * granularity(dm as nat) < h * g && cov.contains(h2 * granularity(dm as nat)) && 0 <= k2
                                < neighbours_of(dm, h2, false).len() && in_opt_cell(#[trigger] neighbours_of(dm, h2, false)[k2], dm as nat, x);
                        assert(ring_below(dm as nat, cov, (h + 1) * g, x));
                    }
                }
            }
            h = h + 1;
        }
        i = i + 1;
    }
    proof {
        assert forall|x: int| in_cells_at(edges@, dm as nat, x) <==> ring_of(dm as nat, cov, x) by {
            let last: int = if moc.ranges@.len() == 0 { 0 } else { moc.ranges@[moc.ranges@.len() - 1].end as int };
            if ring_of(dm as nat, cov, x) {
                let (h2, k2) = choose|h2: u64, k2: int|
                    cov.contains(h2 * granularity(dm as nat)) && 0 <= k2 < neighbours_of(dm, h2, false).len()
                        && in_opt_cell(#[trigger] neighbours_of(dm, h2, false)[k2], dm as nat, x);
                crate::ranges::lemma_in_ranges_below_last(moc.ranges@, h2 * granularity(dm as nat));
                assert(ring_below(dm as nat, cov, last, x));
            }
        }
    }
    match moc_expand_with(&moc, &edges) {
        Ok(m) => {
            proof {
                assert(m.cells() =~= moc.cells().union(Set::new(|x: int| ring_of(moc.depth_max as nat, moc.cells(), x))));
            }
            m
        },
        Err(_) => {
            proof {
                assert(false);
            }
            moc
        },
    }
}

} // verus!
