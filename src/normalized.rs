//! The normalized cell list of a range coverage: quad-tree aligned cells and
//! runs of cells, grouped by ascending depth, and the conversion back.

use std::ops::Range;
use vstd::prelude::*;
use crate::cell::{
    lemma_pow4_add, lemma_pow4_pos, lemma_pow4_values, n_hash, pow4, pow4_u64, HealpixError, DEPTH_MAX,
    NPIX_MAX,
};
use crate::moc::{
    coverage_unique, create_range_moc_psql, granularity, lemma_granularity_divides, valid_range,
    RangeMOCPSQL,
};
use crate::ranges::{in_ranges, multiple_of};

verus! {

/// One cell: a depth and an index.
#[derive(Debug, Clone, Copy, PartialEq, Eq, Structural)]
pub struct CellPSQL {
    pub depth: u8,
    pub idx: u64,
}

/// The finest-depth indices of the cells `[lo, hi)` at `depth`.
pub open spec fn in_block(depth: nat, lo: nat, hi: nat, x: int) -> bool {
    lo * granularity(depth) <= x < hi * granularity(depth)
}

/// `x` lies in one of the cells of `s`.
pub open spec fn in_cells(s: Seq<CellPSQL>, x: int) -> bool
    decreases s.len(),
{
    if s.len() == 0 {
        false
    } else {
        in_block(s.last().depth as nat, s.last().idx as nat, s.last().idx as nat + 1, x)
            || in_cells(s.drop_last(), x)
    }
}

/// A cell at a depth no finer than `depth_max` and inside the sphere.
pub open spec fn cell_ok(c: CellPSQL, depth_max: nat) -> bool {
    c.depth <= depth_max && (c.idx + 1) * granularity(c.depth as nat) <= NPIX_MAX
}

/// First finest-depth index of the cell `c`.
pub open spec fn cell_start(c: CellPSQL) -> int {
    c.idx * granularity(c.depth as nat)
}

/// One past the last finest-depth index of the cell `c`.
pub open spec fn cell_end(c: CellPSQL) -> int {
    (c.idx + 1) * granularity(c.depth as nat)
}

/// Cells in increasing order, without overlap.
pub open spec fn cells_sorted(s: Seq<CellPSQL>) -> bool {
    forall|a: int, b: int| 0 <= a < b < s.len() ==> cell_end(#[trigger] s[a]) <= cell_start(#[trigger] s[b])
}

/// The parent of the cell `(depth, idx)` lies inside `cov`.
pub open spec fn parent_covered(depth: nat, idx: nat, cov: Set<int>) -> bool {
    depth > 0 && forall|x: int|
        (idx / 4) * granularity((depth - 1) as nat) <= x < (idx / 4 + 1) * granularity((depth - 1) as nat)
            ==> #[trigger] cov.contains(x)
}

/// The parent of a cell holds its first index.
proof fn lemma_parent_holds_cell(depth: nat, idx: nat)
    requires
        1 <= depth <= 29,
    ensures
        (idx / 4) * granularity((depth - 1) as nat) <= idx * granularity(depth) < (idx / 4 + 1) * granularity((depth - 1) as nat),
{
    let g = granularity(depth);
    assert(((29 - (depth - 1)) as nat) == ((29 - depth) + 1) as nat);
    assert(granularity((depth - 1) as nat) == 4 * g);
    lemma_pow4_pos((29 - depth) as nat);
    let p = idx / 4;
    let r = idx % 4;
    assert(idx == 4 * p + r);
    assert(p * (4 * g) <= idx * g < (p + 1) * (4 * g)) by (nonlinear_arith)
        requires
            idx == 4 * p + r,
            0 <= r < 4,
            g >= 1,
    ;
}

/// The first index of the `q`-th block of size `4^j`.
pub open spec fn block_at(j: nat, q: int) -> int {
    q * pow4(j)
}

/// Two multiples of `m` in increasing order are `m` apart at least.
proof fn lemma_multiples_gap(a: int, b: int, m: nat)
    requires
        m > 0,
        multiple_of(a, m),
        multiple_of(b, m),
        a < b,
    ensures
        a + m <= b,
{
    let mi = m as int;
    vstd::arithmetic::div_mod::lemma_fundamental_div_mod(a, mi);
    vstd::arithmetic::div_mod::lemma_fundamental_div_mod(b, mi);
    let qa = a / mi;
    let qb = b / mi;
    assert(qa < qb) by (nonlinear_arith)
        requires
            a == mi * qa,
            b == mi * qb,
            a < b,
            mi > 0,
    ;
    assert(mi * qa + mi <= mi * qb) by (nonlinear_arith)
        requires
            qa < qb,
            mi > 0,
    ;
}

proof fn lemma_divides_pow4(x: int, a: nat, b: nat)
    requires
        b <= a <= 29,
        multiple_of(x, pow4(a)),
    ensures
        multiple_of(x, pow4(b)),
{
    lemma_granularity_divides(x, (29 - a) as nat, (29 - b) as nat);
}

/// A positive multiple of `g` is at least `g`.
proof fn lemma_multiple_at_least(x: int, g: nat)
    requires
        g > 0,
        x > 0,
        multiple_of(x, g),
    ensures
        x >= g,
{
    let k = x / (g as int);
    vstd::arithmetic::div_mod::lemma_fundamental_div_mod(x, g as int);
    assert(x == (g as int) * k);
    if k <= 0 {
        assert((g as int) * k <= 0) by (nonlinear_arith)
            requires
                k <= 0,
                g > 0,
        ;
    } else {
        assert((g as int) * k >= g) by (nonlinear_arith)
            requires
                k >= 1,
                g > 0,
        ;
    }
}

/// Appends to `out` the largest aligned cells, from left to right, that tile
/// `[start, end)`.
#[verifier::spinoff_prover]
#[verifier::rlimit(40)]
fn peel_range(start: u64, end: u64, depth_max: u8, out: &mut Vec<CellPSQL>)
    requires
        depth_max <= 29,
        start < end <= NPIX_MAX,
        multiple_of(start as int, granularity(depth_max as nat)),
        multiple_of(end as int, granularity(depth_max as nat)),
        forall|i: int| 0 <= i < old(out)@.len() ==> cell_ok(#[trigger] old(out)@[i], depth_max as nat),
        cells_sorted(old(out)@),
        forall|i: int| 0 <= i < old(out)@.len() ==> cell_end(#[trigger] old(out)@[i]) <= start,
    ensures
        cells_sorted(final(out)@),
        forall|i: int| 0 <= i < final(out)@.len() ==> cell_end(#[trigger] final(out)@[i]) <= end,
        forall|i: int| 0 <= i < final(out)@.len() ==> cell_ok(#[trigger] final(out)@[i], depth_max as nat),
        forall|x: int| in_cells(final(out)@, x) <==> (in_cells(old(out)@, x) || start <= x < end),
        final(out)@.len() >= old(out)@.len(),
        forall|i: int| 0 <= i < old(out)@.len() ==> #[trigger] final(out)@[i] == old(out)@[i],
        forall|i: int| old(out)@.len() <= i < final(out)@.len() ==> !parent_covered(
            (#[trigger] final(out)@[i]).depth as nat,
            final(out)@[i].idx as nat,
            Set::new(|x: int| start <= x < end),
        ),
        forall|i: int| old(out)@.len() <= i < final(out)@.len() ==> start <= (#[trigger] final(out)@[i]).idx * granularity(final(out)@[i].depth as nat) < end,
{
    let ghost g = granularity(depth_max as nat);
    let ghost base = out@;
    proof {
        lemma_pow4_pos((29 - depth_max) as nat);
    }
    let mut pos: u64 = start;
    while pos < end
        invariant
            depth_max <= 29,
            g == granularity(depth_max as nat),
            g > 0,
            start <= pos <= end <= NPIX_MAX,
            multiple_of(pos as int, g),
            multiple_of(end as int, g),
            forall|i: int| 0 <= i < out@.len() ==> cell_ok(#[trigger] out@[i], depth_max as nat),
            forall|x: int| in_cells(out@, x) <==> (in_cells(base, x) || start <= x < pos),
            base == old(out)@,
            cells_sorted(out@),
            forall|i: int| 0 <= i < out@.len() ==> cell_end(#[trigger] out@[i]) <= pos,
            out@.len() >= base.len(),
            forall|i: int| 0 <= i < base.len() ==> #[trigger] out@[i] == base[i],
            forall|i: int| base.len() <= i < out@.len() ==> !parent_covered(
                (#[trigger] out@[i]).depth as nat,
                out@[i].idx as nat,
                Set::new(|x: int| start <= x < end),
            ),
            forall|i: int| base.len() <= i < out@.len() ==> start <= (#[trigger] out@[i]).idx * granularity(out@[i].depth as nat) < pos,
            forall|j: nat, q: int|
                j <= 29 && start <= #[trigger] block_at(j, q) && block_at(j, q + 1) <= end && block_at(j, q) < pos
                    ==> block_at(j, q + 1) <= pos,
        decreases end - pos,
    {
        let mut dd: u8 = 0;
        let mut size: u64 = 1;
        proof {
            assert(pow4(0) == 1);
            assert(multiple_of(pos as int, 1)) by {
                vstd::arithmetic::div_mod::lemma_mod_multiples_basic(pos as int, 1);
            }
            lemma_sub_multiple(end as int, pos as int, g);
            lemma_multiple_at_least(end - pos, g);
            lemma_pow4_pos((29 - depth_max) as nat);
        }
        while dd < DEPTH_MAX && pos % (size * 4) == 0 && size * 4 <= end - pos
            invariant
                depth_max <= 29,
                g == granularity(depth_max as nat),
                dd <= 29,
                size == pow4(dd as nat),
                multiple_of(pos as int, size as nat),
                multiple_of(pos as int, g),
                end - pos >= g,
                1 <= size <= end - pos,
                pos < end <= NPIX_MAX,
            decreases 29 - dd,
        {
            proof {
                lemma_pow4_values();
                assert(pow4((dd + 1) as nat) == 4 * pow4(dd as nat));
            }
            size = size * 4;
            dd = dd + 1;
        }
        proof {
            if dd < 29 - depth_max {
                assert(pow4((dd + 1) as nat) == 4 * pow4(dd as nat));
                lemma_divides_pow4(pos as int, (29 - depth_max) as nat, (dd + 1) as nat);
                crate::cell::lemma_pow4_mono((dd + 1) as nat, (29 - depth_max) as nat);
                assert(false);
            }
        }
        let idx = pos / size;
        proof {
            vstd::arithmetic::div_mod::lemma_fundamental_div_mod(pos as int, size as int);
            assert(idx * size == pos) by (nonlinear_arith)
                requires
                    pos == size * (pos / size) + pos % size,
                    pos % size == 0,
                    idx == pos / size,
            ;
            vstd::arithmetic::div_mod::lemma_mod_multiples_basic(1, size as int);
            assert(multiple_of(size as int, granularity((29 - dd) as nat)));
            lemma_granularity_divides(size as int, (29 - dd) as nat, depth_max as nat);
            lemma_add_multiple(pos as int, size as int, g);
            assert(granularity((29 - dd) as nat) == size);
            assert((idx + 1) * size == pos + size) by (nonlinear_arith)
                requires
                    idx * size == pos,
            ;
        }
        proof {
            lemma_peel_step(start, end, pos, size, dd, idx);
        }
        let ghost before = out@;
        out.push(CellPSQL { depth: DEPTH_MAX - dd, idx });
        proof {
            assert(out@.drop_last() =~= before);
            assert forall|x: int| in_cells(out@, x) <==> (in_cells(base, x) || start <= x < pos + size) by {
                assert(out@.last() == CellPSQL { depth: (29 - dd) as u8, idx });
                assert(in_block((29 - dd) as nat, idx as nat, idx as nat + 1, x) <==> (pos <= x < pos + size));
                assert(in_cells(out@, x) == (in_block((29 - dd) as nat, idx as nat, idx as nat + 1, x) || in_cells(before, x)));
                assert(in_cells(before, x) <==> (in_cells(base, x) || start <= x < pos));
            }
        }
        let ghost p0 = pos;
        pos = pos + size;
        proof {
            assert forall|x: int| in_cells(out@, x) <==> (in_cells(base, x) || start <= x < pos) by {
                assert(in_cells(out@, x) <==> (in_cells(base, x) || start <= x < p0 + size));
            }
        }
    }
    proof {
        assert(pos == end);
        assert(base == old(out)@);
        assert forall|x: int| in_cells(out@, x) <==> (in_cells(old(out)@, x) || start <= x < end) by {
        }
    }
}

/// One step of the peeling: the cell `(29 - k, idx)` taken at `pos` is
/// maximal in `[start, end)`, and no aligned block inside `[start, end)`
/// straddles the new position.
proof fn lemma_peel_step(start: u64, end: u64, pos: u64, size: u64, dd: u8, idx: u64)
    requires
        dd <= 29,
        size == pow4(dd as nat),
        size >= 1,
        start <= pos < end,
        pos + size <= end,
        idx * size == pos,
        multiple_of(pos as int, size as nat),
        !(dd < 29 && (pos as int) % ((size * 4) as int) == 0 && size * 4 <= end - pos),
        forall|j: nat, q: int|
            j <= 29 && start <= #[trigger] block_at(j, q) && block_at(j, q + 1) <= end && block_at(j, q) < pos
                ==> block_at(j, q + 1) <= pos,
    ensures
        !parent_covered((29 - dd) as nat, idx as nat, Set::new(|x: int| start <= x < end)),
        forall|j: nat, q: int|
            j <= 29 && start <= #[trigger] block_at(j, q) && block_at(j, q + 1) <= end && block_at(j, q) < pos + size
                ==> block_at(j, q + 1) <= pos + size,
{
    let k = dd as nat;
    let cov = Set::new(|x: int| start <= x < end);
    if k < 29 {
        let p = (idx / 4) as int;
        let big = pow4(k + 1);
        assert(big == 4 * size);
        assert(((29 - k) - 1) as nat == (29 - (k + 1)) as nat);
        assert(granularity(((29 - k) - 1) as nat) == big);
        vstd::arithmetic::div_mod::lemma_fundamental_div_mod(idx as int, 4);
        let r = idx as int % 4;
        assert(block_at(k + 1, p) + r * size == pos) by (nonlinear_arith)
            requires
                idx == 4 * p + r,
                idx * size == pos,
                block_at(k + 1, p) == p * big,
                big == 4 * size,
        ;
        assert(0 <= r < 4);
        assert(block_at(k + 1, p) <= pos) by (nonlinear_arith)
            requires
                block_at(k + 1, p) + r * size == pos,
                r >= 0,
                size >= 1,
        ;
        assert(pos < block_at(k + 1, p + 1)) by (nonlinear_arith)
            requires
                block_at(k + 1, p) + r * size == pos,
                block_at(k + 1, p + 1) == (p + 1) * big,
                block_at(k + 1, p) == p * big,
                big == 4 * size,
                r < 4,
                size >= 1,
        ;
        if parent_covered((29 - k) as nat, idx as nat, cov) {
            let lo = block_at(k + 1, p);
            let hi = block_at(k + 1, p + 1);
            assert(cov.contains(lo));
            assert(cov.contains(hi - 1));
            assert(start <= lo && hi <= end);
            if lo < pos {
                assert(block_at(k + 1, p + 1) <= pos);
            } else {
                assert(lo == pos);
                vstd::arithmetic::div_mod::lemma_mod_multiples_basic(p, big as int);
                assert((pos as int) % ((size * 4) as int) == 0);
                assert(size * 4 <= end - pos) by (nonlinear_arith)
                    requires
                        hi == (p + 1) * big,
                        lo == p * big,
                        hi <= end,
                        lo == pos,
                        big == size * 4,
                ;
            }
        }
    }
    assert forall|j: nat, q: int|
        j <= 29 && start <= #[trigger] block_at(j, q) && block_at(j, q + 1) <= end && block_at(j, q) < pos + size
            implies block_at(j, q + 1) <= pos + size by {
        let b = block_at(j, q);
        let m = pow4(j);
        lemma_pow4_pos(j);
        assert(block_at(j, q + 1) == b + m) by (nonlinear_arith)
            requires
                b == q * m,
                block_at(j, q + 1) == (q + 1) * m,
        ;
        vstd::arithmetic::div_mod::lemma_mod_multiples_basic(q, m as int);
        assert(multiple_of(b, m));
        if b >= pos {
            if j <= k {
                lemma_divides_pow4(pos as int, k, j);
                vstd::arithmetic::div_mod::lemma_mod_multiples_basic(1, size as int);
                lemma_divides_pow4(size as int, k, j);
                lemma_add_multiple(pos as int, size as int, m);
                lemma_multiples_gap(b, pos + size, m);
            } else {
                lemma_divides_pow4(b, j, k);
                if b > pos {
                    lemma_multiples_gap(pos as int, b, size as nat);
                }
                assert(b == pos);
                lemma_divides_pow4(b, j, k + 1);
                crate::cell::lemma_pow4_mono(k + 1, j);
                assert(pow4(k + 1) == size * 4);
                assert((pos as int) % ((size * 4) as int) == 0);
            }
        }
    }
}

proof fn lemma_add_multiple(a: int, b: int, g: nat)
    requires
        g > 0,
        multiple_of(a, g),
        multiple_of(b, g),
    ensures
        multiple_of(a + b, g),
{
    let gi = g as int;
    vstd::arithmetic::div_mod::lemma_fundamental_div_mod(a, gi);
    vstd::arithmetic::div_mod::lemma_fundamental_div_mod(b, gi);
    assert(a + b == (a / gi + b / gi) * gi) by (nonlinear_arith)
        requires
            a == gi * (a / gi),
            b == gi * (b / gi),
    ;
    vstd::arithmetic::div_mod::lemma_mod_multiples_basic(a / gi + b / gi, gi);
}

proof fn lemma_sub_multiple(a: int, b: int, g: nat)
    requires
        g > 0,
        multiple_of(a, g),
        multiple_of(b, g),
    ensures
        multiple_of(a - b, g),
{
    let gi = g as int;
    vstd::arithmetic::div_mod::lemma_fundamental_div_mod(a, gi);
    vstd::arithmetic::div_mod::lemma_fundamental_div_mod(b, gi);
    assert(a - b == gi * (a / gi - b / gi)) by (nonlinear_arith)
        requires
            a == gi * (a / gi),
            b == gi * (b / gi),
    ;
    vstd::arithmetic::div_mod::lemma_mod_multiples_basic(a / gi - b / gi, gi);
    assert((a / gi - b / gi) * gi == gi * (a / gi - b / gi)) by (nonlinear_arith);
}


/// A run `[range.start, range.end)` of cells at one depth.
#[derive(Debug)]
pub struct CellRangePSQL {
    pub depth: u8,
    pub range: Range<u64>,
}

/// An element of a normalized cell list.
#[derive(Debug)]
pub enum CellOrCellRangePSQL {
    CellPSQL(CellPSQL),
    CellRangePSQL(CellRangePSQL),
}

/// A normalized cell list: elements by ascending depth, each a cell or a run
/// of cells at its depth.
pub struct CellOrCellRangeMOCPSQL {
    pub depth_max: u8,
    pub ranges: Vec<CellOrCellRangePSQL>,
}

impl CellOrCellRangePSQL {
    pub open spec fn depth(self) -> nat {
        match self {
            CellOrCellRangePSQL::CellPSQL(c) => c.depth as nat,
            CellOrCellRangePSQL::CellRangePSQL(r) => r.depth as nat,
        }
    }

    /// First cell index.
    pub open spec fn lo(self) -> nat {
        match self {
            CellOrCellRangePSQL::CellPSQL(c) => c.idx as nat,
            CellOrCellRangePSQL::CellRangePSQL(r) => r.range.start as nat,
        }
    }

    /// One past the last cell index.
    pub open spec fn hi(self) -> nat {
        match self {
            CellOrCellRangePSQL::CellPSQL(c) => c.idx as nat + 1,
            CellOrCellRangePSQL::CellRangePSQL(r) => r.range.end as nat,
        }
    }

    /// A non-empty run at a depth no finer than `depth_max`, inside the sphere.
    pub open spec fn ok(self, depth_max: nat) -> bool {
        self.depth() <= depth_max && self.lo() < self.hi() && self.hi() * granularity(self.depth())
            <= NPIX_MAX
    }
}

/// `x` lies in one of the elements of `s`.
pub open spec fn in_elems(s: Seq<CellOrCellRangePSQL>, x: int) -> bool
    decreases s.len(),
{
    if s.len() == 0 {
        false
    } else {
        in_block(s.last().depth(), s.last().lo(), s.last().hi(), x) || in_elems(s.drop_last(), x)
    }
}

impl CellOrCellRangeMOCPSQL {
    /// Elements by ascending depth, all within `depth_max`.
    pub open spec fn wf(&self) -> bool {
        &&& self.depth_max <= 29
        &&& forall|i: int| 0 <= i < self.ranges@.len() ==> (#[trigger] self.ranges@[i]).ok(self.depth_max as nat)
        &&& forall|i: int, j: int| 0 <= i < j < self.ranges@.len() ==> (#[trigger] self.ranges@[i]).depth() <= (#[trigger] self.ranges@[j]).depth()
    }

    /// The finest-depth indices covered by the elements.
    pub open spec fn cells(&self) -> Set<int> {
        Set::new(|x: int| in_elems(self.ranges@, x))
    }
}

proof fn lemma_in_cells_index(s: Seq<CellPSQL>, x: int)
    ensures
        in_cells(s, x) <==> exists|k: int| 0 <= k < s.len() && #[trigger] in_block(s[k].depth as nat, s[k].idx as nat, s[k].idx as nat + 1, x),
    decreases s.len(),
{
    if s.len() > 0 {
        lemma_in_cells_index(s.drop_last(), x);
        if in_cells(s.drop_last(), x) {
            let k = choose|k: int| 0 <= k < s.drop_last().len() && #[trigger] in_block(s.drop_last()[k].depth as nat, s.drop_last()[k].idx as nat, s.drop_last()[k].idx as nat + 1, x);
            assert(s[k] == s.drop_last()[k]);
        }
        if exists|k: int| 0 <= k < s.len() && #[trigger] in_block(s[k].depth as nat, s[k].idx as nat, s[k].idx as nat + 1, x) {
            let k = choose|k: int| 0 <= k < s.len() && #[trigger] in_block(s[k].depth as nat, s[k].idx as nat, s[k].idx as nat + 1, x);
            if k < s.len() - 1 {
                assert(s.drop_last()[k] == s[k]);
            }
        }
    }
}

/// The cells of `cells` already grouped: those shallower than `d`, and those
/// at depth `d` before position `j`.
pub open spec fn grouped(cells: Seq<CellPSQL>, d: nat, j: int, x: int) -> bool {
    exists|k: int| 0 <= k < cells.len() && ((cells[k].depth as nat) < d || (cells[k].depth as nat == d && k < j)) && #[trigger] in_block(cells[k].depth as nat, cells[k].idx as nat, cells[k].idx as nat + 1, x)
}

proof fn lemma_block_join(lo: nat, mid: nat, g: nat, x: int)
    requires
        lo <= mid,
    ensures
        (lo * g <= x < (mid + 1) * g) <==> ((lo * g <= x < mid * g) || (mid * g <= x < (mid + 1) * g)),
{
    assert(lo * g <= mid * g) by (nonlinear_arith)
        requires
            lo <= mid,
    ;
    assert(mid * g <= (mid + 1) * g) by (nonlinear_arith);
}

/// Runs at one depth come in ascending order, with a gap between them.
pub open spec fn runs_apart(s: Seq<CellOrCellRangePSQL>) -> bool {
    forall|a: int, b: int|
        0 <= a < b < s.len() && (#[trigger] s[a]).depth() == (#[trigger] s[b]).depth() ==> s[a].hi() < s[b].lo()
}

/// The last run, when at depth `d`, ends before every cell at depth `d` from
/// position `j` on.
pub open spec fn last_below(s: Seq<CellOrCellRangePSQL>, cells: Seq<CellPSQL>, d: nat, j: int) -> bool {
    s.len() > 0 && s.last().depth() == d ==> forall|q: int|
        j <= q < cells.len() && (#[trigger] cells[q]).depth as nat == d ==> s.last().hi() <= cells[q].idx
}

proof fn lemma_sorted_same_depth(cells: Seq<CellPSQL>, a: int, b: int)
    requires
        cells_sorted(cells),
        0 <= a < b < cells.len(),
        cells[a].depth == cells[b].depth,
    ensures
        cells[a].idx + 1 <= cells[b].idx,
{
    let g = granularity(cells[a].depth as nat);
    lemma_pow4_pos((29 - cells[a].depth) as nat);
    assert(cell_end(cells[a]) <= cell_start(cells[b]));
    assert(cells[a].idx + 1 <= cells[b].idx) by (nonlinear_arith)
        requires
            (cells[a].idx + 1) * g <= cells[b].idx * g,
            g > 0,
    ;
}

/// Groups z-ordered cells by ascending depth, joining cells that follow each
/// other at one depth into runs.
#[verifier::spinoff_prover]
fn group_by_depth(cells: &Vec<CellPSQL>, depth_max: u8, Ghost(cov): Ghost<Set<int>>) -> (r: Vec<CellOrCellRangePSQL>)
    requires
        depth_max <= 29,
        forall|i: int| 0 <= i < cells@.len() ==> cell_ok(#[trigger] cells@[i], depth_max as nat),
        forall|i: int| 0 <= i < cells@.len() ==> !parent_covered((#[trigger] cells@[i]).depth as nat, cells@[i].idx as nat, cov),
        cells_sorted(cells@),
    ensures
        runs_apart(r@),
        forall|i: int, j: nat| 0 <= i < r@.len() && r@[i].lo() <= j < r@[i].hi() ==> !(#[trigger] parent_covered(r@[i].depth(), j, cov)),
        forall|i: int| 0 <= i < r@.len() ==> (#[trigger] r@[i]).ok(depth_max as nat),
        forall|i: int, j: int| 0 <= i < j < r@.len() ==> (#[trigger] r@[i]).depth() <= (#[trigger] r@[j]).depth(),
        forall|x: int| in_elems(r@, x) <==> in_cells(cells@, x),
{
    let mut out: Vec<CellOrCellRangePSQL> = Vec::new();
    let mut d: u8 = 0;
    while d <= depth_max
        invariant
            depth_max <= 29,
            d <= depth_max + 1,
            forall|i: int| 0 <= i < cells@.len() ==> cell_ok(#[trigger] cells@[i], depth_max as nat),
            forall|i: int| 0 <= i < out@.len() ==> (#[trigger] out@[i]).ok(depth_max as nat),
            forall|i: int, j: int| 0 <= i < j < out@.len() ==> (#[trigger] out@[i]).depth() <= (#[trigger] out@[j]).depth(),
            forall|i: int| 0 <= i < out@.len() ==> (#[trigger] out@[i]).depth() < d,
            forall|x: int| in_elems(out@, x) <==> grouped(cells@, d as nat, 0, x),
            forall|i: int| 0 <= i < cells@.len() ==> !parent_covered((#[trigger] cells@[i]).depth as nat, cells@[i].idx as nat, cov),
            forall|i: int, j: nat| 0 <= i < out@.len() && out@[i].lo() <= j < out@[i].hi() ==> !(#[trigger] parent_covered(out@[i].depth(), j, cov)),
            cells_sorted(cells@),
            runs_apart(out@),
        decreases depth_max + 1 - d,
    {
        let mut j: usize = 0;
        while j < cells.len()
            invariant
                depth_max <= 29,
                d <= depth_max,
                j <= cells@.len(),
                forall|i: int| 0 <= i < cells@.len() ==> cell_ok(#[trigger] cells@[i], depth_max as nat),
                forall|i: int| 0 <= i < out@.len() ==> (#[trigger] out@[i]).ok(depth_max as nat),
                forall|i: int, j: int| 0 <= i < j < out@.len() ==> (#[trigger] out@[i]).depth() <= (#[trigger] out@[j]).depth(),
                forall|i: int| 0 <= i < out@.len() ==> (#[trigger] out@[i]).depth() <= d,
                forall|x: int| in_elems(out@, x) <==> grouped(cells@, d as nat, j as int, x),
                forall|i: int| 0 <= i < cells@.len() ==> !parent_covered((#[trigger] cells@[i]).depth as nat, cells@[i].idx as nat, cov),
                forall|i: int, j: nat| 0 <= i < out@.len() && out@[i].lo() <= j < out@[i].hi() ==> !(#[trigger] parent_covered(out@[i].depth(), j, cov)),
                cells_sorted(cells@),
                runs_apart(out@),
                last_below(out@, cells@, d as nat, j as int),
            decreases cells.len() - j,
        {
            let c = cells[j];
            let ghost before = out@;
            if c.depth == d {
                let n = out.len();
                proof {
                    lemma_pow4_pos((29 - c.depth) as nat);
                    assert(cells@[j as int] == c);
                    assert(c.idx + 1 <= (c.idx + 1) * granularity(c.depth as nat)) by (nonlinear_arith)
                        requires
                            granularity(c.depth as nat) >= 1,
                    ;
                }
                let mut last: Option<(u64, u64)> = None;
                if n > 0 {
                    proof {
                        let e = out@[n - 1];
                        assert(e.ok(depth_max as nat));
                        lemma_pow4_pos((29 - e.depth()) as nat);
                        assert(e.hi() <= e.hi() * granularity(e.depth())) by (nonlinear_arith)
                            requires
                                granularity(e.depth()) >= 1,
                        ;
                    }
                    let (ld, llo, lhi) = match &out[n - 1] {
                        CellOrCellRangePSQL::CellPSQL(p) => (p.depth, p.idx, p.idx + 1),
                        CellOrCellRangePSQL::CellRangePSQL(p) => (p.depth, p.range.start, p.range.end),
                    };
                    proof {
                        assert(ld as nat == out@[n - 1].depth() && llo as nat == out@[n - 1].lo() && lhi as nat == out@[n - 1].hi());
                    }
                    if ld == d && lhi == c.idx {
                        last = Some((llo, lhi));
                    }
                }
                proof {
                    assert(last is None ==> !(n > 0 && out@[n - 1].depth() == d && out@[n - 1].hi() == c.idx));
                    assert(last matches Some(p) ==> n > 0 && out@[n - 1].depth() == d && out@[n - 1].hi() == c.idx && p.0 == out@[n - 1].lo());
                    assert(cells@[j as int] == c);
                }
                match last {
                    Some((llo, _)) => {
                        out.set(n - 1, CellOrCellRangePSQL::CellRangePSQL(CellRangePSQL { depth: d, range: Range { start: llo, end: c.idx + 1 } }));
                        proof {
                            assert(out@.drop_last() =~= before.drop_last());
                            assert forall|x: int| in_elems(out@, x) <==> (in_elems(before, x) || in_block(d as nat, c.idx as nat, c.idx as nat + 1, x)) by {
                                lemma_block_join(llo as nat, c.idx as nat, granularity(d as nat), x);
                            }
                            assert forall|a: int, b: int| 0 <= a < b < out@.len() && (#[trigger] out@[a]).depth() == (#[trigger] out@[b]).depth() implies out@[a].hi() < out@[b].lo() by {
                                assert(before[a] == out@[a]);
                                if b < n - 1 {
                                    assert(before[b] == out@[b]);
                                }
                            }
                            assert forall|q: int| j + 1 <= q < cells@.len() && (#[trigger] cells@[q]).depth as nat == d implies out@.last().hi() <= cells@[q].idx by {
                                lemma_sorted_same_depth(cells@, j as int, q);
                            }
                            assert forall|i: int, jj: nat| 0 <= i < out@.len() && out@[i].lo() <= jj < out@[i].hi() implies !(#[trigger] parent_covered(out@[i].depth(), jj, cov)) by {
                                if i == n - 1 {
                                    if jj < c.idx {
                                        assert(before[i].lo() <= jj < before[i].hi());
                                    } else {
                                        assert(jj == c.idx);
                                    }
                                } else {
                                    assert(out@[i] == before[i]);
                                }
                            }
                        }
                    },
                    None => {
                        out.push(CellOrCellRangePSQL::CellPSQL(c));
                        proof {
                            assert(out@.drop_last() =~= before);
                            assert forall|x: int| in_elems(out@, x) <==> (in_elems(before, x) || in_block(d as nat, c.idx as nat, c.idx as nat + 1, x)) by {
                            }
                            assert forall|i: int, jj: nat| 0 <= i < out@.len() && out@[i].lo() <= jj < out@[i].hi() implies !(#[trigger] parent_covered(out@[i].depth(), jj, cov)) by {
                                if i < n {
                                    assert(out@[i] == before[i]);
                                }
                            }
                            if n > 0 && before[n - 1].depth() == d {
                                assert(before.last() == before[n - 1]);
                                assert(before[n - 1].hi() <= c.idx);
                            }
                            assert forall|a: int, b: int| 0 <= a < b < out@.len() && (#[trigger] out@[a]).depth() == (#[trigger] out@[b]).depth() implies out@[a].hi() < out@[b].lo() by {
                                assert(before[a] == out@[a]);
                                if b < n {
                                    assert(before[b] == out@[b]);
                                } else {
                                    assert(before[n - 1].depth() <= d);
                                    if a < n - 1 {
                                        assert(before[a].depth() <= before[n - 1].depth());
                                        assert(before[n - 1].lo() < before[n - 1].hi());
                                    }
                                }
                            }
                            assert forall|q: int| j + 1 <= q < cells@.len() && (#[trigger] cells@[q]).depth as nat == d implies out@.last().hi() <= cells@[q].idx by {
                                lemma_sorted_same_depth(cells@, j as int, q);
                            }
                        }
                    },
                }
                proof {
                    assert forall|x: int| in_elems(out@, x) <==> grouped(cells@, d as nat, j + 1, x) by {
                        assert(cells@[j as int] == c);
                        assert(in_elems(before, x) <==> grouped(cells@, d as nat, j as int, x));
                        if grouped(cells@, d as nat, j + 1, x) {
                            let k = choose|k: int| 0 <= k < cells@.len() && ((cells@[k].depth as nat) < d || (cells@[k].depth as nat == d && k < j + 1)) && #[trigger] in_block(cells@[k].depth as nat, cells@[k].idx as nat, cells@[k].idx as nat + 1, x);
                            if k != j {
                                assert(grouped(cells@, d as nat, j as int, x));
                            }
                        }
                        if grouped(cells@, d as nat, j as int, x) {
                            let k = choose|k: int| 0 <= k < cells@.len() && ((cells@[k].depth as nat) < d || (cells@[k].depth as nat == d && k < j)) && #[trigger] in_block(cells@[k].depth as nat, cells@[k].idx as nat, cells@[k].idx as nat + 1, x);
                            assert(grouped(cells@, d as nat, j + 1, x));
                        }
                        if in_block(d as nat, c.idx as nat, c.idx as nat + 1, x) {
                            assert(cells@[j as int] == c);
                            assert(grouped(cells@, d as nat, j + 1, x));
                        }
                    }
                }
            } else {
                proof {
                    assert forall|x: int| in_elems(out@, x) <==> grouped(cells@, d as nat, j + 1, x) by {
                        if grouped(cells@, d as nat, j + 1, x) {
                            let k = choose|k: int| 0 <= k < cells@.len() && ((cells@[k].depth as nat) < d || (cells@[k].depth as nat == d && k < j + 1)) && #[trigger] in_block(cells@[k].depth as nat, cells@[k].idx as nat, cells@[k].idx as nat + 1, x);
                            assert(grouped(cells@, d as nat, j as int, x));
                        }
                        if grouped(cells@, d as nat, j as int, x) {
                            let k = choose|k: int| 0 <= k < cells@.len() && ((cells@[k].depth as nat) < d || (cells@[k].depth as nat == d && k < j)) && #[trigger] in_block(cells@[k].depth as nat, cells@[k].idx as nat, cells@[k].idx as nat + 1, x);
                            assert(grouped(cells@, d as nat, j + 1, x));
                        }
                    }
                }
            }
            j = j + 1;
        }
        proof {
            assert forall|x: int| in_elems(out@, x) <==> grouped(cells@, (d + 1) as nat, 0, x) by {
                if grouped(cells@, (d + 1) as nat, 0, x) {
                    let k = choose|k: int| 0 <= k < cells@.len() && ((cells@[k].depth as nat) < d + 1 || (cells@[k].depth as nat == d + 1 && k < 0)) && #[trigger] in_block(cells@[k].depth as nat, cells@[k].idx as nat, cells@[k].idx as nat + 1, x);
                    assert(grouped(cells@, d as nat, cells@.len() as int, x));
                }
                if grouped(cells@, d as nat, cells@.len() as int, x) {
                    let k = choose|k: int| 0 <= k < cells@.len() && ((cells@[k].depth as nat) < d || (cells@[k].depth as nat == d && k < cells@.len())) && #[trigger] in_block(cells@[k].depth as nat, cells@[k].idx as nat, cells@[k].idx as nat + 1, x);
                    assert(grouped(cells@, (d + 1) as nat, 0, x));
                }
            }
        }
        d = d + 1;
    }
    proof {
        assert forall|x: int| in_elems(out@, x) <==> in_cells(cells@, x) by {
            lemma_in_cells_index(cells@, x);
            if in_cells(cells@, x) {
                let k = choose|k: int| 0 <= k < cells@.len() && #[trigger] in_block(cells@[k].depth as nat, cells@[k].idx as nat, cells@[k].idx as nat + 1, x);
                assert(cell_ok(cells@[k], depth_max as nat));
                assert(grouped(cells@, d as nat, 0, x));
            }
        }
    }
    out
}


/// `l` is the normalized cell list of the indices `cov`: well formed, covering
/// exactly `cov`, every cell maximal (its parent is not inside `cov`), and the
/// runs at one depth ascending with gaps between them.
pub open spec fn canonical_cells(l: CellOrCellRangeMOCPSQL, cov: Set<int>) -> bool {
    &&& l.wf()
    &&& l.cells() == cov
    &&& runs_apart(l.ranges@)
    &&& forall|i: int, j: nat|
        0 <= i < l.ranges@.len() && l.ranges@[i].lo() <= j < l.ranges@[i].hi() ==> !(#[trigger] parent_covered(
            l.ranges@[i].depth(),
            j,
            cov,
        ))
}

/// The normalized cell list of `moc`: maximal aligned cells, grouped by
/// ascending depth, with cells that follow each other joined into runs.
#[verifier::spinoff_prover]
pub fn to_normalized_cells(moc: &RangeMOCPSQL) -> (r: CellOrCellRangeMOCPSQL)
    requires
        moc.wf(),
    ensures
        r.wf(),
        r.depth_max == moc.depth_max,
        r.cells() == moc.cells(),
        canonical_cells(r, moc.cells()),
{
    let mut cells: Vec<CellPSQL> = Vec::new();
    let mut i: usize = 0;
    while i < moc.ranges.len()
        invariant
            moc.wf(),
            i <= moc.ranges@.len(),
            forall|k: int| 0 <= k < cells@.len() ==> cell_ok(#[trigger] cells@[k], moc.depth_max as nat),
            forall|x: int| in_cells(cells@, x) <==> in_ranges(moc.ranges@.take(i as int), x),
            forall|k: int| 0 <= k < cells@.len() ==> !parent_covered((#[trigger] cells@[k]).depth as nat, cells@[k].idx as nat, moc.cells()),
            cells_sorted(cells@),
            forall|k: int| 0 <= k < cells@.len() ==> cell_end(#[trigger] cells@[k]) <= (if i == 0 { 0 } else { moc.ranges@[i - 1].end as int }),
        decreases moc.ranges.len() - i,
    {
        proof {
            assert(moc.ranges@[i as int].start < moc.ranges@[i as int].end);
            if i > 0 {
                assert(moc.ranges@[i - 1].end < moc.ranges@[i as int].start);
            }
        }
        let ghost before = cells@;
        let start = moc.ranges[i].start;
        let end = moc.ranges[i].end;
        peel_range(start, end, moc.depth_max, &mut cells);
        proof {
            assert forall|k: int| 0 <= k < cells@.len() implies !parent_covered((#[trigger] cells@[k]).depth as nat, cells@[k].idx as nat, moc.cells()) by {
                if k >= before.len() {
                    let c = cells@[k];
                    assert(!parent_covered(c.depth as nat, c.idx as nat, Set::new(|x: int| start <= x < end)));
                    assert(cell_ok(c, moc.depth_max as nat));
                    if parent_covered(c.depth as nat, c.idx as nat, moc.cells()) {
                        lemma_parent_holds_cell(c.depth as nat, c.idx as nat);
                        let y = c.idx * granularity(c.depth as nat);
                        let lo = (c.idx as nat / 4) * granularity((c.depth - 1) as nat);
                        let hi = (c.idx as nat / 4 + 1) * granularity((c.depth - 1) as nat);
                        assert forall|x: int| lo <= x < hi implies in_ranges(moc.ranges@, x) by {
                            assert(moc.cells().contains(x));
                        }
                        crate::ranges::lemma_interval_in_range(moc.ranges@, i as int, lo as int, hi as int, y as int);
                        let cov = Set::new(|x: int| start <= x < end);
                        assert forall|x: int| lo <= x < hi implies #[trigger] cov.contains(x) by {
                        }
                        assert(parent_covered(c.depth as nat, c.idx as nat, cov));
                    }
                } else {
                    assert(cells@[k] == before[k]);
                }
            }
        }
        proof {
            assert forall|x: int| in_cells(cells@, x) <==> in_ranges(moc.ranges@.take(i + 1), x) by {
                crate::ranges::lemma_take_step(moc.ranges@, i as int, x);
            }
        }
        i = i + 1;
    }
    let elems = group_by_depth(&cells, moc.depth_max, Ghost(moc.cells()));
    let r = CellOrCellRangeMOCPSQL { depth_max: moc.depth_max, ranges: elems };
    proof {
        assert(moc.ranges@.take(moc.ranges@.len() as int) =~= moc.ranges@);
        assert(r.cells() =~= moc.cells());
    }
    r
}

/// A cell at `depth` whose index is below `n_hash(depth)` ends inside the sphere.
pub proof fn lemma_cells_fit(depth: nat, hi: nat)
    requires
        depth <= 29,
        hi <= 12 * pow4(depth),
    ensures
        hi * granularity(depth) <= NPIX_MAX,
{
    lemma_pow4_add(depth, (29 - depth) as nat);
    lemma_pow4_values();
    assert(hi * granularity(depth) <= 12 * pow4(depth) * granularity(depth)) by (nonlinear_arith)
        requires
            hi <= 12 * pow4(depth),
    ;
    assert(12 * pow4(depth) * granularity(depth) == 12 * pow4(29)) by (nonlinear_arith)
        requires
            pow4(29) == pow4(depth) * granularity(depth),
    ;
}

/// The range coverage of a normalized cell list. `InvalidDepth` when
/// `depth_max` exceeds 29 or an element is finer than `depth_max`;
/// `InvalidRange` for an empty run or one that leaves the sphere.
pub fn from_normalized_cells(l: &CellOrCellRangeMOCPSQL) -> (r: Result<RangeMOCPSQL, HealpixError>)
    ensures
        r is Ok <==> (l.depth_max <= 29 && forall|i: int| 0 <= i < l.ranges@.len() ==> (#[trigger] l.ranges@[i]).ok(l.depth_max as nat)),
        l.depth_max > 29 ==> r == Err::<RangeMOCPSQL, HealpixError>(HealpixError::InvalidDepth),
        r matches Ok(m) ==> m.wf() && m.depth_max == l.depth_max && m.cells() == l.cells(),
{
    if l.depth_max > DEPTH_MAX {
        return Err(HealpixError::InvalidDepth);
    }
    let mut ranges: Vec<Range<u64>> = Vec::new();
    let mut i: usize = 0;
    while i < l.ranges.len()
        invariant
            l.depth_max <= 29,
            i <= l.ranges@.len(),
            ranges@.len() == i,
            forall|k: int| 0 <= k < i ==> (#[trigger] l.ranges@[k]).ok(l.depth_max as nat),
            forall|k: int| 0 <= k < i ==> valid_range(#[trigger] ranges@[k], l.depth_max as nat),
            forall|x: int| in_ranges(ranges@, x) <==> in_elems(l.ranges@.take(i as int), x),
        decreases l.ranges.len() - i,
    {
        let (d, lo, hi) = match &l.ranges[i] {
            CellOrCellRangePSQL::CellPSQL(c) => {
                if c.idx == u64::MAX {
                    proof {
                        lemma_pow4_pos((29 - c.depth) as nat);
                        assert((c.idx + 1) * granularity(c.depth as nat) >= c.idx + 1) by (nonlinear_arith)
                            requires
                                granularity(c.depth as nat) >= 1,
                        ;
                        assert(!l.ranges@[i as int].ok(l.depth_max as nat));
                    }
                    return Err(HealpixError::InvalidRange);
                }
                (c.depth, c.idx, c.idx + 1)
            },
            CellOrCellRangePSQL::CellRangePSQL(c) => (c.depth, c.range.start, c.range.end),
        };
        let ghost e = l.ranges@[i as int];
        proof {
            assert(d as nat == e.depth() && lo as nat == e.lo() && hi as nat == e.hi());
        }
        if d > l.depth_max {
            return Err(HealpixError::InvalidDepth);
        }
        if lo >= hi || hi > n_hash(d) {
            proof {
                lemma_pow4_pos((29 - d) as nat);
                if lo < hi {
                    lemma_pow4_add(d as nat, (29 - d) as nat);
                    lemma_pow4_values();
                    assert(hi * granularity(d as nat) > 12 * pow4(d as nat) * granularity(d as nat)) by (nonlinear_arith)
                        requires
                            hi > 12 * pow4(d as nat),
                            granularity(d as nat) >= 1,
                    ;
                    lemma_pow4_pos((29 - d) as nat);
                    assert(12 * pow4(d as nat) * granularity(d as nat) == 12 * pow4(29)) by (nonlinear_arith)
                        requires
                            pow4(29) == pow4(d as nat) * granularity(d as nat),
                    ;
                }
            }
            return Err(HealpixError::InvalidRange);
        }
        let g = pow4_u64(DEPTH_MAX - d);
        proof {
            lemma_pow4_pos((29 - d) as nat);
            lemma_cells_fit(d as nat, hi as nat);
            assert(lo * g <= hi * g) by (nonlinear_arith)
                requires
                    lo < hi,
            ;
            vstd::arithmetic::div_mod::lemma_mod_multiples_basic(lo as int, g as int);
            vstd::arithmetic::div_mod::lemma_mod_multiples_basic(hi as int, g as int);
            lemma_granularity_divides((lo * g) as int, d as nat, l.depth_max as nat);
            lemma_granularity_divides((hi * g) as int, d as nat, l.depth_max as nat);
        }
        let ghost before = ranges@;
        ranges.push(Range { start: lo * g, end: hi * g });
        proof {
            assert(ranges@.drop_last() =~= before);
            assert(l.ranges@.take(i + 1).drop_last() =~= l.ranges@.take(i as int));
            assert(l.ranges@.take(i + 1).last() == e);
            assert(g == granularity(e.depth()));
            assert forall|x: int| in_ranges(ranges@, x) <==> in_elems(l.ranges@.take(i + 1), x) by {
                assert(in_block(e.depth(), e.lo(), e.hi(), x) <==> (lo * g <= x < hi * g));
                assert(in_ranges(ranges@, x) == ((lo * g <= x < hi * g) || in_ranges(before, x)));
                assert(in_elems(l.ranges@.take(i + 1), x) == (in_block(e.depth(), e.lo(), e.hi(), x) || in_elems(l.ranges@.take(i as int), x)));
            }
        }
        i = i + 1;
    }
    let ghost rs = ranges@;
    let r = create_range_moc_psql(l.depth_max, ranges);
    proof {
        assert(l.ranges@.take(l.ranges@.len() as int) =~= l.ranges@);
        assert(forall|k: int| 0 <= k < rs.len() ==> valid_range(#[trigger] rs[k], l.depth_max as nat));
    }
    match r {
        Ok(m) => {
            proof {
                assert(m.cells() =~= l.cells());
            }
            Ok(m)
        },
        Err(e) => Err(e),
    }
}

/// Round trip through the normalized cell list: a coverage turned into its
/// normalized cell list (same depth, same cells) and back (same depth, same
/// cells) is the coverage it started from, range for range.
pub proof fn normalization_round_trip(
    m: RangeMOCPSQL,
    l: CellOrCellRangeMOCPSQL,
    back: RangeMOCPSQL,
)
    requires
        m.wf(),
        l.wf(),
        l.depth_max == m.depth_max,
        l.cells() == m.cells(),
        back.wf(),
        back.depth_max == l.depth_max,
        back.cells() == l.cells(),
    ensures
        back.ranges@ == m.ranges@,
{
    coverage_unique(back, m);
}

} // verus!
