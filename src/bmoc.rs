//! Flagged coverages (BMOC): sorted cells at mixed depths, each flagged as
//! fully covered or as crossing the region's border.

use std::ops::Range;
use vstd::prelude::*;
use crate::cell::{
    is_cell, lemma_npix_bound, lemma_pow4_mono, n_hash, pow4, pow4_u64, HealpixError, DEPTH_MAX, NPIX_MAX,
};
use crate::moc::{create_range_moc_psql, granularity, valid_range, RangeMOCPSQL};
use crate::uniq::UniqTuple;
use crate::sentinel::{decode_sentinel, sentinel_code};
use crate::normalized::lemma_cells_fit;
use crate::ranges::{in_ranges, ranges_set, ranges_wf};
use cdshealpix::nested::bmoc::BMOC;

verus! {

/// A flagged coverage: `depth_max` and its raw entries, in ascending order.
/// An entry codes a cell `(depth, hash)` as
/// `2 * (2 * hash + 1) * 4^(depth_max - depth) + flag`, where the flag bit is 1
/// for a cell fully inside the region and 0 for a cell on its border.
#[derive(Debug)]
pub struct BMOCpsql {
    pub depth_max: u8,
    pub entries: Vec<u64>,
}

/// Where a point stands with respect to a flagged coverage.
#[derive(Debug, Clone, Copy, PartialEq, Eq, Structural)]
pub enum Statuspsql {
    In,
    Out,
    Unknown,
}

/// The raw entry of the cell `(depth, hash)` in a coverage of depth `depth_max`.
pub open spec fn raw_of(depth: nat, hash: nat, full: bool, depth_max: nat) -> nat {
    2 * ((2 * hash + 1) * pow4((depth_max - depth) as nat)) + if full { 1nat } else { 0nat }
}

/// `e` is the entry of the cell `(depth, hash)` with flag `full`.
pub open spec fn entry_decodes(e: u64, depth_max: nat, depth: nat, hash: nat, full: bool) -> bool {
    depth <= depth_max && is_cell(depth, hash) && raw_of(depth, hash, full, depth_max) == e
}

/// `e` is the entry of some cell.
pub open spec fn entry_valid(e: u64, depth_max: nat) -> bool {
    exists|d: nat, h: nat, f: bool| #[trigger] entry_decodes(e, depth_max, d, h, f)
}

/// The cell and flag that `e` codes.
pub open spec fn entry_cell(e: u64, depth_max: nat) -> (nat, nat, bool) {
    choose|t: (nat, nat, bool)| entry_decodes(e, depth_max, t.0, t.1, t.2)
}

/// First finest-depth index of the cell of `e`.
pub open spec fn entry_start(e: u64, depth_max: nat) -> nat {
    entry_cell(e, depth_max).1 * granularity(entry_cell(e, depth_max).0)
}

/// One past the last finest-depth index of the cell of `e`.
pub open spec fn entry_end(e: u64, depth_max: nat) -> nat {
    (entry_cell(e, depth_max).1 + 1) * granularity(entry_cell(e, depth_max).0)
}

/// Valid entries whose cells follow each other without overlap.
pub open spec fn bmoc_wf(depth_max: nat, s: Seq<u64>) -> bool {
    &&& depth_max <= 29
    &&& forall|i: int| 0 <= i < s.len() ==> entry_valid(#[trigger] s[i], depth_max)
    &&& forall|i: int| 0 <= i < s.len() - 1 ==> entry_end(#[trigger] s[i], depth_max) <= entry_start(s[i + 1], depth_max)
}

/// The flag bit of a raw entry is 0: the cell is on the border.
pub fn mgx_is_partial(raw_value: &u64) -> (r: bool)
    ensures
        r == (*raw_value % 2 == 0),
{
    *raw_value % 2 == 0
}

/// A flagged coverage from its parts.
pub fn mgx_create_bmoc_psql(depth_max: u8, entries: Vec<u64>) -> (r: BMOCpsql)
    ensures
        r.depth_max == depth_max,
        r.entries@ == entries@,
{
    BMOCpsql { depth_max, entries }
}

/// The cell and flag coded by the entry `e` of a coverage at `depth_max`;
/// `None` when `e` codes no cell.
pub fn decode_entry(e: u64, depth_max: u8) -> (r: Option<(u8, u64, bool)>)
    requires
        depth_max <= 29,
    ensures
        r matches Some(t) ==> entry_decodes(e, depth_max as nat, t.0 as nat, t.1 as nat, t.2),
        forall|d: nat, h: nat, f: bool| #[trigger] entry_decodes(e, depth_max as nat, d, h, f) ==> r == Some::<(u8, u64, bool)>((d as u8, h as u64, f)),
{
    let z = e / 2;
    let full = e % 2 == 1;
    let res = decode_sentinel(z);
    proof {
        assert forall|d: nat, h: nat, f: bool| #[trigger] entry_decodes(e, depth_max as nat, d, h, f) implies
            res == Ok::<UniqTuple, HealpixError>(UniqTuple { depth: (d + 29 - depth_max) as u8, hash: h as u64 }) && f == full by {
            let d2 = (d + 29 - depth_max) as nat;
            lemma_pow4_mono(d, d2);
            lemma_npix_bound(d);
            assert(((29 - d2) as nat) == (depth_max - d) as nat);
            assert(is_cell(d2, h));
            assert(sentinel_code(d2, h) == z);
            let du = d2 as u8;
            let hu = h as u64;
            assert(du as nat == d2 && hu as nat == h);
            assert(is_cell(du as nat, hu as nat) && sentinel_code(du as nat, hu as nat) == z);
        }
    }
    match res {
        Err(_) => None,
        Ok(c) => {
            if c.depth < DEPTH_MAX - depth_max {
                return None;
            }
            let d: u8 = c.depth - (DEPTH_MAX - depth_max);
            if c.hash >= n_hash(d) {
                return None;
            }
            proof {
                assert(((29 - c.depth) as nat) == (depth_max - d) as nat);
                assert(sentinel_code(c.depth as nat, c.hash as nat) == (2 * c.hash + 1) * pow4((depth_max - d) as nat));
            }
            Some((d, c.hash, full))
        },
    }
}


/// Decodes `e`, with its finest-depth block `[start, end)`.
fn entry_block(e: u64, depth_max: u8) -> (r: Option<(bool, u64, u64)>)
    requires
        depth_max <= 29,
    ensures
        r is Some <==> entry_valid(e, depth_max as nat),
        r matches Some(t) ==> t.0 == entry_cell(e, depth_max as nat).2 && t.1 == entry_start(e, depth_max as nat) && t.2 == entry_end(e, depth_max as nat) && t.1 < t.2 <= NPIX_MAX,
{
    match decode_entry(e, depth_max) {
        None => None,
        Some((d, h, f)) => {
            let g = pow4_u64(DEPTH_MAX - d);
            proof {
                assert(entry_decodes(e, depth_max as nat, d as nat, h as nat, f));
                assert(entry_valid(e, depth_max as nat));
                let t = entry_cell(e, depth_max as nat);
                assert(entry_decodes(e, depth_max as nat, t.0, t.1, t.2));
                lemma_npix_bound(t.0);
                assert(t.0 == d && t.1 == h && t.2 == f);
                lemma_cells_fit(d as nat, h as nat + 1);
                assert((h + 1) * g <= NPIX_MAX);
                crate::cell::lemma_pow4_pos((29 - d) as nat);
                assert(h * g < (h + 1) * g) by (nonlinear_arith)
                    requires
                        g >= 1,
                ;
            }
            Some((f, h * g, (h + 1) * g))
        },
    }
}

/// Whether the entries of `b` are valid and their cells follow each other
/// without overlap.
#[verifier::spinoff_prover]
#[verifier::rlimit(40)]
pub fn bmoc_check(b: &BMOCpsql) -> (r: bool)
    ensures
        r == bmoc_wf(b.depth_max as nat, b.entries@),
{
    if b.depth_max > DEPTH_MAX {
        return false;
    }
    let mut prev_end: u64 = 0;
    let mut i: usize = 0;
    while i < b.entries.len()
        invariant
            b.depth_max <= 29,
            i <= b.entries@.len(),
            forall|k: int| 0 <= k < i ==> entry_valid(#[trigger] b.entries@[k], b.depth_max as nat),
            forall|k: int| 0 <= k < i - 1 ==> entry_end(#[trigger] b.entries@[k], b.depth_max as nat) <= entry_start(b.entries@[k + 1], b.depth_max as nat),
            i > 0 ==> prev_end == entry_end(b.entries@[i - 1], b.depth_max as nat),
        decreases b.entries.len() - i,
    {
        match entry_block(b.entries[i], b.depth_max) {
            None => {
                return false;
            },
            Some((_, start, end)) => {
                if i > 0 && prev_end > start {
                    return false;
                }
                prev_end = end;
            },
        }
        i = i + 1;
    }
    true
}

/// `idx` (a finest-depth index) lies in the cell of one of the entries of `s`
/// whose flag is `full`.
pub open spec fn covered_with_flag(s: Seq<u64>, depth_max: nat, idx: int, full: bool) -> bool {
    exists|i: int| 0 <= i < s.len() && entry_cell(#[trigger] s[i], depth_max).2 == full && entry_start(s[i], depth_max) <= idx < entry_end(s[i], depth_max)
}

/// Where the finest-depth cell `idx` stands with respect to `bmoc`: `In` in a
/// full cell, `Unknown` in a border cell, `Out` elsewhere. `InvalidDepth` for a
/// depth above 29; `InvalidRange` for entries that are not a flagged coverage.
pub fn mgx_bmoc_status(bmoc: &BMOCpsql, idx: u64) -> (r: Result<Statuspsql, HealpixError>)
    ensures
        bmoc.depth_max > 29 ==> r == Err::<Statuspsql, HealpixError>(HealpixError::InvalidDepth),
        bmoc.depth_max <= 29 && !bmoc_wf(bmoc.depth_max as nat, bmoc.entries@) ==> r == Err::<Statuspsql, HealpixError>(HealpixError::InvalidRange),
        bmoc_wf(bmoc.depth_max as nat, bmoc.entries@) ==> r is Ok,
        r == Ok::<Statuspsql, HealpixError>(Statuspsql::In) ==> covered_with_flag(bmoc.entries@, bmoc.depth_max as nat, idx as int, true),
        r == Ok::<Statuspsql, HealpixError>(Statuspsql::Unknown) ==> covered_with_flag(bmoc.entries@, bmoc.depth_max as nat, idx as int, false),
        r == Ok::<Statuspsql, HealpixError>(Statuspsql::Out) <==> (r is Ok && !covered_with_flag(bmoc.entries@, bmoc.depth_max as nat, idx as int, true) && !covered_with_flag(bmoc.entries@, bmoc.depth_max as nat, idx as int, false)),
{
    if bmoc.depth_max > DEPTH_MAX {
        return Err(HealpixError::InvalidDepth);
    }
    if !bmoc_check(bmoc) {
        return Err(HealpixError::InvalidRange);
    }
    let dm = bmoc.depth_max;
    let mut i: usize = 0;
    while i < bmoc.entries.len()
        invariant
            dm == bmoc.depth_max,
            dm <= 29,
            bmoc_wf(dm as nat, bmoc.entries@),
            i <= bmoc.entries@.len(),
            forall|k: int| 0 <= k < i ==> !(entry_start(#[trigger] bmoc.entries@[k], dm as nat) <= idx < entry_end(bmoc.entries@[k], dm as nat)),
        decreases bmoc.entries.len() - i,
    {
        proof {
            assert(entry_valid(bmoc.entries@[i as int], dm as nat));
        }
        match entry_block(bmoc.entries[i], dm) {
            None => {
                return Err(HealpixError::InvalidRange);
            },
            Some((full, start, end)) => {
                if start <= idx && idx < end {
                    if full {
                        return Ok(Statuspsql::In);
                    } else {
                        return Ok(Statuspsql::Unknown);
                    }
                }
            },
        }
        i = i + 1;
    }
    Ok(Statuspsql::Out)
}

/// Whether a point with this status may lie in the coverage: in a full cell
/// or in a border cell.
pub fn status_may_contain(status: Statuspsql) -> (r: bool)
    ensures
        r == (status != Statuspsql::Out),
{
    match status {
        Statuspsql::In => true,
        Statuspsql::Out => false,
        Statuspsql::Unknown => true,
    }
}

/// The entries of `s` whose flag bit is `full`, in their order.
pub open spec fn entries_with_flag(s: Seq<u64>, full: bool) -> Seq<u64>
    decreases s.len(),
{
    if s.len() == 0 {
        Seq::empty()
    } else {
        let p = entries_with_flag(s.drop_last(), full);
        if (s.last() % 2 == 1) == full {
            p.push(s.last())
        } else {
            p
        }
    }
}

fn select_flag(b: &BMOCpsql, full: bool) -> (r: BMOCpsql)
    ensures
        r.depth_max == b.depth_max,
        r.entries@ == entries_with_flag(b.entries@, full),
{
    let mut out: Vec<u64> = Vec::new();
    let mut i: usize = 0;
    while i < b.entries.len()
        invariant
            i <= b.entries@.len(),
            out@ == entries_with_flag(b.entries@.take(i as int), full),
        decreases b.entries.len() - i,
    {
        let e = b.entries[i];
        proof {
            assert(b.entries@.take(i + 1).drop_last() =~= b.entries@.take(i as int));
            assert(b.entries@.take(i + 1).last() == e);
        }
        if (e % 2 == 1) == full {
            out.push(e);
        }
        i = i + 1;
    }
    proof {
        assert(b.entries@.take(b.entries@.len() as int) =~= b.entries@);
    }
    BMOCpsql { depth_max: b.depth_max, entries: out }
}

/// The ranges, at `depth_max`, that cdshealpix's `BMOC::to_ranges` gives.
pub uninterp spec fn bmoc_ranges_of(depth_max: u8, entries: Seq<u64>) -> Seq<Range<u64>>;

/// `x`, an index at `depth_max`, lies in the cell of one of the entries `s`.
pub open spec fn entries_cover(depth_max: nat, s: Seq<u64>, x: int) -> bool {
    exists|i: int|
        0 <= i < s.len() && entry_cell(#[trigger] s[i], depth_max).1 * pow4((depth_max - entry_cell(s[i], depth_max).0) as nat) <= x
            < (entry_cell(s[i], depth_max).1 + 1) * pow4((depth_max - entry_cell(s[i], depth_max).0) as nat)
}

/// Relies on cdshealpix's `BMOC::to_ranges`: the ranges, at `depth_max`, of
/// the cells of a flagged coverage, flags dropped, sorted and merged: each
/// non-empty and inside the sphere, with a gap between neighbours, their union
/// that of the cells.
#[verifier::external_body]
fn bmoc_ranges(depth_max: u8, entries: &Vec<u64>) -> (r: Vec<Range<u64>>)
    requires
        bmoc_wf(depth_max as nat, entries@),
    ensures
        r@ == bmoc_ranges_of(depth_max, entries@),
        forall|i: int| 0 <= i < r@.len() ==> (#[trigger] r@[i]).start < r@[i].end && range_fits(r@[i], depth_max as nat),
        forall|i: int| 0 <= i < r@.len() - 1 ==> (#[trigger] r@[i]).end < r@[i + 1].start,
        forall|x: int| in_ranges(r@, x) <==> entries_cover(depth_max as nat, entries@, x),
{
    BMOC::create_unsafe(depth_max, entries.clone().into_boxed_slice()).to_ranges().into_vec()
}

/// `x`, a finest-depth index, lies in the cell of one of the entries `s`.
pub open spec fn entries_blocks(s: Seq<u64>, depth_max: nat, x: int) -> bool {
    exists|i: int| 0 <= i < s.len() && entry_start(#[trigger] s[i], depth_max) <= x < entry_end(s[i], depth_max)
}

/// Scaling a half-open band by `g` matches the quotient by `g`.
proof fn lemma_scale_band(a: int, b: int, g: int, x: int)
    requires
        g > 0,
    ensures
        (a * g <= x < b * g) <==> (a <= x / g < b),
{
    vstd::arithmetic::div_mod::lemma_fundamental_div_mod(x, g);
    vstd::arithmetic::div_mod::lemma_mod_bound(x, g);
    let q = x / g;
    let r = x % g;
    assert((a * g <= x) == (a <= q)) by (nonlinear_arith)
        requires
            x == g * q + r,
            0 <= r < g,
    ;
    assert((x < b * g) == (q < b)) by (nonlinear_arith)
        requires
            x == g * q + r,
            0 <= r < g,
    ;
}

/// `r` scaled from depth `depth_max` to the finest depth.
pub open spec fn scaled(r: Range<u64>, depth_max: nat) -> Range<u64> {
    Range { start: (r.start * granularity(depth_max)) as u64, end: (r.end * granularity(depth_max)) as u64 }
}

/// A range at `depth_max` that stays inside the sphere.
pub open spec fn range_fits(r: Range<u64>, depth_max: nat) -> bool {
    r.start <= r.end && r.end <= 12 * pow4(depth_max)
}

/// The ranges of the cells of `bmoc`, flags dropped, at the finest depth.
/// `InvalidDepth` for a depth above 29; `InvalidRange` for entries that are
/// not a flagged coverage.
#[verifier::spinoff_prover]
pub fn mgx_bmoc_to_ranges(bmoc: BMOCpsql) -> (r: Result<Vec<Range<u64>>, HealpixError>)
    ensures
        bmoc.depth_max > 29 ==> r == Err::<Vec<Range<u64>>, HealpixError>(HealpixError::InvalidDepth),
        bmoc.depth_max <= 29 && !bmoc_wf(bmoc.depth_max as nat, bmoc.entries@) ==> r == Err::<Vec<Range<u64>>, HealpixError>(HealpixError::InvalidRange),
        r is Ok <==> bmoc_wf(bmoc.depth_max as nat, bmoc.entries@),
        r matches Ok(v) ==> v@.len() == bmoc_ranges_of(bmoc.depth_max, bmoc.entries@).len() && forall|i: int| 0 <= i < v@.len() ==> #[trigger] v@[i] == scaled(bmoc_ranges_of(bmoc.depth_max, bmoc.entries@)[i], bmoc.depth_max as nat),
        r is Ok ==> forall|i: int| 0 <= i < bmoc_ranges_of(bmoc.depth_max, bmoc.entries@).len() ==> range_fits(#[trigger] bmoc_ranges_of(bmoc.depth_max, bmoc.entries@)[i], bmoc.depth_max as nat),
        r matches Ok(v) ==> ranges_wf(v@) && forall|x: int| in_ranges(v@, x) <==> entries_blocks(bmoc.entries@, bmoc.depth_max as nat, x),
{
    if bmoc.depth_max > DEPTH_MAX {
        return Err(HealpixError::InvalidDepth);
    }
    if !bmoc_check(&bmoc) {
        return Err(HealpixError::InvalidRange);
    }
    let dm = bmoc.depth_max;
    let rs = bmoc_ranges(dm, &bmoc.entries);
    let g = pow4_u64(DEPTH_MAX - dm);
    let nh = n_hash(dm);
    let mut out: Vec<Range<u64>> = Vec::new();
    let mut i: usize = 0;
    while i < rs.len()
        invariant
            dm == bmoc.depth_max,
            dm <= 29,
            g == granularity(dm as nat),
            nh == 12 * pow4(dm as nat),
            rs@ == bmoc_ranges_of(dm, bmoc.entries@),
            forall|k: int| 0 <= k < rs@.len() ==> range_fits(#[trigger] rs@[k], dm as nat),
            i <= rs@.len(),
            out@.len() == i,
            forall|k: int| 0 <= k < i ==> range_fits(#[trigger] rs@[k], dm as nat),
            forall|k: int| 0 <= k < i ==> #[trigger] out@[k] == scaled(rs@[k], dm as nat),
            forall|k: int| 0 <= k < rs@.len() ==> (#[trigger] rs@[k]).start < rs@[k].end,
            forall|k: int| 0 <= k < rs@.len() - 1 ==> (#[trigger] rs@[k]).end < rs@[k + 1].start,
            ranges_wf(out@),
            i > 0 ==> out@.last().end == rs@[i - 1].end * g,
        decreases rs.len() - i,
    {
        let start = rs[i].start;
        let end = rs[i].end;
        if start > end || end > nh {
            return Err(HealpixError::InvalidRange);
        }
        proof {
            lemma_cells_fit(dm as nat, end as nat);
            assert(start * g <= end * g) by (nonlinear_arith)
                requires
                    start <= end,
            ;
        }
        let ghost before = out@;
        proof {
            crate::cell::lemma_pow4_pos((29 - dm) as nat);
            assert(start * g < end * g) by (nonlinear_arith)
                requires
                    start < end,
                    g > 0,
            ;
            if i > 0 {
                assert(rs@[i - 1].end < rs@[i as int].start);
                assert(rs@[i - 1].end * g < start * g) by (nonlinear_arith)
                    requires
                        rs@[i - 1].end < start,
                        g > 0,
                ;
            }
        }
        out.push(Range { start: start * g, end: end * g });
        proof {
            assert forall|k: int| 0 <= k < out@.len() - 1 implies #[trigger] out@[k].end < out@[k + 1].start by {
                if k < i - 1 {
                    assert(before[k] == out@[k] && before[k + 1] == out@[k + 1]);
                }
            }
        }
        i = i + 1;
    }
    proof {
        lemma_lowered_set(bmoc.entries@, dm, rs@, out@);
    }
    Ok(out)
}

/// Ranges at `depth_max` covering the entries' cells, scaled one by one to the
/// finest depth, cover the entries' blocks.
proof fn lemma_lowered_set(entries: Seq<u64>, dm: u8, rs: Seq<Range<u64>>, out: Seq<Range<u64>>)
    requires
        bmoc_wf(dm as nat, entries),
        forall|x: int| in_ranges(rs, x) <==> entries_cover(dm as nat, entries, x),
        out.len() == rs.len(),
        forall|k: int| 0 <= k < rs.len() ==> #[trigger] out[k] == scaled(rs[k], dm as nat),
        forall|k: int| 0 <= k < rs.len() ==> range_fits(#[trigger] rs[k], dm as nat),
    ensures
        forall|x: int| in_ranges(out, x) <==> entries_blocks(entries, dm as nat, x),
{
    let g = granularity(dm as nat);
    let gi = g as int;
    crate::cell::lemma_pow4_pos((29 - dm) as nat);
    assert forall|k: int| 0 <= k < rs.len() implies (#[trigger] out[k]).start == rs[k].start * g && out[k].end == rs[k].end * g by {
        lemma_cells_fit(dm as nat, rs[k].end as nat);
        assert(rs[k].start * g <= rs[k].end * g) by (nonlinear_arith)
            requires
                rs[k].start <= rs[k].end,
        ;
    }
    assert forall|x: int| in_ranges(out, x) <==> entries_blocks(entries, dm as nat, x) by {
        crate::ranges::lemma_in_ranges_index(out, x);
        crate::ranges::lemma_in_ranges_index(rs, x / gi);
        if in_ranges(out, x) {
            let k = choose|k: int| 0 <= k < out.len() && #[trigger] out[k].start <= x < out[k].end;
            assert(out[k] == scaled(rs[k], dm as nat));
            lemma_scale_band(rs[k].start as int, rs[k].end as int, gi, x);
            assert(rs[k].start <= x / gi < rs[k].end);
        }
        if in_ranges(rs, x / gi) {
            let k = choose|k: int| 0 <= k < rs.len() && #[trigger] rs[k].start <= x / gi < rs[k].end;
            assert(out[k] == scaled(rs[k], dm as nat));
            lemma_scale_band(rs[k].start as int, rs[k].end as int, gi, x);
            assert(out[k].start <= x < out[k].end);
        }
        assert(in_ranges(rs, x / gi) <==> entries_cover(dm as nat, entries, x / gi));
        if entries_cover(dm as nat, entries, x / gi) {
            let j = choose|j: int| 0 <= j < entries.len() && entry_cell(#[trigger] entries[j], dm as nat).1 * pow4((dm - entry_cell(entries[j], dm as nat).0) as nat) <= x / gi
                < (entry_cell(entries[j], dm as nat).1 + 1) * pow4((dm - entry_cell(entries[j], dm as nat).0) as nat);
            lemma_entry_scaled(entries[j], dm as nat, x);
        }
        if entries_blocks(entries, dm as nat, x) {
            let j = choose|j: int| 0 <= j < entries.len() && entry_start(#[trigger] entries[j], dm as nat) <= x < entry_end(entries[j], dm as nat);
            lemma_entry_scaled(entries[j], dm as nat, x);
        }
    }
}

/// An entry's cell at `depth_max`, scaled to the finest depth, is its block.
proof fn lemma_entry_scaled(e: u64, depth_max: nat, x: int)
    requires
        depth_max <= 29,
        entry_valid(e, depth_max),
    ensures
        (entry_cell(e, depth_max).1 * pow4((depth_max - entry_cell(e, depth_max).0) as nat) <= x / (granularity(depth_max) as int)
            < (entry_cell(e, depth_max).1 + 1) * pow4((depth_max - entry_cell(e, depth_max).0) as nat))
            <==> (entry_start(e, depth_max) <= x < entry_end(e, depth_max)),
{
    let (d0, h0, f0) = choose|d0: nat, h0: nat, f0: bool| #[trigger] entry_decodes(e, depth_max, d0, h0, f0);
    assert(entry_decodes(e, depth_max, (d0, h0, f0).0, (d0, h0, f0).1, (d0, h0, f0).2));
    let t = entry_cell(e, depth_max);
    let d = t.0;
    let h = t.1;
    let g = granularity(depth_max);
    let q = pow4((depth_max - d) as nat);
    assert(entry_decodes(e, depth_max, t.0, t.1, t.2));
    crate::cell::lemma_pow4_add((depth_max - d) as nat, (29 - depth_max) as nat);
    assert(((depth_max - d) + (29 - depth_max)) as nat == (29 - d) as nat);
    crate::cell::lemma_pow4_pos((29 - depth_max) as nat);
    lemma_scale_band((h * q) as int, ((h + 1) * q) as int, g as int, x);
    assert((h * q) * g == h * granularity(d)) by (nonlinear_arith)
        requires
            granularity(d) == q * g,
    ;
    assert(((h + 1) * q) * g == (h + 1) * granularity(d)) by (nonlinear_arith)
        requires
            granularity(d) == q * g,
    ;
}

/// The ranges, at the finest depth, of the border cells of `bmoc` (flag bit 0).
pub fn mgx_bmoc_flag_zero(bmoc: BMOCpsql) -> (r: Result<Vec<Range<u64>>, HealpixError>)
    ensures
        bmoc.depth_max > 29 ==> r == Err::<Vec<Range<u64>>, HealpixError>(HealpixError::InvalidDepth),
        r is Ok <==> bmoc_wf(bmoc.depth_max as nat, entries_with_flag(bmoc.entries@, false)),
        r matches Ok(v) ==> v@.len() == bmoc_ranges_of(bmoc.depth_max, entries_with_flag(bmoc.entries@, false)).len() && forall|i: int| 0 <= i < v@.len() ==> #[trigger] v@[i] == scaled(bmoc_ranges_of(bmoc.depth_max, entries_with_flag(bmoc.entries@, false))[i], bmoc.depth_max as nat),
        r matches Ok(v) ==> ranges_wf(v@) && forall|x: int| in_ranges(v@, x) <==> entries_blocks(entries_with_flag(bmoc.entries@, false), bmoc.depth_max as nat, x),
{
    mgx_bmoc_to_ranges(select_flag(&bmoc, false))
}

/// The ranges, at the finest depth, of the full cells of `bmoc` (flag bit 1).
pub fn mgx_bmoc_flag_one(bmoc: BMOCpsql) -> (r: Result<Vec<Range<u64>>, HealpixError>)
    ensures
        bmoc.depth_max > 29 ==> r == Err::<Vec<Range<u64>>, HealpixError>(HealpixError::InvalidDepth),
        r is Ok <==> bmoc_wf(bmoc.depth_max as nat, entries_with_flag(bmoc.entries@, true)),
        r matches Ok(v) ==> v@.len() == bmoc_ranges_of(bmoc.depth_max, entries_with_flag(bmoc.entries@, true)).len() && forall|i: int| 0 <= i < v@.len() ==> #[trigger] v@[i] == scaled(bmoc_ranges_of(bmoc.depth_max, entries_with_flag(bmoc.entries@, true))[i], bmoc.depth_max as nat),
        r matches Ok(v) ==> ranges_wf(v@) && forall|x: int| in_ranges(v@, x) <==> entries_blocks(entries_with_flag(bmoc.entries@, true), bmoc.depth_max as nat, x),
{
    mgx_bmoc_to_ranges(select_flag(&bmoc, true))
}

/// The entries that cdshealpix's `BMOC::not` gives.
pub uninterp spec fn bmoc_not_of(depth_max: u8, entries: Seq<u64>) -> Seq<u64>;

/// The entries that cdshealpix's `BMOC::and` gives.
pub uninterp spec fn bmoc_and_of(depth_a: u8, entries_a: Seq<u64>, depth_b: u8, entries_b: Seq<u64>) -> Seq<u64>;

/// The entries that cdshealpix's `BMOC::or` gives.
pub uninterp spec fn bmoc_or_of(depth_a: u8, entries_a: Seq<u64>, depth_b: u8, entries_b: Seq<u64>) -> Seq<u64>;

/// The entries that cdshealpix's `BMOC::xor` gives.
pub uninterp spec fn bmoc_xor_of(depth_a: u8, entries_a: Seq<u64>, depth_b: u8, entries_b: Seq<u64>) -> Seq<u64>;

/// Relies on cdshealpix's `BMOC::not`: the complement, at the same depth, of
/// a flagged coverage (full cells removed, border cells kept, empty cells
/// added as full).
#[verifier::external_body]
fn bmoc_not_raw(depth_max: u8, entries: &Vec<u64>) -> (r: Vec<u64>)
    requires
        bmoc_wf(depth_max as nat, entries@),
    ensures
        r@ == bmoc_not_of(depth_max, entries@),
{
    BMOC::create_unsafe(depth_max, entries.clone().into_boxed_slice()).not().entries.into_vec()
}

/// Relies on cdshealpix's `BMOC::and`: the intersection of two flagged
/// coverages, at the larger of their depths.
#[verifier::external_body]
fn bmoc_and_raw(da: u8, ea: &Vec<u64>, db: u8, eb: &Vec<u64>) -> (r: (u8, Vec<u64>))
    requires
        bmoc_wf(da as nat, ea@),
        bmoc_wf(db as nat, eb@),
    ensures
        r.0 == if da >= db { da } else { db },
        r.1@ == bmoc_and_of(da, ea@, db, eb@),
{
    let a = BMOC::create_unsafe(da, ea.clone().into_boxed_slice());
    let b = BMOC::create_unsafe(db, eb.clone().into_boxed_slice());
    let c = a.and(&b);
    (c.get_depth_max(), c.entries.into_vec())
}

/// Relies on cdshealpix's `BMOC::or`: the union of two flagged coverages, at
/// the larger of their depths.
#[verifier::external_body]
fn bmoc_or_raw(da: u8, ea: &Vec<u64>, db: u8, eb: &Vec<u64>) -> (r: (u8, Vec<u64>))
    requires
        bmoc_wf(da as nat, ea@),
        bmoc_wf(db as nat, eb@),
    ensures
        r.0 == if da >= db { da } else { db },
        r.1@ == bmoc_or_of(da, ea@, db, eb@),
{
    let a = BMOC::create_unsafe(da, ea.clone().into_boxed_slice());
    let b = BMOC::create_unsafe(db, eb.clone().into_boxed_slice());
    let c = a.or(&b);
    (c.get_depth_max(), c.entries.into_vec())
}

/// Relies on cdshealpix's `BMOC::xor`: the symmetric difference of two
/// flagged coverages, at the larger of their depths.
#[verifier::external_body]
fn bmoc_xor_raw(da: u8, ea: &Vec<u64>, db: u8, eb: &Vec<u64>) -> (r: (u8, Vec<u64>))
    requires
        bmoc_wf(da as nat, ea@),
        bmoc_wf(db as nat, eb@),
    ensures
        r.0 == if da >= db { da } else { db },
        r.1@ == bmoc_xor_of(da, ea@, db, eb@),
{
    let a = BMOC::create_unsafe(da, ea.clone().into_boxed_slice());
    let b = BMOC::create_unsafe(db, eb.clone().into_boxed_slice());
    let c = a.xor(&b);
    (c.get_depth_max(), c.entries.into_vec())
}

/// The error for an operand that is not a flagged coverage.
pub open spec fn operand_error(b: &BMOCpsql) -> HealpixError {
    if b.depth_max > 29 { HealpixError::InvalidDepth } else { HealpixError::InvalidRange }
}

fn check_operand(b: &BMOCpsql) -> (r: Result<(), HealpixError>)
    ensures
        r is Ok <==> bmoc_wf(b.depth_max as nat, b.entries@),
        r is Err ==> r == Err::<(), HealpixError>(operand_error(b)),
{
    if b.depth_max > DEPTH_MAX {
        return Err(HealpixError::InvalidDepth);
    }
    if !bmoc_check(b) {
        return Err(HealpixError::InvalidRange);
    }
    Ok(())
}

/// The complement of `bmoc`: full cells become holes, holes become full
/// cells, border cells stay. Fails with [`operand_error`] unless `bmoc` is a
/// flagged coverage.
pub fn mgx_bmoc_not(bmoc: BMOCpsql) -> (r: Result<BMOCpsql, HealpixError>)
    ensures
        r is Ok <==> bmoc_wf(bmoc.depth_max as nat, bmoc.entries@),
        r is Err ==> r == Err::<BMOCpsql, HealpixError>(operand_error(&bmoc)),
        r matches Ok(c) ==> c.depth_max == bmoc.depth_max && c.entries@ == bmoc_not_of(bmoc.depth_max, bmoc.entries@),
{
    match check_operand(&bmoc) {
        Err(e) => Err(e),
        Ok(()) => Ok(BMOCpsql { depth_max: bmoc.depth_max, entries: bmoc_not_raw(bmoc.depth_max, &bmoc.entries) }),
    }
}

/// The intersection of two flagged coverages; a cell is full when it is full
/// in both. Fails with [`operand_error`] of the first operand that is not a
/// flagged coverage.
pub fn mgx_bmoc_and(bmoc: BMOCpsql, other: BMOCpsql) -> (r: Result<BMOCpsql, HealpixError>)
    ensures
        r is Ok <==> bmoc_wf(bmoc.depth_max as nat, bmoc.entries@) && bmoc_wf(other.depth_max as nat, other.entries@),
        !bmoc_wf(bmoc.depth_max as nat, bmoc.entries@) ==> r == Err::<BMOCpsql, HealpixError>(operand_error(&bmoc)),
        bmoc_wf(bmoc.depth_max as nat, bmoc.entries@) && !bmoc_wf(other.depth_max as nat, other.entries@) ==> r == Err::<BMOCpsql, HealpixError>(operand_error(&other)),
        r matches Ok(c) ==> c.depth_max == (if bmoc.depth_max >= other.depth_max { bmoc.depth_max } else { other.depth_max }) && c.entries@ == bmoc_and_of(bmoc.depth_max, bmoc.entries@, other.depth_max, other.entries@),
{
    if let Err(e) = check_operand(&bmoc) {
        return Err(e);
    }
    if let Err(e) = check_operand(&other) {
        return Err(e);
    }
    let (d, entries) = bmoc_and_raw(bmoc.depth_max, &bmoc.entries, other.depth_max, &other.entries);
    Ok(BMOCpsql { depth_max: d, entries })
}

/// The union of two flagged coverages; a cell is full when it is full in
/// either. Fails with [`operand_error`] of the first operand that is not a
/// flagged coverage.
pub fn mgx_bmoc_or(bmoc: BMOCpsql, other: BMOCpsql) -> (r: Result<BMOCpsql, HealpixError>)
    ensures
        r is Ok <==> bmoc_wf(bmoc.depth_max as nat, bmoc.entries@) && bmoc_wf(other.depth_max as nat, other.entries@),
        !bmoc_wf(bmoc.depth_max as nat, bmoc.entries@) ==> r == Err::<BMOCpsql, HealpixError>(operand_error(&bmoc)),
        bmoc_wf(bmoc.depth_max as nat, bmoc.entries@) && !bmoc_wf(other.depth_max as nat, other.entries@) ==> r == Err::<BMOCpsql, HealpixError>(operand_error(&other)),
        r matches Ok(c) ==> c.depth_max == (if bmoc.depth_max >= other.depth_max { bmoc.depth_max } else { other.depth_max }) && c.entries@ == bmoc_or_of(bmoc.depth_max, bmoc.entries@, other.depth_max, other.entries@),
{
    if let Err(e) = check_operand(&bmoc) {
        return Err(e);
    }
    if let Err(e) = check_operand(&other) {
        return Err(e);
    }
    let (d, entries) = bmoc_or_raw(bmoc.depth_max, &bmoc.entries, other.depth_max, &other.entries);
    Ok(BMOCpsql { depth_max: d, entries })
}

/// The symmetric difference of two flagged coverages. Fails with
/// [`operand_error`] of the first operand that is not a flagged coverage.
pub fn mgx_bmoc_xor(bmoc: BMOCpsql, other: BMOCpsql) -> (r: Result<BMOCpsql, HealpixError>)
    ensures
        r is Ok <==> bmoc_wf(bmoc.depth_max as nat, bmoc.entries@) && bmoc_wf(other.depth_max as nat, other.entries@),
        !bmoc_wf(bmoc.depth_max as nat, bmoc.entries@) ==> r == Err::<BMOCpsql, HealpixError>(operand_error(&bmoc)),
        bmoc_wf(bmoc.depth_max as nat, bmoc.entries@) && !bmoc_wf(other.depth_max as nat, other.entries@) ==> r == Err::<BMOCpsql, HealpixError>(operand_error(&other)),
        r matches Ok(c) ==> c.depth_max == (if bmoc.depth_max >= other.depth_max { bmoc.depth_max } else { other.depth_max }) && c.entries@ == bmoc_xor_of(bmoc.depth_max, bmoc.entries@, other.depth_max, other.entries@),
{
    if let Err(e) = check_operand(&bmoc) {
        return Err(e);
    }
    if let Err(e) = check_operand(&other) {
        return Err(e);
    }
    let (d, entries) = bmoc_xor_raw(bmoc.depth_max, &bmoc.entries, other.depth_max, &other.entries);
    Ok(BMOCpsql { depth_max: d, entries })
}


/// Which cells of a flagged coverage a range coverage keeps.
#[derive(Debug, Clone, Copy, PartialEq, Eq, Structural)]
pub enum CellSelectionPSQL {
    /// Every cell.
    All,
    /// The full cells.
    Inside,
    /// The border cells.
    Border,
}

/// The entries of `s` that `selection` keeps.
pub open spec fn selected(s: Seq<u64>, selection: CellSelectionPSQL) -> Seq<u64> {
    match selection {
        CellSelectionPSQL::All => s,
        CellSelectionPSQL::Inside => entries_with_flag(s, true),
        CellSelectionPSQL::Border => entries_with_flag(s, false),
    }
}

/// The ranges of the cells of `s`, at the finest depth.
pub open spec fn scaled_ranges(depth_max: u8, s: Seq<u64>) -> Seq<Range<u64>> {
    bmoc_ranges_of(depth_max, s).map_values(|r: Range<u64>| scaled(r, depth_max as nat))
}

/// The range coverage of the cells of `bmoc` that `selection` keeps, at the
/// depth of `bmoc`. Fails as [`mgx_bmoc_to_ranges`] does on the kept entries.
#[verifier::spinoff_prover]
#[verifier::rlimit(80)]
pub fn moc_from_bmoc(bmoc: BMOCpsql, selection: CellSelectionPSQL) -> (r: Result<RangeMOCPSQL, HealpixError>)
    ensures
        r is Ok <==> bmoc_wf(bmoc.depth_max as nat, selected(bmoc.entries@, selection)),
        bmoc.depth_max > 29 ==> r == Err::<RangeMOCPSQL, HealpixError>(HealpixError::InvalidDepth),
        r matches Ok(m) ==> m.wf() && m.depth_max == bmoc.depth_max && m.cells() == ranges_set(scaled_ranges(bmoc.depth_max, selected(bmoc.entries@, selection))),
        r matches Ok(m) ==> m.cells() == Set::new(|x: int| entries_blocks(selected(bmoc.entries@, selection), bmoc.depth_max as nat, x)),
{
    let dm = bmoc.depth_max;
    let kept = match selection {
        CellSelectionPSQL::All => bmoc,
        CellSelectionPSQL::Inside => select_flag(&bmoc, true),
        CellSelectionPSQL::Border => select_flag(&bmoc, false),
    };
    let ghost s = kept.entries@;
    match mgx_bmoc_to_ranges(kept) {
        Err(e) => Err(e),
        Ok(v) => {
            proof {
                let rs = bmoc_ranges_of(dm, s);
                assert(v@ =~= scaled_ranges(dm, s));
                assert forall|i: int| 0 <= i < v@.len() implies valid_range(#[trigger] v@[i], dm as nat) by {
                    let r0 = rs[i];
                    assert(range_fits(r0, dm as nat));
                    let g = granularity(dm as nat);
                    lemma_cells_fit(dm as nat, r0.end as nat);
                    crate::cell::lemma_pow4_pos((29 - dm) as nat);
                    assert(r0.start * g <= r0.end * g) by (nonlinear_arith)
                        requires
                            r0.start <= r0.end,
                    ;
                    vstd::arithmetic::div_mod::lemma_mod_multiples_basic(r0.start as int, g as int);
                    vstd::arithmetic::div_mod::lemma_mod_multiples_basic(r0.end as int, g as int);
                }
            }
            let ghost vv = v@;
            match create_range_moc_psql(dm, v) {
                Ok(m) => {
                    proof {
                        assert forall|x: int| #[trigger] m.cells().contains(x) == entries_blocks(s, dm as nat, x) by {
                            assert(m.cells().contains(x) == in_ranges(vv, x));
                        }
                        assert(m.cells() =~= Set::new(|x: int| entries_blocks(s, dm as nat, x)));
                    }
                    Ok(m)
                },
                Err(e) => Err(e),
            }
        },
    }
}


proof fn lemma_with_flag_index(s: Seq<u64>, full: bool, e: u64)
    ensures
        entries_with_flag(s, full).contains(e) <==> exists|i: int| 0 <= i < s.len() && #[trigger] s[i] == e && (e % 2 == 1) == full,
    decreases s.len(),
{
    if s.len() > 0 {
        let p = s.drop_last();
        lemma_with_flag_index(p, full, e);
        let q = entries_with_flag(p, full);
        let l = s.last();
        assert(s[s.len() - 1] == l);
        if (l % 2 == 1) == full {
            let t = q.push(l);
            assert(entries_with_flag(s, full) == t);
            if t.contains(e) {
                let k = choose|k: int| 0 <= k < t.len() && t[k] == e;
                if k < q.len() {
                    assert(q[k] == t[k]);
                }
            }
            if q.contains(e) {
                let k = choose|k: int| 0 <= k < q.len() && q[k] == e;
                assert(t[k] == q[k]);
            }
            if l == e {
                assert(t[q.len() as int] == l);
            }
        } else {
            assert(entries_with_flag(s, full) == q);
        }
        if exists|i: int| 0 <= i < p.len() && #[trigger] p[i] == e && (e % 2 == 1) == full {
            let i = choose|i: int| 0 <= i < p.len() && #[trigger] p[i] == e && (e % 2 == 1) == full;
            assert(s[i] == p[i]);
        }
        if exists|i: int| 0 <= i < s.len() && #[trigger] s[i] == e && (e % 2 == 1) == full {
            let i = choose|i: int| 0 <= i < s.len() && #[trigger] s[i] == e && (e % 2 == 1) == full;
            if i < s.len() - 1 {
                assert(p[i] == s[i]);
            }
        }
    }
}

proof fn lemma_blocks_with_flag(s: Seq<u64>, full: bool, dm: nat, x: int)
    ensures
        entries_blocks(entries_with_flag(s, full), dm, x) <==> exists|i: int|
            0 <= i < s.len() && (s[i] % 2 == 1) == full && entry_start(#[trigger] s[i], dm) <= x < entry_end(s[i], dm),
{
    let t = entries_with_flag(s, full);
    if entries_blocks(t, dm, x) {
        let j = choose|j: int| 0 <= j < t.len() && entry_start(#[trigger] t[j], dm) <= x < entry_end(t[j], dm);
        assert(t.contains(t[j]));
        lemma_with_flag_index(s, full, t[j]);
        let i = choose|i: int| 0 <= i < s.len() && #[trigger] s[i] == t[j] && (t[j] % 2 == 1) == full;
        assert(entry_start(s[i], dm) <= x < entry_end(s[i], dm));
    }
    if exists|i: int| 0 <= i < s.len() && (s[i] % 2 == 1) == full && entry_start(#[trigger] s[i], dm) <= x < entry_end(s[i], dm) {
        let i = choose|i: int| 0 <= i < s.len() && (s[i] % 2 == 1) == full && entry_start(#[trigger] s[i], dm) <= x < entry_end(s[i], dm);
        lemma_with_flag_index(s, full, s[i]);
        assert(t.contains(s[i]));
        let j = choose|j: int| 0 <= j < t.len() && t[j] == s[i];
        assert(entry_start(t[j], dm) <= x < entry_end(t[j], dm));
    }
}

proof fn lemma_entry_nonempty(e: u64, dm: nat)
    requires
        dm <= 29,
        entry_valid(e, dm),
    ensures
        entry_start(e, dm) < entry_end(e, dm),
{
    let (d0, h0, f0) = choose|d0: nat, h0: nat, f0: bool| #[trigger] entry_decodes(e, dm, d0, h0, f0);
    assert(entry_decodes(e, dm, (d0, h0, f0).0, (d0, h0, f0).1, (d0, h0, f0).2));
    let t = entry_cell(e, dm);
    crate::cell::lemma_pow4_pos((29 - t.0) as nat);
    let g = granularity(t.0);
    assert(t.1 * g < (t.1 + 1) * g) by (nonlinear_arith)
        requires
            g >= 1,
    ;
}

proof fn lemma_entries_apart(dm: nat, s: Seq<u64>, i: int, j: int)
    requires
        bmoc_wf(dm, s),
        0 <= i < j < s.len(),
    ensures
        entry_end(s[i], dm) <= entry_start(s[j], dm),
    decreases j - i,
{
    if j > i + 1 {
        lemma_entries_apart(dm, s, i, j - 1);
        lemma_entry_nonempty(s[j - 1], dm);
        assert(entry_end(s[j - 1], dm) <= entry_start(s[j], dm));
    }
}

/// The flag split partitions a flagged coverage: every covered index lies in
/// a full cell or in a border cell, and in only one of them. So the `All`
/// selection is the union of the `Inside` and `Border` selections, which are
/// disjoint.
pub proof fn flag_split_partition(depth_max: u8, s: Seq<u64>, x: int)
    requires
        bmoc_wf(depth_max as nat, s),
    ensures
        entries_blocks(s, depth_max as nat, x) <==> (entries_blocks(entries_with_flag(s, true), depth_max as nat, x)
            || entries_blocks(entries_with_flag(s, false), depth_max as nat, x)),
        !(entries_blocks(entries_with_flag(s, true), depth_max as nat, x) && entries_blocks(
            entries_with_flag(s, false),
            depth_max as nat,
            x,
        )),
{
    let dm = depth_max as nat;
    lemma_blocks_with_flag(s, true, dm, x);
    lemma_blocks_with_flag(s, false, dm, x);
    if entries_blocks(s, dm, x) {
        let i = choose|i: int| 0 <= i < s.len() && entry_start(#[trigger] s[i], dm) <= x < entry_end(s[i], dm);
        if s[i] % 2 == 1 {
            assert(exists|k: int| 0 <= k < s.len() && (s[k] % 2 == 1) == true && entry_start(#[trigger] s[k], dm) <= x < entry_end(s[k], dm));
        } else {
            assert(exists|k: int| 0 <= k < s.len() && (s[k] % 2 == 1) == false && entry_start(#[trigger] s[k], dm) <= x < entry_end(s[k], dm));
        }
    }
    if entries_blocks(entries_with_flag(s, true), dm, x) && entries_blocks(entries_with_flag(s, false), dm, x) {
        let i = choose|i: int| 0 <= i < s.len() && (s[i] % 2 == 1) == true && entry_start(#[trigger] s[i], dm) <= x < entry_end(s[i], dm);
        let j = choose|j: int| 0 <= j < s.len() && (s[j] % 2 == 1) == false && entry_start(#[trigger] s[j], dm) <= x < entry_end(s[j], dm);
        if i < j {
            lemma_entries_apart(dm, s, i, j);
        } else if j < i {
            lemma_entries_apart(dm, s, j, i);
        }
    }
}

} // verus!
