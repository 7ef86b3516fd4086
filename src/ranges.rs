//! Sorted lists of disjoint half-open ranges over the finest-depth index
//! space, and the sweeps that complement and unite them.

use std::ops::Range;
use vstd::prelude::*;
use crate::cell::NPIX_MAX;

verus! {

/// `x` lies in one of the ranges of `s`.
pub open spec fn in_ranges(s: Seq<Range<u64>>, x: int) -> bool
    decreases s.len(),
{
    if s.len() == 0 {
        false
    } else {
        (s.last().start <= x < s.last().end) || in_ranges(s.drop_last(), x)
    }
}

/// The set of finest-depth indices covered by `s`.
pub open spec fn ranges_set(s: Seq<Range<u64>>) -> Set<int> {
    Set::new(|x: int| in_ranges(s, x))
}

/// All finest-depth indices of the sphere.
pub open spec fn full_set() -> Set<int> {
    Set::new(|x: int| 0 <= x < NPIX_MAX)
}

/// Non-empty ranges inside the sphere, sorted, with a gap between neighbours.
pub open spec fn ranges_wf(s: Seq<Range<u64>>) -> bool {
    &&& forall|i: int| 0 <= i < s.len() ==> #[trigger] s[i].start < s[i].end && s[i].end <= NPIX_MAX
    &&& forall|i: int| 0 <= i < s.len() - 1 ==> #[trigger] s[i].end < s[i + 1].start
}

/// `x` is a multiple of `g`.
pub open spec fn multiple_of(x: int, g: nat) -> bool {
    x % (g as int) == 0
}

/// Every bound of `s` is a multiple of `g`.
pub open spec fn aligned(s: Seq<Range<u64>>, g: nat) -> bool {
    forall|i: int| 0 <= i < s.len() ==> multiple_of(#[trigger] s[i].start as int, g) && multiple_of(s[i].end as int, g)
}

pub proof fn lemma_wf_sorted(s: Seq<Range<u64>>, i: int, j: int)
    requires
        ranges_wf(s),
        0 <= i < j < s.len(),
    ensures
        s[i].end < s[j].start,
    decreases j - i,
{
    if j > i + 1 {
        lemma_wf_sorted(s, i, j - 1);
        assert(s[j - 1].end < s[j].start);
    }
}

pub proof fn lemma_wf_prefix(s: Seq<Range<u64>>, n: int)
    requires
        ranges_wf(s),
        0 <= n <= s.len(),
    ensures
        ranges_wf(s.take(n)),
{
}

/// Membership in `s` is membership in one of its ranges.
pub proof fn lemma_in_ranges_index(s: Seq<Range<u64>>, x: int)
    ensures
        in_ranges(s, x) <==> exists|i: int| 0 <= i < s.len() && #[trigger] s[i].start <= x < s[i].end,
    decreases s.len(),
{
    if s.len() > 0 {
        lemma_in_ranges_index(s.drop_last(), x);
        if in_ranges(s.drop_last(), x) {
            let i = choose|i: int| 0 <= i < s.drop_last().len() && #[trigger] s.drop_last()[i].start <= x < s.drop_last()[i].end;
            assert(s[i] == s.drop_last()[i]);
        }
        if exists|i: int| 0 <= i < s.len() && #[trigger] s[i].start <= x < s[i].end {
            let i = choose|i: int| 0 <= i < s.len() && #[trigger] s[i].start <= x < s[i].end;
            if i < s.len() - 1 {
                assert(s.drop_last()[i] == s[i]);
            }
        }
    }
}

/// In a well-formed list, a covered index lies below the end of the last range.
pub proof fn lemma_in_ranges_below_last(s: Seq<Range<u64>>, x: int)
    requires
        ranges_wf(s),
        in_ranges(s, x),
    ensures
        s.len() > 0,
        s[0].start <= x < s.last().end,
{
    lemma_in_ranges_index(s, x);
    let i = choose|i: int| 0 <= i < s.len() && #[trigger] s[i].start <= x < s[i].end;
    if i < s.len() - 1 {
        lemma_wf_sorted(s, i, s.len() - 1);
    }
    if i > 0 {
        lemma_wf_sorted(s, 0, i);
    }
}

pub proof fn lemma_take_step(s: Seq<Range<u64>>, i: int, x: int)
    requires
        0 <= i < s.len(),
    ensures
        in_ranges(s.take(i + 1), x) == (in_ranges(s.take(i), x) || (s[i].start <= x < s[i].end)),
{
    assert(s.take(i + 1).drop_last() =~= s.take(i));
}

proof fn lemma_take_full(s: Seq<Range<u64>>)
    ensures
        s.take(s.len() as int) == s,
{
    assert(s.take(s.len() as int) =~= s);
}

/// The complement of `s` over the whole sphere.
pub fn complement_ranges(s: &Vec<Range<u64>>, Ghost(g): Ghost<nat>) -> (r: Vec<Range<u64>>)
    requires
        ranges_wf(s@),
        g > 0,
        aligned(s@, g),
        multiple_of(NPIX_MAX as int, g),
    ensures
        ranges_wf(r@),
        aligned(r@, g),
        ranges_set(r@) == full_set().difference(ranges_set(s@)),
{
    let mut out: Vec<Range<u64>> = Vec::new();
    let mut prev: u64 = 0;
    let mut i: usize = 0;
    while i < s.len()
        invariant
            ranges_wf(s@),
            ranges_wf(out@),
            aligned(s@, g),
            aligned(out@, g),
            g > 0,
            i <= s.len(),
            multiple_of(prev as int, g),
            prev <= NPIX_MAX,
            i == 0 ==> prev == 0,
            i > 0 ==> prev == s@[i - 1].end,
            out@.len() > 0 ==> out@.last().end < prev,
            forall|x: int| in_ranges(out@, x) <==> (0 <= x < prev && !in_ranges(s@.take(i as int), x)),
        decreases s.len() - i,
    {
        let ghost old_out = out@;
        let start = s[i].start;
        let end = s[i].end;
        proof {
            if i > 0 {
                assert(s@[i - 1].end < s@[i as int].start);
            }
        }
        if start > prev {
            out.push(Range { start: prev, end: start });
            proof {
                assert(out@.drop_last() =~= old_out);
            }
        }
        proof {
            assert forall|x: int| in_ranges(out@, x) <==> (0 <= x < end && !in_ranges(s@.take(i + 1), x)) by {
                lemma_take_step(s@, i as int, x);
                if in_ranges(s@.take(i as int), x) {
                    lemma_wf_prefix(s@, i as int);
                    lemma_in_ranges_below_last(s@.take(i as int), x);
                    assert(s@.take(i as int).last() == s@[i - 1]);
                }
                assert(in_ranges(old_out, x) <==> (0 <= x < prev && !in_ranges(s@.take(i as int), x)));
                if start > prev {
                    assert(out@.drop_last() =~= old_out);
                    assert(in_ranges(out@, x) <==> (in_ranges(old_out, x) || (prev <= x < start)));
                } else {
                    assert(out@ == old_out);
                }
            }
        }
        prev = end;
        i = i + 1;
    }
    let ghost old_out = out@;
    if prev < NPIX_MAX {
        out.push(Range { start: prev, end: NPIX_MAX });
    }
    proof {
        lemma_take_full(s@);
        assert forall|x: int| in_ranges(out@, x) <==> (0 <= x < NPIX_MAX && !in_ranges(s@, x)) by {
            assert(in_ranges(old_out, x) <==> (0 <= x < prev && !in_ranges(s@, x)));
            if prev < NPIX_MAX {
                assert(out@.drop_last() =~= old_out);
                assert(in_ranges(out@, x) <==> (in_ranges(old_out, x) || (prev <= x < NPIX_MAX)));
            }
            if in_ranges(s@, x) {
                lemma_in_ranges_below_last(s@, x);
                if s@.len() > 0 {
                    assert(s@.last().end <= NPIX_MAX);
                }
            }
        }
        assert(ranges_set(out@) =~= full_set().difference(ranges_set(s@)));
    }
    out
}


/// Appends `[start, end)` to `out`, coalescing it with the last range when
/// they overlap or touch.
pub(crate) fn push_merge(out: &mut Vec<Range<u64>>, start: u64, end: u64, Ghost(g): Ghost<nat>)
    requires
        ranges_wf(old(out)@),
        aligned(old(out)@, g),
        start < end <= NPIX_MAX,
        multiple_of(start as int, g),
        multiple_of(end as int, g),
        old(out)@.len() > 0 ==> old(out)@.last().start <= start,
    ensures
        ranges_wf(final(out)@),
        aligned(final(out)@, g),
        final(out)@.len() > 0,
        final(out)@.last().start <= start,
        forall|x: int| in_ranges(final(out)@, x) <==> (in_ranges(old(out)@, x) || (start <= x < end)),
{
    let n = out.len();
    if n > 0 && out[n - 1].end >= start {
        let last_start = out[n - 1].start;
        let last_end = out[n - 1].end;
        if end > last_end {
            let ghost before = out@;
            out.set(n - 1, Range { start: last_start, end: end });
            proof {
                assert(out@.drop_last() =~= before.drop_last());
                assert forall|x: int| in_ranges(out@, x) <==> (in_ranges(before, x) || (start <= x < end)) by {
                }
            }
        }
    } else {
        let ghost before = out@;
        out.push(Range { start, end });
        proof {
            assert(out@.drop_last() =~= before);
        }
    }
}

/// The union of `a` and `b`.
pub fn union_ranges(a: &Vec<Range<u64>>, b: &Vec<Range<u64>>, Ghost(g): Ghost<nat>) -> (r: Vec<
    Range<u64>,
>)
    requires
        ranges_wf(a@),
        ranges_wf(b@),
        aligned(a@, g),
        aligned(b@, g),
    ensures
        ranges_wf(r@),
        aligned(r@, g),
        ranges_set(r@) == ranges_set(a@).union(ranges_set(b@)),
{
    let mut out: Vec<Range<u64>> = Vec::new();
    let mut i: usize = 0;
    let mut j: usize = 0;
    while i < a.len() || j < b.len()
        invariant
            ranges_wf(a@),
            ranges_wf(b@),
            aligned(a@, g),
            aligned(b@, g),
            ranges_wf(out@),
            aligned(out@, g),
            i <= a.len(),
            j <= b.len(),
            out@.len() > 0 && i < a.len() ==> out@.last().start <= a@[i as int].start,
            out@.len() > 0 && j < b.len() ==> out@.last().start <= b@[j as int].start,
            forall|x: int|
                in_ranges(out@, x) <==> (in_ranges(a@.take(i as int), x) || in_ranges(
                    b@.take(j as int),
                    x,
                )),
        decreases a.len() + b.len() - i - j,
    {
        let ghost old_out = out@;
        let ghost i0 = i;
        let ghost j0 = j;
        if j >= b.len() || (i < a.len() && a[i].start <= b[j].start) {
            push_merge(&mut out, a[i].start, a[i].end, Ghost(g));
            i = i + 1;
            proof {
                if i < a.len() {
                    assert(a@[i - 1].end < a@[i as int].start);
                }
            }
        } else {
            push_merge(&mut out, b[j].start, b[j].end, Ghost(g));
            j = j + 1;
            proof {
                if j < b.len() {
                    assert(b@[j - 1].end < b@[j as int].start);
                }
            }
        }
        proof {
            assert forall|x: int|
                in_ranges(out@, x) <==> (in_ranges(a@.take(i as int), x) || in_ranges(
                    b@.take(j as int),
                    x,
                )) by {
                if i > i0 {
                    lemma_take_step(a@, i0 as int, x);
                } else {
                    lemma_take_step(b@, j0 as int, x);
                }
            }
        }
    }
    proof {
        lemma_take_full(a@);
        lemma_take_full(b@);
        assert(ranges_set(out@) =~= ranges_set(a@).union(ranges_set(b@)));
    }
    out
}


proof fn lemma_drop_last_set(s: Seq<Range<u64>>, x: int)
    requires
        ranges_wf(s),
        s.len() > 0,
    ensures
        ranges_wf(s.drop_last()),
        in_ranges(s.drop_last(), x) <==> (in_ranges(s, x) && x < s.last().start),
{
    assert(ranges_wf(s.drop_last()));
    if in_ranges(s.drop_last(), x) {
        lemma_in_ranges_below_last(s.drop_last(), x);
        assert(s[s.len() - 2].end < s[s.len() - 1].start);
    }
}

/// A set of indices has exactly one well-formed range list.
pub proof fn lemma_canonical(s1: Seq<Range<u64>>, s2: Seq<Range<u64>>)
    requires
        ranges_wf(s1),
        ranges_wf(s2),
        ranges_set(s1) == ranges_set(s2),
    ensures
        s1 == s2,
    decreases s1.len() + s2.len(),
{
    assert forall|x: int| in_ranges(s1, x) == in_ranges(s2, x) by {
        assert(ranges_set(s1).contains(x) == in_ranges(s1, x));
        assert(ranges_set(s2).contains(x) == in_ranges(s2, x));
    }
    if s1.len() == 0 || s2.len() == 0 {
        if s1.len() > 0 {
            assert(in_ranges(s1, s1.last().start as int));
            assert(in_ranges(s2, s1.last().start as int));
        }
        if s2.len() > 0 {
            assert(in_ranges(s2, s2.last().start as int));
            assert(in_ranges(s1, s2.last().start as int));
        }
        assert(s1 =~= s2);
    } else {
        let l1 = s1.last();
        let l2 = s2.last();
        assert(in_ranges(s1, l1.end - 1));
        assert(in_ranges(s2, l2.end - 1));
        lemma_in_ranges_below_last(s2, l1.end - 1);
        lemma_in_ranges_below_last(s1, l2.end - 1);
        assert(l1.end == l2.end);
        if l1.start < l2.start {
            let y = l2.start - 1;
            assert(in_ranges(s1, y));
            lemma_drop_last_set(s2, y);
            lemma_in_ranges_below_last(s2.drop_last(), y);
            assert(s2[s2.len() - 2].end < s2[s2.len() - 1].start);
        } else if l2.start < l1.start {
            let y = l1.start - 1;
            assert(in_ranges(s2, y));
            lemma_drop_last_set(s1, y);
            lemma_in_ranges_below_last(s1.drop_last(), y);
            assert(s1[s1.len() - 2].end < s1[s1.len() - 1].start);
        }
        assert(l1.start == l2.start);
        assert forall|x: int| #[trigger] ranges_set(s1.drop_last()).contains(x) == ranges_set(s2.drop_last()).contains(x) by {
            lemma_drop_last_set(s1, x);
            lemma_drop_last_set(s2, x);
        }
        assert(ranges_set(s1.drop_last()) =~= ranges_set(s2.drop_last()));
        lemma_drop_last_set(s1, 0);
        lemma_drop_last_set(s2, 0);
        lemma_canonical(s1.drop_last(), s2.drop_last());
        assert(l1 == l2);
        assert(s1 =~= s1.drop_last().push(l1));
        assert(s2 =~= s2.drop_last().push(l2));
    }
}


/// A run of indices inside the coverage that meets the range `s[i]` lies
/// inside it: the ranges have gaps between them.
pub proof fn lemma_interval_in_range(s: Seq<Range<u64>>, i: int, a: int, b: int, y: int)
    requires
        ranges_wf(s),
        0 <= i < s.len(),
        a <= y < b,
        s[i].start <= y < s[i].end,
        forall|x: int| a <= x < b ==> in_ranges(s, x),
    ensures
        s[i].start <= a,
        b <= s[i].end,
{
    if b > s[i].end {
        let x = s[i].end as int;
        assert(in_ranges(s, x));
        lemma_in_ranges_index(s, x);
        let m = choose|m: int| 0 <= m < s.len() && #[trigger] s[m].start <= x < s[m].end;
        if m < i {
            lemma_wf_sorted(s, m, i);
        } else if m > i {
            lemma_wf_sorted(s, i, m);
        }
    }
    if a < s[i].start {
        let x = s[i].start - 1;
        assert(in_ranges(s, x));
        lemma_in_ranges_index(s, x);
        let m = choose|m: int| 0 <= m < s.len() && #[trigger] s[m].start <= x < s[m].end;
        if m < i {
            lemma_wf_sorted(s, m, i);
        } else if m > i {
            lemma_wf_sorted(s, i, m);
        }
    }
}

} // verus!
