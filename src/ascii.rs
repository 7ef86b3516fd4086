//! The ASCII notation of coverages: `depth/cell` and `depth/first-last`
//! tokens grouped by ascending depth, as in `3/3 10 4/16-18 22 5/19-20`.

use vstd::prelude::*;
use vstd::std_specs::iter::IteratorSpec;
use vstd::string::StringExecFns;
use std::ops::Range;
use crate::cell::{n_hash, n_hash_spec, pow4_u64, HealpixError, DEPTH_MAX};
use crate::moc::{
    coverage_unique, create_range_moc_psql, granularity, lemma_granularity_divides, valid_range, RangeMOCPSQL,
};
use crate::normalized::lemma_cells_fit;
use crate::ranges::in_ranges;
use crate::normalized::{
    canonical_cells, in_block, in_elems, to_normalized_cells, CellOrCellRangeMOCPSQL, CellOrCellRangePSQL,
};

verus! {

/// The decimal digit `d`.
pub open spec fn digit_char(d: nat) -> char {
    if d == 0 {
        '0'
    } else if d == 1 {
        '1'
    } else if d == 2 {
        '2'
    } else if d == 3 {
        '3'
    } else if d == 4 {
        '4'
    } else if d == 5 {
        '5'
    } else if d == 6 {
        '6'
    } else if d == 7 {
        '7'
    } else if d == 8 {
        '8'
    } else {
        '9'
    }
}

/// The decimal notation of `n`, without leading zeros.
pub open spec fn dec(n: nat) -> Seq<char>
    decreases n,
{
    if n < 10 {
        seq![digit_char(n)]
    } else {
        dec(n / 10).push(digit_char(n % 10))
    }
}

/// A cell as `first`, a run as `first-last`.
pub open spec fn elem_text(e: CellOrCellRangePSQL) -> Seq<char> {
    if e.hi() == e.lo() + 1 {
        dec(e.lo())
    } else {
        dec(e.lo()) + seq!['-'] + dec((e.hi() - 1) as nat)
    }
}

/// The elements, space separated, each depth written as `depth/` before the
/// first element at that depth.
pub open spec fn elems_text(s: Seq<CellOrCellRangePSQL>) -> Seq<char>
    decreases s.len(),
{
    if s.len() == 0 {
        Seq::empty()
    } else {
        let e = s.last();
        let head = if s.len() == 1 || s[s.len() - 2].depth() != e.depth() {
            dec(e.depth()) + seq!['/']
        } else {
            Seq::empty()
        };
        let sep = if s.len() == 1 { Seq::empty() } else { seq![' '] };
        elems_text(s.drop_last()) + sep + head + elem_text(e)
    }
}

/// The notation of a normalized cell list; `depth_max/` closes it when no
/// element lies at `depth_max`.
pub open spec fn ascii_text(l: CellOrCellRangeMOCPSQL) -> Seq<char> {
    let s = l.ranges@;
    if s.len() == 0 {
        dec(l.depth_max as nat) + seq!['/']
    } else if s.last().depth() < l.depth_max {
        elems_text(s) + seq![' '] + dec(l.depth_max as nat) + seq!['/']
    } else {
        elems_text(s)
    }
}

fn digit_str(d: u64) -> (r: &'static str)
    requires
        d < 10,
    ensures
        r@ == seq![digit_char(d as nat)],
{
    proof {
        reveal_strlit("0");
        reveal_strlit("1");
        reveal_strlit("2");
        reveal_strlit("3");
        reveal_strlit("4");
        reveal_strlit("5");
        reveal_strlit("6");
        reveal_strlit("7");
        reveal_strlit("8");
        reveal_strlit("9");
    }
    if d == 0 {
        "0"
    } else if d == 1 {
        "1"
    } else if d == 2 {
        "2"
    } else if d == 3 {
        "3"
    } else if d == 4 {
        "4"
    } else if d == 5 {
        "5"
    } else if d == 6 {
        "6"
    } else if d == 7 {
        "7"
    } else if d == 8 {
        "8"
    } else {
        "9"
    }
}

fn push_dec(s: &mut String, n: u64)
    ensures
        final(s)@ == old(s)@ + dec(n as nat),
    decreases n,
{
    if n >= 10 {
        push_dec(s, n / 10);
    }
    let ghost mid = s@;
    s.append(digit_str(n % 10));
    proof {
        if n >= 10 {
            assert(dec(n as nat) == dec((n / 10) as nat).push(digit_char((n % 10) as nat)));
            assert(s@ =~= old(s)@ + dec(n as nat));
        } else {
            assert(s@ =~= old(s)@ + dec(n as nat));
        }
    }
}

fn push_str(s: &mut String, t: &str)
    ensures
        final(s)@ == old(s)@ + t@,
{
    s.append(t);
}

fn elem_depth(e: &CellOrCellRangePSQL) -> (r: u8)
    ensures
        r as nat == e.depth(),
{
    match e {
        CellOrCellRangePSQL::CellPSQL(c) => c.depth,
        CellOrCellRangePSQL::CellRangePSQL(c) => c.depth,
    }
}

/// Appends an optional separator, an optional `depth/` and the element.
fn push_elem(out: &mut String, e: &CellOrCellRangePSQL, sep: bool, head: bool)
    requires
        e.lo() < e.hi(),
    ensures
        final(out)@ == old(out)@ + (if sep { seq![' '] } else { Seq::<char>::empty() }) + (if head {
            dec(e.depth()) + seq!['/']
        } else {
            Seq::<char>::empty()
        }) + elem_text(*e),
{
    proof {
        reveal_strlit(" ");
        reveal_strlit("/");
        reveal_strlit("-");
    }
    let (d, lo, hi) = match e {
        CellOrCellRangePSQL::CellPSQL(c) => (c.depth, c.idx, None),
        CellOrCellRangePSQL::CellRangePSQL(c) => (c.depth, c.range.start, Some(c.range.end)),
    };
    let ghost start = out@;
    if sep {
        push_str(out, " ");
    }
    if head {
        push_dec(out, d as u64);
        push_str(out, "/");
    }
    let ghost after_head = out@;
    push_dec(out, lo);
    match hi {
        None => {
            assert(out@ =~= after_head + elem_text(*e));
        },
        Some(end) => {
            if end - lo != 1 {
                let ghost mid = out@;
                push_str(out, "-");
                push_dec(out, end - 1);
                assert(out@ =~= mid + seq!['-'] + dec((end - 1) as nat));
            }
            assert(out@ =~= after_head + elem_text(*e));
        },
    }
    assert(out@ =~= start + (if sep { seq![' '] } else { Seq::<char>::empty() }) + (if head {
        dec(e.depth()) + seq!['/']
    } else {
        Seq::<char>::empty()
    }) + elem_text(*e));
}

/// The notation of a normalized cell list.
pub fn cells_to_ascii(l: &CellOrCellRangeMOCPSQL) -> (r: String)
    requires
        l.wf(),
    ensures
        r@ == ascii_text(*l),
{
    proof {
        reveal_strlit(" ");
        reveal_strlit("/");
        reveal_strlit("-");
    }
    let mut out = String::new();
    let mut i: usize = 0;
    let mut last_depth: u8 = 0;
    while i < l.ranges.len()
        invariant
            l.wf(),
            i <= l.ranges@.len(),
            out@ == elems_text(l.ranges@.take(i as int)),
            i > 0 ==> last_depth as nat == l.ranges@[i - 1].depth(),
        decreases l.ranges.len() - i,
    {
        let ghost e = l.ranges@[i as int];
        let ghost before = out@;
        proof {
            assert(e.ok(l.depth_max as nat));
        }
        let d = elem_depth(&l.ranges[i]);
        let head = i == 0 || last_depth != d;
        push_elem(&mut out, &l.ranges[i], i > 0, head);
        proof {
            let t = l.ranges@.take(i + 1);
            assert(t.drop_last() =~= l.ranges@.take(i as int));
            assert(t.last() == e);
            if i > 0 {
                assert(t[t.len() - 2] == l.ranges@[i - 1]);
            }
            assert(out@ =~= elems_text(t));
        }
        last_depth = d;
        i = i + 1;
    }
    proof {
        assert(l.ranges@.take(l.ranges@.len() as int) =~= l.ranges@);
    }
    let n = l.ranges.len();
    proof {
        reveal_strlit(" ");
        reveal_strlit("/");
    }
    if n == 0 {
        push_dec(&mut out, l.depth_max as u64);
        push_str(&mut out, "/");
    } else if last_depth < l.depth_max {
        push_str(&mut out, " ");
        push_dec(&mut out, l.depth_max as u64);
        push_str(&mut out, "/");
    }
    proof {
        assert(out@ =~= ascii_text(*l));
    }
    out
}


/// The notation of `moc`: that of its normalized cell list.
pub fn moc_to_ascii(moc: RangeMOCPSQL) -> (r: String)
    requires
        moc.wf(),
    ensures
        exists|l: CellOrCellRangeMOCPSQL|
            l.depth_max == moc.depth_max && canonical_cells(l, moc.cells()) && r@ == ascii_text(l),
{
    let l = to_normalized_cells(&moc);
    cells_to_ascii(&l)
}

/// Characters that separate tokens.
pub open spec fn is_space(c: char) -> bool {
    c == ' ' || c == '\n' || c == '\t' || c == '\r'
}

/// The maximal runs of non-space characters of `s`, in order.
pub open spec fn tokens_of(s: Seq<char>) -> Seq<Seq<char>>
    decreases s.len(),
{
    if s.len() == 0 {
        Seq::empty()
    } else {
        let p = tokens_of(s.drop_last());
        let c = s.last();
        if is_space(c) {
            p
        } else if s.len() >= 2 && !is_space(s[s.len() - 2]) {
            p.update(p.len() - 1, p.last().push(c))
        } else {
            p.push(seq![c])
        }
    }
}

proof fn lemma_tokens_nonempty(s: Seq<char>)
    requires
        s.len() > 0,
        !is_space(s.last()),
    ensures
        tokens_of(s).len() > 0,
    decreases s.len(),
{
    if s.len() >= 2 && !is_space(s[s.len() - 2]) {
        lemma_tokens_nonempty(s.drop_last());
    }
}

pub open spec fn is_digit(c: char) -> bool {
    '0' <= c && c <= '9'
}

/// The value of a run of decimal digits.
pub open spec fn digits_value(s: Seq<char>) -> nat
    decreases s.len(),
{
    if s.len() == 0 {
        0
    } else {
        digits_value(s.drop_last()) * 10 + ((s.last() as u32) - ('0' as u32)) as nat
    }
}

/// A non-empty run of decimal digits.
pub open spec fn is_number(s: Seq<char>) -> bool {
    s.len() > 0 && forall|i: int| 0 <= i < s.len() ==> is_digit(#[trigger] s[i])
}

/// The first position of `c` in `s`, or -1.
pub open spec fn first_index(s: Seq<char>, c: char) -> int
    decreases s.len(),
{
    if s.len() == 0 {
        -1
    } else {
        let p = first_index(s.drop_last(), c);
        if p >= 0 {
            p
        } else if s.last() == c {
            s.len() - 1
        } else {
            -1
        }
    }
}

/// The cells of a token, after its `depth/` if any: nothing, `a`, or `a-b`
/// (given as `(a, b)`); `None` when malformed.
pub open spec fn cells_part(s: Seq<char>) -> Option<Option<(nat, nat)>> {
    if s.len() == 0 {
        Some(None)
    } else {
        let k = first_index(s, '-');
        if k < 0 {
            if is_number(s) {
                Some(Some((digits_value(s), digits_value(s))))
            } else {
                None
            }
        } else {
            let a = s.subrange(0, k);
            let b = s.subrange(k + 1, s.len() as int);
            if is_number(a) && is_number(b) {
                Some(Some((digits_value(a), digits_value(b))))
            } else {
                None
            }
        }
    }
}

/// A token as an optional depth and optional cells; `None` when malformed.
pub open spec fn token_parts(t: Seq<char>) -> Option<(Option<nat>, Option<(nat, nat)>)> {
    let k = first_index(t, '/');
    if k < 0 {
        match cells_part(t) {
            Some(Some(c)) => Some((None, Some(c))),
            _ => None,
        }
    } else {
        let d = t.subrange(0, k);
        if !is_number(d) {
            None
        } else {
            match cells_part(t.subrange(k + 1, t.len() as int)) {
                Some(c) => Some((Some(digits_value(d)), c)),
                None => None,
            }
        }
    }
}

/// Reads one token in the state `(cur, items)`. A depth must exceed the one
/// before and stay within 29; a run needs a depth, must end inside its depth
/// and must not be reversed.
pub open spec fn step(cur: Option<nat>, items: Seq<(nat, nat, nat)>, t: Seq<char>) -> Result<(Option<nat>, Seq<(nat, nat, nat)>), HealpixError> {
    match token_parts(t) {
        None => Err(HealpixError::MalformedText),
        Some((dopt, copt)) => {
            let depth_ok = match dopt {
                None => Ok(cur),
                Some(d) => if cur matches Some(c) && d <= c {
                    Err(HealpixError::MalformedText)
                } else if d > 29 {
                    Err(HealpixError::InvalidDepth)
                } else {
                    Ok(Some(d))
                },
            };
            match depth_ok {
                Err(e) => Err(e),
                Ok(cur2) => match copt {
                    None => Ok((cur2, items)),
                    Some((a, b)) => match cur2 {
                        None => Err(HealpixError::MalformedText),
                        Some(d) => if b >= n_hash_spec(d) {
                            Err(HealpixError::InvalidRange)
                        } else if a > b {
                            Err(HealpixError::MalformedText)
                        } else {
                            Ok((cur2, items.push((d, a, b + 1))))
                        },
                    },
                },
            }
        },
    }
}

/// The depth in force and the runs `(depth, first, end)` read from `ts`.
pub open spec fn fold_tokens(ts: Seq<Seq<char>>) -> Result<(Option<nat>, Seq<(nat, nat, nat)>), HealpixError>
    decreases ts.len(),
{
    if ts.len() == 0 {
        Ok((None, Seq::empty()))
    } else {
        match fold_tokens(ts.drop_last()) {
            Err(e) => Err(e),
            Ok((cur, items)) => step(cur, items, ts.last()),
        }
    }
}

/// What a text reads as: the last depth and the runs; a text with no depth is
/// malformed.
pub open spec fn text_parse(s: Seq<char>) -> Result<(nat, Seq<(nat, nat, nat)>), HealpixError> {
    match fold_tokens(tokens_of(s)) {
        Err(e) => Err(e),
        Ok((None, _)) => Err(HealpixError::MalformedText),
        Ok((Some(d), items)) => Ok((d, items)),
    }
}

/// `x` lies in one of the runs `items`.
pub open spec fn in_items(items: Seq<(nat, nat, nat)>, x: int) -> bool {
    exists|i: int| 0 <= i < items.len() && #[trigger] items[i].1 * granularity(items[i].0) <= x < items[i].2 * granularity(items[i].0)
}


/// `v` as a machine integer, or `None` when it does not fit.
pub open spec fn capped(v: nat) -> Option<u64> {
    if v <= u64::MAX {
        Some(v as u64)
    } else {
        None
    }
}

fn chars_of(input: &str) -> (r: Vec<char>)
    ensures
        r@ == input@,
{
    let mut it = input.chars();
    let mut out: Vec<char> = Vec::new();
    proof {
        vstd::string::axiom_spec_iter(input);
    }
    loop
        invariant
            out@ + it.remaining() == input@,
            it.decrease() is Some,
        ensures
            out@ == input@,
        decreases it.decrease()->0,
    {
        let ghost prev = it;
        let next = it.next();
        proof {
            vstd::string::next_postcondition(&prev, &it, next);
        }
        match next {
            None => {
                proof {
                    assert(out@ =~= input@);
                }
                break;
            },
            Some(c) => {
                proof {
                    assert(out@.push(c) + it.remaining() =~= out@ + prev.remaining());
                }
                out.push(c);
            },
        }
    }
    out
}

fn tokenize(input: &str) -> (r: Vec<Vec<char>>)
    ensures
        r@.len() == tokens_of(input@).len(),
        forall|k: int| 0 <= k < r@.len() ==> #[trigger] r@[k]@ == tokens_of(input@)[k],
{
    let text = chars_of(input);
    let n = text.len();
    let mut tokens: Vec<Vec<char>> = Vec::new();
    let mut prev_word = false;
    let mut i: usize = 0;
    while i < n
        invariant
            text@ == input@,
            n == input@.len(),
            i <= n,
            prev_word == (i > 0 && !is_space(input@[i - 1])),
            tokens@.len() == tokens_of(input@.take(i as int)).len(),
            forall|k: int| 0 <= k < tokens@.len() ==> #[trigger] tokens@[k]@ == tokens_of(input@.take(i as int))[k],
        decreases n - i,
    {
        let c = text[i];
        let ghost pre = input@.take(i as int);
        let ghost cur = input@.take(i + 1);
        proof {
            assert(cur.drop_last() =~= pre);
            assert(cur.last() == c);
            if i > 0 {
                assert(cur[cur.len() - 2] == input@[i - 1]);
            }
        }
        if c == ' ' || c == '\n' || c == '\t' || c == '\r' {
            prev_word = false;
        } else if prev_word {
            proof {
                lemma_tokens_nonempty(pre);
                assert(pre.last() == input@[i - 1]);
            }
            let mut last = tokens.pop().unwrap();
            last.push(c);
            tokens.push(last);
            prev_word = true;
            proof {
                assert forall|k: int| 0 <= k < tokens@.len() implies #[trigger] tokens@[k]@ == tokens_of(cur)[k] by {
                    if k == tokens@.len() - 1 {
                        assert(tokens_of(cur)[k] =~= tokens_of(pre).last().push(c));
                    }
                }
            }
        } else {
            let mut word: Vec<char> = Vec::new();
            word.push(c);
            tokens.push(word);
            prev_word = true;
            proof {
                assert(word@ =~= seq![c]);
                assert forall|k: int| 0 <= k < tokens@.len() implies #[trigger] tokens@[k]@ == tokens_of(cur)[k] by {
                }
            }
        }
        i = i + 1;
    }
    proof {
        assert(input@.take(n as int) =~= input@);
    }
    tokens
}

fn parse_number(t: &Vec<char>, from: usize, to: usize) -> (r: Option<Option<u64>>)
    requires
        from <= to <= t@.len(),
    ensures
        r == (if is_number(t@.subrange(from as int, to as int)) {
            Some(capped(digits_value(t@.subrange(from as int, to as int))))
        } else {
            None::<Option<u64>>
        }),
{
    if from == to {
        return None;
    }
    let mut acc: Option<u64> = Some(0);
    let mut j: usize = from;
    while j < to
        invariant
            from < to <= t@.len(),
            from <= j <= to,
            forall|k: int| from <= k < j ==> is_digit(#[trigger] t@[k]),
            acc == capped(digits_value(t@.subrange(from as int, j as int))),
        decreases to - j,
    {
        let c = t[j];
        if !('0' <= c && c <= '9') {
            proof {
                assert(t@.subrange(from as int, to as int)[j - from] == c);
            }
            return None;
        }
        let dv: u64 = ((c as u32) - ('0' as u32)) as u64;
        proof {
            let sub = t@.subrange(from as int, j + 1);
            assert(sub.drop_last() =~= t@.subrange(from as int, j as int));
            assert(sub.last() == c);
            assert(digits_value(sub) == digits_value(t@.subrange(from as int, j as int)) * 10 + dv);
        }
        acc = match acc {
            None => None,
            Some(v) => {
                if v > (u64::MAX - dv) / 10 {
                    None
                } else {
                    Some(v * 10 + dv)
                }
            },
        };
        j = j + 1;
    }
    proof {
        assert forall|k: int| 0 <= k < t@.subrange(from as int, to as int).len() implies is_digit(#[trigger] t@.subrange(from as int, to as int)[k]) by {
            assert(t@.subrange(from as int, to as int)[k] == t@[from + k]);
        }
    }
    Some(acc)
}

fn find_char(t: &Vec<char>, from: usize, to: usize, c: char) -> (r: Option<usize>)
    requires
        from <= to <= t@.len(),
    ensures
        first_index(t@.subrange(from as int, to as int), c) < 0 ==> r is None,
        first_index(t@.subrange(from as int, to as int), c) >= 0 ==> r == Some((from + first_index(t@.subrange(from as int, to as int), c)) as usize),
        r matches Some(k) ==> from <= k < to,
{
    let mut j: usize = from;
    while j < to
        invariant
            from <= j <= to <= t@.len(),
            first_index(t@.subrange(from as int, j as int), c) == -1,
        decreases to - j,
    {
        let ghost sub = t@.subrange(from as int, j + 1);
        proof {
            assert(sub.drop_last() =~= t@.subrange(from as int, j as int));
        }
        if t[j] == c {
            proof {
                assert(first_index(sub, c) == j - from);
                lemma_first_index_prefix(t@.subrange(from as int, to as int), (j + 1 - from) as int, c);
                assert(t@.subrange(from as int, to as int).subrange(0, (j + 1 - from) as int) =~= sub);
            }
            return Some(j);
        }
        j = j + 1;
    }
    None
}

proof fn lemma_first_index_bounds(s: Seq<char>, c: char)
    ensures
        -1 <= first_index(s, c) < s.len(),
    decreases s.len(),
{
    if s.len() > 0 {
        lemma_first_index_bounds(s.drop_last(), c);
    }
}

/// A prefix that holds `c` decides the first position of `c`.
proof fn lemma_first_index_prefix(s: Seq<char>, n: int, c: char)
    requires
        0 <= n <= s.len(),
        first_index(s.subrange(0, n), c) >= 0,
    ensures
        first_index(s, c) == first_index(s.subrange(0, n), c),
    decreases s.len() - n,
{
    if n < s.len() {
        assert(s.subrange(0, n + 1).drop_last() =~= s.subrange(0, n));
        lemma_first_index_prefix(s, n + 1, c);
    } else {
        assert(s.subrange(0, n) =~= s);
    }
}


/// `cells_part` with its numbers as machine integers.
pub open spec fn capped_cells(c: Option<Option<(nat, nat)>>) -> Option<Option<(Option<u64>, Option<u64>)>> {
    match c {
        None => None,
        Some(None) => Some(None),
        Some(Some((a, b))) => Some(Some((capped(a), capped(b)))),
    }
}

fn cells_of(t: &Vec<char>, from: usize, to: usize) -> (r: Option<Option<(Option<u64>, Option<u64>)>>)
    requires
        from <= to <= t@.len(),
    ensures
        r == capped_cells(cells_part(t@.subrange(from as int, to as int))),
{
    let ghost sub = t@.subrange(from as int, to as int);
    proof {
        lemma_first_index_bounds(sub, '-');
    }
    if from == to {
        return Some(None);
    }
    match find_char(t, from, to, '-') {
        None => match parse_number(t, from, to) {
            None => None,
            Some(v) => Some(Some((v, v))),
        },
        Some(k) => {
            proof {
                let kk = k - from;
                assert(sub.subrange(0, kk) =~= t@.subrange(from as int, k as int));
                assert(sub.subrange(kk + 1, sub.len() as int) =~= t@.subrange(k + 1, to as int));
            }
            let a = parse_number(t, from, k);
            let b = parse_number(t, k + 1, to);
            match (a, b) {
                (Some(x), Some(y)) => Some(Some((x, y))),
                _ => None,
            }
        },
    }
}

/// Runs as machine integers, seen as natural numbers.
pub open spec fn items_view(v: Seq<(u8, u64, u64)>) -> Seq<(nat, nat, nat)> {
    v.map_values(|x: (u8, u64, u64)| (x.0 as nat, x.1 as nat, x.2 as nat))
}

/// A depth as a natural number.
pub open spec fn depth_view(c: Option<u8>) -> Option<nat> {
    match c {
        None => None,
        Some(d) => Some(d as nat),
    }
}

/// Runs that a coverage at depth `cur` can hold.
pub open spec fn items_fit(v: Seq<(u8, u64, u64)>, cur: Option<u8>) -> bool {
    forall|k: int| 0 <= k < v.len() ==> {
        &&& cur is Some
        &&& (#[trigger] v[k]).0 <= cur.unwrap()
        &&& v[k].1 < v[k].2
        &&& v[k].2 <= n_hash_spec(v[k].0 as nat)
    }
}

fn apply_token(t: &Vec<char>, cur: Option<u8>, items: &mut Vec<(u8, u64, u64)>) -> (r: Result<Option<u8>, HealpixError>)
    requires
        cur matches Some(c) ==> c <= 29,
        items_fit(old(items)@, cur),
    ensures
        match step(depth_view(cur), items_view(old(items)@), t@) {
            Err(e) => r == Err::<Option<u8>, HealpixError>(e),
            Ok((c2, its)) => r matches Ok(c) && depth_view(c) == c2 && items_view(final(items)@) == its,
        },
        r matches Ok(c) ==> (c matches Some(d) ==> d <= 29) && items_fit(final(items)@, c),
{
    let n = t.len();
    proof {
        assert(t@.subrange(0, n as int) =~= t@);
    }
    let slash = find_char(t, 0, n, '/');
    let ghost tp = token_parts(t@);
    proof {
        lemma_first_index_bounds(t@, '/');
    }
    let (dopt, cells): (Option<Option<u64>>, Option<(Option<u64>, Option<u64>)>) = match slash {
        None => {
            let c = cells_of(t, 0, n);
            proof {
                assert(first_index(t@, '/') < 0);
            }
            match c {
                Some(Some(ab)) => (None, Some(ab)),
                _ => {
                    proof {
                        assert(tp is None);
                    }
                    return Err(HealpixError::MalformedText);
                },
            }
        },
        Some(k) => {
            proof {
                assert(k == first_index(t@, '/'));
                assert(t@.subrange(0, n as int) =~= t@);
            }
            match parse_number(t, 0, k) {
                None => {
                    proof {
                        assert(tp is None);
                    }
                    return Err(HealpixError::MalformedText);
                },
                Some(dv) => {
                    let c = cells_of(t, k + 1, n);
                    match c {
                        None => {
                            proof {
                                assert(tp is None);
                            }
                            return Err(HealpixError::MalformedText);
                        },
                        Some(c) => (Some(dv), c),
                    }
                },
            }
        },
    };
    proof {
        assert(tp matches Some(p) && dopt == (match p.0 {
            None => None::<Option<u64>>,
            Some(d) => Some(capped(d)),
        }) && cells == (match p.1 {
            None => None::<(Option<u64>, Option<u64>)>,
            Some(ab) => Some((capped(ab.0), capped(ab.1))),
        }));
    }
    let cur2: Option<u8> = match dopt {
        None => cur,
        Some(None) => {
            return Err(HealpixError::InvalidDepth);
        },
        Some(Some(d)) => {
            let after = match cur {
                Some(c) => d <= c as u64,
                None => false,
            };
            if after {
                return Err(HealpixError::MalformedText);
            }
            if d > 29 {
                return Err(HealpixError::InvalidDepth);
            }
            Some(d as u8)
        },
    };
    match cells {
        None => Ok(cur2),
        Some((av, bv)) => match cur2 {
            None => Err(HealpixError::MalformedText),
            Some(d) => {
                let b = match bv {
                    None => {
                        proof {
                            crate::cell::lemma_npix_bound(d as nat);
                            let p = tp.unwrap();
                            assert(p.1 matches Some(ab) && capped(ab.1) is None && ab.1 > u64::MAX);
                            assert(depth_view(cur2) == Some(d as nat));
                        }
                        return Err(HealpixError::InvalidRange);
                    },
                    Some(b) => b,
                };
                proof {
                    let p = tp.unwrap();
                    assert(p.1 matches Some(ab) && capped(ab.1) == Some(b) && ab.1 == b as nat);
                    assert(depth_view(cur2) == Some(d as nat));
                }
                if b >= n_hash(d) {
                    return Err(HealpixError::InvalidRange);
                }
                let a = match av {
                    None => {
                        return Err(HealpixError::MalformedText);
                    },
                    Some(a) => a,
                };
                if a > b {
                    return Err(HealpixError::MalformedText);
                }
                let ghost before = items@;
                items.push((d, a, b + 1));
                proof {
                    assert(items_view(items@) =~= items_view(before).push((d as nat, a as nat, b as nat + 1)));
                }
                Ok(cur2)
            },
        },
    }
}

proof fn lemma_fold_err(ts: Seq<Seq<char>>, i: int)
    requires
        0 <= i <= ts.len(),
        fold_tokens(ts.take(i)) is Err,
    ensures
        fold_tokens(ts) == fold_tokens(ts.take(i)),
    decreases ts.len() - i,
{
    if i < ts.len() {
        assert(ts.take(i + 1).drop_last() =~= ts.take(i));
        lemma_fold_err(ts, i + 1);
    } else {
        assert(ts.take(i) =~= ts);
    }
}

/// The coverage written in `input`: its depth is the last depth of the text,
/// its cells those of the runs. `MalformedText` for a token that follows no
/// rule, a depth not above the one before, a run before any depth, or a
/// reversed run; `InvalidDepth` for a depth above 29; `InvalidRange` for a
/// run that ends outside its depth.
pub fn moc_from_ascii_ivoa(input: &str) -> (r: Result<RangeMOCPSQL, HealpixError>)
    ensures
        match text_parse(input@) {
            Err(e) => r == Err::<RangeMOCPSQL, HealpixError>(e),
            Ok((d, items)) => r matches Ok(m) && m.wf() && m.depth_max == d && m.cells() == Set::new(|x: int| in_items(items, x)),
        },
{
    let tokens = tokenize(input);
    let ghost ts = tokens_of(input@);
    let mut cur: Option<u8> = None;
    let mut items: Vec<(u8, u64, u64)> = Vec::new();
    let mut i: usize = 0;
    proof {
        assert(ts.take(0) =~= Seq::<Seq<char>>::empty());
        assert(items_view(items@) =~= Seq::<(nat, nat, nat)>::empty());
    }
    while i < tokens.len()
        invariant
            ts == tokens_of(input@),
            tokens@.len() == ts.len(),
            forall|k: int| 0 <= k < tokens@.len() ==> #[trigger] tokens@[k]@ == ts[k],
            i <= tokens@.len(),
            cur matches Some(c) ==> c <= 29,
            items_fit(items@, cur),
            fold_tokens(ts.take(i as int)) == Ok::<(Option<nat>, Seq<(nat, nat, nat)>), HealpixError>((depth_view(cur), items_view(items@))),
        decreases tokens.len() - i,
    {
        proof {
            assert(ts.take(i + 1).drop_last() =~= ts.take(i as int));
            assert(ts.take(i + 1).last() == tokens@[i as int]@);
        }
        match apply_token(&tokens[i], cur, &mut items) {
            Err(e) => {
                proof {
                    lemma_fold_err(ts, i + 1);
                }
                return Err(e);
            },
            Ok(c) => {
                cur = c;
            },
        }
        i = i + 1;
    }
    proof {
        assert(ts.take(tokens@.len() as int) =~= ts);
    }
    let dmax = match cur {
        None => {
            return Err(HealpixError::MalformedText);
        },
        Some(d) => d,
    };
    let ghost sitems = items_view(items@);
    let mut ranges: Vec<Range<u64>> = Vec::new();
    let mut k: usize = 0;
    while k < items.len()
        invariant
            dmax <= 29,
            cur == Some(dmax),
            items_fit(items@, cur),
            sitems == items_view(items@),
            k <= items@.len(),
            ranges@.len() == k,
            forall|j: int| 0 <= j < k ==> valid_range(#[trigger] ranges@[j], dmax as nat),
            forall|x: int| in_ranges(ranges@, x) <==> in_items(sitems.take(k as int), x),
        decreases items.len() - k,
    {
        let (d, a, e) = items[k];
        proof {
            assert(items_fit(items@, cur));
            assert(items@[k as int] == (d, a, e));
            lemma_cells_fit(d as nat, e as nat);
        }
        let g = pow4_u64(DEPTH_MAX - d);
        proof {
            crate::cell::lemma_pow4_pos((29 - d) as nat);
            assert(a * g <= e * g) by (nonlinear_arith)
                requires
                    a < e,
            ;
            vstd::arithmetic::div_mod::lemma_mod_multiples_basic(a as int, g as int);
            vstd::arithmetic::div_mod::lemma_mod_multiples_basic(e as int, g as int);
            lemma_granularity_divides((a * g) as int, d as nat, dmax as nat);
            lemma_granularity_divides((e * g) as int, d as nat, dmax as nat);
        }
        let ghost before = ranges@;
        ranges.push(Range { start: a * g, end: e * g });
        proof {
            assert(ranges@.drop_last() =~= before);
            let t = sitems.take(k + 1);
            assert(t[k as int] == (d as nat, a as nat, e as nat));
            assert(g == granularity(d as nat));
            assert forall|x: int| in_ranges(ranges@, x) <==> in_items(t, x) by {
                assert(in_ranges(ranges@, x) == ((a * g <= x < e * g) || in_ranges(before, x)));
                assert(in_ranges(before, x) <==> in_items(sitems.take(k as int), x));
                if in_items(t, x) {
                    let j = choose|j: int| 0 <= j < t.len() && #[trigger] t[j].1 * granularity(t[j].0) <= x < t[j].2 * granularity(t[j].0);
                    if j < k {
                        assert(sitems.take(k as int)[j] == t[j]);
                    }
                }
                if in_items(sitems.take(k as int), x) {
                    let j = choose|j: int| 0 <= j < sitems.take(k as int).len() && #[trigger] sitems.take(k as int)[j].1 * granularity(sitems.take(k as int)[j].0) <= x < sitems.take(k as int)[j].2 * granularity(sitems.take(k as int)[j].0);
                    assert(t[j] == sitems.take(k as int)[j]);
                }
                if a * g <= x < e * g {
                    assert(t[k as int].1 * granularity(t[k as int].0) <= x < t[k as int].2 * granularity(t[k as int].0));
                }
            }
        }
        k = k + 1;
    }
    proof {
        assert(sitems.take(items@.len() as int) =~= sitems);
    }
    match create_range_moc_psql(dmax, ranges) {
        Ok(m) => {
            proof {
                assert(m.cells() =~= Set::new(|x: int| in_items(sitems, x)));
            }
            Ok(m)
        },
        Err(e) => Err(e),
    }
}


proof fn lemma_digit_char(d: nat)
    requires
        d < 10,
    ensures
        is_digit(digit_char(d)),
        ((digit_char(d) as u32) - ('0' as u32)) as nat == d,
{
}

/// The notation of `n` is a non-empty run of digits worth `n`.
proof fn lemma_dec(n: nat)
    ensures
        is_number(dec(n)),
        digits_value(dec(n)) == n,
    decreases n,
{
    if n >= 10 {
        lemma_dec(n / 10);
        lemma_digit_char(n % 10);
        let p = dec(n / 10);
        assert(dec(n).drop_last() =~= p);
        assert(dec(n).last() == digit_char(n % 10));
        assert(digits_value(dec(n)) == digits_value(p) * 10 + ((digit_char(n % 10) as u32) - ('0' as u32)) as nat);
        assert(n == (n / 10) * 10 + n % 10);
        assert forall|i: int| 0 <= i < dec(n).len() implies is_digit(#[trigger] dec(n)[i]) by {
            if i < p.len() {
                assert(dec(n)[i] == p[i]);
            }
        }
    } else {
        lemma_digit_char(n);
        assert(dec(n).drop_last() =~= Seq::<char>::empty());
        assert(digits_value(Seq::<char>::empty()) == 0);
        assert(digits_value(dec(n)) == digits_value(Seq::<char>::empty()) * 10 + ((digit_char(n) as u32) - ('0' as u32)) as nat);
    }
}

/// Characters of the notation.
pub open spec fn is_text_char(c: char) -> bool {
    is_digit(c) || c == '/' || c == '-'
}

/// A non-empty token made of digits, `/` and `-`.
pub open spec fn is_word(t: Seq<char>) -> bool {
    t.len() > 0 && forall|i: int| 0 <= i < t.len() ==> is_text_char(#[trigger] t[i])
}

/// Tokens separated by single spaces.
pub open spec fn join(ts: Seq<Seq<char>>) -> Seq<char>
    decreases ts.len(),
{
    if ts.len() == 0 {
        Seq::empty()
    } else if ts.len() == 1 {
        ts[0]
    } else {
        join(ts.drop_last()) + seq![' '] + ts.last()
    }
}

proof fn lemma_tokens_append(x: Seq<char>, t: Seq<char>)
    requires
        is_word(t),
        x.len() == 0 || is_space(x.last()),
    ensures
        tokens_of(x + t) == tokens_of(x).push(t),
    decreases t.len(),
{
    if t.len() == 1 {
        assert((x + t).drop_last() =~= x);
        assert(t =~= seq![t[0]]);
        assert(is_text_char(t[0]));
    } else {
        let t2 = t.drop_last();
        assert forall|i: int| 0 <= i < t2.len() implies is_text_char(#[trigger] t2[i]) by {
            assert(t2[i] == t[i]);
        }
        lemma_tokens_append(x, t2);
        assert((x + t).drop_last() =~= x + t2);
        assert((x + t)[(x + t).len() - 2] == t2.last());
        assert(is_text_char(t2.last()) && is_text_char(t.last()));
        assert(t2.push(t.last()) =~= t);
        assert(tokens_of(x).push(t2).update(tokens_of(x).len() as int, t2.push(t.last())) =~= tokens_of(x).push(t));
    }
}

/// Splitting joined words gives the words back.
proof fn lemma_tokens_join(ts: Seq<Seq<char>>)
    requires
        forall|i: int| 0 <= i < ts.len() ==> is_word(#[trigger] ts[i]),
    ensures
        tokens_of(join(ts)) == ts,
    decreases ts.len(),
{
    if ts.len() == 1 {
        lemma_tokens_append(Seq::empty(), ts[0]);
        assert(Seq::<char>::empty() + ts[0] =~= ts[0]);
        assert(Seq::<Seq<char>>::empty().push(ts[0]) =~= ts);
    } else if ts.len() > 1 {
        let p = ts.drop_last();
        assert forall|i: int| 0 <= i < p.len() implies is_word(#[trigger] p[i]) by {
            assert(p[i] == ts[i]);
        }
        lemma_tokens_join(p);
        let x = join(p).push(' ');
        assert(x.drop_last() =~= join(p));
        assert(is_word(ts.last()));
        lemma_tokens_append(x, ts.last());
        assert(join(ts) =~= x + ts.last());
        assert(p.push(ts.last()) =~= ts);
    }
}

/// The token of element `i`: its `depth/` when the depth changes, then the
/// element.
pub open spec fn elem_token(s: Seq<CellOrCellRangePSQL>, i: int) -> Seq<char> {
    (if i == 0 || s[i - 1].depth() != s[i].depth() {
        dec(s[i].depth()) + seq!['/']
    } else {
        Seq::empty()
    }) + elem_text(s[i])
}

pub open spec fn elem_tokens(s: Seq<CellOrCellRangePSQL>) -> Seq<Seq<char>> {
    Seq::new(s.len(), |i: int| elem_token(s, i))
}

/// The tokens of the notation of `l`.
pub open spec fn text_tokens(l: CellOrCellRangeMOCPSQL) -> Seq<Seq<char>> {
    let s = l.ranges@;
    if s.len() == 0 {
        seq![dec(l.depth_max as nat) + seq!['/']]
    } else if s.last().depth() < l.depth_max {
        elem_tokens(s).push(dec(l.depth_max as nat) + seq!['/'])
    } else {
        elem_tokens(s)
    }
}

proof fn lemma_elems_text_join(s: Seq<CellOrCellRangePSQL>)
    ensures
        elems_text(s) == join(elem_tokens(s)),
    decreases s.len(),
{
    if s.len() > 0 {
        let p = s.drop_last();
        lemma_elems_text_join(p);
        assert(elem_tokens(s).drop_last() =~= elem_tokens(p)) by {
            assert forall|i: int| 0 <= i < p.len() implies elem_token(s, i) == elem_token(p, i) by {
                assert(s[i] == p[i]);
                if i > 0 {
                    assert(s[i - 1] == p[i - 1]);
                }
            }
        }
        if s.len() == 1 {
            assert(elems_text(s) =~= elem_token(s, 0));
        } else {
            assert(elems_text(s) =~= join(elem_tokens(s)));
        }
    }
}

proof fn lemma_ascii_join(l: CellOrCellRangeMOCPSQL)
    ensures
        ascii_text(l) == join(text_tokens(l)),
{
    let s = l.ranges@;
    lemma_elems_text_join(s);
    if s.len() > 0 && s.last().depth() < l.depth_max {
        let ts = elem_tokens(s).push(dec(l.depth_max as nat) + seq!['/']);
        assert(ts.drop_last() =~= elem_tokens(s));
    }
}

proof fn lemma_number_is_word(t: Seq<char>)
    requires
        is_number(t),
    ensures
        is_word(t),
        forall|i: int| 0 <= i < t.len() ==> #[trigger] t[i] != '/' && t[i] != '-',
{
}

proof fn lemma_elem_text(e: CellOrCellRangePSQL)
    requires
        e.lo() < e.hi(),
    ensures
        is_word(elem_text(e)),
        forall|i: int| 0 <= i < elem_text(e).len() ==> #[trigger] elem_text(e)[i] != '/',
        first_index(elem_text(e), '/') == -1,
        cells_part(elem_text(e)) == Some(Some((e.lo(), (e.hi() - 1) as nat))),
{
    lemma_dec(e.lo());
    lemma_number_is_word(dec(e.lo()));
    if e.hi() == e.lo() + 1 {
        lemma_first_index_absent(dec(e.lo()), '-');
    } else {
        let a = dec(e.lo());
        let b = dec((e.hi() - 1) as nat);
        lemma_dec((e.hi() - 1) as nat);
        lemma_number_is_word(b);
        let t = elem_text(e);
        assert(t =~= a.push('-') + b);
        assert forall|i: int| 0 <= i < t.len() implies is_text_char(#[trigger] t[i]) && t[i] != '/' by {
            if i < a.len() {
                assert(t[i] == a[i]);
            } else if i > a.len() {
                assert(t[i] == b[i - a.len() - 1]);
            }
        }
        lemma_first_index_at(a, '-', b);
        assert(t.subrange(0, a.len() as int) =~= a);
        assert(t.subrange(a.len() as int + 1, t.len() as int) =~= b);
    }
    lemma_first_index_absent(elem_text(e), '/');
}

proof fn lemma_first_index_absent(s: Seq<char>, c: char)
    requires
        forall|i: int| 0 <= i < s.len() ==> #[trigger] s[i] != c,
    ensures
        first_index(s, c) == -1,
    decreases s.len(),
{
    if s.len() > 0 {
        lemma_first_index_absent(s.drop_last(), c);
    }
}

proof fn lemma_first_index_at(p: Seq<char>, c: char, q: Seq<char>)
    requires
        forall|i: int| 0 <= i < p.len() ==> #[trigger] p[i] != c,
    ensures
        first_index(p.push(c) + q, c) == p.len(),
{
    lemma_first_index_absent(p, c);
    assert(p.push(c).drop_last() =~= p);
    assert((p.push(c) + q).subrange(0, p.len() as int + 1) =~= p.push(c));
    lemma_first_index_prefix(p.push(c) + q, p.len() as int + 1, c);
}

/// A token `depth/rest` reads as its depth and the cells of `rest`.
proof fn lemma_head_token(d: nat, rest: Seq<char>)
    ensures
        token_parts(dec(d) + seq!['/'] + rest) == (match cells_part(rest) {
            Some(c) => Some((Some(d), c)),
            None => None::<(Option<nat>, Option<(nat, nat)>)>,
        }),
{
    lemma_dec(d);
    lemma_number_is_word(dec(d));
    let t = dec(d) + seq!['/'] + rest;
    assert(t =~= dec(d).push('/') + rest);
    lemma_first_index_at(dec(d), '/', rest);
    assert(t.subrange(0, dec(d).len() as int) =~= dec(d));
    assert(t.subrange(dec(d).len() as int + 1, t.len() as int) =~= rest);
}

/// The runs of a list of elements.
pub open spec fn items_of(s: Seq<CellOrCellRangePSQL>) -> Seq<(nat, nat, nat)> {
    s.map_values(|e: CellOrCellRangePSQL| (e.depth(), e.lo(), e.hi()))
}

proof fn lemma_fold_elems(l: CellOrCellRangeMOCPSQL, i: int)
    requires
        l.wf(),
        0 < i <= l.ranges@.len(),
    ensures
        fold_tokens(elem_tokens(l.ranges@).take(i)) == Ok::<(Option<nat>, Seq<(nat, nat, nat)>), HealpixError>((Some(l.ranges@[i - 1].depth()), items_of(l.ranges@.take(i)))),
    decreases i,
{
    let s = l.ranges@;
    let ts = elem_tokens(s).take(i);
    let e = s[i - 1];
    assert(ts.drop_last() =~= elem_tokens(s).take(i - 1));
    assert(ts.last() == elem_token(s, i - 1));
    assert(e.ok(l.depth_max as nat));
    lemma_elem_text(e);
    crate::edge::lemma_fit_is_cell(e.depth(), e.hi());
    assert(items_of(s.take(i)) =~= items_of(s.take(i - 1)).push((e.depth(), e.lo(), e.hi())));
    if i == 1 {
        assert(elem_tokens(s).take(0) =~= Seq::<Seq<char>>::empty());
        assert(s.take(0) =~= Seq::<CellOrCellRangePSQL>::empty());
        assert(items_of(s.take(0)) =~= Seq::<(nat, nat, nat)>::empty());
        lemma_head_token(e.depth(), elem_text(e));
    } else {
        lemma_fold_elems(l, i - 1);
        if s[i - 2].depth() != e.depth() {
            lemma_head_token(e.depth(), elem_text(e));
            assert(s[i - 2].depth() <= e.depth());
        } else {
            assert(elem_token(s, i - 1) =~= elem_text(e));
        }
    }
}

/// The notation of a normalized cell list reads back as its depth and its
/// runs.
pub proof fn ascii_round_trip(l: CellOrCellRangeMOCPSQL)
    requires
        l.wf(),
    ensures
        text_parse(ascii_text(l)) == Ok::<(nat, Seq<(nat, nat, nat)>), HealpixError>((l.depth_max as nat, items_of(l.ranges@))),
{
    let s = l.ranges@;
    let dm = l.depth_max as nat;
    let trail = dec(dm) + seq!['/'];
    lemma_ascii_join(l);
    lemma_dec(dm);
    lemma_number_is_word(dec(dm));
    assert(is_word(trail)) by {
        assert forall|i: int| 0 <= i < trail.len() implies is_text_char(#[trigger] trail[i]) by {
            if i < dec(dm).len() {
                assert(trail[i] == dec(dm)[i]);
            }
        }
    }
    assert forall|i: int| 0 <= i < elem_tokens(s).len() implies is_word(#[trigger] elem_tokens(s)[i]) by {
        let e = s[i];
        assert(e.ok(l.depth_max as nat));
        lemma_elem_text(e);
        let t = elem_token(s, i);
        if i == 0 || s[i - 1].depth() != e.depth() {
            lemma_dec(e.depth());
            lemma_number_is_word(dec(e.depth()));
            let h = dec(e.depth()) + seq!['/'];
            assert forall|k: int| 0 <= k < t.len() implies is_text_char(#[trigger] t[k]) by {
                if k < dec(e.depth()).len() {
                    assert(t[k] == dec(e.depth())[k]);
                } else if k > dec(e.depth()).len() {
                    assert(t[k] == elem_text(e)[k - h.len()]);
                }
            }
        } else {
            assert(t =~= elem_text(e));
        }
    }
    assert(Seq::<char>::empty() + seq!['/'] + Seq::<char>::empty() =~= seq!['/']);
    lemma_head_token(dm, Seq::empty());
    assert(trail + Seq::<char>::empty() =~= trail);
    assert(cells_part(Seq::<char>::empty()) == Some(None::<(nat, nat)>));
    assert(token_parts(trail) == Some((Some(dm), None::<(nat, nat)>)));
    assert(dm <= 29);
    if s.len() == 0 {
        let ts = text_tokens(l);
        lemma_tokens_join(ts);
        assert(ts.drop_last() =~= Seq::<Seq<char>>::empty());
        assert(ts.last() == trail);
        assert(fold_tokens(ts.drop_last()) == Ok::<(Option<nat>, Seq<(nat, nat, nat)>), HealpixError>((None, Seq::empty())));
        assert(step(None, Seq::empty(), trail) == Ok::<(Option<nat>, Seq<(nat, nat, nat)>), HealpixError>((Some(dm), Seq::empty())));
        assert(fold_tokens(ts) == Ok::<(Option<nat>, Seq<(nat, nat, nat)>), HealpixError>((Some(dm), Seq::empty())));
        assert(items_of(s) =~= Seq::<(nat, nat, nat)>::empty());
    } else {
        lemma_fold_elems(l, s.len() as int);
        assert(elem_tokens(s).take(s.len() as int) =~= elem_tokens(s));
        assert(s.take(s.len() as int) =~= s);
        let dl = s.last().depth();
        assert(s[s.len() - 1] == s.last());
        assert(fold_tokens(elem_tokens(s)) == Ok::<(Option<nat>, Seq<(nat, nat, nat)>), HealpixError>((Some(dl), items_of(s))));
        assert(s.last().ok(l.depth_max as nat));
        if dl < dm {
            let ts = text_tokens(l);
            assert forall|i: int| 0 <= i < ts.len() implies is_word(#[trigger] ts[i]) by {
                if i < elem_tokens(s).len() {
                    assert(ts[i] == elem_tokens(s)[i]);
                }
            }
            lemma_tokens_join(ts);
            assert(ts.drop_last() =~= elem_tokens(s));
            assert(ts.last() == trail);
            assert(step(Some(dl), items_of(s), trail) == Ok::<(Option<nat>, Seq<(nat, nat, nat)>), HealpixError>((Some(dm), items_of(s))));
            assert(fold_tokens(ts) == Ok::<(Option<nat>, Seq<(nat, nat, nat)>), HealpixError>((Some(dm), items_of(s))));
        } else {
            lemma_tokens_join(text_tokens(l));
            assert(dl == dm);
        }
    }
}


proof fn lemma_in_items_of(s: Seq<CellOrCellRangePSQL>, x: int)
    ensures
        in_items(items_of(s), x) == in_elems(s, x),
    decreases s.len(),
{
    if s.len() > 0 {
        let p = s.drop_last();
        lemma_in_items_of(p, x);
        let it = items_of(s);
        let ip = items_of(p);
        assert(ip =~= it.drop_last());
        let n = s.len() - 1;
        assert(it[n] == (s.last().depth(), s.last().lo(), s.last().hi()));
        if in_items(it, x) {
            let i = choose|i: int| 0 <= i < it.len() && #[trigger] it[i].1 * granularity(it[i].0) <= x < it[i].2 * granularity(it[i].0);
            if i < n {
                assert(ip[i] == it[i]);
            }
        }
        if in_elems(s, x) {
            if in_block(s.last().depth(), s.last().lo(), s.last().hi(), x) {
                assert(it[n].1 * granularity(it[n].0) <= x < it[n].2 * granularity(it[n].0));
            } else {
                let i = choose|i: int| 0 <= i < ip.len() && #[trigger] ip[i].1 * granularity(ip[i].0) <= x < ip[i].2 * granularity(ip[i].0);
                assert(it[i] == ip[i]);
            }
        }
    }
}

/// Text round trip of coverages: a text that `moc_to_ascii` gives for `m`
/// (the notation of a normalized cell list of `m`), read by
/// `moc_from_ascii_ivoa`, is `m` again.
pub proof fn ascii_round_trip_coverage(m: RangeMOCPSQL, text: Seq<char>, back: RangeMOCPSQL)
    requires
        m.wf(),
        exists|l: CellOrCellRangeMOCPSQL|
            l.depth_max == m.depth_max && canonical_cells(l, m.cells()) && text == ascii_text(l),
        text_parse(text) matches Ok((d, items)) ==> back.wf() && back.depth_max == d && back.cells() == Set::new(|x: int| in_items(items, x)),
    ensures
        text_parse(text) is Ok,
        back.depth_max == m.depth_max,
        back.ranges@ == m.ranges@,
{
    let l = choose|l: CellOrCellRangeMOCPSQL|
        l.depth_max == m.depth_max && canonical_cells(l, m.cells()) && text == ascii_text(l);
    ascii_round_trip(l);
    let items = items_of(l.ranges@);
    assert forall|x: int| #[trigger] back.cells().contains(x) == m.cells().contains(x) by {
        lemma_in_items_of(l.ranges@, x);
        assert(l.cells().contains(x) == in_elems(l.ranges@, x));
    }
    assert(back.cells() =~= m.cells());
    coverage_unique(back, m);
}

} // verus!
