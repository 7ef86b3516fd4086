use healpix_moc::cell::HealpixError;
use healpix_moc::moc::{
    create_range_moc_psql, moc_and, moc_complement, moc_contains_index, moc_degrade, moc_intersection,
    moc_minus, moc_not, moc_or, moc_to_ranges, moc_union, moc_xor, RangeMOCPSQL,
};
use healpix_moc::normalized::{from_normalized_cells, to_normalized_cells, CellOrCellRangePSQL};
use healpix_moc::edge::moc_expanded;
use std::ops::Range;

const NPIX: u64 = 3458764513820540928;
const D29_PER_D3: u64 = 1 << 52; // 4^(29-3)

fn moc(depth: u8, ranges: Vec<Range<u64>>) -> RangeMOCPSQL {
    create_range_moc_psql(depth, ranges).unwrap()
}

fn cells3(cells: &[(u64, u64)]) -> Vec<Range<u64>> {
    cells.iter().map(|&(a, b)| a * D29_PER_D3..b * D29_PER_D3).collect()
}

fn same(a: &RangeMOCPSQL, b: &RangeMOCPSQL) -> bool {
    a.depth_max == b.depth_max && a.ranges == b.ranges
}

fn copy(m: &RangeMOCPSQL) -> RangeMOCPSQL {
    RangeMOCPSQL { depth_max: m.depth_max, ranges: m.ranges.clone() }
}

#[test]
fn constructor_sorts_and_merges() {
    let m = moc(3, cells3(&[(10, 12), (3, 4), (11, 15), (4, 5), (20, 20)]));
    assert_eq!(m.ranges, cells3(&[(3, 5), (10, 15)]));
    assert_eq!(moc_to_ranges(copy(&m)), cells3(&[(3, 5), (10, 15)]));
}

#[test]
fn constructor_errors() {
    assert!(matches!(create_range_moc_psql(30, vec![]), Err(HealpixError::InvalidDepth)));
    assert!(matches!(create_range_moc_psql(3, vec![5..4]), Err(HealpixError::InvalidRange)));
    assert!(matches!(create_range_moc_psql(3, vec![1..D29_PER_D3]), Err(HealpixError::InvalidRange)));
    assert!(matches!(create_range_moc_psql(29, vec![0..NPIX + 1]), Err(HealpixError::InvalidRange)));
}

#[test]
fn complement_of_a_coverage() {
    let a = moc(3, cells3(&[(3, 5), (10, 15)]));
    let n = moc_not(copy(&a));
    assert_eq!(n.ranges, vec![0..3 * D29_PER_D3, 5 * D29_PER_D3..10 * D29_PER_D3, 15 * D29_PER_D3..NPIX]);
    let c = moc_complement(copy(&a));
    assert!(same(&n, &c));
    let empty = moc(3, vec![]);
    assert_eq!(moc_not(empty).ranges, vec![0..NPIX]);
}

#[test]
fn algebra_identities() {
    let a = moc(3, cells3(&[(3, 5), (10, 15), (100, 200)]));
    let b = moc(4, vec![4 * D29_PER_D3..11 * D29_PER_D3, 150 * D29_PER_D3 + (1 << 50)..300 * D29_PER_D3]);
    // not(not(A)) == A
    assert!(same(&moc_not(moc_not(copy(&a))), &a));
    // and(A, A) == A
    assert!(same(&moc_and(copy(&a), copy(&a)), &a));
    // or(A, not(A)) == full sphere
    assert_eq!(moc_or(copy(&a), moc_not(copy(&a))).ranges, vec![0..NPIX]);
    // and(A, not(A)) == empty
    assert!(moc_and(copy(&a), moc_not(copy(&a))).ranges.is_empty());
    // xor(A, B) == or(minus(A, B), minus(B, A))
    let x = moc_xor(copy(&a), copy(&b));
    let y = moc_or(moc_minus(copy(&a), copy(&b)), moc_minus(copy(&b), copy(&a)));
    assert!(same(&x, &y));
    // commutativity
    assert!(same(&moc_and(copy(&a), copy(&b)), &moc_and(copy(&b), copy(&a))));
    assert!(same(&moc_or(copy(&a), copy(&b)), &moc_or(copy(&b), copy(&a))));
    assert!(same(&moc_xor(copy(&a), copy(&b)), &moc_xor(copy(&b), copy(&a))));
    assert!(same(&moc_intersection(copy(&a), copy(&b)), &moc_and(copy(&a), copy(&b))));
    assert!(same(&moc_union(copy(&a), copy(&b)), &moc_or(copy(&a), copy(&b))));
}

#[test]
fn algebra_values() {
    let a = moc(3, cells3(&[(3, 5), (10, 15)]));
    let b = moc(3, cells3(&[(4, 11)]));
    assert_eq!(moc_and(copy(&a), copy(&b)).ranges, cells3(&[(4, 5), (10, 11)]));
    assert_eq!(moc_or(copy(&a), copy(&b)).ranges, cells3(&[(3, 15)]));
    assert_eq!(moc_minus(copy(&a), copy(&b)).ranges, cells3(&[(3, 4), (11, 15)]));
    assert_eq!(moc_xor(copy(&a), copy(&b)).ranges, cells3(&[(3, 4), (5, 10), (11, 15)]));
    let c = moc(5, vec![0..1 << 48]);
    assert_eq!(moc_or(copy(&a), c).depth_max, 5);
}

#[test]
fn membership() {
    let a = moc(3, cells3(&[(3, 5), (10, 15)]));
    assert!(moc_contains_index(&a, 3 * D29_PER_D3));
    assert!(moc_contains_index(&a, 5 * D29_PER_D3 - 1));
    assert!(!moc_contains_index(&a, 5 * D29_PER_D3));
    assert!(!moc_contains_index(&a, 0));
    assert!(moc_contains_index(&a, 14 * D29_PER_D3));
    assert!(!moc_contains_index(&a, NPIX - 1));
}

#[test]
fn degrade_rounds_outward() {
    // cells 5..7 and 17 at depth 3 touch cells 1 and 4 at depth 2
    let a = moc(3, cells3(&[(5, 7), (17, 18)]));
    let d = moc_degrade(copy(&a), 2);
    assert_eq!(d.depth_max, 2);
    assert_eq!(d.ranges, cells3(&[(4, 8), (16, 20)]));
    for r in &a.ranges {
        assert!(moc_contains_index(&d, r.start) && moc_contains_index(&d, r.end - 1));
    }
    let same_depth = moc_degrade(copy(&a), 3);
    assert!(same(&same_depth, &a));
    let d0 = moc_degrade(copy(&a), 0);
    assert_eq!(d0.ranges, vec![0..64 * D29_PER_D3]);
}

#[test]
fn normalization_round_trip_values() {
    let a = moc(5, vec![(3 << 52)..(5 << 52), (10 << 52) + (1 << 48)..(19 << 52)]);
    let l = to_normalized_cells(&a);
    assert_eq!(l.depth_max, 5);
    let mut prev_depth = 0u8;
    for e in &l.ranges {
        let d = match e {
            CellOrCellRangePSQL::CellPSQL(c) => c.depth,
            CellOrCellRangePSQL::CellRangePSQL(c) => c.depth,
        };
        assert!(d >= prev_depth && d <= 5);
        prev_depth = d;
    }
    let back = from_normalized_cells(&l).unwrap();
    assert!(same(&back, &a));
}

#[test]
fn normalized_cells_are_maximal_blocks() {
    // cells 3..9 at depth 28: cell 1 at depth 27 holds cells 4..8
    let g28 = 1u64 << 2;
    let a = moc(28, vec![3 * g28..9 * g28]);
    let l = to_normalized_cells(&a);
    let back = from_normalized_cells(&l).unwrap();
    assert!(same(&back, &a));
    assert_eq!(l.ranges.len(), 3);
    match &l.ranges[0] {
        CellOrCellRangePSQL::CellPSQL(c) => assert_eq!((c.depth, c.idx), (27, 1)),
        _ => panic!("expected a single cell"),
    }
}

#[test]
fn expansion_grows_by_one_ring() {
    let a = moc(2, vec![(5u64 << 54)..(6u64 << 54)]);
    let e = moc_expanded(copy(&a));
    assert_eq!(e.depth_max, 2);
    assert!(moc_contains_index(&e, 5u64 << 54));
    let ring = cdshealpix::nested::external_edge(2, 5, 0);
    for h in ring.iter() {
        assert!(moc_contains_index(&e, h << 54));
    }
    let cells: u64 = e.ranges.iter().map(|r| (r.end - r.start) >> 54).sum();
    assert_eq!(cells, 1 + ring.len() as u64);
}

#[test]
fn expansion_adds_the_neighbours_of_every_covered_cell() {
    // cells 5 and 6 at depth 2
    let a = moc(2, vec![(5u64 << 54)..(7u64 << 54)]);
    let e = moc_expanded(copy(&a));
    let mut expected: Vec<u64> = vec![5, 6];
    for h in [5u64, 6] {
        for (_, n) in cdshealpix::nested::neighbours(2, h, false).entries_vec() {
            expected.push(n);
        }
    }
    expected.sort();
    expected.dedup();
    let mut got = Vec::new();
    for r in &e.ranges {
        for c in (r.start >> 54)..(r.end >> 54) {
            got.push(c);
        }
    }
    assert_eq!(got, expected);
}
