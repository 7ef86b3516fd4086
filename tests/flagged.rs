use healpix_moc::bmoc::{
    bmoc_check, mgx_bmoc_and, mgx_bmoc_flag_one, mgx_bmoc_flag_zero, mgx_bmoc_not, mgx_bmoc_or,
    mgx_bmoc_status, mgx_bmoc_to_ranges, mgx_bmoc_xor, mgx_create_bmoc_psql, mgx_is_partial, status_may_contain,
    BMOCpsql, Statuspsql,
};
use healpix_moc::cell::HealpixError;

// depth 1: base cell 0 full (raw 9), cell (1, 4) on the border (raw 2 * 9 = 18)
fn sample() -> BMOCpsql {
    mgx_create_bmoc_psql(1, vec![9, 18])
}

fn copy(b: &BMOCpsql) -> BMOCpsql {
    mgx_create_bmoc_psql(b.depth_max, b.entries.clone())
}

#[test]
fn partial_flag() {
    assert!(mgx_is_partial(&18));
    assert!(!mgx_is_partial(&9));
}

#[test]
fn well_formedness() {
    assert!(bmoc_check(&sample()));
    assert!(!bmoc_check(&mgx_create_bmoc_psql(1, vec![18, 9])));
    assert!(!bmoc_check(&mgx_create_bmoc_psql(1, vec![0])));
    assert!(!bmoc_check(&mgx_create_bmoc_psql(30, vec![])));
}

#[test]
fn complement_of_a_base_cell() {
    let b = mgx_create_bmoc_psql(1, vec![9]);
    let n = mgx_bmoc_not(b).unwrap();
    assert_eq!(n.depth_max, 1);
    assert_eq!(n.entries, vec![25, 41, 57, 73, 89, 105, 121, 137, 153, 169, 185]);
}

#[test]
fn binary_operations() {
    let a = mgx_create_bmoc_psql(1, vec![9]);
    let b = mgx_create_bmoc_psql(1, vec![2]);
    let and = mgx_bmoc_and(copy(&a), copy(&b)).unwrap();
    assert_eq!(and.entries, vec![2]);
    let or = mgx_bmoc_or(copy(&a), copy(&b)).unwrap();
    assert_eq!(or.entries, vec![9]);
    let xor = mgx_bmoc_xor(copy(&a), copy(&b)).unwrap();
    assert!(!xor.entries.is_empty());
    assert!(!xor.entries.contains(&9));
    assert!(matches!(mgx_bmoc_and(mgx_create_bmoc_psql(30, vec![]), copy(&b)), Err(HealpixError::InvalidDepth)));
    assert!(matches!(mgx_bmoc_or(copy(&a), mgx_create_bmoc_psql(1, vec![0])), Err(HealpixError::InvalidRange)));
}

#[test]
fn ranges_of_a_flagged_coverage() {
    let r = mgx_bmoc_to_ranges(sample()).unwrap();
    let d1 = 1u64 << 56;
    assert_eq!(r, vec![0..4 * d1, 4 * d1..5 * d1].into_iter().fold(Vec::new(), |mut v: Vec<std::ops::Range<u64>>, x| {
        match v.last_mut() {
            Some(l) if l.end == x.start => l.end = x.end,
            _ => v.push(x),
        }
        v
    }));
    assert_eq!(mgx_bmoc_flag_one(sample()).unwrap(), vec![0..4 * d1]);
    assert_eq!(mgx_bmoc_flag_zero(sample()).unwrap(), vec![4 * d1..5 * d1]);
    assert!(matches!(mgx_bmoc_to_ranges(mgx_create_bmoc_psql(1, vec![18, 9])), Err(HealpixError::InvalidRange)));
}

#[test]
fn status_of_a_point() {
    let d1 = 1u64 << 56;
    assert_eq!(mgx_bmoc_status(&sample(), 0), Ok(Statuspsql::In));
    assert_eq!(mgx_bmoc_status(&sample(), 4 * d1 + 7), Ok(Statuspsql::Unknown));
    assert_eq!(mgx_bmoc_status(&sample(), 5 * d1), Ok(Statuspsql::Out));
    assert_eq!(mgx_bmoc_status(&mgx_create_bmoc_psql(1, vec![0]), 0), Err(HealpixError::InvalidRange));
}

#[test]
fn status_to_bool() {
    assert!(status_may_contain(Statuspsql::In));
    assert!(status_may_contain(Statuspsql::Unknown));
    assert!(!status_may_contain(Statuspsql::Out));
}

#[test]
fn flag_split_covers_the_coverage() {
    use_selection_partition();
}

fn cells_of(ranges: &[std::ops::Range<u64>]) -> Vec<u64> {
    let d1 = 1u64 << 56;
    let mut v = Vec::new();
    for r in ranges {
        for c in (r.start / d1)..(r.end / d1) {
            v.push(c);
        }
    }
    v
}

fn use_selection_partition() {
    let all = cells_of(&mgx_bmoc_to_ranges(sample()).unwrap());
    let full = cells_of(&mgx_bmoc_flag_one(sample()).unwrap());
    let border = cells_of(&mgx_bmoc_flag_zero(sample()).unwrap());
    let mut both: Vec<u64> = full.iter().chain(border.iter()).cloned().collect();
    both.sort();
    assert_eq!(both, all);
    assert!(full.iter().all(|c| !border.contains(c)));
    let a = healpix_moc::bmoc::moc_from_bmoc(sample(), healpix_moc::bmoc::CellSelectionPSQL::All).unwrap();
    let i = healpix_moc::bmoc::moc_from_bmoc(sample(), healpix_moc::bmoc::CellSelectionPSQL::Inside).unwrap();
    let b = healpix_moc::bmoc::moc_from_bmoc(sample(), healpix_moc::bmoc::CellSelectionPSQL::Border).unwrap();
    assert_eq!(cells_of(&a.ranges), all);
    assert_eq!(cells_of(&i.ranges), full);
    assert_eq!(cells_of(&b.ranges), border);
}
