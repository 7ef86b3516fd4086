use healpix_moc::ascii::{moc_from_ascii_ivoa, moc_to_ascii};
use healpix_moc::cell::HealpixError;
use healpix_moc::moc::create_range_moc_psql;

#[test]
fn ascii_round_trip_of_the_example() {
    let text = "3/3 10 4/16-18 22 5/19-20";
    let m = moc_from_ascii_ivoa(text).unwrap();
    assert_eq!(m.depth_max, 5);
    assert_eq!(moc_to_ascii(m), text);
}

#[test]
fn ascii_cells_of_the_example() {
    let m = moc_from_ascii_ivoa("3/3 10 4/16-18 22 5/19-20").unwrap();
    let d3 = 1u64 << 52;
    let d4 = 1u64 << 50;
    let d5 = 1u64 << 48;
    assert_eq!(m.ranges, vec![19 * d5..21 * d5, 3 * d3..19 * d4, 22 * d4..23 * d4, 10 * d3..11 * d3]);
}

#[test]
fn ascii_empty_marker() {
    let m = moc_from_ascii_ivoa("29/").unwrap();
    assert_eq!(m.depth_max, 29);
    assert!(m.ranges.is_empty());
    assert_eq!(moc_to_ascii(m), "29/");
    let m = create_range_moc_psql(4, vec![0..(1u64 << 56)]).unwrap();
    assert_eq!(moc_to_ascii(m), "1/0 4/");
    let m = create_range_moc_psql(4, vec![0..(1u64 << 58)]).unwrap();
    assert_eq!(moc_to_ascii(m), "0/0 4/");
}

#[test]
fn ascii_whitespace_and_runs() {
    let m = moc_from_ascii_ivoa("  1/0-3\n  2/ 63 ").unwrap();
    assert_eq!(m.depth_max, 2);
    assert_eq!(moc_to_ascii(m), "0/0 2/63");
}

#[test]
fn ascii_errors() {
    assert!(matches!(moc_from_ascii_ivoa(""), Err(HealpixError::MalformedText)));
    assert!(matches!(moc_from_ascii_ivoa("3/1 2"), Ok(_)));
    assert!(matches!(moc_from_ascii_ivoa("3"), Err(HealpixError::MalformedText)));
    assert!(matches!(moc_from_ascii_ivoa("3/x"), Err(HealpixError::MalformedText)));
    assert!(matches!(moc_from_ascii_ivoa("4/1 3/2"), Err(HealpixError::MalformedText)));
    assert!(matches!(moc_from_ascii_ivoa("3/5-2"), Err(HealpixError::MalformedText)));
    assert!(matches!(moc_from_ascii_ivoa("30/1"), Err(HealpixError::InvalidDepth)));
    assert!(matches!(moc_from_ascii_ivoa("0/12"), Err(HealpixError::InvalidRange)));
    assert!(matches!(moc_from_ascii_ivoa("0/99999999999999999999999"), Err(HealpixError::InvalidRange)));
}

#[test]
fn ascii_mixed_depths() {
    let g28 = 4u64;
    let m = create_range_moc_psql(28, vec![3 * g28..9 * g28]).unwrap();
    assert_eq!(moc_to_ascii(m), "27/1 28/3 8");
}

#[test]
fn ascii_round_trip_of_coverages() {
    let d3 = 1u64 << 52;
    let m = create_range_moc_psql(7, vec![3 * d3..40 * d3 + (5u64 << 44), 100 * d3..101 * d3]).unwrap();
    let text = moc_to_ascii(create_range_moc_psql(m.depth_max, m.ranges.clone()).unwrap());
    let back = moc_from_ascii_ivoa(&text).unwrap();
    assert_eq!(back.depth_max, m.depth_max);
    assert_eq!(back.ranges, m.ranges);
    let full = create_range_moc_psql(0, vec![0..3458764513820540928]).unwrap();
    assert_eq!(moc_to_ascii(full), "0/0-11");
}
