use healpix_moc::cell::{hpx_children, hpx_nside, hpx_parent, hpx_siblings, HealpixError};
use healpix_moc::uniq::{hpx_from_uniq, hpx_from_zuniq, hpx_to_uniq, hpx_to_zuniq, UniqTuple};
use healpix_moc::edge::{hpx_external_edge, hpx_internal_edge, hpx_neighbours};

#[test]
fn nside_is_two_to_the_depth() {
    for depth in 0..=29u8 {
        assert_eq!(hpx_nside(depth), Ok(1u32 << depth));
    }
    assert_eq!(hpx_nside(10), Ok(1024));
    assert_eq!(hpx_nside(30), Err(HealpixError::InvalidDepth));
}

#[test]
fn uniq_of_first_base_cell() {
    assert_eq!(hpx_to_uniq(0, 0), Ok(16));
}

#[test]
fn uniq_round_trip_up_to_depth_seven() {
    for depth in 0..8u8 {
        let n = 12u64 << (2 * depth);
        for hash in 0..n {
            let u = hpx_to_uniq(depth, hash).unwrap();
            assert_eq!(hpx_from_uniq(u), Ok(UniqTuple { depth, hash }));
        }
    }
}

#[test]
fn uniq_round_trip_at_the_finest_depth() {
    let last = 12u64 * (1u64 << 58) - 1;
    for hash in [0u64, 1, 12345, last] {
        let u = hpx_to_uniq(29, hash).unwrap();
        assert_eq!(hpx_from_uniq(u), Ok(UniqTuple { depth: 29, hash }));
        let z = hpx_to_zuniq(29, hash).unwrap();
        assert_eq!(hpx_from_zuniq(z), Ok(UniqTuple { depth: 29, hash }));
    }
}

#[test]
fn zuniq_round_trip_up_to_depth_six() {
    for depth in 0..7u8 {
        let n = 12u64 << (2 * depth);
        for hash in 0..n {
            let z = hpx_to_zuniq(depth, hash).unwrap();
            assert_eq!(hpx_from_zuniq(z), Ok(UniqTuple { depth, hash }));
        }
    }
}

#[test]
fn zuniq_values() {
    // rank in a depth-first, pre-order walk: a base cell heads a subtree of
    // (4^30 - 1) / 3 cells
    let s0 = 384307168202282325u64;
    assert_eq!(hpx_to_zuniq(0, 0), Ok(0));
    assert_eq!(hpx_to_zuniq(0, 1), Ok(s0));
    assert_eq!(hpx_to_zuniq(1, 0), Ok(1));
    assert_eq!(hpx_to_zuniq(28, 0), Ok(28));
    assert_eq!(hpx_to_zuniq(29, 0), Ok(29));
    assert_eq!(hpx_to_zuniq(29, 5), Ok(35));
    assert_eq!(hpx_to_zuniq(1, 3), Ok(288230376151711744));
    assert_eq!(hpx_to_zuniq(3, 5), Ok(30023997515803309));
    assert_eq!(hpx_from_zuniq(12 * s0 - 1), Ok(UniqTuple { depth: 29, hash: 12 * (1u64 << 58) - 1 }));
}

#[test]
fn zuniq_nesting_order() {
    // cell (3, 5): its children 20..24 at depth 4, and their children
    let a = hpx_to_zuniq(3, 5).unwrap();
    let next = hpx_to_zuniq(3, 6).unwrap();
    let prev = hpx_to_zuniq(3, 4).unwrap();
    assert!(prev < a);
    for child in 20..24u64 {
        let z = hpx_to_zuniq(4, child).unwrap();
        assert!(a < z && z < next);
        for grandchild in 4 * child..4 * child + 4 {
            let zz = hpx_to_zuniq(5, grandchild).unwrap();
            assert!(z < zz && zz < next);
        }
    }
    // an ancestor sorts before its descendants
    assert!(hpx_to_zuniq(0, 0).unwrap() < hpx_to_zuniq(1, 0).unwrap());
}

#[test]
fn uniq_codec_errors() {
    assert_eq!(hpx_to_uniq(30, 0), Err(HealpixError::InvalidDepth));
    assert_eq!(hpx_to_uniq(0, 12), Err(HealpixError::InvalidRange));
    assert_eq!(hpx_to_zuniq(30, 0), Err(HealpixError::InvalidDepth));
    assert_eq!(hpx_to_zuniq(1, 48), Err(HealpixError::InvalidRange));
    assert_eq!(hpx_from_uniq(15), Err(HealpixError::InvalidRange));
    // 16 + 12 is past the last base cell
    assert_eq!(hpx_from_uniq(28), Err(HealpixError::InvalidRange));
    assert_eq!(hpx_from_zuniq(4611686018427387900), Err(HealpixError::InvalidRange));
    assert_eq!(hpx_from_zuniq(u64::MAX), Err(HealpixError::InvalidRange));
    assert_eq!(hpx_from_zuniq(2), Ok(UniqTuple { depth: 2, hash: 0 }));
}

#[test]
fn children_of_first_cell() {
    assert_eq!(hpx_children(0, 1), 0..4);
    assert_eq!(hpx_children(3, 2), 48..64);
}

#[test]
fn parent_and_siblings() {
    assert_eq!(hpx_parent(19456, 0), 19456);
    assert_eq!(hpx_parent(19456, 1), 4864);
    assert_eq!(hpx_parent(19456, 6), 4);
    assert_eq!(hpx_siblings(0, 7), (0, 11));
    assert_eq!(hpx_siblings(3, 22), (20, 23));
}

#[test]
fn neighbours_of_a_cell() {
    let m = hpx_neighbours(1, 0, true).unwrap();
    assert_eq!(m.array.len(), 9);
    assert_eq!(m.array[4], Some(0));
    let expected = cdshealpix::nested::neighbours(1, 0, true);
    let n_some = m.array.iter().filter(|v| v.is_some()).count();
    assert_eq!(n_some, expected.entries_vec().len());
    assert_eq!(hpx_neighbours(30, 0, true).unwrap_err(), HealpixError::InvalidDepth);
    assert_eq!(hpx_neighbours(1, 48, true).unwrap_err(), HealpixError::InvalidRange);
}

#[test]
fn edges_of_a_cell() {
    let ext = hpx_external_edge(0, 4, 1).unwrap();
    assert!(!ext.is_empty());
    assert!(!ext.contains(&16));
    let int = hpx_internal_edge(0, 4, 1).unwrap();
    let mut sorted = int.clone();
    sorted.sort();
    assert_eq!(sorted, vec![16, 17, 18, 19]);
    assert_eq!(hpx_external_edge(29, 0, 1), Err(HealpixError::InvalidDepth));
    assert_eq!(hpx_internal_edge(28, 0, 1), Err(HealpixError::InvalidDepth));
    assert_eq!(hpx_external_edge(0, 12, 1), Err(HealpixError::InvalidRange));
}

#[test]
fn hash_of_origin_at_depth_six() {
    // the hashing that app/ relies on
    assert_eq!(cdshealpix::nested::hash(6, 0.0, 0.0), 19456);
    let u = hpx_to_uniq(6, 19456).unwrap();
    assert_eq!(hpx_from_uniq(u), Ok(UniqTuple { depth: 6, hash: 19456 }));
}

#[test]
fn parent_siblings_children_values() {
    assert_eq!(hpx_parent(640, 1), 160);
    assert_eq!(hpx_parent(640, 2), 40);
    assert_eq!(hpx_parent(640, 3), 10);
    assert_eq!(hpx_siblings(2, 76), (76, 79));
    assert_eq!(hpx_children(0, 2), 0..16);
    assert_eq!(hpx_children(31, 1), 124..128);
}

#[test]
fn uniq_with_a_depth_above_the_finest() {
    assert_eq!(hpx_from_uniq(1u64 << 63), Err(HealpixError::InvalidDepth));
    assert_eq!(hpx_from_uniq(u64::MAX), Err(HealpixError::InvalidDepth));
    // 16 * 4^29 + 12 * 4^29 lies past the last cell of depth 29
    assert_eq!(hpx_from_uniq(28u64 << 58), Err(HealpixError::InvalidRange));
}

#[test]
fn neighbours_center_slot() {
    let with = hpx_neighbours(3, 100, true).unwrap();
    assert_eq!(with.array[4], Some(100));
    let without = hpx_neighbours(3, 100, false).unwrap();
    assert_eq!(without.array[4], None);
    for n in without.array.iter().flatten() {
        assert!(*n < 12 * 64);
    }
}
