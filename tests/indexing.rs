use lbm_clean::coord_util::{
    box_buffer_size, box_contains_coord, box_is_well_formed, checked_box_size, coord_to_linear_in_box,
    linear_to_coord_in_box, real_buffer_size, Aabb,
};
use lbm_clean::mesh::{cell_coord_iter, cell_count, coord_iter, hex_connectivity};
use lbm_clean::run::snapshot_due;

fn aabb(lo: &[i32], hi: &[i32]) -> Aabb {
    Aabb { lo: lo.to_vec(), hi: hi.to_vec() }
}

#[test]
fn linear_index_is_row_major_last_axis_fastest() {
    let b = aabb(&[0, 0, 0], &[2, 3, 4]);
    assert_eq!(coord_to_linear_in_box(&vec![0, 0, 0], &b), 0);
    assert_eq!(coord_to_linear_in_box(&vec![0, 0, 1], &b), 1);
    assert_eq!(coord_to_linear_in_box(&vec![0, 1, 0], &b), 5);
    assert_eq!(coord_to_linear_in_box(&vec![1, 2, 3], &b), 33);
    assert_eq!(coord_to_linear_in_box(&vec![2, 3, 4], &b), 59);
}

#[test]
fn linear_index_translates_by_lower_corner() {
    let b = aabb(&[-1, 5, 10], &[1, 6, 12]);
    assert_eq!(coord_to_linear_in_box(&vec![-1, 5, 10], &b), 0);
    assert_eq!(coord_to_linear_in_box(&vec![0, 6, 11], &b), 10);
    assert_eq!(linear_to_coord_in_box(10, &b), vec![0, 6, 11]);
}

#[test]
fn index_round_trip_over_a_whole_box() {
    let b = aabb(&[-2, 0, 3, 0], &[0, 1, 5, 26]);
    let n = box_buffer_size(&b);
    assert_eq!(n, 3 * 2 * 3 * 27);
    for i in 0..n {
        let c = linear_to_coord_in_box(i, &b);
        assert!(box_contains_coord(&b, &c));
        assert_eq!(coord_to_linear_in_box(&c, &b), i);
    }
    for x in -2..=0 {
        for z in 3..=5 {
            let c = vec![x, 1, z, 13];
            assert_eq!(linear_to_coord_in_box(coord_to_linear_in_box(&c, &b), &b), c);
        }
    }
}

#[test]
fn containment() {
    let b = aabb(&[0, 0, 0], &[2, 3, 4]);
    assert!(box_contains_coord(&b, &vec![2, 3, 4]));
    assert!(box_contains_coord(&b, &vec![0, 0, 0]));
    assert!(!box_contains_coord(&b, &vec![3, 0, 0]));
    assert!(!box_contains_coord(&b, &vec![0, -1, 0]));
    assert!(!box_contains_coord(&b, &vec![0, 0]));
}

#[test]
fn sizes() {
    let b = aabb(&[0, 0, 0], &[2, 3, 4]);
    assert_eq!(box_buffer_size(&b), 60);
    assert_eq!(checked_box_size(&b), Some(60));
    assert_eq!(real_buffer_size(&vec![3, 4, 5]), 60);
    assert_eq!(real_buffer_size(&vec![]), 1);
    assert_eq!(box_buffer_size(&aabb(&[7], &[7])), 1);
}

#[test]
fn malformed_and_oversized_boxes() {
    let bad = aabb(&[0, 3, 0], &[2, 2, 4]);
    assert!(!box_is_well_formed(&bad));
    assert_eq!(checked_box_size(&bad), None);
    assert!(!box_is_well_formed(&aabb(&[0, 0], &[1])));
    let huge = aabb(&[i32::MIN, i32::MIN, i32::MIN], &[i32::MAX, i32::MAX, i32::MAX]);
    assert!(box_is_well_formed(&huge));
    assert_eq!(checked_box_size(&huge), None);
}

#[test]
fn coordinate_listings() {
    let b = aabb(&[0, 0, 0], &[1, 1, 2]);
    let all = coord_iter(&b);
    assert_eq!(all.len(), 12);
    assert_eq!(all[0], vec![0, 0, 0]);
    assert_eq!(all[1], vec![0, 0, 1]);
    assert_eq!(all[3], vec![0, 1, 0]);
    assert_eq!(all[11], vec![1, 1, 2]);
    assert_eq!(cell_count(&b), 2);
    let corners = cell_coord_iter(&b);
    assert_eq!(corners, vec![vec![0, 0, 0], vec![0, 0, 1]]);
    let flat = aabb(&[0, 0, 0], &[3, 0, 3]);
    assert_eq!(cell_count(&flat), 0);
    assert!(cell_coord_iter(&flat).is_empty());
    assert_eq!(cell_count(&aabb(&[0, 0, 0], &[2, 3, 4])), 24);
}

#[test]
fn hexahedron_connectivity_winding() {
    let b = aabb(&[0, 0, 0], &[1, 1, 1]);
    assert_eq!(hex_connectivity(&b), vec![0, 4, 5, 1, 2, 6, 7, 3]);
    let b2 = aabb(&[0, 0, 0], &[1, 1, 2]);
    let conn = hex_connectivity(&b2);
    assert_eq!(conn.len(), 16);
    assert_eq!(&conn[8..], &[1, 7, 8, 2, 4, 10, 11, 5]);
}

#[test]
fn snapshots_every_n_iterations() {
    assert!(snapshot_due(0, 1));
    assert!(snapshot_due(6, 3));
    assert!(!snapshot_due(7, 3));
    assert!(!snapshot_due(0, 0));
}
