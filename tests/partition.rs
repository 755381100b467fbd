use spatree::ncube::NCube;
use spatree::partition::{Partition, Subdivide};
use spatree::position::Position;

fn pos(c: &[i64]) -> Position {
    Position::new(c.to_vec())
}

fn cube(c: &[i64], e: u64) -> NCube {
    NCube::new(pos(c), e).unwrap()
}

#[test]
fn new_accepts_two_and_three_axes() {
    assert!(NCube::new(pos(&[0, 0]), 4).is_some());
    assert!(NCube::new(pos(&[0, 0, 0]), 4).is_some());
}

#[test]
fn new_rejects_other_dimensions() {
    assert!(NCube::new(pos(&[0]), 4).is_none());
    assert!(NCube::new(pos(&[0, 0, 0, 0]), 4).is_none());
}

#[test]
fn new_rejects_bounds_out_of_range() {
    let b: i64 = 1 << 62;
    assert!(NCube::new(pos(&[b, 0]), 1).is_none());
    assert!(NCube::new(pos(&[0, -b]), 1).is_none());
    assert!(NCube::new(pos(&[0, 0]), (b as u64) + 1).is_none());
    assert!(NCube::new(pos(&[b - 1, 0]), 1).is_some());
    assert!(NCube::new(pos(&[0, 0]), b as u64).is_some());
}

#[test]
fn accessors_return_fields() {
    let c = cube(&[3, -5], 8);
    assert_eq!(c.origin_numerator(0), 3);
    assert_eq!(c.origin_numerator(1), -5);
    assert_eq!(c.extent_numerator(), 8);
    assert_eq!(c.scale(), 1);
    assert_eq!(c.dimension(), 2);
}

#[test]
fn contains_closed_region() {
    let c = cube(&[0, 0], 4);
    assert!(c.contains(&pos(&[0, 0])));
    assert!(c.contains(&pos(&[4, -4])));
    assert!(c.contains(&pos(&[-4, 4])));
    assert!(!c.contains(&pos(&[5, 0])));
    assert!(!c.contains(&pos(&[0, -5])));
}

#[test]
fn contains_rejects_other_dimension() {
    let c = cube(&[0, 0], 4);
    assert!(!c.contains(&pos(&[0, 0, 0])));
}

#[test]
fn index_unchecked_bit_order_2d() {
    let c = cube(&[0, 0], 4);
    assert_eq!(c.index_unchecked(&pos(&[-1, -1])), 0);
    assert_eq!(c.index_unchecked(&pos(&[1, -1])), 1);
    assert_eq!(c.index_unchecked(&pos(&[-1, 1])), 2);
    assert_eq!(c.index_unchecked(&pos(&[1, 1])), 3);
    assert_eq!(c.index_unchecked(&pos(&[0, 0])), 3);
}

#[test]
fn index_unchecked_bit_order_3d() {
    let c = cube(&[10, 10, 10], 4);
    assert_eq!(c.index_unchecked(&pos(&[9, 9, 9])), 0);
    assert_eq!(c.index_unchecked(&pos(&[11, 9, 9])), 1);
    assert_eq!(c.index_unchecked(&pos(&[9, 11, 9])), 2);
    assert_eq!(c.index_unchecked(&pos(&[9, 9, 11])), 4);
    assert_eq!(c.index_unchecked(&pos(&[11, 11, 11])), 7);
}

#[test]
fn index_unchecked_outside_stays_in_range() {
    let c = cube(&[0, 0], 4);
    for p in [[100, 100], [-100, 100], [100, -100], [-100, -100]] {
        assert!(c.index_unchecked(&pos(&p)) < 4);
    }
    let c3 = cube(&[0, 0, 0], 2);
    assert!(c3.index_unchecked(&pos(&[50, -50, 50])) < 8);
}

#[test]
fn index_is_some_only_inside() {
    let c = cube(&[0, 0], 4);
    assert_eq!(c.index(&pos(&[1, 1])), Some(3));
    assert_eq!(c.index(&pos(&[-4, 2])), Some(2));
    assert_eq!(c.index(&pos(&[5, 1])), None);
}

#[test]
fn subdivide_square() {
    let c = cube(&[0, 0], 4);
    let children = c.subdivide();
    assert_eq!(children.len(), 4);
    let origins = [[-2, -2], [2, -2], [-2, 2], [2, 2]];
    for (k, child) in children.iter().enumerate() {
        assert_eq!(child.scale(), 2);
        assert_eq!(child.extent_numerator(), 4);
        for axis in 0..2 {
            assert_eq!(child.origin_numerator(axis), 2 * origins[k][axis]);
        }
    }
}

#[test]
fn subdivide_cube() {
    let c = cube(&[8, 8, 8], 8);
    let children = c.subdivide();
    assert_eq!(children.len(), 8);
    for (k, child) in children.iter().enumerate() {
        assert_eq!(child.scale(), 2);
        assert_eq!(child.extent_numerator(), 8);
        for axis in 0..3 {
            let up = (k >> axis) & 1 == 1;
            let expected = if up { 12 } else { 4 };
            assert_eq!(child.origin_numerator(axis), 2 * expected);
        }
    }
}

#[test]
fn odd_extent_subdivides_exactly() {
    let c = cube(&[0, 0], 3);
    assert!(c.can_subdivide());
    let children = c.subdivide();
    assert_eq!(children[0].origin_numerator(0), -3);
    assert_eq!(children[3].origin_numerator(1), 3);
    assert_eq!(children[3].extent_numerator(), 3);
    assert_eq!(children[3].scale(), 2);
    assert!(children[3].contains(&pos(&[3, 3])));
    assert!(children[3].contains(&pos(&[0, 0])));
    assert!(!children[3].contains(&pos(&[-1, 0])));
    assert!(children[0].contains(&pos(&[-3, -3])));
}

#[test]
fn subdivision_stops_at_the_largest_scale() {
    let mut c = cube(&[0, 0], 1);
    for _ in 0..64 {
        assert!(c.can_subdivide());
        c = c.subdivide().swap_remove(3);
    }
    assert!(!c.can_subdivide());
    assert_eq!(c.scale(), 1i128 << 64);
}

#[test]
fn containment_closure_on_grid() {
    let c = cube(&[0, 0], 4);
    let children = c.subdivide();
    for x in -4..=4 {
        for y in -4..=4 {
            let p = pos(&[x, y]);
            assert!(c.contains(&p));
            let k = c.index_unchecked(&p);
            assert!(children[k].contains(&p));
        }
    }
}

#[test]
fn children_cover_exactly_the_parent() {
    let c = cube(&[1, -1], 2);
    let children = c.subdivide();
    for x in -5..=7 {
        for y in -7..=5 {
            let p = pos(&[x, y]);
            let in_child = children.iter().any(|ch| ch.contains(&p));
            assert_eq!(in_child, c.contains(&p));
        }
    }
}

#[test]
fn containment_closure_in_three_dimensions() {
    let c = cube(&[0, 0, 0], 2);
    let children = c.subdivide();
    for x in -2..=2 {
        for y in -2..=2 {
            for z in -2..=2 {
                let p = pos(&[x, y, z]);
                let k = c.index_unchecked(&p);
                assert!(k < 8);
                assert!(children[k].contains(&p));
            }
        }
    }
}

#[test]
fn largest_cube_subdivides_without_overflow() {
    let e: u64 = 1 << 62;
    let c = cube(&[0, 0], e);
    assert!(c.contains(&pos(&[1 << 62, -(1 << 62)])));
    assert!(!c.contains(&pos(&[(1 << 62) + 1, 0])));
    assert!(!c.contains(&pos(&[i64::MIN, 0])));
    assert_eq!(c.index_unchecked(&pos(&[i64::MAX, i64::MIN])), 1);
    let children = c.subdivide();
    assert_eq!(children[1].origin_numerator(0), 1 << 62);
    assert_eq!(children[1].origin_numerator(1), -(1 << 62));
    assert_eq!(children[1].extent_numerator(), 1 << 62);
    assert!(children[1].contains(&pos(&[1 << 62, -(1 << 62)])));
}

#[test]
fn odd_extent_children_cover_the_parent_and_address_points() {
    let c = cube(&[1, -1], 3);
    let children = c.subdivide();
    for x in -4..=6 {
        for y in -6..=4 {
            let p = pos(&[x, y]);
            let in_child = children.iter().any(|ch| ch.contains(&p));
            assert_eq!(in_child, c.contains(&p));
            if c.contains(&p) {
                assert!(children[c.index_unchecked(&p)].contains(&p));
            }
            if c.contains(&p) && x != 1 && y != -1 {
                let holders: Vec<usize> = (0..4).filter(|&k| children[k].contains(&p)).collect();
                assert_eq!(holders, vec![c.index_unchecked(&p)]);
            }
        }
    }
}
