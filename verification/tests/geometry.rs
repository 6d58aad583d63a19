use planks::coordset::CoordSet;
use planks::Coord;

fn shape(cells: &[(i32, i32)]) -> CoordSet {
    let v: Vec<Coord> = cells.iter().map(|&(x, y)| Coord { x, y }).collect();
    CoordSet::from_cells(&v)
}

fn same_cells(a: &CoordSet, b: &[(i32, i32)]) -> bool {
    a.equals(&shape(b))
}

#[test]
fn extents_of_small_shape() {
    let s = shape(&[(0, 0), (2, 1), (1, 0)]);
    assert_eq!(s.extents(), ((0, 2), (0, 1)));
    let sz = s.size();
    assert_eq!((sz.x, sz.y), (3, 2));
    assert_eq!(s.count(), 3);
}

#[test]
fn extents_of_empty_shape() {
    let s = CoordSet::empty();
    assert_eq!(s.extents(), ((0, 0), (0, 0)));
    let sz = s.size();
    assert_eq!((sz.x, sz.y), (1, 1));
    assert_eq!(s.count(), 0);
}

#[test]
fn contains_and_insert_deduplicates() {
    let mut s = shape(&[(0, 0), (1, 0)]);
    assert!(s.contains(Coord { x: 1, y: 0 }));
    assert!(!s.contains_xy(2, 0));
    s.insert(Coord { x: 1, y: 0 });
    assert_eq!(s.count(), 2);
    s.insert(Coord { x: 2, y: 0 });
    assert_eq!(s.count(), 3);
}

#[test]
fn rotate_maps_cells_counter_clockwise() {
    let mut s = shape(&[(1, 0), (2, 0), (2, 1)]);
    s.rotate();
    assert!(same_cells(&s, &[(0, 1), (0, 2), (-1, 2)]));
    assert_eq!(s.turns, 1);
}

#[test]
fn rotate_four_times_restores_cells() {
    let orig = shape(&[(1, 0), (2, 0), (2, 1), (0, 0)]);
    let mut s = orig.duplicate();
    for _ in 0..4 {
        s.rotate();
    }
    assert!(s.equals(&orig));
    assert_eq!(s.turns, 0);
    assert_eq!(s.texture_offset.x, orig.texture_offset.x);
    assert_eq!(s.texture_offset.y, orig.texture_offset.y);
}

#[test]
fn shift_then_unshift_restores_cells_and_texture() {
    let orig = shape(&[(0, 0), (1, 0), (1, 1)]);
    let mut s = orig.duplicate();
    s.shift(Coord { x: 3, y: -4 });
    assert!(same_cells(&s, &[(3, -4), (4, -4), (4, -3)]));
    assert_eq!((s.texture_offset.x, s.texture_offset.y), (-3, 4));
    s.shift(Coord { x: -3, y: 4 });
    assert!(s.equals(&orig));
    assert_eq!((s.texture_offset.x, s.texture_offset.y), (0, 0));
}

#[test]
fn shift_tracks_texture_in_the_rotated_frame() {
    let mut s = shape(&[(0, 0)]);
    s.rotate();
    assert_eq!(s.turns, 1);
    s.shift(Coord { x: 2, y: 0 });
    // a world shift of (2, 0) is (0, -2) in the shape's local frame
    assert_eq!((s.texture_offset.x, s.texture_offset.y), (0, 2));
}

#[test]
fn normalize_moves_least_corner_to_origin() {
    let s = shape(&[(2, 3), (3, 3), (3, 4)]);
    let n = s.normalize();
    assert!(same_cells(&n, &[(0, 0), (1, 0), (1, 1)]));
    assert_eq!(n.turns, 0);
}

#[test]
fn touches_and_overlaps() {
    let a = shape(&[(0, 0), (1, 0)]);
    let b = shape(&[(2, 0)]);
    let c = shape(&[(3, 0)]);
    assert!(a.touches(&b));
    assert!(!a.touches(&c));
    assert!(!a.overlaps(&b));
    let d = shape(&[(1, 0), (2, 0)]);
    assert!(a.overlaps(&d));
}

#[test]
fn merge_unions_cells() {
    let a = shape(&[(0, 0), (1, 0)]);
    let b = shape(&[(1, 0), (2, 0)]);
    let m = CoordSet::merge(&vec![a, b]);
    assert!(same_cells(&m, &[(0, 0), (1, 0), (2, 0)]));
    assert_eq!(m.turns, 0);
}

#[test]
fn neighbours_are_the_four_unit_steps() {
    let n = planks::neighbours();
    assert_eq!((n[0].x, n[0].y), (1, 0));
    assert_eq!((n[1].x, n[1].y), (0, 1));
    assert_eq!((n[2].x, n[2].y), (-1, 0));
    assert_eq!((n[3].x, n[3].y), (0, -1));
}

#[test]
fn rasterize_marks_exactly_the_cells() {
    let s = shape(&[(0, 0), (1, 0), (1, 1)]);
    let data = s.rasterize();
    // row-major over a 2 x 2 box: (0,0) (1,0) then (0,1) (1,1)
    assert_eq!(data, vec![1, 1, 0, 1]);
}
