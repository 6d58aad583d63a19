use std::collections::HashSet;

use planks::coordset::{CoordSet, Plank};
use planks::gen::{gen_hole, gen_holes};
use planks::rng::rng_from_seed;

fn cell_set(s: &CoordSet) -> HashSet<(i32, i32)> {
    s.cells.iter().map(|c| (c.x, c.y)).collect()
}

fn is_connected(s: &CoordSet) -> bool {
    let cells = cell_set(s);
    let mut seen = HashSet::new();
    let mut stack = Vec::new();
    match cells.iter().next() {
        None => return true,
        Some(&first) => {
            seen.insert(first);
            stack.push(first);
        }
    }
    while let Some((x, y)) = stack.pop() {
        for (nx, ny) in [(x + 1, y), (x - 1, y), (x, y + 1), (x, y - 1)] {
            if cells.contains(&(nx, ny)) && seen.insert((nx, ny)) {
                stack.push((nx, ny));
            }
        }
    }
    seen.len() == cells.len()
}

#[test]
fn gen_hole_has_exact_size_and_is_connected() {
    for seed in [1u64, 2, 3, 99] {
        let mut rng = rng_from_seed(seed);
        let h = gen_hole(6, &mut rng);
        assert_eq!(h.count(), 6);
        assert!(is_connected(&h));
        assert_eq!(h.turns, 0);
        assert!(h.texture_offset.x >= 0 && h.texture_offset.x < 1000);
        assert!(h.texture_offset.y >= 0 && h.texture_offset.y < 1000);
    }
}

#[test]
fn gen_hole_of_one_cell_is_the_origin() {
    let mut rng = rng_from_seed(5);
    let h = gen_hole(1, &mut rng);
    assert_eq!(h.count(), 1);
    assert!(h.contains_xy(0, 0));
}

#[test]
fn gen_holes_partitions_the_total() {
    // the size bounds, computed the same way the generator computes them
    let count: usize = 2;
    let total: usize = 6;
    let smallest = (total + 2 * count - 1) / (2 * count);
    let largest = (3 * total) / (2 * count);
    assert_eq!((smallest, largest), (2, 4));
    let mut rng = rng_from_seed(42);
    let holes = gen_holes(count, total, &mut rng);
    assert_eq!(holes.holes.len(), 2);
    let sum: usize = holes.holes.iter().map(|h| h.count()).sum();
    assert_eq!(sum, 6);
    for h in holes.holes.iter() {
        assert!(h.count() >= smallest && h.count() <= largest);
        assert!(h.count() >= 2 && h.count() <= 5);
        assert!(is_connected(h));
        // normalized: least corner at the origin
        let e = h.extents();
        assert_eq!((e.0 .0, e.1 .0), (0, 0));
    }
}

#[test]
fn gen_holes_partitions_many_seeds() {
    for seed in 0u64..8 {
        let mut rng = rng_from_seed(seed);
        let holes = gen_holes(3, 14, &mut rng);
        assert_eq!(holes.holes.len(), 3);
        let sum: usize = holes.holes.iter().map(|h| h.count()).sum();
        assert_eq!(sum, 14);
    }
}

#[test]
fn from_holes_covers_every_hole_cell() {
    let mut rng = rng_from_seed(7);
    let holes = gen_holes(2, 8, &mut rng);
    let plank = Plank::from_holes(&holes, &mut rng);
    let total: usize = holes.holes.iter().map(|h| h.count()).sum();
    assert_eq!(plank.count(), total);
    assert!(is_connected(&plank));
    assert_eq!(plank.turns, 0);
    let e = plank.extents();
    assert_eq!((e.0 .0, e.1 .0), (0, 0));
}

#[test]
fn from_holes_of_a_single_hole_is_that_hole_transformed() {
    let mut rng = rng_from_seed(11);
    let holes = gen_holes(1, 5, &mut rng);
    let plank = Plank::from_holes(&holes, &mut rng);
    assert_eq!(plank.count(), 5);
    assert!(is_connected(&plank));
}

#[test]
fn gen_hole_grows_the_box_slowly() {
    // width + height of the bounding box never exceeds size + 1
    for seed in [1u64, 4, 9, 42] {
        let mut rng = rng_from_seed(seed);
        let h = gen_hole(7, &mut rng);
        let s = h.size();
        assert!(s.x + s.y <= 8);
    }
}
