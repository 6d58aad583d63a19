use planks::coordset::CoordSet;
use planks::cut::{commit_piece, cut_start_valid, find_cut_start, CellEdge, Cut, CutMove};
use planks::Coord;

fn shape(cells: &[(i32, i32)]) -> CoordSet {
    let v: Vec<Coord> = cells.iter().map(|&(x, y)| Coord { x, y }).collect();
    CoordSet::from_cells(&v)
}

fn strip_1x4() -> CoordSet {
    shape(&[(0, 0), (1, 0), (2, 0), (3, 0)])
}

#[test]
fn split_of_a_strip_yields_both_halves() {
    let plank = strip_1x4();
    let mut cut = Cut::new();
    cut.separated.push(CellEdge { a: Coord { x: 1, y: 0 }, b: Coord { x: 2, y: 0 } });
    let (a, b) = cut.split(&plank).expect("one severed edge disconnects the strip");
    let left = shape(&[(0, 0), (1, 0)]);
    let right = shape(&[(2, 0), (3, 0)]);
    // order between the two pieces is unspecified: compare as a pair of sets
    assert!(
        (a.equals(&left) && b.equals(&right)) || (a.equals(&right) && b.equals(&left)),
    );
    assert_eq!(a.turns, plank.turns);
    assert_eq!(b.turns, plank.turns);
    assert_eq!(a.texture_offset.x, plank.texture_offset.x);
    assert_eq!(b.texture_offset.y, plank.texture_offset.y);
}

#[test]
fn split_without_edges_is_none() {
    let plank = strip_1x4();
    let cut = Cut::new();
    assert!(cut.split(&plank).is_none());
}

#[test]
fn split_of_a_square_with_one_edge_is_none() {
    let plank = shape(&[(0, 0), (1, 0), (0, 1), (1, 1)]);
    let mut cut = Cut::new();
    cut.separated.push(CellEdge { a: Coord { x: 0, y: 0 }, b: Coord { x: 1, y: 0 } });
    // the square stays connected around the top
    assert!(cut.split(&plank).is_none());
    assert!(!cut.is_finished(&plank));
}

#[test]
fn extend_severs_and_finishes_a_strip() {
    let plank = strip_1x4();
    let mut cut = Cut::new();
    let ppos = Coord { x: 0, y: 0 };
    // moving up along the lattice line x = 2 severs the boundary
    // between cells (1, 0) and (2, 0)
    let r = cut.extend(&plank, ppos, Coord { x: 2, y: 0 }, Coord { x: 2, y: 1 });
    match r {
        CutMove::Severed { finished } => assert!(finished),
        _ => panic!("expected a severing move"),
    }
    assert!(cut.finished);
    assert_eq!(cut.separated.len(), 1);
    assert!(cut.split(&plank).is_some());
}

#[test]
fn extend_restores_a_severed_boundary() {
    let plank = strip_1x4();
    let mut cut = Cut::new();
    let ppos = Coord { x: 0, y: 0 };
    cut.extend(&plank, ppos, Coord { x: 2, y: 0 }, Coord { x: 2, y: 1 });
    assert!(cut.finished);
    // crossing the same boundary back restores it and un-finishes the cut
    let r = cut.extend(&plank, ppos, Coord { x: 2, y: 1 }, Coord { x: 2, y: 0 });
    assert!(matches!(r, CutMove::Restored));
    assert!(!cut.finished);
    assert_eq!(cut.separated.len(), 0);
}

#[test]
fn extend_rejects_air_weird_and_blocked_moves() {
    let plank = strip_1x4();
    let mut cut = Cut::new();
    let ppos = Coord { x: 0, y: 0 };
    // far away from the plank: both affected cells are empty
    assert!(matches!(
        cut.extend(&plank, ppos, Coord { x: 20, y: 20 }, Coord { x: 20, y: 21 }),
        CutMove::Air
    ));
    // a diagonal move is not a unit step
    assert!(matches!(
        cut.extend(&plank, ppos, Coord { x: 2, y: 0 }, Coord { x: 3, y: 1 }),
        CutMove::Weird
    ));
    // after finishing, severing new ground is blocked
    cut.extend(&plank, ppos, Coord { x: 2, y: 0 }, Coord { x: 2, y: 1 });
    assert!(cut.finished);
    assert!(matches!(
        cut.extend(&plank, ppos, Coord { x: 1, y: 0 }, Coord { x: 1, y: 1 }),
        CutMove::Blocked
    ));
}

#[test]
fn extend_slides_along_the_rim() {
    let plank = strip_1x4();
    let mut cut = Cut::new();
    let ppos = Coord { x: 0, y: 0 };
    // moving right along the plank's lower rim: only the upper affected
    // cell is on the plank, so nothing is severed
    let r = cut.extend(&plank, ppos, Coord { x: 1, y: 0 }, Coord { x: 2, y: 0 });
    assert!(matches!(r, CutMove::Slide));
    assert_eq!(cut.separated.len(), 0);
}

#[test]
fn cut_start_needs_a_boundary_point() {
    let plank = strip_1x4();
    let ppos = Coord { x: 0, y: 0 };
    // two of the four surrounding cells are on the plank: a valid start
    assert!(cut_start_valid(&plank, ppos, Coord { x: 1, y: 1 }));
    // all surrounding cells are off the plank: invalid
    assert!(!cut_start_valid(&plank, ppos, Coord { x: 9, y: 9 }));
    let candidates = vec![Coord { x: 9, y: 9 }, Coord { x: 1, y: 1 }, Coord { x: 2, y: 1 }];
    let found = find_cut_start(&plank, ppos, &candidates).expect("a valid start exists");
    assert_eq!((found.x, found.y), (1, 1));
    let none = find_cut_start(&plank, ppos, &vec![Coord { x: 9, y: 9 }]);
    assert!(none.is_none());
}

#[test]
fn interior_of_a_block_is_no_cut_start() {
    // a 3x3 block: its centre lattice point is surrounded by four plank
    // cells and so is not a valid start
    let mut cells = Vec::new();
    for x in 0..3 {
        for y in 0..3 {
            cells.push((x, y));
        }
    }
    let plank = shape(&cells);
    assert!(!cut_start_valid(&plank, Coord { x: 0, y: 0 }, Coord { x: 2, y: 2 }));
}

#[test]
fn commit_piece_keeps_absolute_positions() {
    let mut piece = shape(&[(0, 0), (1, 0)]);
    let new_pos = commit_piece(&mut piece, Coord { x: 5, y: 5 });
    // the piece now starts at (1, 1) and the position compensates
    let e = piece.extents();
    assert_eq!((e.0 .0, e.1 .0), (1, 1));
    assert_eq!((new_pos.x, new_pos.y), (4, 4));
    // absolute board cells are unchanged: (0,0)+(5,5) == (1,1)+(4,4)
    assert!(piece.contains(Coord { x: 1, y: 1 }));
    assert!(piece.contains(Coord { x: 2, y: 1 }));
}

#[test]
fn split_pieces_inherit_alignment_state() {
    let mut plank = strip_1x4();
    plank.turns = 3;
    plank.texture_offset = Coord { x: 17, y: -4 };
    let mut cut = Cut::new();
    cut.separated.push(CellEdge { a: Coord { x: 0, y: 0 }, b: Coord { x: 1, y: 0 } });
    let (a, b) = cut.split(&plank).expect("disconnected");
    assert_eq!(a.turns, 3);
    assert_eq!(b.turns, 3);
    assert_eq!((a.texture_offset.x, a.texture_offset.y), (17, -4));
    assert_eq!((b.texture_offset.x, b.texture_offset.y), (17, -4));
}
