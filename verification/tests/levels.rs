use planks::control::{EntityEvent, EntityState};
use planks::coordset::CoordSet;
use planks::gen::Holes;
use planks::history::{StepKind, UndoBuffer, UndoState};
use planks::level::{
    build_level, find_matching_hole, height, pick_nails, sort_holes_by_height, Level, LevelDef,
    Position, PositionZ,
};
use planks::rng::rng_from_seed;
use planks::Coord;

fn shape(cells: &[(i32, i32)]) -> CoordSet {
    let v: Vec<Coord> = cells.iter().map(|&(x, y)| Coord { x, y }).collect();
    CoordSet::from_cells(&v)
}

fn empty_level() -> Level {
    Level {
        extents: Coord { x: 0, y: 0 },
        holes: Holes { holes: Vec::new() },
        planks: Vec::new(),
        setup: false,
    }
}

fn snapshot_args(tag: i32) -> (Level, Vec<(CoordSet, Position, Vec<Coord>)>, Position) {
    (empty_level(), Vec::new(), Position(Coord { x: tag, y: tag }))
}

#[test]
fn history_round_trip_restores_the_pushed_state() {
    let mut buf = UndoBuffer::new(empty_level());
    let (level, done, cursor) = snapshot_args(7);
    let camera = (Position(Coord { x: 1, y: 2 }), PositionZ(9));
    buf.push_state(true, level, done, cursor, camera);
    buf.move_back();
    buf.move_forward();
    let cur: &UndoState = buf.current_state();
    assert!(cur.is_action);
    assert_eq!((cur.cursor.0.x, cur.cursor.0.y), (7, 7));
    assert_eq!((cur.camera.0 .0.x, cur.camera.0 .0.y), (1, 2));
    assert_eq!(cur.camera.1 .0, 9);
    assert_eq!(cur.done_planks.len(), 0);
    assert_eq!(cur.level.planks.len(), 0);
    assert_eq!(cur.level.holes.holes.len(), 0);
}

#[test]
fn pushing_truncates_the_redo_branch() {
    let mut buf = UndoBuffer::new(empty_level());
    let (level, done, cursor) = snapshot_args(1);
    buf.push_state(true, level, done, cursor, (Position(Coord { x: 0, y: 0 }), PositionZ(0)));
    buf.move_back();
    assert!(buf.has_forward());
    assert!(buf.next().is_some());
    let (level2, done2, cursor2) = snapshot_args(2);
    buf.push_state(true, level2, done2, cursor2, (Position(Coord { x: 0, y: 0 }), PositionZ(0)));
    assert!(!buf.has_forward());
    assert!(buf.next().is_none());
}

#[test]
fn prev_and_next_stop_at_the_boundaries() {
    let mut buf = UndoBuffer::new(empty_level());
    assert!(buf.prev().is_none());
    assert!(buf.next().is_none());
    assert!(!buf.has_back());
    buf.move_back();
    buf.move_forward();
    let cur = buf.current_state();
    assert!(!cur.is_action);
}

#[test]
fn undo_first_repositions_then_restores() {
    let mut buf = UndoBuffer::new(empty_level());
    let (level, done, _) = snapshot_args(0);
    // an action snapshot whose cursor sits at (3, 3)
    buf.push_state(
        true,
        level,
        done,
        Position(Coord { x: 3, y: 3 }),
        (Position(Coord { x: 0, y: 0 }), PositionZ(0)),
    );
    let home = (Position(Coord { x: 0, y: 0 }), PositionZ(0));
    // the live cursor has wandered: the first undo only repositions
    let r = buf.undo_step(Position(Coord { x: 5, y: 5 }), home);
    assert!(matches!(r, StepKind::Reposition));
    assert_eq!(buf.pos, 1);
    // a camera difference alone also holds the world state back
    let zoomed = (Position(Coord { x: 0, y: 0 }), PositionZ(8));
    let r2 = buf.undo_step(Position(Coord { x: 0, y: 0 }), zoomed);
    assert!(matches!(r2, StepKind::Reposition));
    assert_eq!(buf.pos, 1);
    // with cursor and camera back at the previous snapshot's, undo restores
    let r3 = buf.undo_step(Position(Coord { x: 0, y: 0 }), home);
    assert!(matches!(r3, StepKind::Restore));
    assert_eq!(buf.pos, 0);
    let r4 = buf.undo_step(Position(Coord { x: 0, y: 0 }), home);
    assert!(matches!(r4, StepKind::NoStep));
}

#[test]
fn redo_first_repositions_then_restores() {
    let mut buf = UndoBuffer::new(empty_level());
    let (level, done, _) = snapshot_args(0);
    buf.push_state(
        true,
        level,
        done,
        Position(Coord { x: 3, y: 3 }),
        (Position(Coord { x: 0, y: 0 }), PositionZ(0)),
    );
    buf.move_back();
    let home = (Position(Coord { x: 0, y: 0 }), PositionZ(0));
    let r = buf.redo_step(Position(Coord { x: 9, y: 9 }), home);
    assert!(matches!(r, StepKind::Reposition));
    assert_eq!(buf.pos, 0);
    let r2 = buf.redo_step(Position(Coord { x: 3, y: 3 }), home);
    assert!(matches!(r2, StepKind::Restore));
    assert_eq!(buf.pos, 1);
    let r3 = buf.redo_step(Position(Coord { x: 3, y: 3 }), home);
    assert!(matches!(r3, StepKind::NoStep));
}

#[test]
fn invalid_buffer_is_not_well_formed() {
    let buf = UndoBuffer::invalid();
    assert_eq!(buf.states.len(), 0);
    assert_eq!(buf.pos, usize::MAX);
}

#[test]
fn build_level_reproduces_the_definition() {
    let def = LevelDef { num_holes: 2, total_blocks: 6, seed: 42 };
    let lv = build_level(&def);
    assert!(lv.setup);
    assert_eq!(lv.holes.holes.len(), 2);
    let sum: usize = lv.holes.holes.iter().map(|h| h.count()).sum();
    assert_eq!(sum, 6);
    assert_eq!(lv.planks.len(), 1);
    assert_eq!(lv.planks[0].0.count(), 6);
    // every hole cell lies inside the box [1, extents]
    for h in lv.holes.holes.iter() {
        for c in h.cells.iter() {
            assert!(1 <= c.x && c.x <= lv.extents.x);
            assert!(1 <= c.y && c.y <= lv.extents.y);
        }
    }
    // no two holes share a board cell
    for i in 0..lv.holes.holes.len() {
        for j in (i + 1)..lv.holes.holes.len() {
            assert!(!lv.holes.holes[i].overlaps(&lv.holes.holes[j]));
        }
    }
    // the same definition always yields the same level
    let lv2 = build_level(&def);
    assert!(lv.planks[0].0.equals(&lv2.planks[0].0));
    assert_eq!(lv.holes.holes.len(), lv2.holes.holes.len());
    for (a, b) in lv.holes.holes.iter().zip(lv2.holes.holes.iter()) {
        assert!(a.equals(b));
    }
}

#[test]
fn sorting_holes_orders_by_height() {
    let mut v = vec![
        shape(&[(0, 0)]),
        shape(&[(0, 0), (0, 1), (0, 2)]),
        shape(&[(0, 0), (0, 1)]),
    ];
    sort_holes_by_height(&mut v);
    assert_eq!(height(&v[0]), 3);
    assert_eq!(height(&v[1]), 2);
    assert_eq!(height(&v[2]), 1);
}

#[test]
fn matching_hole_is_found_by_exact_cells() {
    let holes = Holes {
        holes: vec![shape(&[(0, 0), (1, 0)]), shape(&[(0, 0), (0, 1), (1, 1)])],
    };
    let probe = shape(&[(0, 0), (0, 1), (1, 1)]);
    assert_eq!(find_matching_hole(&holes, &probe), Some(1));
    let miss = shape(&[(0, 0), (1, 1)]);
    assert_eq!(find_matching_hole(&holes, &miss), None);
}

#[test]
fn nails_are_cells_of_the_plank() {
    let plank = shape(&[(0, 0), (1, 0), (2, 0), (3, 0), (0, 1), (1, 1), (2, 1), (3, 1)]);
    let mut rng = rng_from_seed(3);
    let nails = pick_nails(&plank, &mut rng);
    assert!(nails.len() >= 2 && nails.len() <= 4);
    for c in nails.iter() {
        assert!(plank.contains(*c));
    }
}

#[test]
fn hammer_home_removes_the_hole_and_records_the_plank() {
    let mut level = Level {
        extents: Coord { x: 5, y: 5 },
        holes: Holes {
            holes: vec![shape(&[(0, 0)]), shape(&[(0, 0), (1, 0)]), shape(&[(1, 1)])],
        },
        planks: Vec::new(),
        setup: true,
    };
    let mut done = Vec::new();
    let plank = shape(&[(0, 0), (1, 0)]);
    let nails = vec![Coord { x: 0, y: 0 }];
    planks::level::hammer_home(&mut level, 1, &mut done, plank, Position(Coord { x: 2, y: 3 }), nails);
    assert_eq!(level.holes.holes.len(), 2);
    assert!(level.holes.holes[0].equals(&shape(&[(0, 0)])));
    assert!(level.holes.holes[1].equals(&shape(&[(1, 1)])));
    assert_eq!(done.len(), 1);
    assert!(done[0].0.equals(&shape(&[(0, 0), (1, 0)])));
    assert_eq!((done[0].1 .0.x, done[0].1 .0.y), (2, 3));
    assert_eq!(done[0].2.len(), 1);
}

#[test]
fn entity_interaction_states_follow_the_cursor() {
    let s = EntityState::Idle;
    let s = s.step(EntityEvent::Target);
    assert_eq!(s, EntityState::Targeted);
    let s = s.step(EntityEvent::Grab);
    assert_eq!(s, EntityState::Selected);
    // grabbing again does not apply while already selected
    assert_eq!(s.step(EntityEvent::Grab), EntityState::Selected);
    let s = s.step(EntityEvent::Drop);
    assert_eq!(s, EntityState::Idle);
    let s = s.step(EntityEvent::Target).step(EntityEvent::BeginCut);
    assert_eq!(s, EntityState::Cutting);
    // ending the cut returns the plank to merely targeted
    assert_eq!(s.step(EntityEvent::EndCut), EntityState::Targeted);
}
