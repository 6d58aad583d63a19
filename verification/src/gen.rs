//! Procedural generation: growing a single connected hole by random-walk
//! insertion, partitioning a cell budget into hole sizes, and welding holes
//! into one connected plank.

use vstd::prelude::*;

use crate::connect::{connected, lemma_connected_insert, lemma_reach_refl, no_edges};
use crate::coord::{adj, bounded_by, Coord};
use crate::coordset::{CoordSet, Hole};
use crate::rng::{rng_range_i32, rng_range_usize};

verus! {

/// An ordered list of holes, as generated for one level.
pub struct Holes {
    pub holes: Vec<Hole>,
}

/// Total number of cells over a list of holes.
pub open spec fn total_cells(hs: Seq<CoordSet>) -> int
    decreases hs.len(),
{
    if hs.len() == 0 {
        0
    } else {
        total_cells(hs.drop_last()) + hs.last()@.len()
    }
}

/// How many candidate points are sampled for one insertion before the
/// deterministic fallback is used; termination is guaranteed either way.
pub const SAMPLE_CAP: usize = 10000;

/// Grow a connected hole of exactly `size` cells: start from the origin and
/// repeatedly add a uniformly sampled cell of the bounding box (grown by one
/// in each direction) that is new and 4-adjacent to the shape. If sampling
/// rejects too long, the next cell is placed deterministically against the
/// shape's right edge instead.
pub fn gen_hole(size: usize, rng: &mut rand::rngs::StdRng) -> (h: Hole)
    requires
        1 <= size <= 0x20000000,
    ensures
        h.wf(),
        h@.len() == size,
        connected(h@),
        h.turns == 0,
        0 <= h.texture_offset.x < 1000,
        0 <= h.texture_offset.y < 1000,
        bounded_by(h@, -(size as int), size as int),
        h@.contains((0int, 0int)),
        forall|e: ((i32, i32), (i32, i32))| #[trigger]
            crate::coordset::is_extents(h@, e) ==> (e.0.1 - e.0.0) + (e.1.1 - e.1.0) <= size - 1,
{
    let tx = rng_range_i32(rng, 0, 999);
    let ty = rng_range_i32(rng, 0, 999);
    let mut hole = CoordSet::empty();
    hole.insert(Coord { x: 0, y: 0 });
    hole.texture_offset = Coord { x: tx, y: ty };
    let ghost mut gx0: int = 0;
    let ghost mut gx1: int = 0;
    let ghost mut gy0: int = 0;
    let ghost mut gy1: int = 0;
    proof {
        assert forall|a: (int, int), b: (int, int)|
            hole@.contains(a) && hole@.contains(b) implies crate::connect::reach(
            hole@,
            no_edges(),
            a,
            b,
        ) by {
            assert(a == (0int, 0int) && b == (0int, 0int));
            lemma_reach_refl(hole@, no_edges(), a);
        }
    }
    let mut k: usize = 1;
    while k < size
        invariant
            1 <= k <= size,
            size <= 0x20000000,
            hole.wf(),
            hole.turns == 0,
            hole.texture_offset.x == tx,
            hole.texture_offset.y == ty,
            0 <= tx < 1000,
            0 <= ty < 1000,
            hole@.len() == k,
            connected(hole@),
            hole@.contains((0int, 0int)),
            bounded_by(hole@, -(k as int), k as int),
            crate::coordset::is_min_x(hole@, gx0),
            crate::coordset::is_max_x(hole@, gx1),
            crate::coordset::is_min_y(hole@, gy0),
            crate::coordset::is_max_y(hole@, gy1),
            (gx1 - gx0) + (gy1 - gy0) <= k - 1,
        decreases size - k,
    {
        let next = next_cell(&hole, rng, Ghost(k as int));
        let ghost pre = hole@;
        proof {
            let nb = choose|nb: (int, int)| hole@.contains(nb) && adj(nb, next@);
            lemma_connected_insert(hole@, nb, next@);
            hole.lemma_view_len();
        }
        hole.insert(next);
        proof {
            // the accepted cell touches the shape, so it extends the
            // bounding box along at most one axis, by at most one
            let nb = choose|nb: (int, int)| pre.contains(nb) && adj(nb, next@);
            assert(gx0 <= nb.0 <= gx1 && gy0 <= nb.1 <= gy1);
            let nx0: int = if next@.0 < gx0 { next@.0 } else { gx0 };
            let nx1: int = if next@.0 > gx1 { next@.0 } else { gx1 };
            let ny0: int = if next@.1 < gy0 { next@.1 } else { gy0 };
            let ny1: int = if next@.1 > gy1 { next@.1 } else { gy1 };
            assert((nx1 - nx0) + (ny1 - ny0) <= (gx1 - gx0) + (gy1 - gy0) + 1) by {
                if next@.0 == nb.0 {
                    assert(nx0 == gx0 && nx1 == gx1);
                    assert(nb.1 - 1 <= next@.1 <= nb.1 + 1);
                } else {
                    assert(next@.1 == nb.1);
                    assert(ny0 == gy0 && ny1 == gy1);
                    assert(nb.0 - 1 <= next@.0 <= nb.0 + 1);
                }
            }
            assert(crate::coordset::is_min_x(hole@, nx0)) by {
                if next@.0 < gx0 {
                    assert(hole@.contains(next@) && next@.0 == nx0);
                } else {
                    let w = choose|w: (int, int)| #[trigger] pre.contains(w) && w.0 == gx0;
                    assert(hole@.contains(w));
                }
            }
            assert(crate::coordset::is_max_x(hole@, nx1)) by {
                if next@.0 > gx1 {
                    assert(hole@.contains(next@) && next@.0 == nx1);
                } else {
                    let w = choose|w: (int, int)| #[trigger] pre.contains(w) && w.0 == gx1;
                    assert(hole@.contains(w));
                }
            }
            assert(crate::coordset::is_min_y(hole@, ny0)) by {
                if next@.1 < gy0 {
                    assert(hole@.contains(next@) && next@.1 == ny0);
                } else {
                    let w = choose|w: (int, int)| #[trigger] pre.contains(w) && w.1 == gy0;
                    assert(hole@.contains(w));
                }
            }
            assert(crate::coordset::is_max_y(hole@, ny1)) by {
                if next@.1 > gy1 {
                    assert(hole@.contains(next@) && next@.1 == ny1);
                } else {
                    let w = choose|w: (int, int)| #[trigger] pre.contains(w) && w.1 == gy1;
                    assert(hole@.contains(w));
                }
            }
            gx0 = nx0;
            gx1 = nx1;
            gy0 = ny0;
            gy1 = ny1;
        }
        k += 1;
    }
    proof {
        // any witnessed bounding box agrees with the tracked extremes
        assert forall|e: ((i32, i32), (i32, i32))| #[trigger]
            crate::coordset::is_extents(hole@, e) implies (e.0.1 - e.0.0) + (e.1.1 - e.1.0) <= size
            - 1 by {
            let a = choose|p: (int, int)| #[trigger] hole@.contains(p) && p.0 == e.0.0 as int;
            let b = choose|p: (int, int)| #[trigger] hole@.contains(p) && p.0 == e.0.1 as int;
            let c = choose|p: (int, int)| #[trigger] hole@.contains(p) && p.1 == e.1.0 as int;
            let d = choose|p: (int, int)| #[trigger] hole@.contains(p) && p.1 == e.1.1 as int;
            let a2 = choose|p: (int, int)| #[trigger] hole@.contains(p) && p.0 == gx0;
            let b2 = choose|p: (int, int)| #[trigger] hole@.contains(p) && p.0 == gx1;
            let c2 = choose|p: (int, int)| #[trigger] hole@.contains(p) && p.1 == gy0;
            let d2 = choose|p: (int, int)| #[trigger] hole@.contains(p) && p.1 == gy1;
        }
    }
    hole
}

/// Pick the next cell to add to a growing hole: not yet in the shape and
/// 4-adjacent to it, inside the bounding box grown by one in each direction.
fn next_cell(hole: &Hole, rng: &mut rand::rngs::StdRng, Ghost(k): Ghost<int>) -> (next: Coord)
    requires
        hole.wf(),
        1 <= k <= 0x20000000,
        hole@.len() == k,
        bounded_by(hole@, -k, k),
    ensures
        !hole@.contains(next@),
        exists|nb: (int, int)| hole@.contains(nb) && adj(nb, next@),
        -(k + 1) <= next.x <= k + 1,
        -(k + 1) <= next.y <= k + 1,
{
    let e = hole.extents();
    proof {
        hole.lemma_view_len();
        assert(hole@.len() > 0);
        let w = choose|w: (int, int)| #[trigger] hole@.contains(w) && w.0 == e.0.0 as int;
        let w2 = choose|w2: (int, int)| #[trigger] hole@.contains(w2) && w2.0 == e.0.1 as int;
        let w3 = choose|w3: (int, int)| #[trigger] hole@.contains(w3) && w3.1 == e.1.0 as int;
        let w4 = choose|w4: (int, int)| #[trigger] hole@.contains(w4) && w4.1 == e.1.1 as int;
        assert(-k <= e.0.0 as int <= e.0.1 as int <= k);
        assert(-k <= e.1.0 as int <= e.1.1 as int <= k);
    }
    let mut tries: usize = 0;
    while tries < SAMPLE_CAP
        invariant
            -k <= e.0.0 as int <= e.0.1 as int <= k,
            -k <= e.1.0 as int <= e.1.1 as int <= k,
        decreases SAMPLE_CAP - tries,
    {
        let nx = rng_range_i32(rng, e.0.0 - 1, e.0.1 + 1);
        let ny = rng_range_i32(rng, e.1.0 - 1, e.1.1 + 1);
        let cand = Coord { x: nx, y: ny };
        if !hole.contains(cand) {
            let mut nb: Option<Coord> = None;
            if hole.contains(Coord { x: nx + 1, y: ny }) {
                nb = Some(Coord { x: nx + 1, y: ny });
            } else if hole.contains(Coord { x: nx - 1, y: ny }) {
                nb = Some(Coord { x: nx - 1, y: ny });
            } else if hole.contains(Coord { x: nx, y: ny + 1 }) {
                nb = Some(Coord { x: nx, y: ny + 1 });
            } else if hole.contains(Coord { x: nx, y: ny - 1 }) {
                nb = Some(Coord { x: nx, y: ny - 1 });
            }
            if let Some(n) = nb {
                proof {
                    assert(hole@.contains(n@) && adj(n@, cand@));
                }
                return cand;
            }
        }
        tries += 1;
    }
    // deterministic fallback: one step right of a cell on the right edge
    let cells = &hole.cells;
    let m = cells.len();
    let mut i: usize = 0;
    while i < m
        invariant
            0 <= i <= m,
            m == hole.cells@.len(),
            -k <= e.0.1 as int <= k,
            forall|p: (int, int)| #[trigger] hole@.contains(p) ==> p.0 <= e.0.1 as int,
            exists|p: (int, int)| #[trigger] hole@.contains(p) && p.0 == e.0.1 as int,
            forall|j: int| 0 <= j < i ==> (#[trigger] hole.cells@[j]).x != e.0.1,
        decreases m - i,
    {
        let c = cells[i];
        if c.x == e.0.1 {
            let cand = Coord { x: c.x + 1, y: c.y };
            proof {
                assert(hole.cells@[i as int] == c);
                assert(hole.cseq()[i as int] == c@);
                assert(hole@.contains(c@));
                assert(adj(c@, cand@));
                if hole@.contains(cand@) {
                    assert(cand@.0 <= e.0.1 as int);
                }
            }
            return cand;
        }
        i += 1;
    }
    // a cell attaining the right edge always exists
    proof {
        let p = choose|p: (int, int)| #[trigger] hole@.contains(p) && p.0 == e.0.1 as int;
        let j = choose|j: int| 0 <= j < hole.cseq().len() && hole.cseq()[j] == p;
        assert(hole.cseq()[j] == hole.cells@[j]@);
        assert(hole.cells@[j].x as int == e.0.1 as int);
        assert(false);
    }
    Coord { x: 0, y: 0 }
}


/// Least size a single hole may receive when `total` cells are divided over
/// `count` holes: half the average, rounded up.
pub open spec fn hole_size_min(count: int, total: int) -> int {
    (total + 2 * count - 1) / (2 * count)
}

/// Greatest size a single hole may receive: one-and-a-half times the
/// average, rounded down.
pub open spec fn hole_size_max(count: int, total: int) -> int {
    (3 * total) / (2 * count)
}

/// Basic facts about the size bounds: at least one cell each, ordered, and
/// the lower bounds always leave the remaining total satisfiable.
pub proof fn lemma_hole_size_bounds(c: int, t: int)
    requires
        1 <= c <= t,
    ensures
        1 <= hole_size_min(c, t),
        hole_size_min(c, t) <= hole_size_max(c, t),
        c * hole_size_min(c, t) <= t,
        hole_size_max(c, t) <= t * 2,
{
    let d = 2 * c;
    let s = hole_size_min(c, t);
    vstd::arithmetic::div_mod::lemma_fundamental_div_mod(t + d - 1, d);
    assert(d * s <= t + d - 1 < d * s + d);
    assert(s >= 1) by (nonlinear_arith)
        requires
            d >= 2,
            t >= 1,
            d * s + d > t + d - 1,
            d * s <= t + d - 1,
    ;
    if t >= 2 * c - 1 {
        assert(c * s <= t) by (nonlinear_arith)
            requires
                d == 2 * c,
                c >= 1,
                d * s <= t + d - 1,
                t >= 2 * c - 1,
        ;
    } else {
        assert(s <= 1) by (nonlinear_arith)
            requires
                d == 2 * c,
                c >= 1,
                t <= 2 * c - 2,
                d * s <= t + d - 1,
                d * s + d > t + d - 1,
        ;
        assert(c * s <= t) by (nonlinear_arith)
            requires
                s == 1,
                c <= t,
        ;
    }
    assert(t + d - 1 <= 3 * t) by {
        assert(2 * t >= d - 1);
    }
    vstd::arithmetic::div_mod::lemma_div_is_ordered(t + d - 1, 3 * t, d);
    vstd::arithmetic::div_mod::lemma_fundamental_div_mod(3 * t, d);
    assert(hole_size_max(c, t) <= t * 2) by (nonlinear_arith)
        requires
            d == 2 * c,
            c >= 1,
            t >= 1,
            d * hole_size_max(c, t) <= 3 * t,
    ;
}

/// Partition `total` cells into `count` hole sizes, each within the bounds
/// of `hole_size_min` and `hole_size_max`, and generate each hole, already
/// normalized. Sizes are drawn for the last hole first; each draw is clamped
/// so that the remaining holes can still use up the remaining cells.
pub fn gen_holes(count: usize, total: usize, rng: &mut rand::rngs::StdRng) -> (r: Holes)
    requires
        1 <= count <= total,
        total <= 0x10000000,
        total as int <= count as int * hole_size_max(count as int, total as int),
    ensures
        r.holes@.len() == count,
        total_cells(r.holes@) == total,
        forall|i: int|
            0 <= i < count ==> {
                let h = #[trigger] r.holes@[i];
                &&& h.wf()
                &&& connected(h@)
                &&& h.turns == 0
                &&& hole_size_min(count as int, total as int) <= h@.len() <= hole_size_max(
                    count as int,
                    total as int,
                )
                &&& h@.len() >= 1
                &&& (crate::coordset::is_min_x(h@, 0) && crate::coordset::is_min_y(h@, 0))
                &&& bounded_by(h@, 0, 2 * h@.len() as int)
                &&& 0 <= h.texture_offset.x < 1000
                &&& 0 <= h.texture_offset.y < 1000
            },
{
    let ghost c0 = count as int;
    let ghost t0 = total as int;
    proof {
        lemma_hole_size_bounds(c0, t0);
    }
    let smallest = (total + 2 * count - 1) / (2 * count);
    let largest = (3 * total) / (2 * count);
    proof {
        assert(smallest as int == hole_size_min(c0, t0));
        assert(largest as int == hole_size_max(c0, t0));
    }
    let mut remainder = total;
    let mut holes_vec: Vec<Hole> = Vec::new();
    let mut cnt = count;
    while cnt > 0
        invariant
            0 <= cnt <= count,
            holes_vec@.len() + cnt == count,
            remainder <= total,
            cnt as int * (smallest as int) <= remainder as int,
            remainder as int <= cnt as int * (largest as int),
            total_cells(holes_vec@) + remainder == total,
            smallest as int == hole_size_min(c0, t0),
            largest as int == hole_size_max(c0, t0),
            1 <= smallest <= largest,
            largest as int <= 2 * t0,
            forall|i: int|
                0 <= i < holes_vec@.len() ==> {
                    let h = #[trigger] holes_vec@[i];
                    &&& h.wf()
                    &&& connected(h@)
                    &&& h.turns == 0
                    &&& smallest as int <= h@.len() <= largest as int
                    &&& h@.len() >= 1
                    &&& (crate::coordset::is_min_x(h@, 0) && crate::coordset::is_min_y(h@, 0))
                    &&& bounded_by(h@, 0, 2 * h@.len() as int)
                    &&& 0 <= h.texture_offset.x < 1000
                    &&& 0 <= h.texture_offset.y < 1000
                },
        decreases cnt,
    {
        let ghost pre_cnt = cnt as int;
        let ghost r0 = remainder as int;
        cnt -= 1;
        let ghost c1 = cnt as int;
        proof {
            assert(pre_cnt * (smallest as int) == c1 * (smallest as int) + smallest as int)
                by (nonlinear_arith)
                requires
                    pre_cnt == c1 + 1,
            ;
            assert(pre_cnt * (largest as int) == c1 * (largest as int) + largest as int)
                by (nonlinear_arith)
                requires
                    pre_cnt == c1 + 1,
            ;
            assert(c1 * (smallest as int) <= c1 * (largest as int)) by (nonlinear_arith)
                requires
                    c1 >= 0,
                    smallest <= largest,
            ;
            assert(c1 * (smallest as int) >= 0) by (nonlinear_arith)
                requires
                    c1 >= 0,
                    smallest >= 1,
            ;
        }
        proof {
            assert(c1 * (largest as int) <= 0x10000000 * 0x20000000) by (nonlinear_arith)
                requires
                    0 <= c1 <= 0x10000000,
                    0 <= largest as int <= 0x20000000,
            ;
            assert(c1 * (smallest as int) <= 0x10000000 * 0x20000000) by (nonlinear_arith)
                requires
                    0 <= c1 <= 0x10000000,
                    0 <= smallest as int <= 0x20000000,
            ;
        }
        let cap_l: u64 = (cnt as u64) * (largest as u64);
        let lower_rest: usize = if cap_l < remainder as u64 {
            remainder - (cap_l as usize)
        } else {
            0
        };
        let small = if smallest > lower_rest {
            smallest
        } else {
            lower_rest
        };
        let cap_s: u64 = (cnt as u64) * (smallest as u64);
        proof {
            assert(cap_s as int == c1 * (smallest as int));
            assert(cap_s as int <= remainder as int);
        }
        let upper_rest = remainder - (cap_s as usize);
        let large = if largest < upper_rest {
            largest
        } else {
            upper_rest
        };
        let size = rng_range_usize(rng, small, large);
        let h = gen_hole(size, rng);
        proof {
            assert forall|a: (int, int), b: (int, int)|
                h@.contains(a) && h@.contains(b) implies a.0 - b.0 <= i32::MAX && a.1 - b.1
                <= i32::MAX by {}
        }
        let ghost pre_norm = h@;
        let h = h.normalize();
        proof {
            let d0 = choose|d: (int, int)| h@ =~= crate::coord::shift_all(pre_norm, d);
            crate::connect::lemma_connected_shift(pre_norm, d0);
            assert(connected(h@));
            assert(bounded_by(h@, 0, 2 * h@.len() as int)) by {
                let d = choose|d: (int, int)| h@ =~= crate::coord::shift_all(pre_norm, d);
                let f = |p: (int, int)| crate::coord::pt_add(p, d);
                assert forall|q: (int, int)| #[trigger] h@.contains(q) implies 0 <= q.0 <= 2 * h@.len() as int
                    && 0 <= q.1 <= 2 * h@.len() as int by {
                    let p = choose|p: (int, int)| pre_norm.contains(p) && f(p) == q;
                    let w1 = choose|w: (int, int)| #[trigger] h@.contains(w) && w.0 == 0;
                    let pw1 = choose|p: (int, int)| pre_norm.contains(p) && f(p) == w1;
                    let w2 = choose|w: (int, int)| #[trigger] h@.contains(w) && w.1 == 0;
                    let pw2 = choose|p: (int, int)| pre_norm.contains(p) && f(p) == w2;
                    assert(q.0 - w1.0 == p.0 - pw1.0);
                    assert(q.1 - w2.1 == p.1 - pw2.1);
                }
            }
        }
        let ghost pre_holes = holes_vec@;
        holes_vec.push(h);
        remainder -= size;
        proof {
            assert(holes_vec@.drop_last() =~= pre_holes);
            assert(holes_vec@.last() == h);
            assert(total_cells(holes_vec@) == total_cells(pre_holes) + h@.len());
        }
    }
    proof {
        assert(remainder as int <= 0);
        assert(remainder == 0);
    }
    Holes { holes: holes_vec }
}



/// A copy with every cell translated by `by` and fresh alignment state; used
/// for weld candidates, whose alignment is discarded on merging anyway.
fn translate_cells(s: &CoordSet, by: Coord) -> (r: CoordSet)
    requires
        s.wf(),
        forall|p: (int, int)|
            s@.contains(p) ==> i32::MIN <= p.0 + by.x <= i32::MAX && i32::MIN <= p.1 + by.y
                <= i32::MAX,
    ensures
        r.wf(),
        r.turns == 0,
        r@ =~= crate::coord::shift_all(s@, by@),
        r@.len() == s@.len(),
{
    let n = s.cells.len();
    let mut cells: Vec<Coord> = Vec::new();
    let mut i: usize = 0;
    while i < n
        invariant
            0 <= i <= n,
            n == s.cells@.len(),
            cells@.len() == i,
            forall|j: int|
                0 <= j < i ==> #[trigger] cells@[j]@ == crate::coord::pt_add(s.cseq()[j], by@),
        decreases n - i,
    {
        let c = s.cells[i];
        proof {
            assert(s.cells@[i as int] == c);
            assert(s.cseq()[i as int] == s.cells@[i as int]@);
            assert(s@.contains(s.cseq()[i as int])) by {
                assert(s.cseq().contains(s.cseq()[i as int]));
            }
        }
        cells.push(Coord { x: c.x + by.x, y: c.y + by.y });
        i += 1;
    }
    let r = CoordSet { cells, turns: 0, texture_offset: Coord { x: 0, y: 0 } };
    proof {
        let f = |p: (int, int)| crate::coord::pt_add(p, by@);
        assert forall|j: int|
            0 <= j < n implies #[trigger] r.cseq()[j] == s.cseq().map_values(f)[j] by {
            assert(r.cseq()[j] == r.cells@[j]@);
        }
        assert(r.cseq() =~= s.cseq().map_values(f));
        s.cseq().lemma_to_set_map_commutes(f);
        assert(r.cseq().no_duplicates()) by {
            assert forall|a: int, b: int|
                0 <= a < b < n implies r.cseq()[a] != r.cseq()[b] by {
                assert(s.cseq()[a] != s.cseq()[b]);
            }
        }
        r.lemma_view_len();
        s.lemma_view_len();
    }
    r
}

/// Turn a shape a uniformly random number of quarter turns (none to three).
fn rotate_random(s: CoordSet, rng: &mut rand::rngs::StdRng, Ghost(b): Ghost<int>) -> (r: CoordSet)
    requires
        s.wf(),
        connected(s@),
        bounded_by(s@, -b, b),
        1 <= b <= 0x20000000,
    ensures
        r.wf(),
        connected(r@),
        bounded_by(r@, -b, b),
        r@.len() == s@.len(),
        r.texture_offset == s.texture_offset,
        exists|k: nat| k < 4 && r@ =~= crate::coord::rigid(s@, k, (0, 0)),
{
    let times = rng_range_usize(rng, 0, 3);
    let mut cur = s;
    let ghost orig = cur@;
    proof {
        crate::coord::lemma_rigid_zero(orig);
        assert(cur@ =~= crate::coord::rigid(orig, 0, (0, 0)));
    }
    let mut i: usize = 0;
    while i < times
        invariant
            0 <= i <= times <= 3,
            cur.wf(),
            connected(cur@),
            bounded_by(cur@, -b, b),
            cur@.len() == orig.len(),
            cur.texture_offset == s.texture_offset,
            cur@ =~= crate::coord::rigid(orig, i as nat, (0, 0)),
        decreases times - i,
    {
        let ghost pre = cur@;
        cur.rotate();
        proof {
            crate::connect::lemma_connected_rot(pre);
            assert(connected(cur@));
            crate::coord::lemma_rot_all_rigid(orig, i as nat, (0, 0));
            assert(crate::coord::rot_ccw((0int, 0int)) == (0int, 0int));
            assert(cur@ =~= crate::coord::rigid(orig, (i + 1) as nat, (0, 0)));
            assert(bounded_by(cur@, -b, b)) by {
                assert forall|q: (int, int)| #[trigger] cur@.contains(q) implies -b <= q.0 <= b
                    && -b <= q.1 <= b by {
                    let fr = |p: (int, int)| crate::coord::rot_ccw(p);
                    let p = choose|p: (int, int)| pre.contains(p) && fr(p) == q;
                }
            }
        }
        i += 1;
    }
    cur
}

/// Drop the hole just left of the plank at a random vertical offset within
/// the overlapping range, then slide it right one cell at a time and return
/// a copy at the last position where it touches the plank without
/// overlapping it.
#[verifier::rlimit(100)]
#[verifier::spinoff_prover]
fn place_and_slide(
    p2: &CoordSet,
    h2: &CoordSet,
    rng: &mut rand::rngs::StdRng,
    Ghost(sb): Ghost<int>,
    Ghost(hb): Ghost<int>,
) -> (chosen: CoordSet)
    requires
        p2.wf(),
        connected(p2@),
        p2@.len() >= 1,
        bounded_by(p2@, -sb, sb),
        h2.wf(),
        connected(h2@),
        h2@.len() >= 1,
        bounded_by(h2@, -hb, hb),
        1 <= sb <= 0x10000000,
        1 <= hb <= 0x10000000,
    ensures
        chosen.wf(),
        chosen.turns == 0,
        connected(chosen@),
        chosen@.len() == h2@.len(),
        crate::coordset::sets_touch(p2@, chosen@),
        forall|q: (int, int)| !(p2@.contains(q) && chosen@.contains(q)),
        bounded_by(chosen@, -(sb + 2 * hb + 2), sb + 2 * hb + 2),
        exists|d: (int, int)| chosen@ =~= crate::coord::shift_all(h2@, d),
        !(p2@.disjoint(crate::coord::shift_all(chosen@, (1, 0)))),
{
    proof {
        p2.lemma_view_len();
        h2.lemma_view_len();
    }
    let ep = p2.extents();
    let eh = h2.extents();
    proof {
        let w1 = choose|w: (int, int)| #[trigger] p2@.contains(w) && w.0 == ep.0.0 as int;
        let w2 = choose|w: (int, int)| #[trigger] p2@.contains(w) && w.0 == ep.0.1 as int;
        let w3 = choose|w: (int, int)| #[trigger] p2@.contains(w) && w.1 == ep.1.0 as int;
        let w4 = choose|w: (int, int)| #[trigger] p2@.contains(w) && w.1 == ep.1.1 as int;
        assert(-sb <= ep.0.0 as int <= ep.0.1 as int <= sb);
        assert(-sb <= ep.1.0 as int <= ep.1.1 as int <= sb);
        let v1 = choose|w: (int, int)| #[trigger] h2@.contains(w) && w.0 == eh.0.0 as int;
        let v2 = choose|w: (int, int)| #[trigger] h2@.contains(w) && w.0 == eh.0.1 as int;
        let v3 = choose|w: (int, int)| #[trigger] h2@.contains(w) && w.1 == eh.1.0 as int;
        let v4 = choose|w: (int, int)| #[trigger] h2@.contains(w) && w.1 == eh.1.1 as int;
        assert(-hb <= eh.0.0 as int <= eh.0.1 as int <= hb);
        assert(-hb <= eh.1.0 as int <= eh.1.1 as int <= hb);
    }
    let y_shift = rng_range_i32(rng, ep.1.0 - eh.1.1, ep.1.1 - eh.1.0);
    let dx = ep.0.0 - eh.0.1 - 1;
    let d0 = Coord { x: dx, y: y_shift };
    let h3 = translate_cells(h2, d0);
    proof {
        crate::connect::lemma_connected_shift(h2@, d0@);
        assert(connected(h3@));
    }
    let ghost f0 = |p: (int, int)| crate::coord::pt_add(p, d0@);
    proof {
        assert(bounded_by(h3@, -(sb + 2 * hb + 2), sb + 2 * hb + 2)) by {
            assert forall|q: (int, int)| #[trigger] h3@.contains(q) implies -(sb + 2 * hb + 2)
                <= q.0 <= sb + 2 * hb + 2 && -(sb + 2 * hb + 2) <= q.1 <= sb + 2 * hb + 2 by {
                let p = choose|p: (int, int)| h2@.contains(p) && f0(p) == q;
            }
        }
        // every cell of the placed hole is strictly left of the plank
        assert forall|q: (int, int)| #[trigger] h3@.contains(q) implies q.0 <= ep.0.0 - 1 by {
            let p = choose|p: (int, int)| h2@.contains(p) && f0(p) == q;
        }
    }
    // a row shared by the placed hole and the plank
    let ghost hminy3: int = eh.1.0 + y_shift;
    let ghost hmaxy3: int = eh.1.1 + y_shift;
    let ghost y0: int = if ep.1.0 as int > hminy3 {
        ep.1.0 as int
    } else {
        hminy3
    };
    proof {
        let v3 = choose|w: (int, int)| #[trigger] h2@.contains(w) && w.1 == eh.1.0 as int;
        let v4 = choose|w: (int, int)| #[trigger] h2@.contains(w) && w.1 == eh.1.1 as int;
        assert(h3@.contains(f0(v3)) && f0(v3).1 == hminy3);
        assert(h3@.contains(f0(v4)) && f0(v4).1 == hmaxy3);
        assert(hminy3 <= y0 <= hmaxy3);
        crate::connect::lemma_connected_row_interval(h3@, f0(v3), f0(v4), y0);
        let w3 = choose|w: (int, int)| #[trigger] p2@.contains(w) && w.1 == ep.1.0 as int;
        let w4 = choose|w: (int, int)| #[trigger] p2@.contains(w) && w.1 == ep.1.1 as int;
        assert(ep.1.0 as int <= y0 <= ep.1.1 as int);
        crate::connect::lemma_connected_row_interval(p2@, w3, w4, y0);
    }
    let ghost ch: (int, int) = choose|p: (int, int)| h3@.contains(p) && p.1 == y0;
    let ghost cp: (int, int) = choose|p: (int, int)| p2@.contains(p) && p.1 == y0;
    let ghost hx0: int = ch.0;
    let ghost px0: int = cp.0;
    proof {
        assert(hx0 <= ep.0.0 - 1);
        assert(px0 >= ep.0.0 as int);
        assert(hx0 < px0);
        assert(px0 <= sb);
        assert(-(sb + 2 * hb + 2) <= hx0);
        // the placed hole's cells sit within a known window of the witness
        assert forall|q: (int, int)| #[trigger] h3@.contains(q) implies hx0 - 2 * hb <= q.0 <= hx0
            + 2 * hb && -(sb + 2 * hb + 2) <= q.1 <= sb + 2 * hb + 2 by {
            let p = choose|p: (int, int)| h2@.contains(p) && f0(p) == q;
            let p1 = choose|p1: (int, int)| h2@.contains(p1) && f0(p1) == ch;
        }
    }
    let mut cur = h3;
    let mut best: Option<CoordSet> = None;
    let ghost mut t: int = 0;
    proof {
        assert(cur@ =~= crate::coord::shift_all(h3@, (t, 0))) by {
            assert forall|q: (int, int)| h3@.contains(q) implies #[trigger]
                crate::coord::shift_all(h3@, (0int, 0int)).contains(q) by {
                let f = |p: (int, int)| crate::coord::pt_add(p, (0int, 0int));
                assert(f(q) == q);
            }
            assert forall|q: (int, int)| #[trigger]
                crate::coord::shift_all(h3@, (0int, 0int)).contains(q) implies h3@.contains(q) by {
                let f = |p: (int, int)| crate::coord::pt_add(p, (0int, 0int));
                let p = choose|p: (int, int)| h3@.contains(p) && f(p) == q;
            }
        }
    }
    #[verifier::loop_isolation(true)]
    loop
        invariant_except_break
            p2.wf(),
            connected(p2@),
            bounded_by(p2@, -sb, sb),
            p2@.len() >= 1,
            p2@.contains((px0, y0)),
            1 <= hb <= 0x10000000,
            1 <= sb <= 0x10000000,
            -(sb + 2 * hb + 1) <= hx0 <= sb,
            -(sb + 2 * hb + 2) <= px0 <= sb,
            -(sb + 2 * hb + 2) <= y0 <= sb + 2 * hb + 2,
            forall|q: (int, int)| #[trigger]
                h3@.contains(q) ==> hx0 - 2 * hb <= q.0 <= hx0 + 2 * hb && -(sb + 2 * hb + 2)
                    <= q.1 <= sb + 2 * hb + 2,
            forall|q: (int, int)| #[trigger] h3@.contains(q) ==> -(sb + 2 * hb + 2) <= q.0,
            h3@.contains((hx0, y0)),
            h3@.len() == h2@.len(),
            connected(h3@),
            h2@.len() >= 1,
            cur.wf(),
            cur.turns == 0,
            connected(cur@),
            cur@.len() == h2@.len(),
            0 <= t,
            cur@ =~= crate::coord::shift_all(h3@, (t, 0)),
            hx0 + t <= px0,
            forall|q: (int, int)| !(p2@.contains(q) && cur@.contains(q)),
            best matches Some(b) ==> ({
                &&& b.wf()
                &&& b.turns == 0
                &&& connected(b@)
                &&& b@.len() == h2@.len()
                &&& crate::coordset::sets_touch(p2@, b@)
                &&& (forall|q: (int, int)| !(p2@.contains(q) && b@.contains(q)))
                &&& bounded_by(b@, -(sb + 2 * hb + 2), sb + 2 * hb + 2)
                &&& exists|tt: int| 0 <= tt && b@ =~= crate::coord::shift_all(h3@, (tt, 0))
            }),
        ensures
            best matches Some(b) && ({
                &&& b.wf()
                &&& b.turns == 0
                &&& connected(b@)
                &&& b@.len() == h2@.len()
                &&& crate::coordset::sets_touch(p2@, b@)
                &&& (forall|q: (int, int)| !(p2@.contains(q) && b@.contains(q)))
                &&& bounded_by(b@, -(sb + 2 * hb + 2), sb + 2 * hb + 2)
                &&& exists|tt: int| 0 <= tt && b@ =~= crate::coord::shift_all(h3@, (tt, 0))
                &&& !(p2@.disjoint(crate::coord::shift_all(b@, (1, 0))))
            }),
        decreases px0 - hx0 - t,
    {
        proof {
            assert(bounded_by(cur@, -(sb + 2 * hb + 2), sb + 2 * hb + 2)) by {
                let fs = |p: (int, int)| crate::coord::pt_add(p, (t, 0int));
                assert forall|q: (int, int)| #[trigger] cur@.contains(q) implies -(sb + 2 * hb + 2)
                    <= q.0 <= sb + 2 * hb + 2 && -(sb + 2 * hb + 2) <= q.1 <= sb + 2 * hb + 2 by {
                    let p = choose|p: (int, int)| h3@.contains(p) && fs(p) == q;
                }
            }
        }
        if p2.touches(&cur) {
            best = Some(cur.duplicate());
            proof {
                assert(best matches Some(b) ==> b@ =~= crate::coord::shift_all(h3@, (t, 0)));
            }
        }
        let ghost pre = cur@;
        cur = translate_cells(&cur, Coord { x: 1, y: 0 });
        proof {
            t = t + 1;
            crate::connect::lemma_connected_shift(pre, (1int, 0int));
            crate::coord::lemma_shift_all_compose(h3@, (t - 1, 0int), (1int, 0int));
            assert(cur@ =~= crate::coord::shift_all(h3@, (t, 0)));
            let fs = |p: (int, int)| crate::coord::pt_add(p, (t, 0int));
            assert(h3@.contains((hx0, y0)));
            assert(cur@.contains(fs((hx0, y0))));
            assert(cur@.contains((hx0 + t, y0)));
        }
        if p2.overlaps(&cur) {
            proof {
                // the overlapping cell was adjacent one step earlier, so the
                // pre-shift position touched the plank and was recorded:
                // the chosen placement is the rightmost contact, one step
                // short of the first overlap
                let q = choose|q: (int, int)| p2@.contains(q) && cur@.contains(q);
                let f1 = |p: (int, int)| crate::coord::pt_add(p, (1int, 0int));
                let fs0 = |p: (int, int)| crate::coord::pt_add(p, (t - 1, 0int));
                let fs = |p: (int, int)| crate::coord::pt_add(p, (t, 0int));
                let p = choose|p: (int, int)| h3@.contains(p) && fs(p) == q;
                assert(pre.contains(fs0(p)));
                assert(adj(q, fs0(p)));
                assert(crate::coordset::sets_touch(p2@, pre));
                assert(best is Some);
                let b = best.unwrap();
                assert(b@ =~= pre);
                crate::coord::lemma_shift_all_compose(h3@, (t - 1, 0int), (1int, 0int));
                assert(crate::coord::shift_all(b@, (1, 0)) =~= cur@) by {
                    assert(crate::coord::shift_all(pre, (1int, 0int)) =~= crate::coord::shift_all(
                        h3@,
                        (t, 0),
                    ));
                }
                assert(!(p2@.disjoint(crate::coord::shift_all(b@, (1, 0))))) by {
                    assert(crate::coord::shift_all(b@, (1, 0)).contains(q));
                }
            }
            break ;
        }
        proof {
            // the witness cell has not yet reached the plank cell in its row
            assert(cur@.contains((hx0 + t, y0)));
            assert(hx0 + t != px0) by {
                if hx0 + t == px0 {
                    assert(cur@.contains((px0, y0)) && p2@.contains((px0, y0)));
                }
            }
            assert(hx0 + t <= px0);
        }
    }
    let chosen = match best {
        Some(b) => b,
        None => {
            proof {
                assert(false);
            }
            CoordSet::empty()
        },
    };
    proof {
        let tt = choose|tt: int| 0 <= tt && chosen@ =~= crate::coord::shift_all(h3@, (tt, 0));
        crate::coord::lemma_shift_all_compose(h2@, d0@, (tt, 0int));
        assert(chosen@ =~= crate::coord::shift_all(h2@, crate::coord::pt_add(d0@, (tt, 0))));
    }
    chosen
}

/// Merge a weld candidate's cells into the plank: the candidate touches the
/// plank and shares no cell with it, so the result is connected and counts
/// both cell sets in full.
fn weld(acc: CoordSet, chosen: &CoordSet) -> (r: CoordSet)
    requires
        acc.wf(),
        connected(acc@),
        chosen.wf(),
        connected(chosen@),
        crate::coordset::sets_touch(acc@, chosen@),
        forall|q: (int, int)| !(acc@.contains(q) && chosen@.contains(q)),
        acc@.len() + chosen@.len() <= 0x40000000,
    ensures
        r.wf(),
        connected(r@),
        r@ =~= acc@.union(chosen@),
        r@.len() == acc@.len() + chosen@.len(),
        r.turns == acc.turns,
        r.texture_offset == acc.texture_offset,
{
    let ghost accb = acc@;
    let ghost chb = chosen@;
    let ghost turns0 = acc.turns;
    let ghost off0 = acc.texture_offset;
    let mut acc = acc;
    let n = chosen.cells.len();
    proof {
        acc.lemma_view_len();
        chosen.lemma_view_len();
    }
    let mut i: usize = 0;
    while i < n
        invariant
            0 <= i <= n,
            n == chosen.cells@.len(),
            acc.wf(),
            acc.turns == turns0,
            acc@ =~= accb.union(chosen.cseq().take(i as int).to_set()),
            acc@.len() == accb.len() + i,
            acc.texture_offset == off0,
        decreases n - i,
    {
        let c = chosen.cells[i];
        proof {
            assert(chosen.cells@[i as int] == c);
            assert(chosen.cseq()[i as int] == c@);
            assert(chosen.cseq().contains(c@));
            assert(chb.contains(c@));
            assert(!accb.contains(c@));
            assert(!chosen.cseq().take(i as int).to_set().contains(c@)) by {
                if chosen.cseq().take(i as int).to_set().contains(c@) {
                    let j = choose|j: int| 0 <= j < i && chosen.cseq().take(i as int)[j] == c@;
                    assert(chosen.cseq()[j] == c@);
                }
            }
            assert(!acc@.contains(c@));
            acc.lemma_view_len();
            assert(chosen.cseq().take(i + 1) =~= chosen.cseq().take(i as int).push(c@));
            chosen.cseq().take(i as int).lemma_push_to_set_commute(c@);
        }
        acc.insert(c);
        proof {
            acc.lemma_view_len();
            assert(acc@ =~= accb.union(chosen.cseq().take(i + 1).to_set()));
        }
        i += 1;
    }
    proof {
        assert(chosen.cseq().take(n as int) =~= chosen.cseq());
        assert(acc@ =~= accb.union(chb));
        crate::connect::lemma_connected_union_touch(accb, chb);
        assert(connected(acc@));
    }
    acc
}


/// The weld's exact result: the plank turned `kp` quarter turns and a copy
/// of the hole under the rigid motion `(kh, d)` partition the result's
/// cells between them, sharing no cell but touching along an edge.
pub open spec fn welded_exactly(
    plank: CoordSet,
    hole: CoordSet,
    kp: nat,
    kh: nat,
    d: (int, int),
    r: Set<(int, int)>,
) -> bool {
    &&& kp < 4
    &&& r == crate::coord::rigid(plank@, kp, (0, 0)).union(crate::coord::rigid(hole@, kh, d))
    &&& crate::coord::rigid(plank@, kp, (0, 0)).disjoint(crate::coord::rigid(hole@, kh, d))
    &&& crate::coordset::sets_touch(
        crate::coord::rigid(plank@, kp, (0, 0)),
        crate::coord::rigid(hole@, kh, d),
    )
    &&& !(crate::coord::rigid(plank@, kp, (0, 0)).disjoint(
        crate::coord::shift_all(crate::coord::rigid(hole@, kh, d), (1, 0)),
    ))
}

/// Weld one hole onto the plank: rotate both at random, drop the hole just
/// left of the plank at a random vertical offset within the overlapping
/// range, slide it right one cell at a time, and merge it at the last
/// position where it touches the plank without overlapping it.
fn attach_hole(
    plank: CoordSet,
    hole: &Hole,
    rng: &mut rand::rngs::StdRng,
    Ghost(sb): Ghost<int>,
    Ghost(hb): Ghost<int>,
) -> (r: CoordSet)
    requires
        plank.wf(),
        connected(plank@),
        plank@.len() >= 1,
        bounded_by(plank@, -sb, sb),
        hole.wf(),
        connected(hole@),
        hole@.len() >= 1,
        bounded_by(hole@, -hb, hb),
        1 <= sb <= 0x10000000,
        1 <= hb <= 0x10000000,
        plank@.len() + hole@.len() <= 0x40000000,
    ensures
        r.wf(),
        connected(r@),
        r@.len() == plank@.len() + hole@.len(),
        r.texture_offset == plank.texture_offset,
        bounded_by(r@, -(sb + 2 * hb + 2), sb + 2 * hb + 2),
        exists|k: nat, d: (int, int)| crate::coord::rigid(hole@, k, d).subset_of(r@),
        exists|k: nat| k < 4 && crate::coord::rigid(plank@, k, (0, 0)).subset_of(r@),
        exists|kp: nat, kh: nat, d: (int, int)| welded_exactly(plank, *hole, kp, kh, d, r@),
{
    let h2 = rotate_random(hole.duplicate(), rng, Ghost(hb));
    let p2 = rotate_random(plank, rng, Ghost(sb));
    let ghost kh: nat = choose|k: nat| k < 4 && h2@ =~= crate::coord::rigid(hole@, k, (0, 0));
    let ghost kp: nat = choose|k: nat| k < 4 && p2@ =~= crate::coord::rigid(plank@, k, (0, 0));
    proof {
        p2.lemma_view_len();
        h2.lemma_view_len();
    }
    let chosen = place_and_slide(&p2, &h2, rng, Ghost(sb), Ghost(hb));
    let r = weld(p2, &chosen);
    proof {
        // the hole embeds rigidly in the weld
        let dd = choose|d: (int, int)| chosen@ =~= crate::coord::shift_all(h2@, d);
        crate::coord::lemma_shift_all_rigid(hole@, kh, (0, 0), dd);
        assert(chosen@ =~= crate::coord::rigid(hole@, kh, crate::coord::pt_add((0, 0), dd)));
        assert(crate::coord::rigid(
            hole@,
            kh,
            crate::coord::pt_add((0, 0), dd),
        ).subset_of(r@));
        // the plank embeds rotated
        assert(crate::coord::rigid(plank@, kp, (0, 0)).subset_of(r@));
        // the weld is exactly the disjoint union of the two placed copies,
        // which touch along an edge
        let dh = crate::coord::pt_add((0, 0), dd);
        assert(r@ =~= crate::coord::rigid(plank@, kp, (0, 0)).union(
            crate::coord::rigid(hole@, kh, dh),
        ));
        assert(crate::coord::rigid(plank@, kp, (0, 0)).disjoint(
            crate::coord::rigid(hole@, kh, dh),
        )) by {
            assert forall|q: (int, int)| #[trigger]
                crate::coord::rigid(plank@, kp, (0, 0)).contains(q) implies !crate::coord::rigid(
                hole@,
                kh,
                dh,
            ).contains(q) by {
                assert(p2@.contains(q));
                if crate::coord::rigid(hole@, kh, dh).contains(q) {
                    assert(chosen@.contains(q));
                }
            }
        }
        assert(crate::coordset::sets_touch(
            crate::coord::rigid(plank@, kp, (0, 0)),
            crate::coord::rigid(hole@, kh, dh),
        )) by {
            let (cp, cc) = choose|cp: (int, int), cc: (int, int)|
                p2@.contains(cp) && chosen@.contains(cc) && adj(cp, cc);
            assert(crate::coord::rigid(plank@, kp, (0, 0)).contains(cp));
            assert(crate::coord::rigid(hole@, kh, dh).contains(cc));
        }
        assert(!(crate::coord::rigid(plank@, kp, (0, 0)).disjoint(
            crate::coord::shift_all(crate::coord::rigid(hole@, kh, dh), (1, 0)),
        ))) by {
            assert(crate::coord::shift_all(chosen@, (1, 0)) =~= crate::coord::shift_all(
                crate::coord::rigid(hole@, kh, dh),
                (1, 0),
            )) by {
                let fu = |p: (int, int)| crate::coord::pt_add(p, (1int, 0int));
                assert forall|q: (int, int)| #[trigger]
                    crate::coord::shift_all(chosen@, (1, 0)).contains(q) implies
                    crate::coord::shift_all(
                    crate::coord::rigid(hole@, kh, dh),
                    (1, 0),
                ).contains(q) by {
                    let p = choose|p: (int, int)| chosen@.contains(p) && fu(p) == q;
                    assert(crate::coord::rigid(hole@, kh, dh).contains(p));
                }
                assert forall|q: (int, int)| #[trigger] crate::coord::shift_all(
                    crate::coord::rigid(hole@, kh, dh),
                    (1, 0),
                ).contains(q) implies crate::coord::shift_all(chosen@, (1, 0)).contains(q) by {
                    let p = choose|p: (int, int)|
                        crate::coord::rigid(hole@, kh, dh).contains(p) && fu(p) == q;
                    assert(chosen@.contains(p));
                }
            }
            let qq = choose|qq: (int, int)|
                p2@.contains(qq) && crate::coord::shift_all(chosen@, (1, 0)).contains(qq);
            assert(crate::coord::rigid(plank@, kp, (0, 0)).contains(qq));
        }
        assert(welded_exactly(plank, *hole, kp, kh, dh, r@));
        // bounds of the weld
        assert(bounded_by(r@, -(sb + 2 * hb + 2), sb + 2 * hb + 2)) by {
            assert forall|q: (int, int)| #[trigger] r@.contains(q) implies -(sb + 2 * hb + 2)
                <= q.0 <= sb + 2 * hb + 2 && -(sb + 2 * hb + 2) <= q.1 <= sb + 2 * hb + 2 by {
                if p2@.contains(q) {
                } else {
                    assert(chosen@.contains(q));
                }
            }
        }
    }
    r
}

/// The rigid copy of hole `i` under the placement `ks[i]`: `ks[i].0`
/// quarter turns, then the translation `ks[i].1`.
pub open spec fn placed_at(hs: Seq<CoordSet>, ks: Seq<(nat, (int, int))>, i: int) -> Set<
    (int, int),
> {
    crate::coord::rigid(hs[i]@, ks[i].0, ks[i].1)
}

/// The union of one rigid copy of each hole.
pub open spec fn placed_union(hs: Seq<CoordSet>, ks: Seq<(nat, (int, int))>) -> Set<(int, int)>
    decreases hs.len(),
{
    if hs.len() == 0 {
        Set::empty()
    } else {
        placed_union(hs.drop_last(), ks.drop_last()).union(placed_at(hs, ks, hs.len() - 1))
    }
}

/// `p` is exactly the union of one rigid copy of each hole, the copies
/// pairwise sharing no cell.
pub open spec fn placements_cover(
    hs: Seq<CoordSet>,
    ks: Seq<(nat, (int, int))>,
    p: Set<(int, int)>,
) -> bool {
    &&& ks.len() == hs.len()
    &&& p == placed_union(hs, ks)
    &&& forall|i: int, j: int|
        #![trigger placed_at(hs, ks, i), placed_at(hs, ks, j)]
        0 <= i < j < hs.len() ==> placed_at(hs, ks, i).disjoint(placed_at(hs, ks, j))
}

/// A placement followed by another rigid motion, as one placement.
pub open spec fn compose_motion(t: (nat, (int, int)), k2: nat, d2: (int, int)) -> (
    nat,
    (int, int),
) {
    ((t.0 + k2) as nat, crate::coord::pt_add(crate::coord::rot_ccw_n(t.1, k2), d2))
}

/// The holes selected by an index sequence, in that order.
pub open spec fn sel_of(hs: Seq<CoordSet>, idxs: Seq<usize>) -> Seq<CoordSet> {
    idxs.map_values(|ix: usize| hs[ix as int])
}


proof fn lemma_placed_union_contains(hs: Seq<CoordSet>, ks: Seq<(nat, (int, int))>, x: (int, int))
    requires
        ks.len() == hs.len(),
    ensures
        placed_union(hs, ks).contains(x) <==> exists|i: int|
            0 <= i < hs.len() && #[trigger] placed_at(hs, ks, i).contains(x),
    decreases hs.len(),
{
    if hs.len() > 0 {
        let hs2 = hs.drop_last();
        let ks2 = ks.drop_last();
        lemma_placed_union_contains(hs2, ks2, x);
        assert forall|i: int| 0 <= i < hs2.len() implies #[trigger] placed_at(hs2, ks2, i)
            == placed_at(hs, ks, i) by {
            assert(hs2[i] == hs[i] && ks2[i] == ks[i]);
        }
        if placed_union(hs, ks).contains(x) {
            if placed_union(hs2, ks2).contains(x) {
                let i = choose|i: int| 0 <= i < hs2.len() && #[trigger] placed_at(hs2, ks2, i).contains(x);
                assert(placed_at(hs, ks, i).contains(x));
            } else {
                assert(placed_at(hs, ks, hs.len() - 1).contains(x));
            }
        }
        if exists|i: int| 0 <= i < hs.len() && #[trigger] placed_at(hs, ks, i).contains(x) {
            let i = choose|i: int| 0 <= i < hs.len() && #[trigger] placed_at(hs, ks, i).contains(x);
            if i < hs.len() - 1 {
                assert(placed_at(hs2, ks2, i).contains(x));
                assert(placed_union(hs2, ks2).contains(x));
            }
            assert(placed_union(hs, ks).contains(x));
        }
    }
}

proof fn lemma_placed_at_subset(hs: Seq<CoordSet>, ks: Seq<(nat, (int, int))>, i: int)
    requires
        ks.len() == hs.len(),
        0 <= i < hs.len(),
    ensures
        placed_at(hs, ks, i).subset_of(placed_union(hs, ks)),
{
    assert forall|x: (int, int)| #[trigger] placed_at(hs, ks, i).contains(x) implies placed_union(
        hs,
        ks,
    ).contains(x) by {
        lemma_placed_union_contains(hs, ks, x);
    }
}

/// A rigid motion applied to every placement moves the whole union by that
/// motion.
proof fn lemma_placed_union_compose(
    hs: Seq<CoordSet>,
    ks: Seq<(nat, (int, int))>,
    k2: nat,
    d2: (int, int),
)
    requires
        ks.len() == hs.len(),
    ensures
        placed_union(hs, ks.map_values(|t: (nat, (int, int))| compose_motion(t, k2, d2)))
            =~= crate::coord::rigid(placed_union(hs, ks), k2, d2),
    decreases hs.len(),
{
    let f = |t: (nat, (int, int))| compose_motion(t, k2, d2);
    let cks = ks.map_values(f);
    if hs.len() == 0 {
        assert(crate::coord::rigid(Set::empty(), k2, d2) =~= Set::<(int, int)>::empty()) by {
            let fk = |p: (int, int)| crate::coord::rot_ccw_n(p, k2);
            let g = |p: (int, int)| crate::coord::pt_add(p, d2);
            assert forall|q: (int, int)| !(#[trigger] crate::coord::rigid(
                Set::empty(),
                k2,
                d2,
            ).contains(q)) by {
                if crate::coord::rigid(Set::<(int, int)>::empty(), k2, d2).contains(q) {
                    let m = choose|m: (int, int)|
                        Set::<(int, int)>::empty().map(fk).contains(m) && g(m) == q;
                    let p = choose|p: (int, int)|
                        Set::<(int, int)>::empty().contains(p) && fk(p) == m;
                }
            }
        }
    } else {
        let hs2 = hs.drop_last();
        let ks2 = ks.drop_last();
        lemma_placed_union_compose(hs2, ks2, k2, d2);
        assert(cks.drop_last() =~= ks2.map_values(f));
        let last = hs.len() - 1;
        assert(placed_at(hs, cks, last) =~= crate::coord::rigid(
            placed_at(hs, ks, last),
            k2,
            d2,
        )) by {
            crate::coord::lemma_rigid_compose(hs[last]@, ks[last].0, ks[last].1, k2, d2);
            assert(cks[last] == compose_motion(ks[last], k2, d2));
        }
        crate::coord::lemma_rigid_of_union(
            placed_union(hs2, ks2),
            placed_at(hs, ks, last),
            k2,
            d2,
        );
        assert(placed_union(hs, cks) =~= placed_union(hs2, cks.drop_last()).union(
            placed_at(hs, cks, last),
        ));
    }
}


proof fn lemma_total_cells_fold(hs: Seq<CoordSet>, b: int)
    ensures
        hs.fold_right(|h: CoordSet, acc: int| acc + h@.len(), b) == b + total_cells(hs),
    decreases hs.len(),
{
    if hs.len() > 0 {
        lemma_total_cells_fold(hs.drop_last(), b + hs.last()@.len());
    }
}

/// Reordering a list of holes does not change its total cell count.
pub proof fn lemma_total_cells_permutation(a: Seq<CoordSet>, b: Seq<CoordSet>)
    requires
        a.to_multiset() == b.to_multiset(),
    ensures
        total_cells(a) == total_cells(b),
{
    let f = |h: CoordSet, acc: int| acc + h@.len();
    assert(vstd::seq_lib::commutative_foldr(f)) by {
        assert forall|x: CoordSet, y: CoordSet, v: int| #[trigger] f(x, f(y, v)) == f(y, f(x, v))
            by {}
    }
    vstd::seq_lib::lemma_fold_right_permutation(a, b, f, 0);
    lemma_total_cells_fold(a, 0);
    lemma_total_cells_fold(b, 0);
}


/// A prefix never holds more cells than the whole list.
pub proof fn lemma_total_cells_prefix(hs: Seq<CoordSet>, i: int)
    requires
        0 <= i <= hs.len(),
    ensures
        total_cells(hs.take(i)) <= total_cells(hs),
    decreases hs.len(),
{
    if i == hs.len() {
        assert(hs.take(i) =~= hs);
    } else {
        lemma_total_cells_prefix(hs.drop_last(), i);
        assert(hs.drop_last().take(i) =~= hs.take(i));
    }
}


/// Lists whose holes have pairwise equal cell counts have the same total.
pub proof fn lemma_total_cells_pointwise(a: Seq<CoordSet>, b: Seq<CoordSet>)
    requires
        a.len() == b.len(),
        forall|i: int| 0 <= i < a.len() ==> (#[trigger] a[i])@.len() == b[i]@.len(),
    ensures
        total_cells(a) == total_cells(b),
    decreases a.len(),
{
    if a.len() > 0 {
        lemma_total_cells_pointwise(a.drop_last(), b.drop_last());
        assert(a[a.len() - 1]@.len() == b[a.len() - 1]@.len());
    }
}


/// Sum of the cell counts of the holes selected by an index sequence.
pub open spec fn idx_sum(hs: Seq<CoordSet>, s: Seq<usize>) -> int
    decreases s.len(),
{
    if s.len() == 0 {
        0
    } else {
        idx_sum(hs, s.drop_last()) + hs[s.last() as int]@.len()
    }
}

proof fn lemma_idx_sum_fold(hs: Seq<CoordSet>, s: Seq<usize>, b: int)
    ensures
        s.fold_right(|x: usize, acc: int| acc + hs[x as int]@.len(), b) == b + idx_sum(hs, s),
    decreases s.len(),
{
    if s.len() > 0 {
        lemma_idx_sum_fold(hs, s.drop_last(), b + hs[s.last() as int]@.len());
    }
}

proof fn lemma_idx_sum_permutation(hs: Seq<CoordSet>, s1: Seq<usize>, s2: Seq<usize>)
    requires
        s1.to_multiset() == s2.to_multiset(),
    ensures
        idx_sum(hs, s1) == idx_sum(hs, s2),
{
    let f = |x: usize, acc: int| acc + hs[x as int]@.len();
    assert(vstd::seq_lib::commutative_foldr(f)) by {
        assert forall|x: usize, y: usize, v: int| #[trigger] f(x, f(y, v)) == f(y, f(x, v)) by {}
    }
    vstd::seq_lib::lemma_fold_right_permutation(s1, s2, f, 0);
    lemma_idx_sum_fold(hs, s1, 0);
    lemma_idx_sum_fold(hs, s2, 0);
}

proof fn lemma_idx_sum_iota(hs: Seq<CoordSet>, s: Seq<usize>, m: int)
    requires
        0 <= m <= hs.len(),
        s.len() == m,
        forall|j: int| 0 <= j < m ==> s[j] == j,
    ensures
        idx_sum(hs, s) == total_cells(hs.take(m)),
    decreases m,
{
    if m > 0 {
        lemma_idx_sum_iota(hs, s.drop_last(), m - 1);
        assert(s.drop_last() =~= s.take(m - 1));
        assert(hs.take(m - 1) =~= hs.take(m).drop_last());
        assert(hs.take(m).last() == hs[m - 1]);
        assert(s.last() == m - 1);
    }
}

proof fn lemma_idx_sum_prefix(hs: Seq<CoordSet>, s: Seq<usize>, i: int)
    requires
        0 <= i <= s.len(),
    ensures
        idx_sum(hs, s.take(i)) <= idx_sum(hs, s),
    decreases s.len(),
{
    if i == s.len() {
        assert(s.take(i) =~= s);
    } else {
        lemma_idx_sum_prefix(hs, s.drop_last(), i);
        assert(s.drop_last().take(i) =~= s.take(i));
    }
}

proof fn lemma_total_cells_lower(hs: Seq<CoordSet>)
    requires
        forall|i: int| 0 <= i < hs.len() ==> (#[trigger] hs[i])@.len() >= 1,
    ensures
        total_cells(hs) >= hs.len(),
    decreases hs.len(),
{
    if hs.len() > 0 {
        lemma_total_cells_lower(hs.drop_last());
    }
}

/// The cells of `h`, under some rigid motion, all appear in `p`.
pub open spec fn embedded_in(h: CoordSet, p: Set<(int, int)>) -> bool {
    exists|k: nat, d: (int, int)| crate::coord::rigid(h@, k, d).subset_of(p)
}

impl crate::coordset::Plank {
    /// Assemble one connected plank out of a transformed copy of every
    /// hole: weld the holes on in a shuffled order, each at a random
    /// rotation and vertical offset, packed right against the plank built
    /// so far; then rotate the whole at random, give it a fresh texture
    /// offset, and normalize it. The plank's cells are exactly the union of
    /// one rigid copy of each hole, the copies pairwise disjoint.
    #[verifier::rlimit(80)]
    pub fn from_holes(holes: &Holes, rng: &mut rand::rngs::StdRng) -> (p: crate::coordset::Plank)
        requires
            1 <= holes.holes@.len(),
            total_cells(holes.holes@) <= 0x1000000,
            forall|i: int|
                0 <= i < holes.holes@.len() ==> {
                    let h = #[trigger] holes.holes@[i];
                    &&& h.wf()
                    &&& connected(h@)
                    &&& h@.len() >= 1
                    &&& bounded_by(h@, -(2 * h@.len() as int), 2 * h@.len() as int)
                },
        ensures
            p.wf(),
            p.turns == 0,
            connected(p@),
            p@.len() == total_cells(holes.holes@),
            p@.len() >= 1,
            0 <= p.texture_offset.x < 1000,
            0 <= p.texture_offset.y < 1000,
            crate::coordset::is_min_x(p@, 0),
            crate::coordset::is_min_y(p@, 0),
            bounded_by(p@, -(12 * total_cells(holes.holes@)), 12 * total_cells(holes.holes@)),
            forall|i: int|
                0 <= i < holes.holes@.len() ==> embedded_in(#[trigger] holes.holes@[i], p@),
            exists|ks: Seq<(nat, (int, int))>| placements_cover(holes.holes@, ks, p@),
    {
        broadcast use vstd::seq_lib::group_to_multiset_ensures;

        let ghost hseq = holes.holes@;
        let ghost big = total_cells(hseq);
        let n = holes.holes.len();
        let mut indexes: Vec<usize> = Vec::new();
        let mut j: usize = 0;
        while j < n
            invariant
                0 <= j <= n,
                indexes@.len() == j,
                forall|q: int| 0 <= q < j ==> #[trigger] indexes@[q] == q,
            decreases n - j,
        {
            indexes.push(j);
            j += 1;
        }
        let ghost iota = indexes@;
        proof {
            assert(forall|q: int| 0 <= q < n ==> #[trigger] iota[q] == q);
            lemma_idx_sum_iota(hseq, iota, n as int);
            assert(hseq.take(n as int) =~= hseq);
            assert(idx_sum(hseq, iota) == big);
        }
        crate::rng::shuffle_indexes(&mut indexes, rng);
        proof {
            lemma_idx_sum_permutation(hseq, indexes@, iota);
            assert(idx_sum(hseq, indexes@) == big);
            assert forall|q: int| 0 <= q < n implies (#[trigger] indexes@[q]) < n by {
                assert(indexes@.contains(indexes@[q]));
                assert(indexes@.to_multiset().contains(indexes@[q]));
                assert(iota.to_multiset().contains(indexes@[q]));
                assert(iota.contains(indexes@[q]));
                let w = choose|w: int| 0 <= w < iota.len() && iota[w] == indexes@[q];
            }
            lemma_total_cells_lower(hseq);
            // the shuffled order is a permutation: no position repeats
            assert(iota.no_duplicates()) by {
                assert forall|a: int, b: int| 0 <= a < b < n implies iota[a] != iota[b] by {}
            }
            iota.lemma_multiset_has_no_duplicates();
            indexes@.lemma_multiset_has_no_duplicates_conv();
            assert(indexes@.no_duplicates());
        }
        let first_idx = indexes[0];
        let h0 = &holes.holes[first_idx];
        let seeded = h0.duplicate();
        let mut plank = CoordSet { cells: seeded.cells, turns: 0, texture_offset: Coord { x: 0, y: 0 } };
        let ghost mut sb: int = 2 * h0@.len() as int;
        proof {
            assert(plank@ == h0@);
            assert(hseq[indexes@[0] as int] == *h0);
            assert(idx_sum(hseq, indexes@.take(1)) == h0@.len()) by {
                assert(indexes@.take(1).drop_last() =~= Seq::<usize>::empty());
                assert(idx_sum(hseq, Seq::<usize>::empty()) == 0);
                assert(indexes@.take(1).len() == 1);
                assert(indexes@.take(1).last() == first_idx);
            }
            crate::coord::lemma_rigid_zero(h0@);
            assert(crate::coord::rigid(h0@, 0, (0, 0)).subset_of(plank@));
            assert(embedded_in(*h0, plank@));
            assert(hseq[indexes@[0] as int] == *h0);
            lemma_idx_sum_prefix(hseq, indexes@, 1);
        }
        let ghost mut ksh: Seq<(nat, (int, int))> = seq![(0 as nat, (0int, 0int))];
        proof {
            let sel1 = sel_of(hseq, indexes@.take(1));
            assert(sel1.len() == 1 && sel1[0] == *h0);
            assert(placed_union(sel1, ksh) =~= plank@) by {
                assert(sel1.drop_last() =~= Seq::<CoordSet>::empty());
                assert(placed_union(Seq::<CoordSet>::empty(), ksh.drop_last()) =~= Set::<
                    (int, int),
                >::empty());
                assert(placed_at(sel1, ksh, 0) =~= h0@) by {
                    crate::coord::lemma_rigid_zero(h0@);
                }
            }
            assert(placements_cover(sel1, ksh, plank@));
        }
        let mut i: usize = 1;
        while i < n
            invariant
                1 <= i <= n,
                n == hseq.len(),
                n == indexes@.len(),
                forall|q: int| 0 <= q < n ==> (#[trigger] indexes@[q]) < n,
                idx_sum(hseq, indexes@) == big,
                plank.wf(),
                connected(plank@),
                plank@.len() == idx_sum(hseq, indexes@.take(i as int)),
                plank@.len() >= 1,
                bounded_by(plank@, -sb, sb),
                1 <= sb <= 4 * plank@.len() + 2 * i,
                forall|jj: int|
                    0 <= jj < i ==> embedded_in(#[trigger] hseq[indexes@[jj] as int], plank@),
                ksh.len() == i,
                placements_cover(sel_of(hseq, indexes@.take(i as int)), ksh, plank@),
            decreases n - i,
        {
            let iv = indexes[i];
            let hi = &holes.holes[iv];
            proof {
                assert(iv == indexes@[i as int]);
                assert(hseq[iv as int] == *hi);
            }
            let ghost pre_plank = plank@;
            let ghost pc = plank;
            let ghost pre_sb = sb;
            proof {
                lemma_idx_sum_prefix(hseq, indexes@, i + 1);
                assert(idx_sum(hseq, indexes@.take(i + 1)) == idx_sum(hseq, indexes@.take(i as int))
                    + hi@.len()) by {
                    assert(indexes@.take(i + 1).drop_last() =~= indexes@.take(i as int));
                    assert(indexes@.take(i + 1).last() == indexes@[i as int]);
                }
                assert(plank@.len() + hi@.len() <= big);
                assert(sb <= 4 * big + 2 * n);
                lemma_total_cells_lower(hseq);
                assert(n as int <= big);
                assert(sb <= 6 * big);
            }
            plank = attach_hole(plank, hi, rng, Ghost(sb), Ghost(2 * hi@.len() as int));
            proof {
                sb = pre_sb + 4 * hi@.len() + 2;
                assert(bounded_by(plank@, -sb, sb)) by {
                    assert forall|q: (int, int)| #[trigger] plank@.contains(q) implies -sb <= q.0
                        <= sb && -sb <= q.1 <= sb by {}
                }
                let kp = choose|k: nat|
                    k < 4 && crate::coord::rigid(pre_plank, k, (0, 0)).subset_of(plank@);
                assert forall|jj: int| 0 <= jj < i + 1 implies embedded_in(
                    #[trigger] hseq[indexes@[jj] as int],
                    plank@,
                ) by {
                    let h = hseq[indexes@[jj] as int]@;
                    if jj < i {
                        assert(embedded_in(hseq[indexes@[jj] as int], pre_plank));
                        let (k, d) = choose|k: nat, d: (int, int)|
                            crate::coord::rigid(h, k, d).subset_of(pre_plank);
                        crate::coord::lemma_rigid_subset(
                            crate::coord::rigid(h, k, d),
                            pre_plank,
                            kp,
                            (0, 0),
                        );
                        crate::coord::lemma_rigid_compose(h, k, d, kp, (0, 0));
                        assert(crate::coord::rigid(
                            h,
                            (k + kp) as nat,
                            crate::coord::pt_add(crate::coord::rot_ccw_n(d, kp), (0, 0)),
                        ).subset_of(plank@));
                    } else {
                        assert(jj == i);
                        assert(hseq[indexes@[jj] as int] == *hi);
                        assert(exists|k: nat, d: (int, int)|
                            crate::coord::rigid(hi@, k, d).subset_of(plank@));
                    }
                }
                // exact coverage: every prior placement turns with the
                // plank, and the new hole's placement joins the family
                let (kp2, kh2, dh) = choose|kp2: nat, kh2: nat, dh: (int, int)|
                    welded_exactly(pc, *hi, kp2, kh2, dh, plank@);
                let fcomp = |t: (nat, (int, int))| compose_motion(t, kp2, (0int, 0int));
                let prev_sel = sel_of(hseq, indexes@.take(i as int));
                let new_sel = sel_of(hseq, indexes@.take(i + 1));
                let ghost ksh0 = ksh;
                lemma_placed_union_compose(prev_sel, ksh0, kp2, (0, 0));
                ksh = ksh0.map_values(fcomp).push((kh2, dh));
                assert(new_sel =~= prev_sel.push(hseq[iv as int]));
                assert(new_sel.drop_last() =~= prev_sel);
                assert(ksh.drop_last() =~= ksh0.map_values(fcomp));
                assert(placed_at(new_sel, ksh, i as int) =~= crate::coord::rigid(hi@, kh2, dh));
                assert(placed_union(new_sel, ksh) =~= plank@) by {
                    assert(placed_union(new_sel, ksh) =~= placed_union(
                        prev_sel,
                        ksh0.map_values(fcomp),
                    ).union(placed_at(new_sel, ksh, i as int)));
                    assert(placed_union(prev_sel, ksh0.map_values(fcomp))
                        =~= crate::coord::rigid(pre_plank, kp2, (0, 0)));
                }
                assert forall|i1: int, i2: int|
                    #![trigger placed_at(new_sel, ksh, i1), placed_at(new_sel, ksh, i2)]
                    0 <= i1 < i2 < i + 1 implies placed_at(new_sel, ksh, i1).disjoint(
                    placed_at(new_sel, ksh, i2),
                ) by {
                    assert(new_sel[i1] == prev_sel[i1] && ksh[i1] == fcomp(ksh0[i1]));
                    crate::coord::lemma_rigid_compose(
                        prev_sel[i1]@,
                        ksh0[i1].0,
                        ksh0[i1].1,
                        kp2,
                        (0, 0),
                    );
                    assert(placed_at(new_sel, ksh, i1) =~= crate::coord::rigid(
                        placed_at(prev_sel, ksh0, i1),
                        kp2,
                        (0, 0),
                    ));
                    if i2 < i {
                        assert(new_sel[i2] == prev_sel[i2] && ksh[i2] == fcomp(ksh0[i2]));
                        crate::coord::lemma_rigid_compose(
                            prev_sel[i2]@,
                            ksh0[i2].0,
                            ksh0[i2].1,
                            kp2,
                            (0, 0),
                        );
                        assert(placed_at(new_sel, ksh, i2) =~= crate::coord::rigid(
                            placed_at(prev_sel, ksh0, i2),
                            kp2,
                            (0, 0),
                        ));
                        assert(placed_at(prev_sel, ksh0, i1).disjoint(
                            placed_at(prev_sel, ksh0, i2),
                        ));
                        crate::coord::lemma_rigid_disjoint(
                            placed_at(prev_sel, ksh0, i1),
                            placed_at(prev_sel, ksh0, i2),
                            kp2,
                            (0, 0),
                        );
                    } else {
                        assert(i2 == i);
                        lemma_placed_at_subset(prev_sel, ksh0, i1);
                        crate::coord::lemma_rigid_subset(
                            placed_at(prev_sel, ksh0, i1),
                            placed_union(prev_sel, ksh0),
                            kp2,
                            (0, 0),
                        );
                        assert(crate::coord::rigid(pre_plank, kp2, (0, 0)).disjoint(
                            crate::coord::rigid(hi@, kh2, dh),
                        ));
                        assert forall|q: (int, int)| #[trigger]
                            placed_at(new_sel, ksh, i1).contains(q) implies !placed_at(
                            new_sel,
                            ksh,
                            i2,
                        ).contains(q) by {
                            assert(crate::coord::rigid(pre_plank, kp2, (0, 0)).contains(q));
                        }
                    }
                }
                assert(placements_cover(new_sel, ksh, plank@));
            }
            i += 1;
        }
        proof {
            assert(indexes@.take(n as int) =~= indexes@);
            assert(plank@.len() == big);
            assert(sb <= 6 * big);
        }
        let ghost seln = sel_of(hseq, indexes@);
        let ghost pre_rot = plank@;
        let mut plank = rotate_random(plank, rng, Ghost(sb));
        proof {
            let kf = choose|k: nat| k < 4 && plank@ =~= crate::coord::rigid(pre_rot, k, (0, 0));
            // the whole family turns with the plank
            assert(sel_of(hseq, indexes@.take(n as int)) == seln);
            assert(placements_cover(seln, ksh, pre_rot));
            let fcomp = |t: (nat, (int, int))| compose_motion(t, kf, (0int, 0int));
            let ghost ksh0 = ksh;
            lemma_placed_union_compose(seln, ksh0, kf, (0, 0));
            ksh = ksh0.map_values(fcomp);
            assert(placed_union(seln, ksh) =~= plank@);
            assert forall|i1: int, i2: int|
                #![trigger placed_at(seln, ksh, i1), placed_at(seln, ksh, i2)]
                0 <= i1 < i2 < n implies placed_at(seln, ksh, i1).disjoint(
                placed_at(seln, ksh, i2),
            ) by {
                crate::coord::lemma_rigid_compose(seln[i1]@, ksh0[i1].0, ksh0[i1].1, kf, (0, 0));
                crate::coord::lemma_rigid_compose(seln[i2]@, ksh0[i2].0, ksh0[i2].1, kf, (0, 0));
                assert(placed_at(seln, ksh, i1) =~= crate::coord::rigid(
                    placed_at(seln, ksh0, i1),
                    kf,
                    (0, 0),
                ));
                assert(placed_at(seln, ksh, i2) =~= crate::coord::rigid(
                    placed_at(seln, ksh0, i2),
                    kf,
                    (0, 0),
                ));
                crate::coord::lemma_rigid_disjoint(
                    placed_at(seln, ksh0, i1),
                    placed_at(seln, ksh0, i2),
                    kf,
                    (0, 0),
                );
            }
            assert(placements_cover(seln, ksh, plank@));
            assert forall|jj: int| 0 <= jj < n implies embedded_in(
                #[trigger] hseq[jj],
                plank@,
            ) by {
                // every original position occurs somewhere in the shuffled order
                assert(iota.len() == n as int);
                assert(iota[jj] == jj);
                assert(iota.contains((jj as usize)));
                assert(iota.to_multiset().contains((jj as usize)));
                assert(indexes@.to_multiset().contains((jj as usize)));
                assert(indexes@.contains((jj as usize)));
                let w = choose|w: int| 0 <= w < indexes@.len() && indexes@[w] == (jj as usize);
                assert(hseq[indexes@[w] as int] == hseq[jj]);
                assert(embedded_in(hseq[indexes@[w] as int], pre_rot));
                let h = hseq[jj]@;
                let (k, d) = choose|k: nat, d: (int, int)|
                    crate::coord::rigid(h, k, d).subset_of(pre_rot);
                crate::coord::lemma_rigid_subset(crate::coord::rigid(h, k, d), pre_rot, kf, (0, 0));
                crate::coord::lemma_rigid_compose(h, k, d, kf, (0, 0));
                assert(crate::coord::rigid(
                    h,
                    (k + kf) as nat,
                    crate::coord::pt_add(crate::coord::rot_ccw_n(d, kf), (0, 0)),
                ).subset_of(plank@));
            }
        }
        let tx = rng_range_i32(rng, 0, 999);
        let ty = rng_range_i32(rng, 0, 999);
        plank.texture_offset = Coord { x: tx, y: ty };
        let ghost pre_norm = plank@;
        proof {
            assert forall|a: (int, int), b: (int, int)|
                plank@.contains(a) && plank@.contains(b) implies a.0 - b.0 <= i32::MAX && a.1 - b.1
                <= i32::MAX by {}
        }
        let plank = plank.normalize();
        proof {
            let d0 = choose|d: (int, int)| plank@ =~= crate::coord::shift_all(pre_norm, d);
            crate::connect::lemma_connected_shift(pre_norm, d0);
            assert(connected(plank@));
            // the normalizing translation moves the whole family with it
            assert(placements_cover(seln, ksh, pre_norm));
            let fcomp = |t: (nat, (int, int))| compose_motion(t, 0, d0);
            let ghost ksh0 = ksh;
            lemma_placed_union_compose(seln, ksh0, 0, d0);
            crate::coord::lemma_rigid_no_turns(pre_norm, d0);
            ksh = ksh0.map_values(fcomp);
            assert(placed_union(seln, ksh) =~= plank@);
            assert forall|i1: int, i2: int|
                #![trigger placed_at(seln, ksh, i1), placed_at(seln, ksh, i2)]
                0 <= i1 < i2 < n implies placed_at(seln, ksh, i1).disjoint(
                placed_at(seln, ksh, i2),
            ) by {
                crate::coord::lemma_rigid_compose(seln[i1]@, ksh0[i1].0, ksh0[i1].1, 0, d0);
                crate::coord::lemma_rigid_compose(seln[i2]@, ksh0[i2].0, ksh0[i2].1, 0, d0);
                assert(placed_at(seln, ksh, i1) =~= crate::coord::rigid(
                    placed_at(seln, ksh0, i1),
                    0,
                    d0,
                ));
                assert(placed_at(seln, ksh, i2) =~= crate::coord::rigid(
                    placed_at(seln, ksh0, i2),
                    0,
                    d0,
                ));
                crate::coord::lemma_rigid_disjoint(
                    placed_at(seln, ksh0, i1),
                    placed_at(seln, ksh0, i2),
                    0,
                    d0,
                );
            }
            assert(placements_cover(seln, ksh, plank@));
            // re-index the family by the holes' original order
            let ksf = Seq::new(
                n as nat,
                |j: int| ksh[choose|w: int| 0 <= w < n && indexes@[w] == j],
            );
            assert forall|j: int| #![trigger iota[j]] 0 <= j < n implies exists|w: int|
                0 <= w < n && #[trigger] indexes@[w] == j by {
                assert(0 <= j < iota.len());
                assert(iota[j] == j);
                assert(iota[j] == (j as usize));
                assert(iota.contains((j as usize)));
                assert(iota.to_multiset().contains((j as usize)));
                assert(indexes@.to_multiset().contains((j as usize)));
                assert(indexes@.contains((j as usize)));
                let w = choose|w: int| 0 <= w < indexes@.len() && indexes@[w] == (j as usize);
                assert(indexes@[w] == j);
            }
            assert forall|j: int| 0 <= j < n implies {
                let w = choose|w: int| 0 <= w < n && indexes@[w] == j;
                &&& 0 <= w < n
                &&& indexes@[w] == j
                &&& #[trigger] placed_at(hseq, ksf, j) == placed_at(seln, ksh, w)
            } by {
                assert(iota[j] == j);
                let w = choose|w: int| 0 <= w < n && indexes@[w] == j;
                assert(seln[w] == hseq[indexes@[w] as int]);
                assert(ksf[j] == ksh[w]);
            }
            assert(plank@ =~= placed_union(hseq, ksf)) by {
                assert forall|x: (int, int)|
                    placed_union(hseq, ksf).contains(x) <==> #[trigger] plank@.contains(x) by {
                    lemma_placed_union_contains(hseq, ksf, x);
                    lemma_placed_union_contains(seln, ksh, x);
                    if plank@.contains(x) {
                        let w = choose|w: int|
                            0 <= w < seln.len() && #[trigger] placed_at(seln, ksh, w).contains(x);
                        let j = indexes@[w] as int;
                        assert(iota[j] == j);
                        let w2 = choose|w2: int| 0 <= w2 < n && indexes@[w2] == j;
                        assert(indexes@[w2] == indexes@[w]);
                        assert(w2 == w);
                        assert(placed_at(hseq, ksf, j) == placed_at(seln, ksh, w));
                        assert(placed_at(hseq, ksf, j).contains(x));
                    }
                    if placed_union(hseq, ksf).contains(x) {
                        let j = choose|j: int|
                            0 <= j < hseq.len() && #[trigger] placed_at(hseq, ksf, j).contains(x);
                        assert(iota[j] == j);
                        let w = choose|w: int| 0 <= w < n && indexes@[w] == j;
                        assert(placed_at(seln, ksh, w).contains(x));
                    }
                }
            }
            assert forall|i1: int, i2: int|
                #![trigger placed_at(hseq, ksf, i1), placed_at(hseq, ksf, i2)]
                0 <= i1 < i2 < n implies placed_at(hseq, ksf, i1).disjoint(
                placed_at(hseq, ksf, i2),
            ) by {
                assert(iota[i1] == i1 && iota[i2] == i2);
                let w1 = choose|w: int| 0 <= w < n && indexes@[w] == i1;
                let w2 = choose|w: int| 0 <= w < n && indexes@[w] == i2;
                assert(placed_at(hseq, ksf, i1) == placed_at(seln, ksh, w1));
                assert(placed_at(hseq, ksf, i2) == placed_at(seln, ksh, w2));
                assert(w1 != w2);
                if w1 < w2 {
                    assert(placed_at(seln, ksh, w1).disjoint(placed_at(seln, ksh, w2)));
                } else {
                    assert(placed_at(seln, ksh, w2).disjoint(placed_at(seln, ksh, w1)));
                    assert forall|q: (int, int)| #[trigger]
                        placed_at(seln, ksh, w1).contains(q) implies !placed_at(
                        seln,
                        ksh,
                        w2,
                    ).contains(q) by {}
                }
            }
            assert(placements_cover(hseq, ksf, plank@));
            assert forall|jj: int| 0 <= jj < n implies embedded_in(
                #[trigger] hseq[jj],
                plank@,
            ) by {
                assert(embedded_in(hseq[jj], pre_norm));
                let h = hseq[jj]@;
                let (k, d) = choose|k: nat, d: (int, int)|
                    crate::coord::rigid(h, k, d).subset_of(pre_norm);
                let fd = |p: (int, int)| crate::coord::pt_add(p, d0);
                crate::coord::lemma_map_subset(crate::coord::rigid(h, k, d), pre_norm, fd);
                crate::coord::lemma_shift_all_rigid(h, k, d, d0);
                assert(crate::coord::rigid(h, k, crate::coord::pt_add(d, d0)).subset_of(plank@));
            }
            // bounds after normalization: the least corner is the origin and
            // the span is at most twice the pre-normalization bound
            assert(bounded_by(plank@, -(12 * big), 12 * big)) by {
                let w1 = choose|w: (int, int)| #[trigger] plank@.contains(w) && w.0 == 0;
                let w2 = choose|w: (int, int)| #[trigger] plank@.contains(w) && w.1 == 0;
                let fd = |p: (int, int)| crate::coord::pt_add(p, d0);
                assert forall|q: (int, int)| #[trigger] plank@.contains(q) implies 0 <= q.0 <= 12
                    * big && 0 <= q.1 <= 12 * big by {
                    let p = choose|p: (int, int)| pre_norm.contains(p) && fd(p) == q;
                    let p1 = choose|p1: (int, int)| pre_norm.contains(p1) && fd(p1) == w1;
                    let p2 = choose|p2: (int, int)| pre_norm.contains(p2) && fd(p2) == w2;
                    assert(q.0 - w1.0 == p.0 - p1.0);
                    assert(q.1 - w2.1 == p.1 - p2.1);
                }
            }
        }
        plank
    }
}


} // verus!
