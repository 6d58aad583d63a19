//! The level model: positioned holes and planks, the deterministic
//! `LevelDef` to `Level` construction, and the hammer-home matching.

use vstd::prelude::*;

use crate::connect::connected;
use crate::coord::{bounded_by, Coord};
use crate::coordset::{is_extents, is_max_y, is_min_y, CoordSet, Plank};
use crate::gen::{total_cells, Holes};
use crate::rng::{rng_range_usize, shuffle_coords};

verus! {

/// An integer board position.
#[derive(Clone, Copy, Default, PartialEq, Eq, Structural)]
pub struct Position(pub Coord);

/// An integer camera height.
#[derive(Clone, Copy, Default, PartialEq, Eq, Structural)]
pub struct PositionZ(pub i32);

/// The three integers that deterministically reproduce a level.
#[derive(Clone, Default)]
pub struct LevelDef {
    pub num_holes: usize,
    pub total_blocks: usize,
    pub seed: u64,
}

/// A generated level: the hole layout's bounding extents, the positioned
/// holes, the movable planks with their positions, and a flag meaning
/// "needs (re)instantiation into the world".
pub struct Level {
    pub extents: Coord,
    pub holes: Holes,
    pub planks: Vec<(Plank, Position)>,
    pub setup: bool,
}

/// The initially built level, kept aside so a restart can reproduce it.
pub struct LevelBase(pub Level);

/// A hammered-in plank with its board position and nail decorations.
pub type DonePlank = (Plank, Position, Vec<Coord>);

/// Hammer a plank home: the filled hole leaves the level and the plank is
/// recorded, with its nails, on the list of finished planks.
pub fn hammer_home(
    level: &mut Level,
    hole_index: usize,
    done: &mut Vec<DonePlank>,
    plank: Plank,
    pos: Position,
    nails: Vec<Coord>,
)
    requires
        hole_index < old(level).holes.holes@.len(),
    ensures
        final(level).holes.holes@ == old(level).holes.holes@.remove(hole_index as int),
        final(level).planks == old(level).planks,
        final(level).extents == old(level).extents,
        final(level).setup == old(level).setup,
        final(done)@ == old(done)@.push((plank, pos, nails)),
{
    level.holes.holes.remove(hole_index);
    done.push((plank, pos, nails));
}

/// The height of a shape's bounding box; 1 for the empty shape.
pub open spec fn height_of(s: Set<(int, int)>) -> int {
    if s.len() == 0 {
        1
    } else {
        max_y_of(s) - min_y_of(s) + 1
    }
}

/// The least y coordinate over the cells of `s`.
pub open spec fn min_y_of(s: Set<(int, int)>) -> int {
    choose|m: int| is_min_y(s, m)
}

/// The greatest y coordinate over the cells of `s`.
pub open spec fn max_y_of(s: Set<(int, int)>) -> int {
    choose|m: int| is_max_y(s, m)
}

/// The named extremes agree with any witnessed bounding box.
pub proof fn lemma_extents_named(s: Set<(int, int)>, e: ((i32, i32), (i32, i32)))
    requires
        is_extents(s, e),
    ensures
        min_y_of(s) == e.1.0 as int,
        max_y_of(s) == e.1.1 as int,
{
    assert(is_min_y(s, e.1.0 as int));
    assert(is_min_y(s, min_y_of(s)));
    let p1 = choose|p: (int, int)| #[trigger] s.contains(p) && p.1 == e.1.0 as int;
    let p2 = choose|p: (int, int)| #[trigger] s.contains(p) && p.1 == min_y_of(s);
    assert(is_max_y(s, e.1.1 as int));
    assert(is_max_y(s, max_y_of(s)));
    let q1 = choose|p: (int, int)| #[trigger] s.contains(p) && p.1 == e.1.1 as int;
    let q2 = choose|p: (int, int)| #[trigger] s.contains(p) && p.1 == max_y_of(s);
}

/// The bounding-box height of a shape, as a machine integer.
pub fn height(c: &CoordSet) -> (r: i32)
    requires
        forall|p: (int, int)|
            c@.contains(p) ==> -0x10000000 <= p.0 <= 0x10000000 && -0x10000000 <= p.1
                <= 0x10000000,
    ensures
        r == height_of(c@),
        r >= 1,
{
    proof {
        if c@.len() != 0 {
            let p = choose|p: (int, int)| c@.contains(p);
        }
    }
    let e = c.extents();
    proof {
        if c@.len() != 0 {
            lemma_extents_named(c@, e);
            let q1 = choose|p: (int, int)| #[trigger] c@.contains(p) && p.1 == e.1.1 as int;
            let q2 = choose|p: (int, int)| #[trigger] c@.contains(p) && p.1 == e.1.0 as int;
        }
    }
    e.1.1 - e.1.0 + 1
}

/// Sort holes by bounding-box height, tallest first; the multiset of holes
/// is unchanged.
pub fn sort_holes_by_height(v: &mut Vec<CoordSet>)
    requires
        forall|i: int|
            0 <= i < old(v)@.len() ==> forall|p: (int, int)| (#[trigger] old(v)@[i])@.contains(p)
                ==> -0x10000000 <= p.0 <= 0x10000000 && -0x10000000 <= p.1 <= 0x10000000,
    ensures
        final(v)@.to_multiset() == old(v)@.to_multiset(),
        final(v)@.len() == old(v)@.len(),
        forall|i: int, j: int|
            0 <= i <= j < final(v)@.len() ==> height_of((#[trigger] final(v)@[i])@) >= height_of(
                (#[trigger] final(v)@[j])@,
            ),
{
    broadcast use vstd::seq_lib::group_to_multiset_ensures;
    broadcast use vstd::seq_lib::to_multiset_insert;

    let n = v.len();
    let mut pass: usize = 0;
    while pass < n
        invariant
            0 <= pass <= n,
            n == v@.len(),
            v@.to_multiset() == old(v)@.to_multiset(),
            forall|i: int, j: int|
                0 <= i <= j < pass ==> height_of((#[trigger] v@[i])@) >= height_of(
                    (#[trigger] v@[j])@,
                ),
            forall|i: int, j: int|
                0 <= i < pass <= j < n ==> height_of((#[trigger] v@[i])@) >= height_of(
                    (#[trigger] v@[j])@,
                ),
        decreases n - pass,
    {
        proof {
            // every present hole was present at entry, so its cells are bounded
            assert forall|i: int|
                0 <= i < n implies forall|p: (int, int)| (#[trigger] v@[i])@.contains(p)
                ==> -0x10000000 <= p.0 <= 0x10000000 && -0x10000000 <= p.1 <= 0x10000000 by {
                assert(v@.contains(v@[i]));
                assert(v@.to_multiset().count(v@[i]) > 0);
                assert(old(v)@.to_multiset().count(v@[i]) > 0);
                assert(old(v)@.contains(v@[i]));
                let w = choose|w: int| 0 <= w < old(v)@.len() && old(v)@[w] == v@[i];
            }
        }
        let m = v.len();
        let mut mi: usize = pass;
        let mut bh: i32 = height(&v[pass]);
        let mut q: usize = pass + 1;
        while q < m
            invariant
                pass <= mi < q <= m,
                m == v@.len(),
                pass < m,
                forall|i: int|
                    0 <= i < m ==> forall|p: (int, int)| (#[trigger] v@[i])@.contains(p)
                        ==> -0x10000000 <= p.0 <= 0x10000000 && -0x10000000 <= p.1 <= 0x10000000,
                bh == height_of(v@[mi as int]@),
                forall|k: int| pass <= k < q ==> bh >= height_of((#[trigger] v@[k])@),
            decreases m - q,
        {
            let h = height(&v[q]);
            if h > bh {
                mi = q;
                bh = h;
            }
            q += 1;
        }
        let ghost pre = v@;
        let x = v.remove(mi);
        let ghost mid = v@;
        v.insert(pass, x);
        proof {
            assert(v@.to_multiset() == old(v)@.to_multiset()) by {
                assert(mid.to_multiset() =~= pre.to_multiset().remove(pre[mi as int]));
                assert(v@.to_multiset() =~= mid.to_multiset().insert(x));
                assert(pre.to_multiset().contains(pre[mi as int]));
                assert(v@.to_multiset() =~= pre.to_multiset());
            }
            // index relations after the remove and insert
            assert forall|k: int| 0 <= k < pass implies #[trigger] v@[k] == pre[k] by {
                assert(mid[k] == pre[k]);
            }
            assert(v@[pass as int] == pre[mi as int]);
            assert forall|j: int| pass < j < n implies height_of((#[trigger] v@[j])@) <= bh by {
                assert(v@[j] == mid[j - 1]);
                if j - 1 < mi {
                    assert(mid[j - 1] == pre[j - 1]);
                } else {
                    assert(mid[j - 1] == pre[j]);
                }
            }
            assert forall|i: int, j: int|
                0 <= i <= j < pass + 1 implies height_of((#[trigger] v@[i])@) >= height_of(
                (#[trigger] v@[j])@,
            ) by {
                if j < pass {
                } else if i < pass {
                    assert(v@[i] == pre[i] && v@[j] == pre[mi as int]);
                }
            }
            assert forall|i: int, j: int|
                0 <= i < pass + 1 <= j < n implies height_of((#[trigger] v@[i])@) >= height_of(
                (#[trigger] v@[j])@,
            ) by {
                assert(height_of(v@[j]@) <= bh);
                if i < pass {
                    assert(v@[i] == pre[i]);
                    assert(height_of(pre[i]@) >= height_of(pre[mi as int]@));
                }
            }
        }
        pass += 1;
    }
}

/// The index of the hole exactly filled by the given placed shape, if any:
/// the first hole whose cell set equals it.
pub fn find_matching_hole(holes: &Holes, shifted: &CoordSet) -> (r: Option<usize>)
    requires
        shifted.wf(),
        forall|i: int| 0 <= i < holes.holes@.len() ==> (#[trigger] holes.holes@[i]).wf(),
    ensures
        r matches Some(i) ==> 0 <= i < holes.holes@.len() && shifted@ =~= holes.holes@[i as int]@
            && (forall|j: int| 0 <= j < i ==> !(shifted@ =~= (#[trigger] holes.holes@[j])@)),
        r is None ==> forall|j: int|
            0 <= j < holes.holes@.len() ==> !(shifted@ =~= (#[trigger] holes.holes@[j])@),
{
    let n = holes.holes.len();
    let mut i: usize = 0;
    while i < n
        invariant
            0 <= i <= n,
            n == holes.holes@.len(),
            forall|j: int| 0 <= j < i ==> !(shifted@ =~= (#[trigger] holes.holes@[j])@),
        decreases n - i,
    {
        if shifted.equals(&holes.holes[i]) {
            return Some(i);
        }
        i += 1;
    }
    None
}

/// Choose the cells of a hammered-in plank that receive a nail: between two
/// and half the cells, at random.
pub fn pick_nails(shifted: &CoordSet, rng: &mut rand::rngs::StdRng) -> (r: Vec<Coord>)
    requires
        shifted.wf(),
        shifted@.len() >= 4,
    ensures
        forall|i: int| 0 <= i < r@.len() ==> shifted@.contains((#[trigger] r@[i])@),
        forall|i: int, j: int| 0 <= i < j < r@.len() ==> r@[i] != r@[j],
        2 <= r@.len(),
        r@.len() <= shifted@.len() / 2,
{
    proof {
        shifted.lemma_view_len();
    }
    let mut coords = shifted.duplicate().cells;
    proof {
        assert(coords@.no_duplicates()) by {
            assert forall|a: int, b: int|
                0 <= a < b < coords@.len() implies coords@[a] != coords@[b] by {
                assert(shifted.cseq()[a] == coords@[a]@ && shifted.cseq()[b] == coords@[b]@);
            }
        }
        coords@.lemma_multiset_has_no_duplicates();
    }
    shuffle_coords(&mut coords, rng);
    proof {
        broadcast use vstd::seq_lib::group_to_multiset_ensures;

        coords@.lemma_multiset_has_no_duplicates_conv();
        assert(coords@.no_duplicates());

        assert forall|i: int| 0 <= i < coords@.len() implies shifted@.contains(
            (#[trigger] coords@[i])@,
        ) by {
            assert(coords@.contains(coords@[i]));
            assert(coords@.to_multiset().count(coords@[i]) > 0);
            assert(shifted.cells@.to_multiset().count(coords@[i]) > 0);
            assert(shifted.cells@.contains(coords@[i]));
            let w = choose|w: int|
                0 <= w < shifted.cells@.len() && shifted.cells@[w] == coords@[i];
            assert(shifted.cseq()[w] == coords@[i]@);
            assert(shifted.cseq().contains(coords@[i]@));
        }
    }
    let count = shifted.count();
    let max = if count / 2 > 1 {
        count / 2
    } else {
        1
    };
    let take = rng_range_usize(rng, 2, max);
    let mut nails: Vec<Coord> = Vec::new();
    let mut i: usize = 0;
    while i < take
        invariant
            0 <= i <= take,
            take <= max <= coords@.len(),
            nails@.len() == i,
            forall|q: int| 0 <= q < coords@.len() ==> shifted@.contains((#[trigger] coords@[q])@),
            forall|q: int| 0 <= q < i ==> shifted@.contains((#[trigger] nails@[q])@),
            coords@.no_duplicates(),
            forall|q: int| 0 <= q < i ==> #[trigger] nails@[q] == coords@[q],
        decreases take - i,
    {
        nails.push(coords[i]);
        i += 1;
    }
    nails
}


/// Integer square root, for sizing the hole grid.
fn isqrt(q: usize) -> (g: usize)
    requires
        q <= 0x100000,
    ensures
        g * g <= q,
        (g + 1) * (g + 1) > q,
        g <= q,
{
    let mut g: usize = 0;
    while g + 1 <= q / (g + 1)
        invariant
            g <= q,
            g as int * g as int <= q as int,
        decreases q - g,
    {
        proof {
            vstd::arithmetic::div_mod::lemma_fundamental_div_mod(q as int, g as int + 1);
            assert((g as int + 1) * (g as int + 1) <= q as int) by (nonlinear_arith)
                requires
                    g as int + 1 <= q as int / (g as int + 1),
                    q as int == (g as int + 1) * (q as int / (g as int + 1)) + q as int % (
                    g as int + 1),
                    q as int % (g as int + 1) >= 0,
                    g >= 0,
            ;
            assert(g as int + 1 <= q as int) by (nonlinear_arith)
                requires
                    (g as int + 1) * (g as int + 1) <= q as int,
                    g >= 0,
            ;
        }
        g += 1;
    }
    proof {
        vstd::arithmetic::div_mod::lemma_fundamental_div_mod(q as int, g as int + 1);
        assert((g as int + 1) * (g as int + 1) > q as int) by (nonlinear_arith)
            requires
                g as int + 1 > q as int / (g as int + 1),
                q as int == (g as int + 1) * (q as int / (g as int + 1)) + q as int % (g as int
                    + 1),
                q as int % (g as int + 1) < g as int + 1,
                g >= 0,
        ;
    }
    g
}

/// An arranged hole: the same shape as the original, translated, well
/// formed and connected.
pub open spec fn arranged_ok(h: CoordSet, orig: CoordSet) -> bool {
    &&& h.wf()
    &&& connected(h@)
    &&& h@.len() == orig@.len()
    &&& exists|d: (int, int)| h@ =~= crate::coord::shift_all(orig@, d)
}

/// Lay the holes out on a grid: each hole is translated to sit after the
/// previous one in its row, rows wrap after `grid_x` holes, and the running
/// maxima give the layout's extents. Every arranged hole keeps its shape
/// and lands inside the box `[1, extents]`.
#[verifier::rlimit(60)]
pub fn arrange_holes(
    v: &mut Vec<CoordSet>,
    grid_x: usize,
    Ghost(tot): Ghost<int>,
) -> (ext: Coord)
    requires
        grid_x >= 1,
        1 <= old(v)@.len(),
        total_cells(old(v)@) == tot,
        old(v)@.len() <= tot <= 0x100000,
        forall|i: int|
            0 <= i < old(v)@.len() ==> {
                let h = #[trigger] old(v)@[i];
                &&& h.wf()
                &&& connected(h@)
                &&& h@.len() >= 1
                &&& bounded_by(h@, 0, 2 * h@.len() as int)
                &&& h.turns == 0
                &&& 0 <= h.texture_offset.x < 1000
                &&& 0 <= h.texture_offset.y < 1000
            },
    ensures
        final(v)@.len() == old(v)@.len(),
        forall|i: int|
            0 <= i < final(v)@.len() ==> arranged_ok(#[trigger] final(v)@[i], old(v)@[i]),
        forall|i: int, p: (int, int)|
            #![trigger final(v)@[i]@.contains(p)]
            0 <= i < final(v)@.len() && final(v)@[i]@.contains(p) ==> 1 <= p.0 <= ext.x && 1 <= p.1
                <= ext.y,
        forall|j1: int, j2: int, p: (int, int)|
            #![trigger final(v)@[j1]@.contains(p), final(v)@[j2]@.contains(p)]
            0 <= j1 < j2 < final(v)@.len() ==> !(final(v)@[j1]@.contains(p)
                && final(v)@[j2]@.contains(p)),
        0 <= ext.x <= 1 + 4 * tot,
        0 <= ext.y <= 1 + 4 * tot,
{
    let n = v.len();
    let mut out: Vec<CoordSet> = Vec::new();
    let mut x_off: i32 = 1;
    let mut y_off: i32 = 1;
    let mut max_y_row: i32 = 0;
    let mut grid_col: usize = 0;
    let mut ex: i32 = 0;
    let mut ey: i32 = 0;
    let mut i: usize = 0;
    let ghost mut row_start: int = 0;
    proof {
        assert(total_cells(old(v)@.take(0)) == 0);
    }
    while i < n
        invariant
            0 <= i <= n,
            n == v@.len(),
            v@ == old(v)@,
            out@.len() == i,
            1 <= x_off,
            1 <= y_off,
            0 <= max_y_row,
            0 <= grid_col <= i,
            0 <= ex,
            0 <= ey,
            x_off as int <= 1 + 2 * total_cells(v@.take(i as int)) + 2 * i,
            y_off as int <= 1 + 2 * total_cells(v@.take(i as int)) + 2 * i,
            max_y_row as int <= 1 + 2 * total_cells(v@.take(i as int)) + 2 * i,
            ex as int <= 1 + 2 * total_cells(v@.take(i as int)) + 2 * i,
            ey as int <= 1 + 2 * total_cells(v@.take(i as int)) + 2 * i,
            total_cells(v@.take(i as int)) >= 0,
            forall|j: int| 0 <= j < i ==> arranged_ok(#[trigger] out@[j], v@[j]),
            forall|j: int, p: (int, int)|
                #![trigger out@[j]@.contains(p)]
                0 <= j < i && out@[j]@.contains(p) ==> 1 <= p.0 <= ex as int && 1 <= p.1
                    <= ey as int,
            0 <= row_start <= i,
            grid_col == i - row_start,
            forall|j: int, p: (int, int)|
                #![trigger out@[j]@.contains(p)]
                0 <= j < row_start && out@[j]@.contains(p) ==> p.1 <= y_off - 2,
            forall|j: int, p: (int, int)|
                #![trigger out@[j]@.contains(p)]
                row_start <= j < i && out@[j]@.contains(p) ==> p.0 <= x_off - 2 && y_off as int
                    <= p.1 <= max_y_row as int,
            forall|j1: int, j2: int, p: (int, int)|
                #![trigger out@[j1]@.contains(p), out@[j2]@.contains(p)]
                0 <= j1 < j2 < i ==> !(out@[j1]@.contains(p) && out@[j2]@.contains(p)),
        decreases n - i,
    {
        let ghost pm = 1 + 2 * total_cells(v@.take(i as int)) + 2 * i;
        proof {
            crate::gen::lemma_total_cells_prefix(v@, i + 1);
            assert(total_cells(v@.take(i + 1)) == total_cells(v@.take(i as int))
                + v@[i as int]@.len()) by {
                assert(v@.take(i + 1).drop_last() =~= v@.take(i as int));
                assert(v@.take(i + 1).last() == v@[i as int]);
            }
            assert(total_cells(v@.take(i + 1)) <= tot);
        }
        let mut h = v[i].duplicate();
        let by = Coord { x: x_off, y: y_off };
        proof {
            assert(crate::coord::rot_cw_n(by@, 0) == by@);
        }
        h.shift(by);
        proof {
            crate::connect::lemma_connected_shift(v@[i as int]@, by@);
            h.lemma_view_len();
        }
        let he = h.extents();
        proof {
            let f = |p: (int, int)| crate::coord::pt_add(p, by@);
            assert forall|p: (int, int)| #[trigger] h@.contains(p) implies x_off as int <= p.0
                <= x_off as int + 2 * v@[i as int]@.len() && y_off as int <= p.1 <= y_off as int + 2
                * v@[i as int]@.len() by {
                let p0 = choose|p0: (int, int)| v@[i as int]@.contains(p0) && f(p0) == p;
            }
            let w2 = choose|w: (int, int)| #[trigger] h@.contains(w) && w.0 == he.0.1 as int;
            let w4 = choose|w: (int, int)| #[trigger] h@.contains(w) && w.1 == he.1.1 as int;
            assert(he.0.1 as int <= x_off as int + 2 * v@[i as int]@.len());
            assert(he.1.1 as int <= y_off as int + 2 * v@[i as int]@.len());
        }
        if he.1.1 > max_y_row {
            max_y_row = he.1.1;
        }
        if he.0.1 > ex {
            ex = he.0.1;
        }
        if he.1.1 > ey {
            ey = he.1.1;
        }
        let ghost pre_x_off = x_off as int;
        x_off = he.0.1 + 2;
        proof {
            assert(h.wf() && connected(h@));
            assert(h@.len() == v@[i as int]@.len());
            assert(h@ =~= crate::coord::shift_all(v@[i as int]@, by@));
            assert(arranged_ok(h, v@[i as int]));
            // the new hole sits strictly right of the row so far and inside
            // the current row's band
            assert forall|p: (int, int)| #[trigger] h@.contains(p) implies pre_x_off <= p.0
                <= x_off - 2 && y_off as int <= p.1 <= max_y_row as int by {
                let f = |p0: (int, int)| crate::coord::pt_add(p0, by@);
                let p0 = choose|p0: (int, int)| v@[i as int]@.contains(p0) && f(p0) == p;
            }
        }
        out.push(h);
        proof {
            // the new hole shares no cell with any earlier hole: earlier
            // rows lie strictly below its band, earlier holes of its own
            // row lie strictly left of it
            assert forall|j1: int, j2: int, p: (int, int)|
                0 <= j1 < j2 < i + 1 && #[trigger] out@[j1]@.contains(p) implies !(
            #[trigger] out@[j2]@.contains(p)) by {
                if j2 == i && out@[j2]@.contains(p) {
                    if j1 < row_start {
                        assert(p.1 <= y_off - 2);
                        assert(p.1 >= y_off as int);
                    } else {
                        assert(p.0 <= pre_x_off - 2);
                        assert(p.0 >= pre_x_off);
                    }
                }
            }
        }
        grid_col += 1;
        if grid_col == grid_x {
            grid_col = 0;
            x_off = 1;
            y_off = max_y_row + 2;
            proof {
                // the row just closed is not empty, so its band cap is real
                assert(out@[i as int]@.len() > 0) by {
                    crate::coordset::CoordSet::lemma_view_len(&out@[i as int]);
                }
                assert forall|j: int, p: (int, int)|
                    0 <= j < i + 1 && #[trigger] out@[j]@.contains(p) implies p.1 <= y_off
                    - 2 by {
                    if j >= row_start {
                        assert(p.1 <= max_y_row as int);
                    }
                }
                row_start = i + 1;
            }
            max_y_row = 0;
        }
        i += 1;
    }
    proof {
        assert(v@.take(n as int) =~= v@);
    }
    *v = out;
    Coord { x: ex, y: ey }
}

/// Build the level a `LevelDef` describes, deterministically from its seed:
/// generate the holes, sort them tallest first, weld the plank, stand the
/// plank upright below the board, and lay the holes out on a grid.
#[verifier::rlimit(60)]
pub fn build_level(def: &LevelDef) -> (lv: Level)
    requires
        1 <= def.num_holes <= def.total_blocks,
        def.total_blocks <= 0x100000,
        def.total_blocks as int <= def.num_holes as int * crate::gen::hole_size_max(
            def.num_holes as int,
            def.total_blocks as int,
        ),
    ensures
        lv.setup,
        lv.holes.holes@.len() == def.num_holes,
        total_cells(lv.holes.holes@) == def.total_blocks,
        forall|i: int|
            0 <= i < lv.holes.holes@.len() ==> (#[trigger] lv.holes.holes@[i]).wf() && connected(
                lv.holes.holes@[i]@,
            ) && lv.holes.holes@[i]@.len() >= 1,
        forall|i: int, p: (int, int)|
            #![trigger lv.holes.holes@[i]@.contains(p)]
            0 <= i < lv.holes.holes@.len() && lv.holes.holes@[i]@.contains(p) ==> 1 <= p.0
                <= lv.extents.x && 1 <= p.1 <= lv.extents.y,
        forall|j1: int, j2: int, p: (int, int)|
            #![trigger lv.holes.holes@[j1]@.contains(p), lv.holes.holes@[j2]@.contains(p)]
            0 <= j1 < j2 < lv.holes.holes@.len() ==> !(lv.holes.holes@[j1]@.contains(p)
                && lv.holes.holes@[j2]@.contains(p)),
        lv.planks@.len() == 1,
        lv.planks@[0].0.wf(),
        connected(lv.planks@[0].0@),
        lv.planks@[0].0@.len() == def.total_blocks,
        lv.planks@[0].0.turns == 0,
{
    broadcast use vstd::seq_lib::group_to_multiset_ensures;

    let ghost tot = def.total_blocks as int;
    let mut rng = crate::rng::rng_from_seed(def.seed);
    let mut holes = crate::gen::gen_holes(def.num_holes, def.total_blocks, &mut rng);
    let ghost generated = holes.holes@;
    sort_holes_by_height(&mut holes.holes);
    proof {
        crate::gen::lemma_total_cells_permutation(holes.holes@, generated);
        assert forall|i: int| 0 <= i < holes.holes@.len() implies {
            let h = #[trigger] holes.holes@[i];
            &&& h.wf()
            &&& connected(h@)
            &&& h@.len() >= 1
            &&& bounded_by(h@, 0, 2 * h@.len() as int)
            &&& h.turns == 0
            &&& 0 <= h.texture_offset.x < 1000
            &&& 0 <= h.texture_offset.y < 1000
            &&& crate::gen::hole_size_min(def.num_holes as int, tot) <= h@.len()
        } by {
            assert(holes.holes@.contains(holes.holes@[i]));
            assert(holes.holes@.to_multiset().count(holes.holes@[i]) > 0);
            assert(generated.to_multiset().count(holes.holes@[i]) > 0);
            assert(generated.contains(holes.holes@[i]));
            let w = choose|w: int| 0 <= w < generated.len() && generated[w] == holes.holes@[i];
        }
        assert(total_cells(holes.holes@) == tot);
    }
    let mut plank = Plank::from_holes(&holes, &mut rng);
    let ghost pb = 12 * tot;
    let psize = plank.size();
    proof {
        plank.lemma_view_len();
    }
    if psize.x < psize.y {
        let ghost pre = plank@;
        plank.rotate();
        proof {
            crate::connect::lemma_connected_rot(pre);
            assert(bounded_by(plank@, -pb, pb)) by {
                let fr = |p: (int, int)| crate::coord::rot_ccw(p);
                assert forall|q: (int, int)| #[trigger] plank@.contains(q) implies -pb <= q.0 <= pb
                    && -pb <= q.1 <= pb by {
                    let p = choose|p: (int, int)| pre.contains(p) && fr(p) == q;
                }
            }
        }
        let ghost pre2 = plank@;
        plank = plank.normalize();
        proof {
            let d0 = choose|d: (int, int)| plank@ =~= crate::coord::shift_all(pre2, d);
            crate::connect::lemma_connected_shift(pre2, d0);
        }
    }
    proof {
        assert(bounded_by(plank@, -(2 * pb), 2 * pb)) by {
            if plank@.len() > 0 {
                let w1 = choose|w: (int, int)| #[trigger] plank@.contains(w) && w.0 == 0;
                let w2 = choose|w: (int, int)| #[trigger] plank@.contains(w) && w.1 == 0;
                assert forall|q: (int, int)| #[trigger] plank@.contains(q) implies -(2 * pb) <= q.0
                    <= 2 * pb && -(2 * pb) <= q.1 <= 2 * pb by {}
            }
        }
        assert(crate::coord::rot_cw_n((1int, 1int), 0) == (1int, 1int));
    }
    let ghost pre3 = plank@;
    plank.shift(Coord { x: 1, y: 1 });
    proof {
        crate::connect::lemma_connected_shift(pre3, (1int, 1int));
        plank.lemma_view_len();
    }
    proof {
        assert(bounded_by(plank@, -(2 * pb) + 1, 2 * pb + 1)) by {
            let f1 = |p: (int, int)| crate::coord::pt_add(p, (1int, 1int));
            assert forall|q: (int, int)| #[trigger] plank@.contains(q) implies -(2 * pb) + 1 <= q.0
                <= 2 * pb + 1 && -(2 * pb) + 1 <= q.1 <= 2 * pb + 1 by {
                let p = choose|p: (int, int)| pre3.contains(p) && f1(p) == q;
            }
        }
    }
    let e2 = plank.extents();
    proof {
        if plank@.len() != 0 {
            let w1 = choose|w: (int, int)| #[trigger] plank@.contains(w) && w.0 == e2.0.0 as int;
            let w2 = choose|w: (int, int)| #[trigger] plank@.contains(w) && w.0 == e2.0.1 as int;
            let w3 = choose|w: (int, int)| #[trigger] plank@.contains(w) && w.1 == e2.1.0 as int;
            let w4 = choose|w: (int, int)| #[trigger] plank@.contains(w) && w.1 == e2.1.1 as int;
        }
    }
    let sx = e2.0.1 - e2.0.0 + 2;
    let sy = e2.1.1 - e2.1.0 + 2;
    let pos = Coord { x: -(sx / 2), y: -sy - 1 };
    let count = holes.holes.len();
    proof {
        assert(count <= 0x100000);
    }
    let gy = isqrt(count / 2);
    let gx = if gy == 0 {
        count
    } else {
        proof {
            vstd::arithmetic::div_mod::lemma_fundamental_div_mod(
                count as int + gy as int - 1,
                gy as int,
            );
            assert((count as int + gy as int - 1) / gy as int >= 1) by (nonlinear_arith)
                requires
                    count >= 1,
                    gy >= 1,
                    count as int + gy as int - 1 == (gy as int) * ((count as int + gy as int
                        - 1) / (gy as int)) + ((count as int + gy as int - 1) % (gy as int)),
                    ((count as int + gy as int - 1) % (gy as int)) < (gy as int),
            ;
        }
        (count + gy - 1) / gy
    };
    let ghost pre_arranged = holes.holes@;
    let ext = arrange_holes(&mut holes.holes, gx, Ghost(tot));
    proof {
        crate::gen::lemma_total_cells_pointwise(holes.holes@, pre_arranged);
        assert forall|i: int| 0 <= i < holes.holes@.len() implies (
        #[trigger] holes.holes@[i]).wf() && connected(holes.holes@[i]@) && holes.holes@[i]@.len()
            >= 1 by {
            assert(arranged_ok(holes.holes@[i], pre_arranged[i]));
        }
    }
    let mut planks: Vec<(Plank, Position)> = Vec::new();
    planks.push((plank, Position(pos)));
    Level { extents: ext, holes, planks, setup: true }
}


} // verus!
