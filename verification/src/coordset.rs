//! The polyomino value type: an unordered set of unique lattice cells plus
//! the rotation count and texture-alignment offset that keep an attached
//! texture registered across transforms.
//!
//! The cells are stored in a vector without duplicates; the abstract value
//! (the view) is the set of cells as unbounded integer pairs.

use vstd::prelude::*;
use vstd::seq_lib::*;
use vstd::set_lib::lemma_subset_equality;

use crate::coord::{adj, pt_add, pt_sub, rot_all, rot_ccw, rot_cw_n, shift_all, Coord};

verus! {

/// An unordered set of unique integer 2D cells, a net quarter-turn count,
/// and the accumulated texture offset in the shape's un-rotated frame.
#[derive(Clone, Debug)]
pub struct CoordSet {
    pub cells: Vec<Coord>,
    pub turns: usize,
    pub texture_offset: Coord,
}

/// A `Hole` is a `CoordSet` used as a cut-out region to be filled.
pub type Hole = CoordSet;

/// A `Plank` is a `CoordSet` used as a movable, cuttable piece.
pub type Plank = CoordSet;

impl View for CoordSet {
    type V = Set<(int, int)>;

    open spec fn view(&self) -> Set<(int, int)> {
        self.cells@.map_values(|c: Coord| c@).to_set()
    }
}

/// `m` is the least x coordinate of a cell of `s`.
pub open spec fn is_min_x(s: Set<(int, int)>, m: int) -> bool {
    &&& exists|p: (int, int)| #[trigger] s.contains(p) && p.0 == m
    &&& forall|p: (int, int)| #[trigger] s.contains(p) ==> m <= p.0
}

/// `m` is the greatest x coordinate of a cell of `s`.
pub open spec fn is_max_x(s: Set<(int, int)>, m: int) -> bool {
    &&& exists|p: (int, int)| #[trigger] s.contains(p) && p.0 == m
    &&& forall|p: (int, int)| #[trigger] s.contains(p) ==> p.0 <= m
}

/// `m` is the least y coordinate of a cell of `s`.
pub open spec fn is_min_y(s: Set<(int, int)>, m: int) -> bool {
    &&& exists|p: (int, int)| #[trigger] s.contains(p) && p.1 == m
    &&& forall|p: (int, int)| #[trigger] s.contains(p) ==> m <= p.1
}

/// `m` is the greatest y coordinate of a cell of `s`.
pub open spec fn is_max_y(s: Set<(int, int)>, m: int) -> bool {
    &&& exists|p: (int, int)| #[trigger] s.contains(p) && p.1 == m
    &&& forall|p: (int, int)| #[trigger] s.contains(p) ==> p.1 <= m
}

/// True when a cell of `a` shares a unit edge with a cell of `b`.
pub open spec fn sets_touch(a: Set<(int, int)>, b: Set<(int, int)>) -> bool {
    exists|p: (int, int), q: (int, int)| a.contains(p) && b.contains(q) && adj(p, q)
}

/// Union of the cell sets of a sequence of shapes.
pub open spec fn union_of(hs: Seq<CoordSet>) -> Set<(int, int)>
    decreases hs.len(),
{
    if hs.len() == 0 {
        Set::empty()
    } else {
        union_of(hs.drop_last()).union(hs.last()@)
    }
}

/// The inclusive bounding box returned by `extents`, as one predicate.
pub open spec fn is_extents(s: Set<(int, int)>, r: ((i32, i32), (i32, i32))) -> bool {
    &&& is_min_x(s, r.0.0 as int)
    &&& is_max_x(s, r.0.1 as int)
    &&& is_min_y(s, r.1.0 as int)
    &&& is_max_y(s, r.1.1 as int)
}

impl CoordSet {
    /// The cells as a sequence of integer pairs, in storage order.
    pub open spec fn cseq(&self) -> Seq<(int, int)> {
        self.cells@.map_values(|c: Coord| c@)
    }

    /// Well-formed: no cell is stored twice and the turn count is reduced.
    pub open spec fn wf(&self) -> bool {
        &&& self.cseq().no_duplicates()
        &&& self.turns < 4
    }

    pub proof fn lemma_view_len(&self)
        requires
            self.wf(),
        ensures
            self@.len() == self.cells@.len(),
            self@.finite(),
    {
        self.cseq().unique_seq_to_set();
    }

    /// The empty shape with default alignment state.
    pub fn empty() -> (r: CoordSet)
        ensures
            r.wf(),
            r@ =~= Set::<(int, int)>::empty(),
            r.turns == 0,
            r.texture_offset@ == (0int, 0int),
            r.cells@.len() == 0,
    {
        let r = CoordSet { cells: Vec::new(), turns: 0, texture_offset: Coord { x: 0, y: 0 } };
        proof {
            assert(r.cseq() =~= Seq::<(int, int)>::empty());
            assert forall|p: (int, int)| !(r@.contains(p)) by {
                if r.cseq().contains(p) {
                    let i = choose|i: int| 0 <= i < r.cseq().len() && r.cseq()[i] == p;
                }
            }
        }
        r
    }

    /// Number of cells.
    pub fn count(&self) -> (n: usize)
        requires
            self.wf(),
        ensures
            n == self@.len(),
    {
        proof {
            self.lemma_view_len();
        }
        self.cells.len()
    }

    /// Membership test for a single cell.
    pub fn contains(&self, xy: Coord) -> (r: bool)
        ensures
            r == self@.contains(xy@),
    {
        let n = self.cells.len();
        let mut i: usize = 0;
        while i < n
            invariant
                n == self.cells@.len(),
                0 <= i <= n,
                forall|j: int| 0 <= j < i ==> self.cseq()[j] != xy@,
            decreases n - i,
        {
            if self.cells[i].x == xy.x && self.cells[i].y == xy.y {
                assert(self.cseq()[i as int] == xy@);
                assert(self.cseq().contains(xy@));
                return true;
            }
            i += 1;
        }
        proof {
            if self@.contains(xy@) {
                let j = choose|j: int|
                    0 <= j < self.cseq().len() && self.cseq()[j] == xy@;
            }
        }
        false
    }

    /// Membership test by coordinates.
    pub fn contains_xy(&self, x: i32, y: i32) -> (r: bool)
        ensures
            r == self@.contains((x as int, y as int)),
    {
        self.contains(Coord { x, y })
    }

    /// Add a cell unless it is already present.
    pub fn insert(&mut self, c: Coord)
        requires
            old(self).wf(),
        ensures
            final(self).wf(),
            final(self)@ =~= old(self)@.insert(c@),
            final(self).turns == old(self).turns,
            final(self).texture_offset == old(self).texture_offset,
            final(self).cells@.len() <= old(self).cells@.len() + 1,
            old(self)@.len() <= final(self)@.len() <= old(self)@.len() + 1,
    {
        proof {
            self.lemma_view_len();
        }
        if !self.contains(c) {
            let ghost pre = self.cseq();
            self.cells.push(c);
            proof {
                assert(self.cseq() =~= pre.push(c@));
                pre.lemma_push_to_set_commute(c@);
                self.lemma_view_len();
            }
        } else {
            proof {
                assert(final(self)@ =~= old(self)@.insert(c@));
            }
        }
    }

    /// An independent copy with the same cells and alignment state.
    pub fn duplicate(&self) -> (r: CoordSet)
        ensures
            r.cells@ == self.cells@,
            r@ == self@,
            r.cseq() == self.cseq(),
            r.turns == self.turns,
            r.texture_offset == self.texture_offset,
            r.wf() == self.wf(),
    {
        let n = self.cells.len();
        let mut cells: Vec<Coord> = Vec::new();
        let mut i: usize = 0;
        while i < n
            invariant
                n == self.cells@.len(),
                0 <= i <= n,
                cells@ =~= self.cells@.take(i as int),
            decreases n - i,
        {
            cells.push(self.cells[i]);
            i += 1;
        }
        proof {
            assert(cells@ =~= self.cells@);
        }
        CoordSet { cells, turns: self.turns, texture_offset: self.texture_offset }
    }

    /// Inclusive bounding box `((min_x, max_x), (min_y, max_y))`; the empty
    /// shape reports the degenerate box `((0, 0), (0, 0))` by convention.
    pub fn extents(&self) -> (r: ((i32, i32), (i32, i32)))
        ensures
            self@.len() == 0 ==> r == ((0i32, 0i32), (0i32, 0i32)),
            self@.len() != 0 ==> is_extents(self@, r),
    {
        let n = self.cells.len();
        if n == 0 {
            proof {
                assert(self.cseq() =~= Seq::<(int, int)>::empty());
                assert(self@ =~= Set::<(int, int)>::empty());
            }
            return ((0, 0), (0, 0));
        }
        let c0 = self.cells[0];
        let mut min_x: i32 = c0.x;
        let mut max_x: i32 = c0.x;
        let mut min_y: i32 = c0.y;
        let mut max_y: i32 = c0.y;
        proof {
            assert(self.cseq() == self.cells@.map_values(|c: Coord| c@));
            assert(self.cseq()[0] == c0@);
            assert(self.cseq()[0].0 == c0.x as int && self.cseq()[0].1 == c0.y as int);
        }
        let mut i: usize = 1;
        while i < n
            invariant
                1 <= i <= n,
                n == self.cells@.len(),
                exists|j: int| 0 <= j < i && #[trigger] self.cseq()[j].0 == min_x as int,
                exists|j: int| 0 <= j < i && #[trigger] self.cseq()[j].0 == max_x as int,
                exists|j: int| 0 <= j < i && #[trigger] self.cseq()[j].1 == min_y as int,
                exists|j: int| 0 <= j < i && #[trigger] self.cseq()[j].1 == max_y as int,
                forall|j: int| 0 <= j < i ==> min_x as int <= #[trigger] self.cseq()[j].0 <= max_x as int,
                forall|j: int| 0 <= j < i ==> min_y as int <= #[trigger] self.cseq()[j].1 <= max_y as int,
            decreases n - i,
        {
            let c = self.cells[i];
            assert(self.cseq()[i as int] == c@);
            assert(self.cseq()[i as int].0 == c.x as int && self.cseq()[i as int].1 == c.y as int);
            if c.x < min_x {
                min_x = c.x;
            }
            if c.x > max_x {
                max_x = c.x;
            }
            if c.y < min_y {
                min_y = c.y;
            }
            if c.y > max_y {
                max_y = c.y;
            }
            i += 1;
        }
        proof {
            let s = self.cseq();
            assert forall|p: (int, int)| #[trigger] self@.contains(p) implies
                min_x as int <= p.0 <= max_x as int && min_y as int <= p.1 <= max_y as int by {
                let j = choose|j: int| 0 <= j < s.len() && s[j] == p;
            }
            let jx = choose|j: int| 0 <= j < n && #[trigger] s[j].0 == min_x as int;
            assert(self@.contains(s[jx]) && s[jx].0 == min_x as int);
            let kx = choose|j: int| 0 <= j < n && #[trigger] s[j].0 == max_x as int;
            assert(self@.contains(s[kx]) && s[kx].0 == max_x as int);
            let jy = choose|j: int| 0 <= j < n && #[trigger] s[j].1 == min_y as int;
            assert(self@.contains(s[jy]) && s[jy].1 == min_y as int);
            let ky = choose|j: int| 0 <= j < n && #[trigger] s[j].1 == max_y as int;
            assert(self@.contains(s[ky]) && s[ky].1 == max_y as int);
        }
        ((min_x, max_x), (min_y, max_y))
    }

    /// Width and height of the bounding box; `(1, 1)` for the empty shape.
    pub fn size(&self) -> (r: Coord)
        requires
            forall|a: (int, int), b: (int, int)|
                self@.contains(a) && self@.contains(b) ==> a.0 - b.0 < i32::MAX && a.1 - b.1
                    < i32::MAX,
        ensures
            self@.len() == 0 ==> r@ == (1int, 1int),
            self@.len() != 0 ==> forall|e: ((i32, i32), (i32, i32))|
                #[trigger] is_extents(self@, e) ==> r@ == (
                    e.0.1 - e.0.0 + 1,
                    e.1.1 - e.1.0 + 1,
                ),
            r.x >= 1 && r.y >= 1,
    {
        let e = self.extents();
        proof {
            if self@.len() != 0 {
                let px = choose|p: (int, int)| #[trigger] self@.contains(p) && p.0 == e.0.1 as int;
                let qx = choose|p: (int, int)| #[trigger] self@.contains(p) && p.0 == e.0.0 as int;
                assert(px.0 - qx.0 < i32::MAX);
                let py = choose|p: (int, int)| #[trigger] self@.contains(p) && p.1 == e.1.1 as int;
                let qy = choose|p: (int, int)| #[trigger] self@.contains(p) && p.1 == e.1.0 as int;
                assert(py.1 - qy.1 < i32::MAX);
                assert forall|e2: ((i32, i32), (i32, i32))| #[trigger] is_extents(self@, e2)
                    implies e2 == e by {
                    let a = choose|p: (int, int)| #[trigger] self@.contains(p) && p.0 == e2.0.0 as int;
                    let b = choose|p: (int, int)| #[trigger] self@.contains(p) && p.0 == e2.0.1 as int;
                    let c = choose|p: (int, int)| #[trigger] self@.contains(p) && p.1 == e2.1.0 as int;
                    let d = choose|p: (int, int)| #[trigger] self@.contains(p) && p.1 == e2.1.1 as int;
                }
            }
        }
        Coord { x: e.0.1 - e.0.0 + 1, y: e.1.1 - e.1.0 + 1 }
    }

    /// True when a cell of `self` shares a unit edge with a cell of `other`.
    pub fn touches(&self, other: &CoordSet) -> (r: bool)
        requires
            forall|p: (int, int)| self@.contains(p) ==> i32::MIN < p.0 < i32::MAX && i32::MIN < p.1
                < i32::MAX,
        ensures
            r == sets_touch(self@, other@),
    {
        let n = self.cells.len();
        let mut i: usize = 0;
        while i < n
            invariant
                0 <= i <= n,
                n == self.cells@.len(),
                forall|p: (int, int)| self@.contains(p) ==> i32::MIN < p.0 < i32::MAX && i32::MIN
                    < p.1 < i32::MAX,
                forall|j: int, q: (int, int)|
                    #![trigger self.cseq()[j], other@.contains(q)]
                    0 <= j < i && other@.contains(q) ==> !adj(self.cseq()[j], q),
            decreases n - i,
        {
            let c = self.cells[i];
            assert(self.cseq()[i as int] == c@);
            assert(self@.contains(c@));
            if other.contains(Coord { x: c.x + 1, y: c.y }) {
                assert(adj(c@, (c.x + 1, c.y as int)));
                return true;
            }
            if other.contains(Coord { x: c.x - 1, y: c.y }) {
                assert(adj(c@, (c.x - 1, c.y as int)));
                return true;
            }
            if other.contains(Coord { x: c.x, y: c.y + 1 }) {
                assert(adj(c@, (c.x as int, c.y + 1)));
                return true;
            }
            if other.contains(Coord { x: c.x, y: c.y - 1 }) {
                assert(adj(c@, (c.x as int, c.y - 1)));
                return true;
            }
            proof {
                assert forall|q: (int, int)| other@.contains(q) implies !adj(c@, q) by {
                    if adj(c@, q) {
                        assert(q == (c.x + 1, c.y as int) || q == (c.x - 1, c.y as int) || q == (
                            c.x as int,
                            c.y + 1,
                        ) || q == (c.x as int, c.y - 1));
                    }
                }
            }
            i += 1;
        }
        proof {
            if sets_touch(self@, other@) {
                let (p, q) = choose|p: (int, int), q: (int, int)|
                    self@.contains(p) && other@.contains(q) && adj(p, q);
                let j = choose|j: int| 0 <= j < self.cseq().len() && self.cseq()[j] == p;
            }
        }
        false
    }

    /// True when the two shapes share at least one cell.
    pub fn overlaps(&self, other: &CoordSet) -> (r: bool)
        ensures
            r == exists|p: (int, int)| self@.contains(p) && other@.contains(p),
    {
        let n = self.cells.len();
        let mut i: usize = 0;
        while i < n
            invariant
                0 <= i <= n,
                n == self.cells@.len(),
                forall|j: int| 0 <= j < i ==> !other@.contains(#[trigger] self.cseq()[j]),
            decreases n - i,
        {
            let c = self.cells[i];
            assert(self.cseq()[i as int] == c@);
            if other.contains(c) {
                assert(self@.contains(c@));
                return true;
            }
            i += 1;
        }
        proof {
            if exists|p: (int, int)| self@.contains(p) && other@.contains(p) {
                let p = choose|p: (int, int)| self@.contains(p) && other@.contains(p);
                let j = choose|j: int| 0 <= j < self.cseq().len() && self.cseq()[j] == p;
            }
        }
        false
    }

    /// Exact cell-set equality; the alignment state is not compared.
    pub fn equals(&self, other: &CoordSet) -> (r: bool)
        requires
            self.wf(),
            other.wf(),
        ensures
            r == (self@ =~= other@),
    {
        proof {
            self.lemma_view_len();
            other.lemma_view_len();
        }
        if self.cells.len() != other.cells.len() {
            return false;
        }
        let n = self.cells.len();
        let mut i: usize = 0;
        while i < n
            invariant
                0 <= i <= n,
                n == self.cells@.len(),
                forall|j: int| 0 <= j < i ==> other@.contains(#[trigger] self.cseq()[j]),
            decreases n - i,
        {
            let c = self.cells[i];
            assert(self.cseq()[i as int] == c@);
            if !other.contains(c) {
                assert(self@.contains(c@));
                return false;
            }
            i += 1;
        }
        proof {
            assert forall|p: (int, int)| #[trigger] self@.contains(p) implies other@.contains(p) by {
                let j = choose|j: int| 0 <= j < self.cseq().len() && self.cseq()[j] == p;
            }
            lemma_subset_equality(self@, other@);
        }
        true
    }

    /// Turn every cell a quarter turn counter-clockwise about the origin and
    /// count the turn; the texture offset is deliberately left alone.
    pub fn rotate(&mut self)
        requires
            old(self).wf(),
            forall|p: (int, int)| old(self)@.contains(p) ==> p.1 != i32::MIN,
        ensures
            final(self).wf(),
            final(self)@ =~= rot_all(old(self)@),
            final(self).turns == (old(self).turns + 1) % 4,
            final(self).texture_offset == old(self).texture_offset,
            final(self).cells@.len() == old(self).cells@.len(),
            final(self)@.len() == old(self)@.len(),
    {
        let ghost orig = self.cseq();
        proof {
            assert(orig.to_set() =~= old(self)@);
        }
        let n = self.cells.len();
        let mut i: usize = 0;
        while i < n
            invariant
                0 <= i <= n,
                n == self.cells@.len(),
                self.cseq().len() == orig.len(),
                forall|j: int| 0 <= j < i ==> self.cseq()[j] == rot_ccw(#[trigger] orig[j]),
                forall|j: int| i <= j < n ==> #[trigger] self.cseq()[j] == orig[j],
                self.turns == old(self).turns,
                self.texture_offset == old(self).texture_offset,
            decreases n - i,
        {
            let c = self.cells[i];
            proof {
                assert(self.cseq() == self.cells@.map_values(|c: Coord| c@));
                assert(self.cells@[i as int] == c);
                assert(self.cseq()[i as int] == self.cells@[i as int]@);
                assert(self.cseq()[i as int] == c@ && orig[i as int] == c@);
                assert(orig.contains(orig[i as int]));
                assert(old(self)@.contains(c@));
            }
            let ghost pre = self.cseq();
            self.cells.set(i, Coord { x: -c.y, y: c.x });
            proof {
                assert(self.cseq() =~= pre.update(i as int, rot_ccw(orig[i as int])));
            }
            i += 1;
        }
        self.turns = (self.turns + 1) % 4;
        proof {
            let f = |p: (int, int)| rot_ccw(p);
            assert(self.cseq() =~= orig.map_values(f));
            orig.lemma_to_set_map_commutes(f);
            assert(orig.map_values(f).to_set() =~= orig.to_set().map(f));
            assert(self.cseq().no_duplicates()) by {
                assert forall|a: int, b: int|
                    0 <= a < b < orig.len() implies orig.map_values(f)[a] != orig.map_values(f)[b] by {
                    assert(orig[a] != orig[b]);
                }
            }
            self.lemma_view_len();
            old(self).lemma_view_len();
        }
    }

    /// Translate so the bounding-box corner moves to the origin and reset the
    /// turn count; prior texture alignment is discarded, not compensated.
    pub fn normalize(self) -> (r: Self)
        requires
            self.wf(),
            forall|a: (int, int), b: (int, int)|
                self@.contains(a) && self@.contains(b) ==> a.0 - b.0 <= i32::MAX && a.1 - b.1
                    <= i32::MAX,
        ensures
            r.wf(),
            r.turns == 0,
            r.texture_offset == self.texture_offset,
            r.cells@.len() == self.cells@.len(),
            r@.len() == self@.len(),
            self@.len() == 0 ==> r@ =~= self@,
            self@.len() != 0 ==> forall|mx: int, my: int|
                is_min_x(self@, mx) && is_min_y(self@, my) ==> r@ =~= shift_all(
                    self@,
                    (-mx, -my),
                ),
            self@.len() != 0 ==> is_min_x(r@, 0) && is_min_y(r@, 0),
            exists|d: (int, int)| r@ =~= shift_all(self@, d),
    {
        let e = self.extents();
        let mx = e.0.0;
        let my = e.1.0;
        let ghost orig = self.cseq();
        let ghost oset = self@;
        let ghost oturns = self.turns;
        let ghost ooff = self.texture_offset;
        proof {
            assert(oset =~= orig.to_set());
            assert forall|p: (int, int)| #[trigger] oset.contains(p) implies mx as int <= p.0 <= mx
                as int + i32::MAX && my as int <= p.1 <= my as int + i32::MAX by {
                if oset.len() != 0 {
                    let a = choose|a: (int, int)| #[trigger] oset.contains(a) && a.0 == mx as int;
                    let b = choose|b: (int, int)| #[trigger] oset.contains(b) && b.1 == my as int;
                }
            }
        }
        let mut s = self;
        let n = s.cells.len();
        let mut i: usize = 0;
        while i < n
            invariant
                0 <= i <= n,
                n == s.cells@.len(),
                s.cseq().len() == orig.len(),
                forall|j: int|
                    0 <= j < i ==> s.cseq()[j] == pt_add(
                        #[trigger] orig[j],
                        (-mx as int, -my as int),
                    ),
                forall|j: int| i <= j < n ==> #[trigger] s.cseq()[j] == orig[j],
                oset == orig.to_set(),
                forall|p: (int, int)| #[trigger]
                    oset.contains(p) ==> mx as int <= p.0 <= mx as int + i32::MAX && my as int
                        <= p.1 <= my as int + i32::MAX,
                s.turns == oturns,
                s.texture_offset == ooff,
            decreases n - i,
        {
            let c = s.cells[i];
            proof {
                assert(s.cseq() == s.cells@.map_values(|c: Coord| c@));
                assert(s.cells@[i as int] == c);
                assert(s.cseq()[i as int] == s.cells@[i as int]@);
                assert(s.cseq()[i as int] == c@ && orig[i as int] == c@);
                assert(orig.contains(orig[i as int]));
                assert(oset.contains(c@));
            }
            let ghost pre = s.cseq();
            s.cells.set(i, Coord { x: c.x - mx, y: c.y - my });
            proof {
                assert(s.cseq() =~= pre.update(
                    i as int,
                    pt_add(orig[i as int], (-mx as int, -my as int)),
                ));
            }
            i += 1;
        }
        s.turns = 0;
        proof {
            let d = (-mx as int, -my as int);
            let f = |p: (int, int)| pt_add(p, d);
            assert forall|j: int| 0 <= j < orig.len() implies s.cseq()[j] == orig.map_values(f)[j]
                by {}
            assert(s.cseq() =~= orig.map_values(f));
            orig.lemma_to_set_map_commutes(f);
            assert(s@ =~= shift_all(oset, d));
            assert(s.cseq().no_duplicates()) by {
                assert forall|a: int, b: int|
                    0 <= a < b < orig.len() implies orig.map_values(f)[a] != orig.map_values(
                    f,
                )[b] by {
                    assert(orig[a] != orig[b]);
                }
            }
            s.lemma_view_len();
            orig.unique_seq_to_set();
            if oset.len() != 0 {
                assert forall|mx2: int, my2: int|
                    is_min_x(oset, mx2) && is_min_y(oset, my2) implies s@ =~= shift_all(
                    oset,
                    (-mx2, -my2),
                ) by {
                    assert(mx2 == mx as int) by {
                        let p1 = choose|p: (int, int)| #[trigger] oset.contains(p) && p.0 == mx2;
                        let p2 = choose|p: (int, int)| #[trigger]
                            oset.contains(p) && p.0 == mx as int;
                    }
                    assert(my2 == my as int) by {
                        let p1 = choose|p: (int, int)| #[trigger] oset.contains(p) && p.1 == my2;
                        let p2 = choose|p: (int, int)| #[trigger]
                            oset.contains(p) && p.1 == my as int;
                    }
                }
                assert(is_min_x(s@, 0) && is_min_y(s@, 0)) by {
                    let p1 = choose|p: (int, int)| #[trigger] oset.contains(p) && p.0 == mx as int;
                    assert(oset.contains(p1));
                    assert(s@.contains(f(p1)) && f(p1).0 == 0);
                    let p2 = choose|p: (int, int)| #[trigger] oset.contains(p) && p.1 == my as int;
                    assert(oset.contains(p2));
                    assert(s@.contains(f(p2)) && f(p2).1 == 0);
                    assert forall|q: (int, int)| #[trigger] s@.contains(q) implies 0 <= q.0 && 0
                        <= q.1 by {
                        let p = choose|p: (int, int)| #[trigger] oset.contains(p) && f(p) == q;
                    }
                }
            }
        }
        s
    }

    /// Translate every cell by `by` and track the texture offset: the world
    /// motion is un-rotated back into the shape's local frame and subtracted.
    pub fn shift(&mut self, by: Coord)
        requires
            old(self).wf(),
            forall|p: (int, int)|
                old(self)@.contains(p) ==> i32::MIN <= p.0 + by.x <= i32::MAX && i32::MIN <= p.1
                    + by.y <= i32::MAX,
            old(self).turns != 0 ==> by.x != i32::MIN && by.y != i32::MIN,
            i32::MIN <= old(self).texture_offset@.0 - rot_cw_n(by@, old(self).turns as nat).0
                <= i32::MAX,
            i32::MIN <= old(self).texture_offset@.1 - rot_cw_n(by@, old(self).turns as nat).1
                <= i32::MAX,
        ensures
            final(self).wf(),
            final(self)@ =~= shift_all(old(self)@, by@),
            final(self).turns == old(self).turns,
            final(self).texture_offset@ == pt_sub(
                old(self).texture_offset@,
                rot_cw_n(by@, old(self).turns as nat),
            ),
            final(self).cells@.len() == old(self).cells@.len(),
            final(self)@.len() == old(self)@.len(),
    {
        let ghost orig = self.cseq();
        proof {
            assert(orig.to_set() =~= old(self)@);
        }
        let n = self.cells.len();
        let mut i: usize = 0;
        while i < n
            invariant
                0 <= i <= n,
                n == self.cells@.len(),
                self.cseq().len() == orig.len(),
                forall|j: int| 0 <= j < i ==> self.cseq()[j] == pt_add(#[trigger] orig[j], by@),
                forall|j: int| i <= j < n ==> #[trigger] self.cseq()[j] == orig[j],
                self.turns == old(self).turns,
                self.texture_offset == old(self).texture_offset,
            decreases n - i,
        {
            let c = self.cells[i];
            proof {
                assert(self.cseq() == self.cells@.map_values(|c: Coord| c@));
                assert(self.cells@[i as int] == c);
                assert(self.cseq()[i as int] == self.cells@[i as int]@);
                assert(self.cseq()[i as int] == c@ && orig[i as int] == c@);
                assert(orig.contains(orig[i as int]));
                assert(old(self)@.contains(c@));
            }
            let ghost pre = self.cseq();
            self.cells.set(i, Coord { x: c.x + by.x, y: c.y + by.y });
            proof {
                assert(self.cseq() =~= pre.update(i as int, pt_add(orig[i as int], by@)));
            }
            i += 1;
        }
        proof {
            let f = |p: (int, int)| pt_add(p, by@);
            assert(self.cseq() =~= orig.map_values(f));
            orig.lemma_to_set_map_commutes(f);
            assert(self.cseq().no_duplicates()) by {
                assert forall|a: int, b: int|
                    0 <= a < b < orig.len() implies orig.map_values(f)[a] != orig.map_values(f)[b] by {
                    assert(orig[a] != orig[b]);
                }
            }
            self.lemma_view_len();
            old(self).lemma_view_len();
        }
        // un-rotate the world-space motion into the local texture frame
        let mut local = by;
        let turns = self.turns;
        let mut k: usize = 0;
        while k < turns
            invariant
                0 <= k <= turns,
                turns == old(self).turns < 4,
                turns != 0 ==> by.x != i32::MIN && by.y != i32::MIN,
                local@ == rot_cw_n(by@, k as nat),
                local.x as int == by.x as int || local.x as int == -(by.x as int) || local.x as int
                    == by.y as int || local.x as int == -(by.y as int),
                local.y as int == by.x as int || local.y as int == -(by.x as int) || local.y as int
                    == by.y as int || local.y as int == -(by.y as int),
            decreases turns - k,
        {
            local = Coord { x: local.y, y: -local.x };
            k += 1;
        }
        self.texture_offset = Coord {
            x: self.texture_offset.x - local.x,
            y: self.texture_offset.y - local.y,
        };
    }

    /// Union of the cells of all the given shapes, with fresh alignment state:
    /// the result is a new shape, not a transform of any input.
    pub fn merge(holes: &Vec<CoordSet>) -> (r: CoordSet)
        ensures
            r.wf(),
            r.turns == 0,
            r.texture_offset@ == (0int, 0int),
            r@ =~= union_of(holes@),
    {
        let mut r = CoordSet::empty();
        let n = holes.len();
        let mut i: usize = 0;
        while i < n
            invariant
                0 <= i <= n,
                n == holes@.len(),
                r.wf(),
                r.turns == 0,
                r.texture_offset@ == (0int, 0int),
                r@ =~= union_of(holes@.take(i as int)),
            decreases n - i,
        {
            let h = &holes[i];
            let m = h.cells.len();
            let mut j: usize = 0;
            while j < m
                invariant
                    0 <= j <= m,
                    0 <= i < n,
                    n == holes@.len(),
                    m == holes@[i as int].cells@.len(),
                    h == holes@[i as int],
                    r.wf(),
                    r.turns == 0,
                    r.texture_offset@ == (0int, 0int),
                    r@ =~= union_of(holes@.take(i as int)).union(
                        holes@[i as int].cseq().take(j as int).to_set(),
                    ),
                decreases m - j,
            {
                r.insert(h.cells[j]);
                proof {
                    let cs = holes@[i as int].cseq();
                    assert(cs.take(j + 1) =~= cs.take(j as int).push(cs[j as int]));
                    cs.take(j as int).lemma_push_to_set_commute(cs[j as int]);
                }
                j += 1;
            }
            proof {
                let cs = holes@[i as int].cseq();
                assert(cs.take(m as int) =~= cs);
                assert(holes@.take(i + 1).drop_last() =~= holes@.take(i as int));
                assert(holes@.take(i + 1).last() == holes@[i as int]);
                assert(union_of(holes@.take(i + 1)) == union_of(holes@.take(i as int)).union(
                    holes@[i as int]@,
                ));
            }
            i += 1;
        }
        proof {
            assert(holes@.take(n as int) =~= holes@);
        }
        r
    }

    /// Build a shape from a list of cells, ignoring repeats.
    pub fn from_cells(cells: &Vec<Coord>) -> (r: CoordSet)
        ensures
            r.wf(),
            r@ =~= cells@.map_values(|c: Coord| c@).to_set(),
            r.turns == 0,
            r.texture_offset@ == (0int, 0int),
    {
        let mut r = CoordSet::empty();
        let n = cells.len();
        let mut i: usize = 0;
        while i < n
            invariant
                n == cells@.len(),
                0 <= i <= n,
                r.wf(),
                r.turns == 0,
                r.texture_offset@ == (0int, 0int),
                r@ =~= cells@.take(i as int).map_values(|c: Coord| c@).to_set(),
            decreases n - i,
        {
            let ghost pre = r@;
            r.insert(cells[i]);
            proof {
                let f = |c: Coord| c@;
                assert(cells@.take(i + 1).map_values(f) =~= cells@.take(i as int).map_values(f).push(
                    cells@[i as int]@,
                ));
                cells@.take(i as int).map_values(f).lemma_push_to_set_commute(cells@[i as int]@);
            }
            i += 1;
        }
        proof {
            assert(cells@.take(n as int) =~= cells@);
        }
        r
    }
}


/// Rotation has order four: turning a cell set four quarter turns returns
/// exactly the original cells.
pub proof fn lemma_rotation_order_four(s: Set<(int, int)>)
    ensures
        rot_all(rot_all(rot_all(rot_all(s)))) =~= s,
{
    let f = |p: (int, int)| rot_ccw(p);
    assert forall|q: (int, int)| #[trigger]
        rot_all(rot_all(rot_all(rot_all(s)))).contains(q) implies s.contains(q) by {
        let p3 = choose|p: (int, int)| rot_all(rot_all(rot_all(s))).contains(p) && f(p) == q;
        let p2 = choose|p: (int, int)| rot_all(rot_all(s)).contains(p) && f(p) == p3;
        let p1 = choose|p: (int, int)| rot_all(s).contains(p) && f(p) == p2;
        let p0 = choose|p: (int, int)| s.contains(p) && f(p) == p1;
        crate::coord::lemma_rot_ccw_4(p0);
        reveal_with_fuel(crate::coord::rot_ccw_n, 5);
        assert(q == p0);
    }
    assert forall|q: (int, int)| s.contains(q) implies #[trigger]
        rot_all(rot_all(rot_all(rot_all(s)))).contains(q) by {
        assert(rot_all(s).contains(f(q)));
        assert(rot_all(rot_all(s)).contains(f(f(q))));
        assert(rot_all(rot_all(rot_all(s))).contains(f(f(f(q)))));
        assert(rot_all(rot_all(rot_all(rot_all(s)))).contains(f(f(f(f(q))))));
        crate::coord::lemma_rot_ccw_4(q);
        reveal_with_fuel(crate::coord::rot_ccw_n, 5);
        assert(f(f(f(f(q)))) == q);
    }
}

/// Shifting by a vector and then by its negation restores both the cell set
/// and the texture offset exactly, whatever the turn count.
pub proof fn lemma_shift_then_unshift(s: Set<(int, int)>, off: (int, int), turns: nat, d: (int, int))
    ensures
        shift_all(shift_all(s, d), crate::coord::pt_neg(d)) =~= s,
        pt_sub(
            pt_sub(off, rot_cw_n(d, turns)),
            rot_cw_n(crate::coord::pt_neg(d), turns),
        ) == off,
{
    crate::coord::lemma_shift_all_compose(s, d, crate::coord::pt_neg(d));
    assert(pt_add(d, crate::coord::pt_neg(d)) == (0int, 0int));
    let f = |p: (int, int)| pt_add(p, (0int, 0int));
    assert forall|q: (int, int)| #[trigger] shift_all(s, (0int, 0int)).contains(q) implies
        s.contains(q) by {
        let p = choose|p: (int, int)| s.contains(p) && f(p) == q;
    }
    assert forall|q: (int, int)| s.contains(q) implies #[trigger] shift_all(
        s,
        (0int, 0int),
    ).contains(q) by {
        assert(f(q) == q);
    }
    crate::coord::lemma_rot_cw_n_neg(d, turns);
}



impl CoordSet {
    /// Rasterize a shape lying in the non-negative quadrant into a
    /// row-major byte grid that covers the origin-anchored bounding box:
    /// one at every cell, zero elsewhere.
    pub fn rasterize(&self) -> (data: Vec<u8>)
        requires
            self.wf(),
            self@.len() > 0,
            forall|p: (int, int)| self@.contains(p) ==> 0 <= p.0 <= 0xFFF && 0 <= p.1 <= 0xFFF,
        ensures
            forall|e: ((i32, i32), (i32, i32))| #[trigger] is_extents(self@, e) ==> ({
                &&& data@.len() == (e.0.1 + 1) * (e.1.1 + 1)
                &&& forall|x: int, y: int|
                    0 <= x <= e.0.1 && 0 <= y <= e.1.1 ==> data@[x + y * (e.0.1 + 1)] == (
                    if self@.contains((x, y)) {
                        1u8
                    } else {
                        0u8
                    })
            }),
    {
        let e = self.extents();
        proof {
            let w1 = choose|p: (int, int)| #[trigger] self@.contains(p) && p.0 == e.0.0 as int;
            let w2 = choose|p: (int, int)| #[trigger] self@.contains(p) && p.0 == e.0.1 as int;
            let w3 = choose|p: (int, int)| #[trigger] self@.contains(p) && p.1 == e.1.0 as int;
            let w4 = choose|p: (int, int)| #[trigger] self@.contains(p) && p.1 == e.1.1 as int;
            assert(0 <= e.0.1 <= 0xFFF && 0 <= e.1.1 <= 0xFFF);
        }
        let wu = (e.0.1 + 1) as usize;
        let hu = (e.1.1 + 1) as usize;
        proof {
            assert(wu * hu <= 0x1000000) by (nonlinear_arith)
                requires
                    1 <= wu <= 0x1000,
                    1 <= hu <= 0x1000,
            ;
        }
        let total = wu * hu;
        let mut data: Vec<u8> = Vec::new();
        let mut i: usize = 0;
        while i < total
            invariant
                0 <= i <= total,
                data@.len() == i,
                forall|j: int| 0 <= j < i ==> #[trigger] data@[j] == 0u8,
            decreases total - i,
        {
            data.push(0);
            i += 1;
        }
        proof {
            assert forall|x: int, y: int|
                0 <= x < wu && 0 <= y < hu implies #[trigger] data@[x + y * wu] == 0u8 by {
                assert(x + y * wu < wu * hu) by (nonlinear_arith)
                    requires
                        0 <= x < wu,
                        0 <= y < hu,
                        wu >= 1,
                ;
            }
        }
        let n = self.cells.len();
        let mut k: usize = 0;
        while k < n
            invariant
                0 <= k <= n,
                n == self.cells@.len(),
                data@.len() == wu * hu,
                wu == e.0.1 + 1,
                hu == e.1.1 + 1,
                forall|x: int, y: int|
                    0 <= x < wu && 0 <= y < hu ==> #[trigger] data@[x + y * wu] == (
                    if self.cseq().take(k as int).to_set().contains((x, y)) {
                        1u8
                    } else {
                        0u8
                    }),
            decreases n - k,
        {
            let c = self.cells[k];
            proof {
                assert(self.cells@[k as int] == c);
                assert(self.cseq()[k as int] == c@);
                assert(self.cseq().contains(c@));
                assert(self@.contains(c@));
                assert(0 <= c.x <= e.0.1 && 0 <= c.y <= e.1.1);
                assert(c.x as int + c.y as int * wu < wu * hu) by (nonlinear_arith)
                    requires
                        0 <= (c.x as int) && (c.x as int) < wu,
                        0 <= (c.y as int) && (c.y as int) < hu,
                        wu >= 1,
                ;
            }
            let idx = (c.x as usize) + (c.y as usize) * wu;
            let ghost pre = data@;
            data.set(idx, 1);
            proof {
                assert(self.cseq().take(k + 1) =~= self.cseq().take(k as int).push(c@));
                self.cseq().take(k as int).lemma_push_to_set_commute(c@);
                assert forall|x: int, y: int|
                    0 <= x < wu && 0 <= y < hu implies #[trigger] data@[x + y * wu] == (
                if self.cseq().take(k + 1).to_set().contains((x, y)) {
                    1u8
                } else {
                    0u8
                }) by {
                    if x == c.x as int && y == c.y as int {
                        assert(data@[x + y * wu] == 1u8);
                    } else {
                        // distinct in-range cells land on distinct indices
                        assert(x + y * wu != c.x as int + c.y as int * wu) by (nonlinear_arith)
                            requires
                                0 <= x < wu,
                                0 <= y < hu,
                                0 <= (c.x as int) && (c.x as int) < wu,
                                0 <= (c.y as int) && (c.y as int) < hu,
                                !(x == c.x as int && y == c.y as int),
                        ;
                        assert(x + y * wu < wu * hu) by (nonlinear_arith)
                            requires
                                0 <= x < wu,
                                0 <= y < hu,
                                wu >= 1,
                        ;
                        assert(data@[x + y * wu] == pre[x + y * wu]);
                    }
                }
            }
            k += 1;
        }
        proof {
            assert(self.cseq().take(n as int) =~= self.cseq());
            assert forall|e2: ((i32, i32), (i32, i32))| #[trigger]
                is_extents(self@, e2) implies e2 == e by {
                let a = choose|p: (int, int)| #[trigger] self@.contains(p) && p.0 == e2.0.0 as int;
                let b = choose|p: (int, int)| #[trigger] self@.contains(p) && p.0 == e2.0.1 as int;
                let cc = choose|p: (int, int)| #[trigger] self@.contains(p) && p.1 == e2.1.0 as int;
                let d = choose|p: (int, int)| #[trigger] self@.contains(p) && p.1 == e2.1.1 as int;
                let a2 = choose|p: (int, int)| #[trigger] self@.contains(p) && p.0 == e.0.0 as int;
                let b2 = choose|p: (int, int)| #[trigger] self@.contains(p) && p.0 == e.0.1 as int;
                let c2 = choose|p: (int, int)| #[trigger] self@.contains(p) && p.1 == e.1.0 as int;
                let d2 = choose|p: (int, int)| #[trigger] self@.contains(p) && p.1 == e.1.1 as int;
            }
        }
        data
    }
}


} // verus!
