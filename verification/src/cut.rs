//! The interactive cut: a set of severed unit edges traced on a plank, and
//! the flood-fill analysis that decides whether they disconnect it.

use vstd::prelude::*;
use vstd::set_lib::{lemma_len_subset, lemma_len_union, lemma_subset_equality};

use crate::coord::{adj, pt_add, pt_sub, rot_cw, rot_cw_n, shift_all, bounded_by, Coord};
use crate::connect::{edge_key, reach, reach_set};
use crate::coordset::{is_min_x, is_min_y, CoordSet, Plank};

verus! {

/// The unordered boundary between two adjacent cells, stored with the
/// componentwise-smaller cell first.
#[derive(Clone, Copy, Debug, PartialEq, Eq, Structural)]
pub struct CellEdge {
    pub a: Coord,
    pub b: Coord,
}

/// An in-progress cut: the lattice points visited by the cutter, the severed
/// cell edges, and whether the severed edges already disconnect the plank.
pub struct Cut {
    pub visited: Vec<Coord>,
    pub separated: Vec<CellEdge>,
    pub finished: bool,
}

impl Cut {
    /// The severed edges as ordered pairs of integer cells, in storage order.
    pub open spec fn eseq(&self) -> Seq<((int, int), (int, int))> {
        self.separated@.map_values(|e: CellEdge| (e.a@, e.b@))
    }

    /// The severed edges as a set.
    pub open spec fn sep(&self) -> Set<((int, int), (int, int))> {
        self.eseq().to_set()
    }

    /// The visited lattice points, in storage order.
    pub open spec fn vseq(&self) -> Seq<(int, int)> {
        self.visited@.map_values(|c: Coord| c@)
    }

    /// The cell the flood fill grows from: the lesser endpoint of the first
    /// severed edge.
    pub open spec fn start_cell(&self) -> (int, int) {
        self.eseq()[0].0
    }

    /// No edge or visited point is recorded twice.
    pub open spec fn wf(&self) -> bool {
        &&& self.eseq().no_duplicates()
        &&& self.vseq().no_duplicates()
    }

    /// Every severed edge joins two adjacent cells of the plank and is
    /// stored in canonical order.
    pub open spec fn edges_wf(&self, plank: Set<(int, int)>) -> bool {
        forall|i: int|
            0 <= i < self.eseq().len() ==> adj((#[trigger] self.eseq()[i]).0, self.eseq()[i].1)
                && plank.contains(self.eseq()[i].0) && plank.contains(self.eseq()[i].1)
                && edge_key(self.eseq()[i].0, self.eseq()[i].1) == self.eseq()[i]
    }

    /// A fresh cut with nothing severed.
    pub fn new() -> (r: Cut)
        ensures
            r.wf(),
            r.separated@.len() == 0,
            r.visited@.len() == 0,
            !r.finished,
            r.sep() =~= Set::<((int, int), (int, int))>::empty(),
    {
        let r = Cut { visited: Vec::new(), separated: Vec::new(), finished: false };
        proof {
            assert(r.eseq() =~= Seq::<((int, int), (int, int))>::empty());
            assert(r.vseq() =~= Seq::<(int, int)>::empty());
        }
        r
    }

    /// Whether the boundary between `a` and `b` has been severed.
    pub fn sep_contains(&self, a: Coord, b: Coord) -> (r: bool)
        requires
            forall|i: int|
                0 <= i < self.eseq().len() ==> edge_key(
                    (#[trigger] self.eseq()[i]).0,
                    self.eseq()[i].1,
                ) == self.eseq()[i],
        ensures
            r == self.sep().contains(edge_key(a@, b@)),
    {
        let ka = Coord { x: if a.x <= b.x { a.x } else { b.x }, y: if a.y <= b.y { a.y } else { b.y } };
        let kb = Coord { x: if a.x <= b.x { b.x } else { a.x }, y: if a.y <= b.y { b.y } else { a.y } };
        proof {
            assert(edge_key(a@, b@) == (ka@, kb@));
        }
        let n = self.separated.len();
        let mut i: usize = 0;
        while i < n
            invariant
                0 <= i <= n,
                n == self.separated@.len(),
                edge_key(a@, b@) == (ka@, kb@),
                forall|j: int| 0 <= j < i ==> #[trigger] self.eseq()[j] != (ka@, kb@),
            decreases n - i,
        {
            let e = self.separated[i];
            proof {
                assert(self.separated@[i as int] == e);
                assert(self.eseq()[i as int] == (e.a@, e.b@));
            }
            if e.a.x == ka.x && e.a.y == ka.y && e.b.x == kb.x && e.b.y == kb.y {
                assert(self.eseq()[i as int] == (ka@, kb@));
                assert(self.eseq().contains(edge_key(a@, b@)));
                return true;
            }
            i += 1;
        }
        proof {
            if self.sep().contains(edge_key(a@, b@)) {
                let j = choose|j: int|
                    0 <= j < self.eseq().len() && self.eseq()[j] == edge_key(a@, b@);
            }
        }
        false
    }

    /// Record every uncut in-plank neighbour of `cur` into the region,
    /// pushing the newly reached cells onto the work stack.
    fn visit_neighbors(
        &self,
        plank: &Plank,
        cur: Coord,
        region: &mut CoordSet,
        stack: &mut Vec<Coord>,
        Ghost(from): Ghost<(int, int)>,
    )
        requires
            plank.wf(),
            self.edges_wf(plank@),
            forall|p: (int, int)|
                plank@.contains(p) ==> i32::MIN < p.0 < i32::MAX && i32::MIN < p.1 < i32::MAX,
            plank@.contains(cur@),
            old(region).wf(),
            old(region).turns == 0,
            old(region)@.subset_of(plank@),
            reach(plank@, self.sep(), from, cur@),
            forall|c: (int, int)| #[trigger]
                old(region)@.contains(c) ==> reach(plank@, self.sep(), from, c),
            forall|i: int|
                0 <= i < old(stack)@.len() ==> old(region)@.contains(#[trigger] old(stack)@[i]@),
        ensures
            final(region).wf(),
            final(region).turns == 0,
            final(region)@.subset_of(plank@),
            old(region)@.subset_of(final(region)@),
            old(region)@.len() <= final(region)@.len(),
            forall|c: (int, int)| #[trigger]
                final(region)@.contains(c) ==> reach(plank@, self.sep(), from, c),
            forall|i: int|
                0 <= i < final(stack)@.len() ==> final(region)@.contains(
                    #[trigger] final(stack)@[i]@,
                ),
            forall|d: (int, int)|
                plank@.contains(d) && adj(cur@, d) && !self.sep().contains(edge_key(cur@, d))
                    ==> final(region)@.contains(d),
            forall|c: (int, int)|
                final(region)@.contains(c) && !old(region)@.contains(c) ==> exists|i: int|
                    0 <= i < final(stack)@.len() && #[trigger] final(stack)@[i]@ == c,
            forall|i: int| 0 <= i < old(stack)@.len() ==> final(stack)@[i] == old(stack)@[i],
            final(stack)@.len() >= old(stack)@.len(),
            final(region)@.len() == old(region)@.len() ==> final(region)@ == old(region)@
                && final(stack)@ == old(stack)@,
    {
        let ghost sep = self.sep();
        proof {
            region.lemma_view_len();
            plank.lemma_view_len();
            lemma_len_subset(region@, plank@);
        }
        let dirs_x: [i32; 4] = [1, -1, 0, 0];
        let dirs_y: [i32; 4] = [0, 0, 1, -1];
        let mut k: usize = 0;
        while k < 4
            invariant
                0 <= k <= 4,
                dirs_x@ =~= seq![1i32, -1i32, 0i32, 0i32],
                dirs_y@ =~= seq![0i32, 0i32, 1i32, -1i32],
                region.wf(),
                region.turns == 0,
                old(region)@.subset_of(region@),
                old(region)@.len() <= region@.len(),
                region@.subset_of(plank@),
                forall|c: (int, int)| #[trigger] region@.contains(c) ==> reach(
                    plank@,
                    sep,
                    from,
                    c,
                ),
                forall|i: int| 0 <= i < stack@.len() ==> region@.contains(#[trigger] stack@[i]@),
                forall|c: (int, int)|
                    region@.contains(c) && !old(region)@.contains(c) ==> exists|i: int|
                        0 <= i < stack@.len() && #[trigger] stack@[i]@ == c,
                forall|i: int| 0 <= i < old(stack)@.len() ==> stack@[i] == old(stack)@[i],
                stack@.len() >= old(stack)@.len(),
                region@.len() == old(region)@.len() ==> region@ == old(region)@ && stack@ == old(
                    stack,
                )@,
                forall|d: (int, int)|
                    #![trigger plank@.contains(d)]
                    (exists|kk: int|
                        0 <= kk < k && d == (
                            cur.x + dirs_x@[kk],
                            cur.y + dirs_y@[kk],
                        )) && plank@.contains(d) && !sep.contains(edge_key(cur@, d))
                        ==> region@.contains(d),
            decreases 4 - k,
        {
            let n = Coord { x: cur.x + dirs_x[k], y: cur.y + dirs_y[k] };
            proof {
                assert(n@ == (cur.x + dirs_x@[k as int], cur.y + dirs_y@[k as int]));
                assert(adj(cur@, n@)) by {
                    assert(k == 0 || k == 1 || k == 2 || k == 3);
                }
            }
            if plank.contains(n) && !self.sep_contains(cur, n) && !region.contains(n) {
                proof {
                    crate::connect::lemma_reach_step(plank@, sep, from, cur@, n@);
                    region.lemma_view_len();
                    lemma_len_subset(region@.insert(n@), plank@);
                }
                let ghost pre_region = region@;
                let ghost pre_stack = stack@;
                region.insert(n);
                stack.push(n);
                proof {
                    region.lemma_view_len();
                    assert(stack@[stack@.len() - 1]@ == n@);
                    assert forall|c: (int, int)|
                        region@.contains(c) && !old(region)@.contains(c) implies exists|i: int|
                        0 <= i < stack@.len() && #[trigger] stack@[i]@ == c by {
                        if c == n@ {
                            assert(stack@[stack@.len() - 1]@ == c);
                        } else {
                            assert(pre_region.contains(c));
                            let i = choose|i: int|
                                0 <= i < pre_stack.len() && #[trigger] pre_stack[i]@ == c;
                            assert(stack@[i]@ == c);
                        }
                    }
                }
            }
            k += 1;
        }
        proof {
            // the four directions enumerated are exactly the neighbours
            assert forall|d: (int, int)|
                plank@.contains(d) && adj(cur@, d) && !sep.contains(edge_key(cur@, d))
                implies region@.contains(d) by {
                assert(d == (cur.x + 1, cur.y as int) || d == (cur.x - 1, cur.y as int) || d == (
                    cur.x as int,
                    cur.y + 1,
                ) || d == (cur.x as int, cur.y - 1));
                if d == (cur.x + 1, cur.y as int) {
                    assert(d == (cur.x + dirs_x@[0], cur.y + dirs_y@[0]));
                } else if d == (cur.x - 1, cur.y as int) {
                    assert(d == (cur.x + dirs_x@[1], cur.y + dirs_y@[1]));
                } else if d == (cur.x as int, cur.y + 1) {
                    assert(d == (cur.x + dirs_x@[2], cur.y + dirs_y@[2]));
                } else {
                    assert(d == (cur.x + dirs_x@[3], cur.y + dirs_y@[3]));
                }
            }
        }
    }

    /// Grow the region of the plank reachable from `first` without
    /// crossing any severed edge, by depth-first flood fill.
    #[verifier::rlimit(60)]
    fn flood_region(&self, plank: &Plank, first: Coord) -> (region: CoordSet)
        requires
            plank.wf(),
            self.edges_wf(plank@),
            forall|p: (int, int)|
                plank@.contains(p) ==> i32::MIN < p.0 < i32::MAX && i32::MIN < p.1 < i32::MAX,
            plank@.contains(first@),
        ensures
            region.wf(),
            region.turns == 0,
            region@ =~= reach_set(plank@, self.sep(), first@),
            region@.subset_of(plank@),
    {
        let ghost sep = self.sep();
        let ghost from = first@;
        let mut region = CoordSet::empty();
        region.insert(first);
        let mut stack: Vec<Coord> = Vec::new();
        stack.push(first);
        proof {
            crate::connect::lemma_reach_refl(plank@, sep, from);
            region.lemma_view_len();
            plank.lemma_view_len();
            lemma_len_subset(region@, plank@);
            assert(stack@.len() == 1 && stack@[0] == first);
            assert forall|c: (int, int)| #[trigger] region@.contains(c) implies exists|i: int|
                0 <= i < stack@.len() && #[trigger] stack@[i]@ == c by {
                assert(c == from);
                assert(stack@[0]@ == c);
            }
        }

        while stack.len() > 0
            invariant
                region.wf(),
                region.turns == 0,
                region@.contains(from),
                region@.subset_of(plank@),
                region@.len() <= plank@.len(),
                forall|c: (int, int)| #[trigger] region@.contains(c) ==> reach(plank@, sep, from, c),
                forall|i: int| 0 <= i < stack@.len() ==> region@.contains(#[trigger] stack@[i]@),
                forall|c: (int, int), d: (int, int)|
                    #![trigger region@.contains(c), adj(c, d)]
                    region@.contains(c) && !(exists|i: int|
                        0 <= i < stack@.len() && #[trigger] stack@[i]@ == c) && plank@.contains(d)
                        && adj(c, d) && !sep.contains(edge_key(c, d)) ==> region@.contains(d),
            decreases plank@.len() - region@.len(), stack@.len(),
        {
            let ghost pre_region = region@;
            let ghost pre_stack = stack@;
            let cur = stack.pop().unwrap();
            proof {
                assert(pre_stack[pre_stack.len() - 1] == cur);
                assert(region@.contains(cur@));
                assert(plank@.contains(cur@));
                // a cell no longer on the stack was never elsewhere on it
                assert forall|c: (int, int)|
                    region@.contains(c) && c != cur@ && !(exists|i: int|
                        0 <= i < stack@.len() && #[trigger] stack@[i]@ == c) implies !(
                exists|i: int| 0 <= i < pre_stack.len() && #[trigger] pre_stack[i]@ == c) by {
                    if exists|i: int| 0 <= i < pre_stack.len() && #[trigger] pre_stack[i]@ == c {
                        let i = choose|i: int|
                            0 <= i < pre_stack.len() && #[trigger] pre_stack[i]@ == c;
                        if i < pre_stack.len() - 1 {
                            assert(stack@[i]@ == c);
                        }
                    }
                }
            }
            let ghost mid_stack = stack@;
            self.visit_neighbors(plank, cur, &mut region, &mut stack, Ghost(from));
            proof {
                plank.lemma_view_len();
                lemma_len_subset(region@, plank@);
                // restore the fringe property
                assert forall|c: (int, int), d: (int, int)|
                    region@.contains(c) && !(exists|i: int|
                        0 <= i < stack@.len() && #[trigger] stack@[i]@ == c) && plank@.contains(d)
                        && adj(c, d) && !sep.contains(edge_key(c, d)) implies region@.contains(
                    d,
                ) by {
                    if c == cur@ {
                    } else if pre_region.contains(c) {
                        assert(!(exists|i: int|
                            0 <= i < mid_stack.len() && #[trigger] mid_stack[i]@ == c)) by {
                            if exists|i: int|
                                0 <= i < mid_stack.len() && #[trigger] mid_stack[i]@ == c {
                                let i = choose|i: int|
                                    0 <= i < mid_stack.len() && #[trigger] mid_stack[i]@ == c;
                                assert(stack@[i]@ == c);
                            }
                        }
                    } else {
                        let i = choose|i: int| 0 <= i < stack@.len() && #[trigger] stack@[i]@ == c;
                    }
                }
            }
        }

        // the stack is empty: the region is closed under uncut adjacency
        proof {
            assert forall|c: (int, int), d: (int, int)|
                region@.contains(c) && plank@.contains(d) && adj(c, d) && !sep.contains(
                edge_key(c, d),
            ) implies region@.contains(d) by {
                assert(!(exists|i: int| 0 <= i < stack@.len() && #[trigger] stack@[i]@ == c));
            }
            crate::connect::lemma_reach_closed(plank@, sep, from, region@);
            assert(region@ =~= reach_set(plank@, sep, from));
        }
        region
    }

    /// The cells of the plank outside the given region.
    fn complement_of(plank: &Plank, region: &CoordSet) -> (second: CoordSet)
        requires
            plank.wf(),
        ensures
            second.wf(),
            second.turns == 0,
            second@ =~= plank@.difference(region@),
    {
        // gather the complement
        let mut second = CoordSet::empty();
        let n = plank.cells.len();
        let mut i: usize = 0;
        while i < n
            invariant
                0 <= i <= n,
                n == plank.cells@.len(),
                second.wf(),
                second.turns == 0,
                second@ =~= plank.cseq().take(i as int).to_set().difference(region@),
            decreases n - i,
        {
            let c = plank.cells[i];
            proof {
                assert(plank.cells@[i as int] == c);
                assert(plank.cseq()[i as int] == plank.cells@[i as int]@);
                assert(plank.cseq()[i as int] == c@);
                assert(plank.cseq().take(i + 1) =~= plank.cseq().take(i as int).push(c@));
                plank.cseq().take(i as int).lemma_push_to_set_commute(c@);
            }
            if !region.contains(c) {
                second.insert(c);
            }
            proof {
                assert(second@ =~= plank.cseq().take(i + 1).to_set().difference(region@));
            }
            i += 1;
        }
        proof {
            assert(plank.cseq().take(n as int) =~= plank.cseq());
            assert(second@ =~= plank@.difference(region@));
        }
        second
    }

    /// Flood-fill split: if the severed edges disconnect the plank, return
    /// the region reachable from the first severed edge's lesser endpoint
    /// and its complement, both inheriting the plank's alignment state;
    /// otherwise return nothing.
    pub fn split(&self, plank: &Plank) -> (r: Option<(Plank, Plank)>)
        requires
            plank.wf(),
            self.edges_wf(plank@),
            forall|p: (int, int)|
                plank@.contains(p) ==> i32::MIN < p.0 < i32::MAX && i32::MIN < p.1 < i32::MAX,
        ensures
            (r is None) <==> (self.separated@.len() == 0 || reach_set(
                plank@,
                self.sep(),
                self.start_cell(),
            ) =~= plank@),
            r matches Some(pr) ==> {
                &&& pr.0@ =~= reach_set(plank@, self.sep(), self.start_cell())
                &&& pr.1@ =~= plank@.difference(pr.0@)
                &&& pr.0.wf()
                &&& pr.1.wf()
                &&& pr.0.turns == plank.turns
                &&& pr.1.turns == plank.turns
                &&& pr.0.texture_offset == plank.texture_offset
                &&& pr.1.texture_offset == plank.texture_offset
                &&& pr.0@.len() >= 1
                &&& pr.1@.len() >= 1
                &&& pr.0@.len() + pr.1@.len() == plank@.len()
            },
    {
        if self.separated.len() == 0 {
            return None;
        }
        let ghost sep = self.sep();
        let ghost from = self.start_cell();
        let first = self.separated[0].a;
        proof {
            assert(self.eseq()[0] == (first@, self.separated@[0].b@));
            assert(first@ == from);
            assert(plank@.contains(from));
            plank.lemma_view_len();
        }

        let region = self.flood_region(plank, first);
        proof {
            region.lemma_view_len();
            lemma_len_subset(region@, plank@);
            crate::connect::lemma_reach_refl(plank@, sep, from);
            assert(region@.contains(from));
        }

        if region.count() == plank.count() {
            proof {
                lemma_subset_equality(region@, plank@);
                assert(reach_set(plank@, sep, from) =~= plank@);
            }
            return None;
        }

        let second = Self::complement_of(plank, &region);
        proof {
            region.lemma_view_len();
            second.lemma_view_len();
            plank.lemma_view_len();
            lemma_len_subset(region@, plank@);
            lemma_difference_len(plank@, region@);
            assert(region@.len() < plank@.len());
            assert(second@.len() == plank@.len() - region@.len());
        }

        let piece_a = CoordSet {
            cells: region.cells,
            turns: plank.turns,
            texture_offset: plank.texture_offset,
        };
        let piece_b = CoordSet {
            cells: second.cells,
            turns: plank.turns,
            texture_offset: plank.texture_offset,
        };
        Some((piece_a, piece_b))
    }

    /// Whether the severed edges disconnect the plank.
    pub fn is_finished(&self, plank: &Plank) -> (r: bool)
        requires
            plank.wf(),
            self.edges_wf(plank@),
            forall|p: (int, int)|
                plank@.contains(p) ==> i32::MIN < p.0 < i32::MAX && i32::MIN < p.1 < i32::MAX,
        ensures
            r <==> (self.separated@.len() > 0 && !(reach_set(
                plank@,
                self.sep(),
                self.start_cell(),
            ) =~= plank@)),
    {
        self.split(plank).is_some()
    }
}

/// The outcome of one cutter step, decided by `Cut::extend`.
pub enum CutMove {
    /// The step was not a single lattice step: the cutter snaps back.
    Weird,
    /// Neither cell beside the crossed boundary is on the plank: snaps back.
    Air,
    /// The crossed boundary was already severed and has been restored.
    Restored,
    /// The cut is already finished; no further boundary may be severed.
    Blocked,
    /// Both cells beside the boundary are on the plank: it is now severed.
    Severed { finished: bool },
    /// Only one of the two cells is on the plank: the cutter slides along
    /// the rim without severing anything.
    Slide,
}

/// The step is one lattice unit along an axis.
pub open spec fn unit_step(prev: (int, int), pos: (int, int)) -> bool {
    ||| (pos.0 - prev.0, pos.1 - prev.1) == (1int, 0int)
    ||| (pos.0 - prev.0, pos.1 - prev.1) == (-1int, 0int)
    ||| (pos.0 - prev.0, pos.1 - prev.1) == (0int, -1int)
    ||| (pos.0 - prev.0, pos.1 - prev.1) == (0int, 1int)
}

/// The plank-local pair of cells beside the boundary crossed by a unit step
/// from `prev` to `pos`, with the componentwise-smaller cell first.
pub open spec fn affected_cells(prev: (int, int), pos: (int, int), ppos: (int, int)) -> (
    (int, int),
    (int, int),
) {
    let d = (pos.0 - prev.0, pos.1 - prev.1);
    if d == (1int, 0int) {
        ((prev.0 - ppos.0, prev.1 - 1 - ppos.1), (prev.0 - ppos.0, prev.1 - ppos.1))
    } else if d == (-1int, 0int) {
        ((prev.0 - 1 - ppos.0, prev.1 - 1 - ppos.1), (prev.0 - 1 - ppos.0, prev.1 - ppos.1))
    } else if d == (0int, -1int) {
        ((prev.0 - 1 - ppos.0, prev.1 - 1 - ppos.1), (prev.0 - ppos.0, prev.1 - 1 - ppos.1))
    } else {
        ((prev.0 - 1 - ppos.0, prev.1 - ppos.1), (prev.0 - ppos.0, prev.1 - ppos.1))
    }
}

impl Cut {
    /// Whether the cutter has visited the lattice point `c`.
    pub fn visited_contains(&self, c: Coord) -> (r: bool)
        ensures
            r == self.vseq().to_set().contains(c@),
    {
        let n = self.visited.len();
        let mut i: usize = 0;
        while i < n
            invariant
                0 <= i <= n,
                n == self.visited@.len(),
                forall|j: int| 0 <= j < i ==> #[trigger] self.vseq()[j] != c@,
            decreases n - i,
        {
            let v = self.visited[i];
            proof {
                assert(self.visited@[i as int] == v);
                assert(self.vseq()[i as int] == v@);
            }
            if v.x == c.x && v.y == c.y {
                assert(self.vseq().contains(c@));
                return true;
            }
            i += 1;
        }
        proof {
            if self.vseq().to_set().contains(c@) {
                let j = choose|j: int| 0 <= j < self.vseq().len() && self.vseq()[j] == c@;
            }
        }
        false
    }

    /// Record a visited lattice point, ignoring repeats.
    fn visited_insert(&mut self, c: Coord)
        requires
            old(self).wf(),
        ensures
            final(self).wf(),
            final(self).vseq().to_set() =~= old(self).vseq().to_set().insert(c@),
            final(self).separated == old(self).separated,
            final(self).finished == old(self).finished,
    {
        if !self.visited_contains(c) {
            let ghost pre = self.vseq();
            self.visited.push(c);
            proof {
                assert(self.vseq() =~= pre.push(c@));
                pre.lemma_push_to_set_commute(c@);
            }
        } else {
            proof {
                assert(final(self).vseq().to_set() =~= old(self).vseq().to_set().insert(c@));
            }
        }
    }

    /// Forget a visited lattice point, if present.
    fn visited_remove(&mut self, c: Coord)
        requires
            old(self).wf(),
        ensures
            final(self).wf(),
            final(self).vseq().to_set() =~= old(self).vseq().to_set().remove(c@),
            final(self).separated == old(self).separated,
            final(self).finished == old(self).finished,
    {
        let n = self.visited.len();
        let mut i: usize = 0;
        while i < n
            invariant
                0 <= i <= n,
                n == self.visited@.len(),
                *self == *old(self),
                forall|j: int| 0 <= j < i ==> #[trigger] self.vseq()[j] != c@,
            decreases n - i,
        {
            let v = self.visited[i];
            proof {
                assert(self.visited@[i as int] == v);
                assert(self.vseq()[i as int] == v@);
            }
            if v.x == c.x && v.y == c.y {
                let ghost pre = self.vseq();
                self.visited.remove(i);
                proof {
                    assert(self.visited@ == old(self).visited@.remove(i as int));
                    assert(self.vseq() =~= pre.take(i as int) + pre.skip(i + 1));
                    lemma_unique_seq_remove(pre, i as int);
                }
                return ;
            }
            i += 1;
        }
        proof {
            if self.vseq().to_set().contains(c@) {
                let j = choose|j: int| 0 <= j < self.vseq().len() && self.vseq()[j] == c@;
            }
            assert(final(self).vseq().to_set() =~= old(self).vseq().to_set().remove(c@));
        }
    }

    /// Forget a severed edge, if present.
    fn separated_remove(&mut self, e: CellEdge)
        requires
            old(self).wf(),
        ensures
            final(self).wf(),
            final(self).eseq().to_set() =~= old(self).eseq().to_set().remove((e.a@, e.b@)),
            final(self).visited == old(self).visited,
            final(self).finished == old(self).finished,
            forall|x: ((int, int), (int, int))| final(self).sep().contains(x) ==> old(
                self,
            ).sep().contains(x),
    {
        let n = self.separated.len();
        let mut i: usize = 0;
        while i < n
            invariant
                0 <= i <= n,
                n == self.separated@.len(),
                *self == *old(self),
                forall|j: int| 0 <= j < i ==> #[trigger] self.eseq()[j] != (e.a@, e.b@),
            decreases n - i,
        {
            let d = self.separated[i];
            proof {
                assert(self.separated@[i as int] == d);
                assert(self.eseq()[i as int] == (d.a@, d.b@));
            }
            if d.a.x == e.a.x && d.a.y == e.a.y && d.b.x == e.b.x && d.b.y == e.b.y {
                let ghost pre = self.eseq();
                self.separated.remove(i);
                proof {
                    assert(self.separated@ == old(self).separated@.remove(i as int));
                    assert(self.eseq() =~= pre.take(i as int) + pre.skip(i + 1));
                    lemma_unique_seq_remove(pre, i as int);
                }
                return ;
            }
            i += 1;
        }
        proof {
            if self.eseq().to_set().contains((e.a@, e.b@)) {
                let j = choose|j: int|
                    0 <= j < self.eseq().len() && self.eseq()[j] == (e.a@, e.b@);
            }
            assert(final(self).eseq().to_set() =~= old(self).eseq().to_set().remove((e.a@, e.b@)));
        }
    }
}

impl Cut {
    /// One cutter step from `prev` to `pos` over the plank anchored at
    /// `plank_pos`: decides whether the move is rejected, severs a boundary,
    /// restores one, or slides along the rim, and updates the cut state.
    /// On `Weird`, `Air` and `Blocked` the caller snaps the cutter back to
    /// `prev`; on every other outcome the cutter advances to `pos`.
    pub fn extend(&mut self, plank: &Plank, plank_pos: Coord, prev: Coord, pos: Coord) -> (r:
        CutMove)
        requires
            plank.wf(),
            old(self).wf(),
            old(self).edges_wf(plank@),
            forall|p: (int, int)|
                plank@.contains(p) ==> i32::MIN < p.0 < i32::MAX && i32::MIN < p.1 < i32::MAX,
            i32::MIN + 1 <= prev.x - plank_pos.x <= i32::MAX,
            i32::MIN + 1 <= prev.y - plank_pos.y <= i32::MAX,
            old(self).finished ==> old(self).separated@.len() > 0,
        ensures
            final(self).wf(),
            final(self).edges_wf(plank@),
            ({
                let a = affected_cells(prev@, pos@, plank_pos@);
                let k = edge_key(a.0, a.1);
                &&& (r is Weird <==> !unit_step(prev@, pos@))
                &&& (r is Weird ==> *final(self) == *old(self))
                &&& (r is Air <==> unit_step(prev@, pos@) && !plank@.contains(a.0)
                    && !plank@.contains(a.1))
                &&& (r is Air ==> *final(self) == *old(self))
                &&& (r is Restored <==> unit_step(prev@, pos@) && (plank@.contains(a.0)
                    || plank@.contains(a.1)) && old(self).sep().contains(k))
                &&& (r is Restored ==> final(self).sep() =~= old(self).sep().remove(k) && final(self).vseq().to_set() =~= old(self).vseq().to_set().remove(prev@) && !final(self).finished)
                &&& (r is Blocked <==> unit_step(prev@, pos@) && (plank@.contains(a.0)
                    || plank@.contains(a.1)) && !old(self).sep().contains(k) && old(self).finished)
                &&& (r is Blocked ==> *final(self) == *old(self))
                &&& (r is Severed <==> unit_step(prev@, pos@) && plank@.contains(a.0)
                    && plank@.contains(a.1) && !old(self).sep().contains(k) && !old(self).finished)
                &&& (r is Severed ==> final(self).sep() =~= old(self).sep().insert(k) && final(self).vseq().to_set() =~= old(self).vseq().to_set().insert(prev@).insert(pos@) && final(self).separated@.len() > 0)
                &&& (r matches CutMove::Severed { finished } ==> (finished == final(self).finished)
                    && (finished <==> !(reach_set(plank@, final(self).sep(), final(self).start_cell())
                    =~= plank@)))
                &&& (r is Slide <==> unit_step(prev@, pos@) && (plank@.contains(a.0)
                    != plank@.contains(a.1)) && !old(self).sep().contains(k) && !old(self).finished)
                &&& (r is Slide ==> *final(self) == *old(self))
                &&& (final(self).finished ==> final(self).separated@.len() > 0)
            }),
    {
        let dx: i64 = pos.x as i64 - prev.x as i64;
        let dy: i64 = pos.y as i64 - prev.y as i64;
        let (a0, a1): (Coord, Coord) = if dx == 1 && dy == 0 {
            (
                Coord { x: prev.x - plank_pos.x, y: prev.y - plank_pos.y - 1 },
                Coord { x: prev.x - plank_pos.x, y: prev.y - plank_pos.y },
            )
        } else if dx == -1 && dy == 0 {
            (
                Coord { x: prev.x - plank_pos.x - 1, y: prev.y - plank_pos.y - 1 },
                Coord { x: prev.x - plank_pos.x - 1, y: prev.y - plank_pos.y },
            )
        } else if dx == 0 && dy == -1 {
            (
                Coord { x: prev.x - plank_pos.x - 1, y: prev.y - plank_pos.y - 1 },
                Coord { x: prev.x - plank_pos.x, y: prev.y - plank_pos.y - 1 },
            )
        } else if dx == 0 && dy == 1 {
            (
                Coord { x: prev.x - plank_pos.x - 1, y: prev.y - plank_pos.y },
                Coord { x: prev.x - plank_pos.x, y: prev.y - plank_pos.y },
            )
        } else {
            return CutMove::Weird;
        };
        let ghost a = affected_cells(prev@, pos@, plank_pos@);
        proof {
            assert(unit_step(prev@, pos@));
            assert(a == (a0@, a1@));
            assert(adj(a0@, a1@));
            assert(edge_key(a0@, a1@) == (a0@, a1@));
        }
        let in0 = plank.contains(a0);
        let in1 = plank.contains(a1);
        if !in0 && !in1 {
            return CutMove::Air;
        }
        if self.sep_contains(a0, a1) {
            let ghost k = edge_key(a0@, a1@);
            self.separated_remove(CellEdge { a: a0, b: a1 });
            self.visited_remove(prev);
            self.finished = false;
            proof {
                assert(final(self).sep() =~= old(self).sep().remove(k));
                assert forall|i: int|
                    0 <= i < self.eseq().len() implies adj(
                    (#[trigger] self.eseq()[i]).0,
                    self.eseq()[i].1,
                ) && plank@.contains(self.eseq()[i].0) && plank@.contains(self.eseq()[i].1)
                    && edge_key(self.eseq()[i].0, self.eseq()[i].1) == self.eseq()[i] by {
                    assert(self.sep().contains(self.eseq()[i]));
                    let j = choose|j: int|
                        0 <= j < old(self).eseq().len() && old(self).eseq()[j] == self.eseq()[i];
                }
            }
            return CutMove::Restored;
        }
        if self.finished {
            return CutMove::Blocked;
        }
        if in0 && in1 {
            self.visited_insert(prev);
            self.visited_insert(pos);
            let ghost pre = self.eseq();
            self.separated.push(CellEdge { a: a0, b: a1 });
            proof {
                assert(self.eseq() =~= pre.push((a0@, a1@)));
                pre.lemma_push_to_set_commute((a0@, a1@));
                assert(self.eseq().no_duplicates());
                assert forall|i: int|
                    0 <= i < self.eseq().len() implies adj(
                    (#[trigger] self.eseq()[i]).0,
                    self.eseq()[i].1,
                ) && plank@.contains(self.eseq()[i].0) && plank@.contains(self.eseq()[i].1)
                    && edge_key(self.eseq()[i].0, self.eseq()[i].1) == self.eseq()[i] by {
                    if i < pre.len() {
                        assert(self.eseq()[i] == old(self).eseq()[i]);
                    } else {
                        assert(self.eseq()[i] == (a0@, a1@));
                    }
                }
            }
            let fin = self.is_finished(plank);
            self.finished = fin;
            return CutMove::Severed { finished: fin };
        }
        CutMove::Slide
    }
}


/// How many of the four cells around lattice point `p` belong to the plank
/// anchored at `ppos`.
pub open spec fn start_coverage(plank: Set<(int, int)>, ppos: (int, int), p: (int, int)) -> int {
    (if plank.contains((p.0 - ppos.0 - 1, p.1 - ppos.1 - 1)) { 1int } else { 0int })
        + (if plank.contains((p.0 - ppos.0, p.1 - ppos.1 - 1)) { 1int } else { 0int })
        + (if plank.contains((p.0 - ppos.0 - 1, p.1 - ppos.1)) { 1int } else { 0int })
        + (if plank.contains((p.0 - ppos.0, p.1 - ppos.1)) { 1int } else { 0int })
}

/// A cut may begin at lattice point `p` only when between two and three of
/// the four surrounding cells belong to the plank: the point sits on the
/// plank's boundary, not inside it and not in the open.
pub fn cut_start_valid(plank: &Plank, plank_pos: Coord, p: Coord) -> (r: bool)
    requires
        i32::MIN + 1 <= p.x - plank_pos.x <= i32::MAX,
        i32::MIN + 1 <= p.y - plank_pos.y <= i32::MAX,
    ensures
        r == (1 < start_coverage(plank@, plank_pos@, p@) < 4),
{
    let bx = p.x - plank_pos.x;
    let by = p.y - plank_pos.y;
    let mut count: u8 = 0;
    if plank.contains(Coord { x: bx - 1, y: by - 1 }) {
        count += 1;
    }
    if plank.contains(Coord { x: bx, y: by - 1 }) {
        count += 1;
    }
    if plank.contains(Coord { x: bx - 1, y: by }) {
        count += 1;
    }
    if plank.contains(Coord { x: bx, y: by }) {
        count += 1;
    }
    count > 1 && count < 4
}

/// The first of the candidate lattice points at which a cut may begin.
pub fn find_cut_start(plank: &Plank, plank_pos: Coord, candidates: &Vec<Coord>) -> (r: Option<
    Coord,
>)
    requires
        forall|i: int|
            0 <= i < candidates@.len() ==> i32::MIN + 1 <= (#[trigger] candidates@[i]).x
                - plank_pos.x <= i32::MAX && i32::MIN + 1 <= candidates@[i].y - plank_pos.y
                <= i32::MAX,
    ensures
        r matches Some(c) ==> exists|i: int|
            0 <= i < candidates@.len() && #[trigger] candidates@[i] == c && 1 < start_coverage(
                plank@,
                plank_pos@,
                c@,
            ) < 4 && (forall|j: int|
                0 <= j < i ==> !(1 < start_coverage(plank@, plank_pos@, (#[trigger] candidates@[j])@)
                    < 4)),
        r is None ==> forall|i: int|
            0 <= i < candidates@.len() ==> !(1 < start_coverage(
                plank@,
                plank_pos@,
                (#[trigger] candidates@[i])@,
            ) < 4),
{
    let n = candidates.len();
    let mut i: usize = 0;
    while i < n
        invariant
            0 <= i <= n,
            n == candidates@.len(),
            forall|j: int|
                0 <= j < i ==> !(1 < start_coverage(
                    plank@,
                    plank_pos@,
                    (#[trigger] candidates@[j])@,
                ) < 4),
        decreases n - i,
    {
        let c = candidates[i];
        if cut_start_valid(plank, plank_pos, c) {
            proof {
                assert(candidates@[i as int] == c);
            }
            return Some(c);
        }
        i += 1;
    }
    None
}

/// Prepare one piece of a committed cut for the board: translate it so its
/// bounding box starts at `(1, 1)` and return the piece's new board
/// position, chosen so its absolute cell positions are unchanged.
pub fn commit_piece(piece: &mut CoordSet, pos: Coord) -> (r: Coord)
    requires
        old(piece).wf(),
        old(piece)@.len() > 0,
        bounded_by(old(piece)@, -500000000, 500000000),
        -500000000 <= old(piece).texture_offset.x <= 500000000,
        -500000000 <= old(piece).texture_offset.y <= 500000000,
        -500000000 <= pos.x <= 500000000,
        -500000000 <= pos.y <= 500000000,
    ensures
        final(piece).wf(),
        final(piece).turns == old(piece).turns,
        final(piece)@.len() == old(piece)@.len(),
        is_min_x(final(piece)@, 1) && is_min_y(final(piece)@, 1),
        shift_all(final(piece)@, (r.x as int, r.y as int)) =~= shift_all(
            old(piece)@,
            (pos.x as int, pos.y as int),
        ),
        exists|d: (int, int)|
            final(piece)@ =~= shift_all(old(piece)@, d) && r@ == pt_sub(pos@, d),
{
    let e = piece.extents();
    proof {
        let q = choose|q: (int, int)| #[trigger] old(piece)@.contains(q) && q.0 == e.0.0 as int;
        let q2 = choose|q2: (int, int)| #[trigger] old(piece)@.contains(q2) && q2.1 == e.1.0 as int;
        assert(-500000000 <= e.0.0 as int <= 500000000);
        assert(-500000000 <= e.1.0 as int <= 500000000);
    }
    let sx = 1 - e.0.0;
    let sy = 1 - e.1.0;
    let ghost d = (sx as int, sy as int);
    proof {
        assert forall|p: (int, int)| old(piece)@.contains(p) implies i32::MIN <= p.0 + sx
            <= i32::MAX && i32::MIN <= p.1 + sy <= i32::MAX by {}
        assert(rot_cw_n(d, 0) == d);
        assert(rot_cw_n(d, 1) == (d.1, -d.0));
        assert(rot_cw_n(d, 2) == rot_cw(rot_cw_n(d, 1)));
        assert(rot_cw_n(d, 3) == rot_cw(rot_cw_n(d, 2)));
        assert(old(piece).turns < 4);
    }
    piece.shift(Coord { x: sx, y: sy });
    let r = Coord { x: pos.x - sx, y: pos.y - sy };
    proof {
        crate::coord::lemma_shift_all_compose(old(piece)@, d, (r.x as int, r.y as int));
        assert(pt_add(d, (r.x as int, r.y as int)) == (pos.x as int, pos.y as int));
        assert(shift_all(piece@, (r.x as int, r.y as int)) =~= shift_all(
            old(piece)@,
            (pos.x as int, pos.y as int),
        ));
        let mx = e.0.0 as int;
        let my = e.1.0 as int;
        assert(is_min_x(old(piece)@, mx) && is_min_y(old(piece)@, my));
        assert(is_min_x(piece@, 1) && is_min_y(piece@, 1)) by {
            let f = |p: (int, int)| pt_add(p, d);
            let p1 = choose|p: (int, int)| #[trigger] old(piece)@.contains(p) && p.0 == mx;
            assert(piece@.contains(f(p1)) && f(p1).0 == 1);
            let p2 = choose|p: (int, int)| #[trigger] old(piece)@.contains(p) && p.1 == my;
            assert(piece@.contains(f(p2)) && f(p2).1 == 1);
            assert forall|q: (int, int)| #[trigger] piece@.contains(q) implies 1 <= q.0 && 1
                <= q.1 by {
                let p = choose|p: (int, int)| #[trigger] old(piece)@.contains(p) && f(p) == q;
            }
        }
        assert(r@ == pt_sub(pos@, d));
    }
    r
}


/// Removing one position from a duplicate-free sequence removes exactly that
/// element from its set of values.
proof fn lemma_unique_seq_remove<A>(s: Seq<A>, i: int)
    requires
        s.no_duplicates(),
        0 <= i < s.len(),
    ensures
        (s.take(i) + s.skip(i + 1)).no_duplicates(),
        (s.take(i) + s.skip(i + 1)).to_set() =~= s.to_set().remove(s[i]),
{
    let r = s.take(i) + s.skip(i + 1);
    assert forall|a: int, b: int| 0 <= a < b < r.len() implies r[a] != r[b] by {
        let oa = if a < i { a } else { a + 1 };
        let ob = if b < i { b } else { b + 1 };
        assert(r[a] == s[oa] && r[b] == s[ob]);
    }
    assert forall|x: A| #[trigger] r.to_set().contains(x) implies s.to_set().contains(x) && x
        != s[i] by {
        let j = choose|j: int| 0 <= j < r.len() && r[j] == x;
        let oj = if j < i { j } else { j + 1 };
        assert(r[j] == s[oj]);
        assert(oj != i);
    }
    assert forall|x: A| s.to_set().contains(x) && x != s[i] implies r.to_set().contains(x) by {
        let j = choose|j: int| 0 <= j < s.len() && s[j] == x;
        if j < i {
            assert(r[j] == s[j]);
            assert(r.contains(x));
        } else {
            assert(r[j - 1] == s[j]);
            assert(r.contains(x));
        }
    }
}


/// Removing a subset from a finite set leaves exactly the complement's count.
proof fn lemma_difference_len<A>(whole: Set<A>, part: Set<A>)
    requires
        whole.finite(),
        part.subset_of(whole),
    ensures
        whole.difference(part).len() == whole.len() - part.len(),
    decreases part.len(),
{
    lemma_len_subset(part, whole);
    if part.len() == 0 {
        assert(part =~= Set::<A>::empty());
        assert(whole.difference(part) =~= whole);
    } else {
        let a = part.choose();
        assert(part.contains(a));
        lemma_difference_len(whole.remove(a), part.remove(a));
        assert(whole.remove(a).difference(part.remove(a)) =~= whole.difference(part));
    }
}


/// Split exhaustiveness: when the severed edges leave the plank in at most
/// two pieces and do disconnect it, the region reachable from the flood
/// origin and its complement partition the plank's cells without overlap,
/// and each piece is internally 4-connected. Cuts that leave three or more
/// pieces are excluded by the premise: there the complement need not be
/// connected.
pub proof fn lemma_split_exhaustive(
    plank: Set<(int, int)>,
    sep: Set<((int, int), (int, int))>,
    from: (int, int),
)
    requires
        forall|x: (int, int), y: (int, int)|
            plank.contains(x) && plank.contains(y) && !reach_set(plank, sep, from).contains(x)
                && !reach_set(plank, sep, from).contains(y) ==> reach(plank, sep, x, y),
    ensures
        reach_set(plank, sep, from).union(
            plank.difference(reach_set(plank, sep, from)),
        ) =~= plank,
        reach_set(plank, sep, from).disjoint(plank.difference(reach_set(plank, sep, from))),
        crate::connect::connected(reach_set(plank, sep, from)),
        crate::connect::connected(plank.difference(reach_set(plank, sep, from))),
{
    let rs = reach_set(plank, sep, from);
    assert forall|c: (int, int)| #[trigger] rs.contains(c) implies plank.contains(c) by {
        let p = choose|p: Seq<(int, int)>|
            crate::connect::is_path(p, plank, sep) && p.first() == from && p.last() == c;
        assert(plank.contains(p[p.len() - 1]));
    }
    crate::connect::lemma_reach_set_connected(plank, sep, from);
    crate::connect::lemma_complement_connected(plank, sep, from);
}


} // verus!
