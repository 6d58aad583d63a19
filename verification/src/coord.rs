//! Lattice cells and the mathematical geometry used by every contract:
//! points are modelled as unbounded integer pairs, so rotation and
//! translation are total functions at the specification level.

use vstd::prelude::*;

verus! {

/// A cell on the integer lattice.
#[derive(Clone, Copy, Debug, Default, PartialEq, Eq, Structural, Hash)]
pub struct Coord {
    pub x: i32,
    pub y: i32,
}

impl View for Coord {
    type V = (int, int);

    open spec fn view(&self) -> (int, int) {
        (self.x as int, self.y as int)
    }
}

impl Coord {
    pub fn new(x: i32, y: i32) -> (r: Coord)
        ensures
            r@ == (x as int, y as int),
    {
        Coord { x, y }
    }

    pub fn zero() -> (r: Coord)
        ensures
            r@ == (0int, 0int),
    {
        Coord { x: 0, y: 0 }
    }
}

/// Pointwise sum of two lattice vectors.
pub open spec fn pt_add(a: (int, int), b: (int, int)) -> (int, int) {
    (a.0 + b.0, a.1 + b.1)
}

/// Pointwise difference of two lattice vectors.
pub open spec fn pt_sub(a: (int, int), b: (int, int)) -> (int, int) {
    (a.0 - b.0, a.1 - b.1)
}

pub open spec fn pt_neg(a: (int, int)) -> (int, int) {
    (-a.0, -a.1)
}

/// One quarter turn counter-clockwise about the origin.
pub open spec fn rot_ccw(p: (int, int)) -> (int, int) {
    (-p.1, p.0)
}

/// One quarter turn clockwise about the origin.
pub open spec fn rot_cw(p: (int, int)) -> (int, int) {
    (p.1, -p.0)
}

/// `n` quarter turns counter-clockwise.
pub open spec fn rot_ccw_n(p: (int, int), n: nat) -> (int, int)
    decreases n,
{
    if n == 0 {
        p
    } else {
        rot_ccw(rot_ccw_n(p, (n - 1) as nat))
    }
}

/// `n` quarter turns clockwise.
pub open spec fn rot_cw_n(p: (int, int), n: nat) -> (int, int)
    decreases n,
{
    if n == 0 {
        p
    } else {
        rot_cw(rot_cw_n(p, (n - 1) as nat))
    }
}

/// 4-connected adjacency: the two cells share a unit edge.
pub open spec fn adj(a: (int, int), b: (int, int)) -> bool {
    ||| a.0 == b.0 && (a.1 == b.1 + 1 || b.1 == a.1 + 1)
    ||| a.1 == b.1 && (a.0 == b.0 + 1 || b.0 == a.0 + 1)
}

/// Every cell of `s` translated by `d`.
pub open spec fn shift_all(s: Set<(int, int)>, d: (int, int)) -> Set<(int, int)> {
    s.map(|p: (int, int)| pt_add(p, d))
}

/// Every cell of `s` turned a quarter turn counter-clockwise.
pub open spec fn rot_all(s: Set<(int, int)>) -> Set<(int, int)> {
    s.map(|p: (int, int)| rot_ccw(p))
}

/// All cells of `s` lie in the square [lo, hi] x [lo, hi].
pub open spec fn bounded_by(s: Set<(int, int)>, lo: int, hi: int) -> bool {
    forall|p: (int, int)| s.contains(p) ==> lo <= p.0 <= hi && lo <= p.1 <= hi
}

pub proof fn lemma_rot_ccw_cw_inverse(p: (int, int))
    ensures
        rot_ccw(rot_cw(p)) == p,
        rot_cw(rot_ccw(p)) == p,
{
}

/// Four quarter turns bring every point back to itself.
pub proof fn lemma_rot_ccw_4(p: (int, int))
    ensures
        rot_ccw_n(p, 4) == p,
{
    reveal_with_fuel(rot_ccw_n, 5);
}

/// Rotation is additive in the number of turns.
pub proof fn lemma_rot_ccw_n_add(p: (int, int), m: nat, n: nat)
    ensures
        rot_ccw_n(rot_ccw_n(p, m), n) == rot_ccw_n(p, (m + n) as nat),
    decreases n,
{
    if n > 0 {
        lemma_rot_ccw_n_add(p, m, (n - 1) as nat);
    }
}

/// Rotation distributes over translation.
pub proof fn lemma_rot_ccw_of_add(p: (int, int), d: (int, int))
    ensures
        rot_ccw(pt_add(p, d)) == pt_add(rot_ccw(p), rot_ccw(d)),
{
}

/// Clockwise rotation is linear: rotating a negated vector negates the result.
pub proof fn lemma_rot_cw_n_neg(d: (int, int), n: nat)
    ensures
        rot_cw_n(pt_neg(d), n) == pt_neg(rot_cw_n(d, n)),
    decreases n,
{
    if n > 0 {
        lemma_rot_cw_n_neg(d, (n - 1) as nat);
    }
}

/// The image of `s` under the rigid motion "turn `k` quarter turns
/// counter-clockwise, then translate by `d`".
pub open spec fn rigid(s: Set<(int, int)>, k: nat, d: (int, int)) -> Set<(int, int)> {
    shift_all(s.map(|p: (int, int)| rot_ccw_n(p, k)), d)
}

/// The identity rigid motion.
pub proof fn lemma_rigid_zero(s: Set<(int, int)>)
    ensures
        rigid(s, 0, (0, 0)) =~= s,
{
    let f = |p: (int, int)| rot_ccw_n(p, 0);
    let g = |p: (int, int)| pt_add(p, (0int, 0int));
    assert forall|q: (int, int)| #[trigger] rigid(s, 0, (0, 0)).contains(q) implies s.contains(
        q,
    ) by {
        let m = choose|m: (int, int)| s.map(f).contains(m) && g(m) == q;
        let p = choose|p: (int, int)| s.contains(p) && f(p) == m;
    }
    assert forall|q: (int, int)| s.contains(q) implies #[trigger] rigid(s, 0, (0, 0)).contains(
        q,
    ) by {
        assert(s.map(f).contains(f(q)));
        assert(g(f(q)) == q);
    }
}

/// Mapping preserves inclusion.
pub proof fn lemma_map_subset(a: Set<(int, int)>, b: Set<(int, int)>, f: spec_fn((int, int)) -> (
    int,
    int,
))
    requires
        a.subset_of(b),
    ensures
        a.map(f).subset_of(b.map(f)),
{
    assert forall|q: (int, int)| #[trigger] a.map(f).contains(q) implies b.map(f).contains(q) by {
        let p = choose|p: (int, int)| a.contains(p) && f(p) == q;
        assert(b.contains(p));
    }
}

/// Turning a rigid image one more quarter turn gives the rigid image with
/// one more turn and the rotated translation.
pub proof fn lemma_rot_all_rigid(s: Set<(int, int)>, k: nat, d: (int, int))
    ensures
        rot_all(rigid(s, k, d)) =~= rigid(s, (k + 1) as nat, rot_ccw(d)),
{
    let fk = |p: (int, int)| rot_ccw_n(p, k);
    let fk1 = |p: (int, int)| rot_ccw_n(p, (k + 1) as nat);
    let gd = |p: (int, int)| pt_add(p, d);
    let gd1 = |p: (int, int)| pt_add(p, rot_ccw(d));
    let fr = |p: (int, int)| rot_ccw(p);
    assert forall|q: (int, int)| #[trigger] rot_all(rigid(s, k, d)).contains(q) implies rigid(
        s,
        (k + 1) as nat,
        rot_ccw(d),
    ).contains(q) by {
        let m = choose|m: (int, int)| rigid(s, k, d).contains(m) && fr(m) == q;
        let m2 = choose|m2: (int, int)| s.map(fk).contains(m2) && gd(m2) == m;
        let p = choose|p: (int, int)| s.contains(p) && fk(p) == m2;
        lemma_rot_ccw_of_add(m2, d);
        assert(q == pt_add(rot_ccw(m2), rot_ccw(d)));
        assert(rot_ccw(m2) == fk1(p));
        assert(s.map(fk1).contains(fk1(p)));
        assert(gd1(fk1(p)) == q);
    }
    assert forall|q: (int, int)| #[trigger]
        rigid(s, (k + 1) as nat, rot_ccw(d)).contains(q) implies rot_all(rigid(s, k, d)).contains(
        q,
    ) by {
        let m = choose|m: (int, int)| s.map(fk1).contains(m) && gd1(m) == q;
        let p = choose|p: (int, int)| s.contains(p) && fk1(p) == m;
        assert(s.map(fk).contains(fk(p)));
        assert(rigid(s, k, d).contains(gd(fk(p))));
        lemma_rot_ccw_of_add(fk(p), d);
        assert(fr(gd(fk(p))) == q);
    }
}

/// Translating a rigid image composes the translations.
pub proof fn lemma_shift_all_rigid(s: Set<(int, int)>, k: nat, d: (int, int), e: (int, int))
    ensures
        shift_all(rigid(s, k, d), e) =~= rigid(s, k, pt_add(d, e)),
{
    lemma_shift_all_compose(s.map(|p: (int, int)| rot_ccw_n(p, k)), d, e);
}

/// A rigid motion with no turns is the plain translation.
pub proof fn lemma_rigid_no_turns(s: Set<(int, int)>, d: (int, int))
    ensures
        rigid(s, 0, d) =~= shift_all(s, d),
{
    let f0 = |p: (int, int)| rot_ccw_n(p, 0);
    let g = |p: (int, int)| pt_add(p, d);
    assert(s.map(f0) =~= s) by {
        assert forall|q: (int, int)| #[trigger] s.map(f0).contains(q) implies s.contains(q) by {
            let p = choose|p: (int, int)| s.contains(p) && f0(p) == q;
        }
        assert forall|q: (int, int)| s.contains(q) implies s.map(f0).contains(q) by {
            assert(f0(q) == q);
        }
    }
}


/// Rigid motions preserve inclusion.
pub proof fn lemma_rigid_subset(a: Set<(int, int)>, b: Set<(int, int)>, k: nat, d: (int, int))
    requires
        a.subset_of(b),
    ensures
        rigid(a, k, d).subset_of(rigid(b, k, d)),
{
    let f = |p: (int, int)| rot_ccw_n(p, k);
    lemma_map_subset(a, b, f);
    let g = |p: (int, int)| pt_add(p, d);
    lemma_map_subset(a.map(f), b.map(f), g);
}

/// Applying a second rigid motion composes into a single rigid motion.
pub proof fn lemma_rigid_compose(s: Set<(int, int)>, k: nat, d: (int, int), k2: nat, d2: (int, int))
    ensures
        rigid(rigid(s, k, d), k2, d2) =~= rigid(s, (k + k2) as nat, pt_add(rot_ccw_n(d, k2), d2)),
    decreases k2,
{
    let x = rigid(s, k, d);
    if k2 == 0 {
        let f0 = |p: (int, int)| rot_ccw_n(p, 0);
        assert(x.map(f0) =~= x) by {
            assert forall|q: (int, int)| #[trigger] x.map(f0).contains(q) implies x.contains(q) by {
                let p = choose|p: (int, int)| x.contains(p) && f0(p) == q;
            }
            assert forall|q: (int, int)| x.contains(q) implies x.map(f0).contains(q) by {
                assert(f0(q) == q);
            }
        }
        lemma_shift_all_rigid(s, k, d, d2);
    } else {
        // one quarter turn peels off: rot_ccw_n(p, k2) == rot_ccw_n(rot_ccw(p), k2 - 1)
        let km = (k2 - 1) as nat;
        assert(rigid(x, k2, d2) =~= rigid(rot_all(x), km, d2)) by {
            let fk = |p: (int, int)| rot_ccw_n(p, k2);
            let fm = |p: (int, int)| rot_ccw_n(p, km);
            let fr = |p: (int, int)| rot_ccw(p);
            let g = |p: (int, int)| pt_add(p, d2);
            assert forall|q: (int, int)| #[trigger] rigid(x, k2, d2).contains(q) implies rigid(
                rot_all(x),
                km,
                d2,
            ).contains(q) by {
                let m = choose|m: (int, int)| x.map(fk).contains(m) && g(m) == q;
                let p = choose|p: (int, int)| x.contains(p) && fk(p) == m;
                lemma_rot_ccw_n_add(p, 1, km);
                reveal_with_fuel(rot_ccw_n, 2);
                assert(rot_ccw_n(p, 1) == rot_ccw(p));
                assert(fm(fr(p)) == m);
                assert(rot_all(x).contains(fr(p)));
                assert(rot_all(x).map(fm).contains(m));
            }
            assert forall|q: (int, int)| #[trigger]
                rigid(rot_all(x), km, d2).contains(q) implies rigid(x, k2, d2).contains(q) by {
                let m = choose|m: (int, int)| rot_all(x).map(fm).contains(m) && g(m) == q;
                let rp = choose|rp: (int, int)| rot_all(x).contains(rp) && fm(rp) == m;
                let p = choose|p: (int, int)| x.contains(p) && fr(p) == rp;
                lemma_rot_ccw_n_add(p, 1, km);
                reveal_with_fuel(rot_ccw_n, 2);
                assert(rot_ccw_n(p, 1) == rot_ccw(p));
                assert(fk(p) == m);
                assert(x.map(fk).contains(m));
            }
        }
        lemma_rot_all_rigid(s, k, d);
        assert(rot_all(x) =~= rigid(s, (k + 1) as nat, rot_ccw(d)));
        lemma_rigid_compose(s, (k + 1) as nat, rot_ccw(d), km, d2);
        assert(rot_ccw_n(rot_ccw(d), km) == rot_ccw_n(d, k2)) by {
            lemma_rot_ccw_n_add(d, 1, km);
            reveal_with_fuel(rot_ccw_n, 2);
            assert(rot_ccw_n(d, 1) == rot_ccw(d));
        }
    }
}

/// Rotation by quarter turns is injective.
pub proof fn lemma_rot_ccw_n_injective(a: (int, int), b: (int, int), n: nat)
    requires
        rot_ccw_n(a, n) == rot_ccw_n(b, n),
    ensures
        a == b,
    decreases n,
{
    if n > 0 {
        assert(rot_ccw(rot_ccw_n(a, (n - 1) as nat)) == rot_ccw(rot_ccw_n(b, (n - 1) as nat)));
        assert(rot_ccw_n(a, (n - 1) as nat) == rot_ccw_n(b, (n - 1) as nat));
        lemma_rot_ccw_n_injective(a, b, (n - 1) as nat);
    }
}

/// A rigid motion maps a union to the union of the images.
pub proof fn lemma_rigid_of_union(s1: Set<(int, int)>, s2: Set<(int, int)>, k: nat, d: (int, int))
    ensures
        rigid(s1.union(s2), k, d) =~= rigid(s1, k, d).union(rigid(s2, k, d)),
{
    let f = |p: (int, int)| rot_ccw_n(p, k);
    let g = |p: (int, int)| pt_add(p, d);
    assert forall|q: (int, int)| #[trigger] rigid(s1.union(s2), k, d).contains(q) implies rigid(
        s1,
        k,
        d,
    ).union(rigid(s2, k, d)).contains(q) by {
        let m = choose|m: (int, int)| s1.union(s2).map(f).contains(m) && g(m) == q;
        let p = choose|p: (int, int)| s1.union(s2).contains(p) && f(p) == m;
        if s1.contains(p) {
            assert(s1.map(f).contains(m));
        } else {
            assert(s2.map(f).contains(m));
        }
    }
    assert forall|q: (int, int)| #[trigger]
        rigid(s1, k, d).union(rigid(s2, k, d)).contains(q) implies rigid(
        s1.union(s2),
        k,
        d,
    ).contains(q) by {
        if rigid(s1, k, d).contains(q) {
            let m = choose|m: (int, int)| s1.map(f).contains(m) && g(m) == q;
            let p = choose|p: (int, int)| s1.contains(p) && f(p) == m;
            assert(s1.union(s2).contains(p));
            assert(s1.union(s2).map(f).contains(m));
        } else {
            let m = choose|m: (int, int)| s2.map(f).contains(m) && g(m) == q;
            let p = choose|p: (int, int)| s2.contains(p) && f(p) == m;
            assert(s1.union(s2).contains(p));
            assert(s1.union(s2).map(f).contains(m));
        }
    }
}

/// A rigid motion keeps disjoint sets disjoint.
pub proof fn lemma_rigid_disjoint(s1: Set<(int, int)>, s2: Set<(int, int)>, k: nat, d: (int, int))
    requires
        s1.disjoint(s2),
    ensures
        rigid(s1, k, d).disjoint(rigid(s2, k, d)),
{
    let f = |p: (int, int)| rot_ccw_n(p, k);
    let g = |p: (int, int)| pt_add(p, d);
    assert forall|q: (int, int)| #[trigger] rigid(s1, k, d).contains(q) implies !rigid(
        s2,
        k,
        d,
    ).contains(q) by {
        if rigid(s2, k, d).contains(q) {
            let m1 = choose|m: (int, int)| s1.map(f).contains(m) && g(m) == q;
            let p1 = choose|p: (int, int)| s1.contains(p) && f(p) == m1;
            let m2 = choose|m: (int, int)| s2.map(f).contains(m) && g(m) == q;
            let p2 = choose|p: (int, int)| s2.contains(p) && f(p) == m2;
            assert(m1 == m2);
            lemma_rot_ccw_n_injective(p1, p2, k);
        }
    }
}


/// Two translations compose into the translation by the vector sum.
pub proof fn lemma_shift_all_compose(s: Set<(int, int)>, d: (int, int), e: (int, int))
    ensures
        shift_all(shift_all(s, d), e) =~= shift_all(s, pt_add(d, e)),
{
    let f = |p: (int, int)| pt_add(p, d);
    let g = |p: (int, int)| pt_add(p, e);
    let h = |p: (int, int)| pt_add(p, pt_add(d, e));
    assert forall|q: (int, int)| #[trigger]
        shift_all(shift_all(s, d), e).contains(q) implies shift_all(s, pt_add(d, e)).contains(
        q,
    ) by {
        let m = choose|m: (int, int)| shift_all(s, d).contains(m) && g(m) == q;
        let p = choose|p: (int, int)| s.contains(p) && f(p) == m;
        assert(h(p) == q);
    }
    assert forall|q: (int, int)| #[trigger]
        shift_all(s, pt_add(d, e)).contains(q) implies shift_all(shift_all(s, d), e).contains(
        q,
    ) by {
        let p = choose|p: (int, int)| s.contains(p) && h(p) == q;
        assert(shift_all(s, d).contains(f(p)));
        assert(g(f(p)) == q);
    }
}

/// Adjacency is preserved by translation.
pub proof fn lemma_adj_shift(a: (int, int), b: (int, int), d: (int, int))
    ensures
        adj(pt_add(a, d), pt_add(b, d)) == adj(a, b),
{
}

/// Adjacency is preserved by rotation.
pub proof fn lemma_adj_rot(a: (int, int), b: (int, int))
    ensures
        adj(rot_ccw(a), rot_ccw(b)) == adj(a, b),
{
}


/// The four unit steps, in the order right, up, left, down.
pub fn neighbours() -> (r: [Coord; 4])
    ensures
        r@.len() == 4,
        r@[0]@ == (1int, 0int),
        r@[1]@ == (0int, 1int),
        r@[2]@ == (-1int, 0int),
        r@[3]@ == (0int, -1int),
{
    [
        Coord { x: 1, y: 0 },
        Coord { x: 0, y: 1 },
        Coord { x: -1, y: 0 },
        Coord { x: 0, y: -1 },
    ]
}


} // verus!
