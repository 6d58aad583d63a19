//! 4-connectivity over cell sets, with or without a set of severed edges.
//!
//! A path is a non-empty sequence of cells of the set in which consecutive
//! cells share a unit edge; the cutter additionally forbids crossing any
//! severed edge. Plain connectivity is reachability with no severed edges.

use vstd::prelude::*;

use crate::coord::adj;

verus! {

/// The canonical unordered key of the edge between two cells: the
/// componentwise minimum first, the componentwise maximum second.
pub open spec fn edge_key(a: (int, int), b: (int, int)) -> ((int, int), (int, int)) {
    (
        (if a.0 <= b.0 { a.0 } else { b.0 }, if a.1 <= b.1 { a.1 } else { b.1 }),
        (if a.0 <= b.0 { b.0 } else { a.0 }, if a.1 <= b.1 { b.1 } else { a.1 }),
    )
}

/// A walk through `s` that never crosses an edge in `sep`.
pub open spec fn is_path(
    p: Seq<(int, int)>,
    s: Set<(int, int)>,
    sep: Set<((int, int), (int, int))>,
) -> bool {
    &&& p.len() >= 1
    &&& forall|i: int| 0 <= i < p.len() ==> s.contains(#[trigger] p[i])
    &&& forall|i: int| 0 <= i < p.len() - 1 ==> adj(#[trigger] p[i], p[i + 1])
    &&& forall|i: int| 0 <= i < p.len() - 1 ==> !sep.contains(edge_key(#[trigger] p[i], p[i + 1]))
}

/// `b` can be reached from `a` through `s` without crossing `sep`.
pub open spec fn reach(
    s: Set<(int, int)>,
    sep: Set<((int, int), (int, int))>,
    a: (int, int),
    b: (int, int),
) -> bool {
    exists|p: Seq<(int, int)>| is_path(p, s, sep) && p.first() == a && p.last() == b
}

/// The cells of `s` reachable from `from` without crossing `sep`.
pub open spec fn reach_set(
    s: Set<(int, int)>,
    sep: Set<((int, int), (int, int))>,
    from: (int, int),
) -> Set<(int, int)> {
    Set::new(|c: (int, int)| reach(s, sep, from, c))
}

/// Empty set of severed edges: plain 4-connectivity.
pub open spec fn no_edges() -> Set<((int, int), (int, int))> {
    Set::empty()
}

/// Every cell of `s` can reach every other cell of `s`.
pub open spec fn connected(s: Set<(int, int)>) -> bool {
    forall|a: (int, int), b: (int, int)|
        s.contains(a) && s.contains(b) ==> reach(s, no_edges(), a, b)
}

pub proof fn lemma_reach_refl(
    s: Set<(int, int)>,
    sep: Set<((int, int), (int, int))>,
    a: (int, int),
)
    requires
        s.contains(a),
    ensures
        reach(s, sep, a, a),
{
    let p = seq![a];
    assert(is_path(p, s, sep) && p.first() == a && p.last() == a);
}

pub proof fn lemma_reach_step(
    s: Set<(int, int)>,
    sep: Set<((int, int), (int, int))>,
    a: (int, int),
    b: (int, int),
    c: (int, int),
)
    requires
        reach(s, sep, a, b),
        s.contains(c),
        adj(b, c),
        !sep.contains(edge_key(b, c)),
    ensures
        reach(s, sep, a, c),
{
    let p = choose|p: Seq<(int, int)>| is_path(p, s, sep) && p.first() == a && p.last() == b;
    let q = p.push(c);
    assert forall|i: int| 0 <= i < q.len() - 1 implies adj(#[trigger] q[i], q[i + 1])
        && !sep.contains(edge_key(q[i], q[i + 1])) by {
        if i < p.len() - 1 {
            assert(q[i] == p[i] && q[i + 1] == p[i + 1]);
        } else {
            assert(q[i] == p.last() && q[i + 1] == c);
        }
    }
    assert(is_path(q, s, sep) && q.first() == a && q.last() == c);
}

pub proof fn lemma_reach_trans(
    s: Set<(int, int)>,
    sep: Set<((int, int), (int, int))>,
    a: (int, int),
    b: (int, int),
    c: (int, int),
)
    requires
        reach(s, sep, a, b),
        reach(s, sep, b, c),
    ensures
        reach(s, sep, a, c),
{
    let p = choose|p: Seq<(int, int)>| is_path(p, s, sep) && p.first() == a && p.last() == b;
    let q = choose|q: Seq<(int, int)>| is_path(q, s, sep) && q.first() == b && q.last() == c;
    let r = p + q.drop_first();
    assert(r.len() == p.len() + q.len() - 1);
    assert forall|i: int| 0 <= i < r.len() implies s.contains(#[trigger] r[i]) by {
        if i < p.len() {
            assert(r[i] == p[i]);
        } else {
            assert(r[i] == q[i - p.len() + 1]);
        }
    }
    assert forall|i: int| 0 <= i < r.len() - 1 implies adj(#[trigger] r[i], r[i + 1])
        && !sep.contains(edge_key(r[i], r[i + 1])) by {
        if i < p.len() - 1 {
            assert(r[i] == p[i] && r[i + 1] == p[i + 1]);
        } else if i == p.len() - 1 {
            assert(r[i] == p.last() && p.last() == b && b == q.first());
            assert(r[i] == q[0] && r[i + 1] == q[1]);
        } else {
            assert(r[i] == q[i - p.len() + 1] && r[i + 1] == q[i - p.len() + 2]);
        }
    }
    assert(is_path(r, s, sep) && r.first() == a && r.last() == c);
}

pub proof fn lemma_reach_symm(
    s: Set<(int, int)>,
    sep: Set<((int, int), (int, int))>,
    a: (int, int),
    b: (int, int),
)
    requires
        reach(s, sep, a, b),
    ensures
        reach(s, sep, b, a),
{
    let p = choose|p: Seq<(int, int)>| is_path(p, s, sep) && p.first() == a && p.last() == b;
    lemma_path_reverse(p, s, sep);
}

proof fn lemma_path_reverse(
    p: Seq<(int, int)>,
    s: Set<(int, int)>,
    sep: Set<((int, int), (int, int))>,
)
    requires
        is_path(p, s, sep),
    ensures
        reach(s, sep, p.last(), p.first()),
    decreases p.len(),
{
    if p.len() == 1 {
        lemma_reach_refl(s, sep, p.first());
    } else {
        let q = p.drop_first();
        assert forall|i: int| 0 <= i < q.len() - 1 implies adj(#[trigger] q[i], q[i + 1])
            && !sep.contains(edge_key(q[i], q[i + 1])) by {
            assert(q[i] == p[i + 1] && q[i + 1] == p[i + 2]);
        }
        assert(is_path(q, s, sep));
        lemma_path_reverse(q, s, sep);
        assert(q.last() == p.last() && q.first() == p[1]);
        assert(adj(p[0], p[1]) && !sep.contains(edge_key(p[0], p[1])));
        assert(adj(p[1], p[0]));
        assert(edge_key(p[1], p[0]) == edge_key(p[0], p[1]));
        lemma_reach_step(s, sep, p.last(), p[1], p[0]);
    }
}

/// A path is also a path of any superset with the same severed edges.
pub proof fn lemma_reach_subset(
    s: Set<(int, int)>,
    t: Set<(int, int)>,
    sep: Set<((int, int), (int, int))>,
    a: (int, int),
    b: (int, int),
)
    requires
        reach(s, sep, a, b),
        s.subset_of(t),
    ensures
        reach(t, sep, a, b),
{
    let p = choose|p: Seq<(int, int)>| is_path(p, s, sep) && p.first() == a && p.last() == b;
    assert(is_path(p, t, sep));
}

/// Growing a connected set by one cell adjacent to it keeps it connected.
pub proof fn lemma_connected_insert(s: Set<(int, int)>, n: (int, int), c: (int, int))
    requires
        connected(s),
        s.contains(n),
        adj(n, c),
    ensures
        connected(s.insert(c)),
{
    let t = s.insert(c);
    assert forall|a: (int, int), b: (int, int)| t.contains(a) && t.contains(b) implies reach(
        t,
        no_edges(),
        a,
        b,
    ) by {
        if s.contains(a) && s.contains(b) {
            lemma_reach_subset(s, t, no_edges(), a, b);
        } else if s.contains(a) && b == c {
            lemma_reach_subset(s, t, no_edges(), a, n);
            lemma_reach_step(t, no_edges(), a, n, c);
        } else if a == c && s.contains(b) {
            lemma_reach_refl(t, no_edges(), c);
            lemma_reach_step(t, no_edges(), c, c, n);
            lemma_reach_subset(s, t, no_edges(), n, b);
            lemma_reach_trans(t, no_edges(), c, n, b);
        } else {
            lemma_reach_refl(t, no_edges(), c);
        }
    }
}

/// Two connected sets that touch form a connected union.
pub proof fn lemma_connected_union_touch(s: Set<(int, int)>, t: Set<(int, int)>)
    requires
        connected(s),
        connected(t),
        crate::coordset::sets_touch(s, t),
    ensures
        connected(s.union(t)),
{
    let u = s.union(t);
    let (cs, ct) = choose|cs: (int, int), ct: (int, int)|
        s.contains(cs) && t.contains(ct) && adj(cs, ct);
    assert forall|a: (int, int), b: (int, int)| u.contains(a) && u.contains(b) implies reach(
        u,
        no_edges(),
        a,
        b,
    ) by {
        if s.contains(a) && s.contains(b) {
            lemma_reach_subset(s, u, no_edges(), a, b);
        } else if t.contains(a) && t.contains(b) {
            lemma_reach_subset(t, u, no_edges(), a, b);
        } else if s.contains(a) && t.contains(b) {
            lemma_cross_touch(s, t, cs, ct, a, b);
        } else {
            lemma_cross_touch(s, t, cs, ct, b, a);
            lemma_reach_symm(u, no_edges(), b, a);
        }
    }
}

proof fn lemma_cross_touch(
    s: Set<(int, int)>,
    t: Set<(int, int)>,
    cs: (int, int),
    ct: (int, int),
    a: (int, int),
    b: (int, int),
)
    requires
        connected(s),
        connected(t),
        s.contains(cs),
        t.contains(ct),
        adj(cs, ct),
        s.contains(a),
        t.contains(b),
    ensures
        reach(s.union(t), no_edges(), a, b),
{
    let u = s.union(t);
    lemma_reach_subset(s, u, no_edges(), a, cs);
    lemma_reach_step(u, no_edges(), a, cs, ct);
    lemma_reach_subset(t, u, no_edges(), ct, b);
    lemma_reach_trans(u, no_edges(), a, ct, b);
}

/// A connected set occupies every row between two of its cells: a path
/// changes its y coordinate by at most one per step.
pub proof fn lemma_connected_row_interval(s: Set<(int, int)>, a: (int, int), b: (int, int), y0: int)
    requires
        connected(s),
        s.contains(a),
        s.contains(b),
        a.1 <= y0 <= b.1,
    ensures
        exists|p: (int, int)| s.contains(p) && p.1 == y0,
{
    assert(reach(s, no_edges(), a, b));
    let p = choose|p: Seq<(int, int)>|
        is_path(p, s, no_edges()) && p.first() == a && p.last() == b;
    lemma_path_row(p, s, no_edges(), y0);
    let i = choose|i: int| 0 <= i < p.len() && p[i].1 == y0;
    assert(s.contains(p[i]));
}

proof fn lemma_path_row(
    p: Seq<(int, int)>,
    s: Set<(int, int)>,
    sep: Set<((int, int), (int, int))>,
    y0: int,
)
    requires
        is_path(p, s, sep),
        p.first().1 <= y0 <= p.last().1,
    ensures
        exists|i: int| 0 <= i < p.len() && p[i].1 == y0,
    decreases p.len(),
{
    if p.first().1 == y0 {
        assert(0 <= 0 < p.len() && p[0].1 == y0);
    } else {
        assert(p.len() >= 2);
        let q = p.drop_first();
        assert forall|i: int| 0 <= i < q.len() - 1 implies adj(#[trigger] q[i], q[i + 1])
            && !sep.contains(edge_key(q[i], q[i + 1])) by {
            assert(q[i] == p[i + 1] && q[i + 1] == p[i + 2]);
        }
        assert(is_path(q, s, sep));
        assert(adj(p[0], p[1]));
        assert(q.first() == p[1] && q.last() == p.last());
        assert(p[1].1 <= p[0].1 + 1 <= y0);
        lemma_path_row(q, s, sep, y0);
        let i = choose|i: int| 0 <= i < q.len() && q[i].1 == y0;
        assert(p[i + 1] == q[i]);
    }
}

/// Connectivity is preserved by translation.
pub proof fn lemma_connected_shift(s: Set<(int, int)>, d: (int, int))
    requires
        connected(s),
    ensures
        connected(crate::coord::shift_all(s, d)),
{
    let t = crate::coord::shift_all(s, d);
    let f = |p: (int, int)| crate::coord::pt_add(p, d);
    assert forall|a: (int, int), b: (int, int)| t.contains(a) && t.contains(b) implies reach(
        t,
        no_edges(),
        a,
        b,
    ) by {
        let a0 = choose|a0: (int, int)| s.contains(a0) && f(a0) == a;
        let b0 = choose|b0: (int, int)| s.contains(b0) && f(b0) == b;
        assert(reach(s, no_edges(), a0, b0));
        let p = choose|p: Seq<(int, int)>|
            is_path(p, s, no_edges()) && p.first() == a0 && p.last() == b0;
        let q = p.map_values(f);
        assert forall|i: int| 0 <= i < q.len() implies t.contains(#[trigger] q[i]) by {
            assert(q[i] == f(p[i]) && s.contains(p[i]));
        }
        assert forall|i: int| 0 <= i < q.len() - 1 implies adj(#[trigger] q[i], q[i + 1]) by {
            assert(q[i] == f(p[i]) && q[i + 1] == f(p[i + 1]));
            crate::coord::lemma_adj_shift(p[i], p[i + 1], d);
        }
        assert(is_path(q, t, no_edges()) && q.first() == a && q.last() == b);
    }
}

/// Connectivity is preserved by a quarter turn.
pub proof fn lemma_connected_rot(s: Set<(int, int)>)
    requires
        connected(s),
    ensures
        connected(crate::coord::rot_all(s)),
{
    let t = crate::coord::rot_all(s);
    let f = |p: (int, int)| crate::coord::rot_ccw(p);
    assert forall|a: (int, int), b: (int, int)| t.contains(a) && t.contains(b) implies reach(
        t,
        no_edges(),
        a,
        b,
    ) by {
        let a0 = choose|a0: (int, int)| s.contains(a0) && f(a0) == a;
        let b0 = choose|b0: (int, int)| s.contains(b0) && f(b0) == b;
        assert(reach(s, no_edges(), a0, b0));
        let p = choose|p: Seq<(int, int)>|
            is_path(p, s, no_edges()) && p.first() == a0 && p.last() == b0;
        let q = p.map_values(f);
        assert forall|i: int| 0 <= i < q.len() implies t.contains(#[trigger] q[i]) by {
            assert(q[i] == f(p[i]) && s.contains(p[i]));
        }
        assert forall|i: int| 0 <= i < q.len() - 1 implies adj(#[trigger] q[i], q[i + 1]) by {
            assert(q[i] == f(p[i]) && q[i + 1] == f(p[i + 1]));
            crate::coord::lemma_adj_rot(p[i], p[i + 1]);
        }
        assert(is_path(q, t, no_edges()) && q.first() == a && q.last() == b);
    }
}

/// A set that contains `from` and is closed under uncut adjacency within `s`
/// contains everything reachable from `from`.
pub proof fn lemma_reach_closed(
    s: Set<(int, int)>,
    sep: Set<((int, int), (int, int))>,
    from: (int, int),
    closed: Set<(int, int)>,
)
    requires
        closed.contains(from),
        forall|c: (int, int), d: (int, int)|
            closed.contains(c) && s.contains(d) && adj(c, d) && !sep.contains(edge_key(c, d))
                ==> closed.contains(d),
    ensures
        forall|b: (int, int)| reach(s, sep, from, b) ==> closed.contains(b),
{
    assert forall|b: (int, int)| reach(s, sep, from, b) implies closed.contains(b) by {
        let p = choose|p: Seq<(int, int)>|
            is_path(p, s, sep) && p.first() == from && p.last() == b;
        lemma_path_stays_closed(p, s, sep, closed);
    }
}

proof fn lemma_path_stays_closed(
    p: Seq<(int, int)>,
    s: Set<(int, int)>,
    sep: Set<((int, int), (int, int))>,
    closed: Set<(int, int)>,
)
    requires
        is_path(p, s, sep),
        closed.contains(p.first()),
        forall|c: (int, int), d: (int, int)|
            closed.contains(c) && s.contains(d) && adj(c, d) && !sep.contains(edge_key(c, d))
                ==> closed.contains(d),
    ensures
        closed.contains(p.last()),
    decreases p.len(),
{
    if p.len() > 1 {
        assert(adj(p[0], p[1]) && !sep.contains(edge_key(p[0], p[1])) && s.contains(p[1]));
        assert(closed.contains(p[1]));
        let q = p.drop_first();
        assert forall|i: int| 0 <= i < q.len() - 1 implies adj(#[trigger] q[i], q[i + 1])
            && !sep.contains(edge_key(q[i], q[i + 1])) by {
            assert(q[i] == p[i + 1] && q[i + 1] == p[i + 2]);
        }
        assert(is_path(q, s, sep));
        lemma_path_stays_closed(q, s, sep, closed);
    }
}

/// Every prefix cell of a path is itself reachable from the start, and the
/// rest of the path reaches the end: a path can be split at any cell.
proof fn lemma_path_split(
    p: Seq<(int, int)>,
    s: Set<(int, int)>,
    sep: Set<((int, int), (int, int))>,
    i: int,
)
    requires
        is_path(p, s, sep),
        0 <= i < p.len(),
    ensures
        reach(s, sep, p.first(), p[i]),
        reach(s, sep, p[i], p.last()),
{
    let pre = p.take(i + 1);
    assert forall|j: int| 0 <= j < pre.len() - 1 implies adj(#[trigger] pre[j], pre[j + 1])
        && !sep.contains(edge_key(pre[j], pre[j + 1])) by {
        assert(pre[j] == p[j] && pre[j + 1] == p[j + 1]);
    }
    assert(is_path(pre, s, sep) && pre.first() == p.first() && pre.last() == p[i]);
    let post = p.skip(i);
    assert forall|j: int| 0 <= j < post.len() - 1 implies adj(#[trigger] post[j], post[j + 1])
        && !sep.contains(edge_key(post[j], post[j + 1])) by {
        assert(post[j] == p[j + i] && post[j + 1] == p[j + i + 1]);
    }
    assert(is_path(post, s, sep) && post.first() == p[i] && post.last() == p.last());
}

/// The reachable region is connected as a plain cell set.
pub proof fn lemma_reach_set_connected(
    s: Set<(int, int)>,
    sep: Set<((int, int), (int, int))>,
    from: (int, int),
)
    ensures
        connected(reach_set(s, sep, from)),
{
    let rs = reach_set(s, sep, from);
    assert forall|a: (int, int), b: (int, int)| rs.contains(a) && rs.contains(b) implies reach(
        rs,
        no_edges(),
        a,
        b,
    ) by {
        lemma_reach_symm(s, sep, from, a);
        lemma_reach_trans(s, sep, a, from, b);
        let p = choose|p: Seq<(int, int)>| is_path(p, s, sep) && p.first() == a && p.last() == b;
        assert forall|i: int| 0 <= i < p.len() implies rs.contains(#[trigger] p[i]) by {
            lemma_path_split(p, s, sep, i);
            lemma_reach_trans(s, sep, from, a, p[i]);
        }
        assert(is_path(p, rs, no_edges()));
    }
}

/// If every cell outside the reachable region can reach every other such
/// cell, the complement region is connected as a plain cell set.
pub proof fn lemma_complement_connected(
    s: Set<(int, int)>,
    sep: Set<((int, int), (int, int))>,
    from: (int, int),
)
    requires
        forall|x: (int, int), y: (int, int)|
            s.contains(x) && s.contains(y) && !reach_set(s, sep, from).contains(x) && !reach_set(
                s,
                sep,
                from,
            ).contains(y) ==> reach(s, sep, x, y),
    ensures
        connected(s.difference(reach_set(s, sep, from))),
{
    let rs = reach_set(s, sep, from);
    let comp = s.difference(rs);
    assert forall|a: (int, int), b: (int, int)| comp.contains(a) && comp.contains(b) implies reach(
        comp,
        no_edges(),
        a,
        b,
    ) by {
        assert(reach(s, sep, a, b));
        let p = choose|p: Seq<(int, int)>| is_path(p, s, sep) && p.first() == a && p.last() == b;
        assert forall|i: int| 0 <= i < p.len() implies comp.contains(#[trigger] p[i]) by {
            lemma_path_split(p, s, sep, i);
            if rs.contains(p[i]) {
                lemma_reach_trans(s, sep, from, p[i], p.last());
                assert(rs.contains(b));
            }
        }
        assert(is_path(p, comp, no_edges()));
    }
}

} // verus!
