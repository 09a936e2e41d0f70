//! Paths and reachability over an edge list, and the lemmas that let a
//! traversal argue about them: extending a path by one edge, peeling the
//! last edge off, closure under adjacency, and saturation of bounded
//! reachability.

use vstd::prelude::*;

verus! {

use crate::network::EdgeView;
use crate::network::neighbor_entries;
use crate::network::neighbors_of;

/// Whether edge `e` joins `x` and `y`, in either direction.
pub open spec fn edge_connects(e: EdgeView, x: Seq<char>, y: Seq<char>) -> bool {
    (e.a == x && e.b == y) || (e.a == y && e.b == x)
}

/// Whether some edge joins `x` and `y`.
pub open spec fn adjacent(es: Seq<EdgeView>, x: Seq<char>, y: Seq<char>) -> bool {
    exists|i: int| 0 <= i < es.len() && edge_connects(#[trigger] es[i], x, y)
}

/// A path: a non-empty node sequence whose consecutive nodes are
/// adjacent. A single node is a path with no edges.
pub open spec fn is_path(es: Seq<EdgeView>, p: Seq<Seq<char>>) -> bool {
    p.len() >= 1 && forall|i: int| 0 <= i < p.len() - 1 ==> adjacent(es, #[trigger] p[i], p[i + 1])
}

/// Whether a path from `s` to `t` with at most `k` edges exists. For
/// negative `k` this is false, even for `t == s`.
pub open spec fn reaches_within(es: Seq<EdgeView>, s: Seq<char>, t: Seq<char>, k: int) -> bool {
    exists|p: Seq<Seq<char>>|
        #[trigger] is_path(es, p) && p.first() == s && p.last() == t && p.len() <= k + 1
}

/// Whether any path from `s` to `t` exists. `s` always reaches itself.
pub open spec fn reaches(es: Seq<EdgeView>, s: Seq<char>, t: Seq<char>) -> bool {
    exists|p: Seq<Seq<char>>| #[trigger] is_path(es, p) && p.first() == s && p.last() == t
}

/// The one-node path makes every node reach itself with no edges.
pub proof fn lemma_reaches_self(es: Seq<EdgeView>, s: Seq<char>)
    ensures
        reaches_within(es, s, s, 0),
        reaches(es, s, s),
{
    let p = seq![s];
    assert(is_path(es, p));
    assert(p.first() == s && p.last() == s && p.len() <= 1);
}

/// A path within `k1` edges is a path within any larger bound.
pub proof fn lemma_reaches_within_mono(
    es: Seq<EdgeView>,
    s: Seq<char>,
    t: Seq<char>,
    k1: int,
    k2: int,
)
    requires
        reaches_within(es, s, t, k1),
        k1 <= k2,
    ensures
        reaches_within(es, s, t, k2),
{
    let p = choose|p: Seq<Seq<char>>|
        #[trigger] is_path(es, p) && p.first() == s && p.last() == t && p.len() <= k1 + 1;
    assert(is_path(es, p) && p.first() == s && p.last() == t && p.len() <= k2 + 1);
}

/// Bounded reachability is reachability.
pub proof fn lemma_reaches_from_within(es: Seq<EdgeView>, s: Seq<char>, t: Seq<char>, k: int)
    requires
        reaches_within(es, s, t, k),
    ensures
        reaches(es, s, t),
{
    let p = choose|p: Seq<Seq<char>>|
        #[trigger] is_path(es, p) && p.first() == s && p.last() == t && p.len() <= k + 1;
    assert(is_path(es, p) && p.first() == s && p.last() == t);
}

/// Any witness path bounds reachability by its own length.
pub proof fn lemma_reaches_gives_within(es: Seq<EdgeView>, s: Seq<char>, t: Seq<char>)
    requires
        reaches(es, s, t),
    ensures
        exists|k: int| 0 <= k && #[trigger] reaches_within(es, s, t, k),
{
    let p = choose|p: Seq<Seq<char>>| #[trigger] is_path(es, p) && p.first() == s && p.last() == t;
    assert(p.len() <= (p.len() - 1) + 1);
    assert(reaches_within(es, s, t, p.len() - 1));
}

/// Extending a path by an adjacent node adds one edge to the bound.
pub proof fn lemma_reaches_step(
    es: Seq<EdgeView>,
    s: Seq<char>,
    x: Seq<char>,
    y: Seq<char>,
    k: int,
)
    requires
        reaches_within(es, s, x, k),
        adjacent(es, x, y),
    ensures
        reaches_within(es, s, y, k + 1),
{
    let p = choose|p: Seq<Seq<char>>|
        #[trigger] is_path(es, p) && p.first() == s && p.last() == x && p.len() <= k + 1;
    let q = p.push(y);
    assert forall|i: int| 0 <= i < q.len() - 1 implies adjacent(es, #[trigger] q[i], q[i + 1]) by {
        if i < p.len() - 1 {
            assert(q[i] == p[i] && q[i + 1] == p[i + 1]);
        } else {
            assert(q[i] == p.last() && q[i + 1] == y);
        }
    }
    assert(is_path(es, q));
    assert(q.first() == s && q.last() == y && q.len() <= k + 2);
}

/// A reachable node within `k + 1` edges is reachable within `k`, or is
/// adjacent to a node reachable within `k`.
pub proof fn lemma_reaches_unfold(es: Seq<EdgeView>, s: Seq<char>, n: Seq<char>, k: int)
    requires
        reaches_within(es, s, n, k + 1),
        k >= 0,
    ensures
        reaches_within(es, s, n, k) || exists|m: Seq<char>|
            #[trigger] reaches_within(es, s, m, k) && adjacent(es, m, n),
{
    let p = choose|p: Seq<Seq<char>>|
        #[trigger] is_path(es, p) && p.first() == s && p.last() == n && p.len() <= k + 2;
    if p.len() <= k + 1 {
        assert(reaches_within(es, s, n, k));
    } else {
        let q = p.drop_last();
        let m = q.last();
        assert(q.len() == p.len() - 1 >= 2 - 1);
        assert forall|i: int| 0 <= i < q.len() - 1 implies adjacent(es, #[trigger] q[i], q[i + 1]) by {
            assert(q[i] == p[i] && q[i + 1] == p[i + 1]);
            assert(adjacent(es, p[i], p[i + 1]));
        }
        assert(is_path(es, q));
        assert(q.first() == s && q.len() <= k + 1);
        assert(reaches_within(es, s, m, k));
        assert(adjacent(es, p[p.len() - 2], p[p.len() - 1]));
        assert(adjacent(es, m, n));
    }
}

/// Once a level adds no new node, no later level adds one: everything
/// reachable at all is reachable within `k - 1` edges.
pub proof fn lemma_saturation(es: Seq<EdgeView>, s: Seq<char>, k: int, j: int)
    requires
        k >= 1,
        j >= 0,
        forall|n: Seq<char>| #[trigger]
            reaches_within(es, s, n, k) ==> reaches_within(es, s, n, k - 1),
    ensures
        forall|n: Seq<char>| #[trigger]
            reaches_within(es, s, n, j) ==> reaches_within(es, s, n, k - 1),
    decreases j,
{
    if j <= k - 1 {
        assert forall|n: Seq<char>| #[trigger] reaches_within(es, s, n, j) implies reaches_within(
            es,
            s,
            n,
            k - 1,
        ) by {
            lemma_reaches_within_mono(es, s, n, j, k - 1);
        }
    } else {
        lemma_saturation(es, s, k, j - 1);
        assert forall|n: Seq<char>| #[trigger] reaches_within(es, s, n, j) implies reaches_within(
            es,
            s,
            n,
            k - 1,
        ) by {
            lemma_reaches_unfold(es, s, n, j - 1);
            if reaches_within(es, s, n, j - 1) {
                assert(reaches_within(es, s, n, k - 1));
            } else {
                let m = choose|m: Seq<char>|
                    #[trigger] reaches_within(es, s, m, j - 1) && adjacent(es, m, n);
                assert(reaches_within(es, s, m, k - 1));
                lemma_reaches_step(es, s, m, n, k - 1);
                assert(reaches_within(es, s, n, k));
            }
        }
    }
}

/// Reachability extends across one further edge.
pub proof fn lemma_reaches_adjacent(es: Seq<EdgeView>, s: Seq<char>, x: Seq<char>, y: Seq<char>)
    requires
        reaches(es, s, x),
        adjacent(es, x, y),
    ensures
        reaches(es, s, y),
{
    lemma_reaches_gives_within(es, s, x);
    let k = choose|k: int| 0 <= k && #[trigger] reaches_within(es, s, x, k);
    lemma_reaches_step(es, s, x, y, k);
    lemma_reaches_from_within(es, s, y, k + 1);
}

/// A set that contains the start of a path and is closed under adjacency
/// contains the path's end.
pub proof fn lemma_closed_path(es: Seq<EdgeView>, cl: Set<Seq<char>>, p: Seq<Seq<char>>)
    requires
        is_path(es, p),
        cl.contains(p.first()),
        forall|x: Seq<char>, y: Seq<char>|
            cl.contains(x) && #[trigger] adjacent(es, x, y) ==> cl.contains(y),
    ensures
        cl.contains(p.last()),
    decreases p.len(),
{
    if p.len() > 1 {
        let q = p.drop_last();
        assert forall|i: int| 0 <= i < q.len() - 1 implies adjacent(es, #[trigger] q[i], q[i + 1]) by {
            assert(q[i] == p[i] && q[i + 1] == p[i + 1]);
            assert(adjacent(es, p[i], p[i + 1]));
        }
        assert(is_path(es, q));
        assert(q.first() == p.first());
        lemma_closed_path(es, cl, q);
        assert(adjacent(es, p[p.len() - 2], p[p.len() - 1]));
    }
}

/// A set containing `s` and closed under adjacency contains everything
/// `s` reaches.
pub proof fn lemma_closed_reaches(
    es: Seq<EdgeView>,
    cl: Set<Seq<char>>,
    s: Seq<char>,
    t: Seq<char>,
)
    requires
        reaches(es, s, t),
        cl.contains(s),
        forall|x: Seq<char>, y: Seq<char>|
            cl.contains(x) && #[trigger] adjacent(es, x, y) ==> cl.contains(y),
    ensures
        cl.contains(t),
{
    let p = choose|p: Seq<Seq<char>>| #[trigger] is_path(es, p) && p.first() == s && p.last() == t;
    lemma_closed_path(es, cl, p);
}

/// The neighbor list of `x` holds exactly the nodes adjacent to `x`.
pub proof fn lemma_neighbors_adjacent(es: Seq<EdgeView>, x: Seq<char>, y: Seq<char>)
    ensures
        neighbors_of(es, x).contains(y) == adjacent(es, x, y),
    decreases es.len(),
{
    if es.len() == 0 {
    } else {
        let pre = es.drop_last();
        let e = es.last();
        lemma_neighbors_adjacent(pre, x, y);
        let whole = neighbors_of(pre, x) + neighbor_entries(e, x);
        // membership in a concatenation splits over the parts
        assert forall|z: Seq<char>| whole.contains(z) implies neighbors_of(pre, x).contains(z)
            || neighbor_entries(e, x).contains(z) by {
            let i = choose|i: int| 0 <= i < whole.len() && whole[i] == z;
            if i < neighbors_of(pre, x).len() {
                assert(neighbors_of(pre, x)[i] == z);
            } else {
                assert(neighbor_entries(e, x)[i - neighbors_of(pre, x).len()] == z);
            }
        }
        if neighbors_of(pre, x).contains(y) {
            let i = choose|i: int| 0 <= i < neighbors_of(pre, x).len() && neighbors_of(pre, x)[i]
                == y;
            assert(whole[i] == y);
        }
        if neighbor_entries(e, x).contains(y) {
            let i = choose|i: int|
                0 <= i < neighbor_entries(e, x).len() && neighbor_entries(e, x)[i] == y;
            assert(whole[neighbors_of(pre, x).len() + i] == y);
        }
        // adjacency in the longer list splits over old edges and the new one
        if adjacent(es, x, y) {
            let i = choose|i: int| 0 <= i < es.len() && edge_connects(es[i], x, y);
            if i < pre.len() {
                assert(edge_connects(pre[i], x, y));
            } else {
                assert(edge_connects(e, x, y));
                assert(neighbor_entries(e, x).contains(y)) by {
                    if e.a == x {
                        assert(neighbor_entries(e, x)[0] == e.b);
                    } else {
                        assert(neighbor_entries(e, x)[0] == e.a);
                    }
                }
            }
        }
        if adjacent(pre, x, y) {
            let i = choose|i: int| 0 <= i < pre.len() && edge_connects(pre[i], x, y);
            assert(edge_connects(es[i], x, y));
        }
        if neighbor_entries(e, x).contains(y) {
            assert(edge_connects(e, x, y)) by {
                let i = choose|i: int|
                    0 <= i < neighbor_entries(e, x).len() && neighbor_entries(e, x)[i] == y;
            }
            assert(edge_connects(es[es.len() - 1], x, y));
        }
    }
}

} // verus!
