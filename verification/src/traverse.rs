//! The traversal engine: unweighted shortest paths by breadth-first
//! search, proved shortest, and seeded subnetwork extraction, proved to
//! capture exactly the connected components of the seeds.

use vstd::prelude::*;

verus! {

use crate::attributes::entries_map;
use crate::attributes::entry_keys;
use crate::attributes::lemma_entries_map_push;
use crate::attributes::lemma_table_map_absent;
use crate::attributes::lemma_table_map_push;
use crate::attributes::table_map;
use crate::attributes::table_nodes;
use crate::network::EdgeView;
use crate::network::InteractionNetwork;
use crate::network::submap_or_empty;
use crate::network::clone_string_vec;
use crate::network::contains_string;
use crate::network::lemma_contains_push;
use crate::network::lemma_no_dup_push;
use crate::network::neighbors_of;
use crate::network::views_of;
use crate::reach::adjacent;
use crate::reach::is_path;
use crate::reach::lemma_closed_reaches;
use crate::reach::lemma_neighbors_adjacent;
use crate::reach::lemma_reaches_gives_within;
use crate::reach::lemma_reaches_self;
use crate::reach::lemma_reaches_step;
use crate::reach::lemma_reaches_unfold;
use crate::reach::lemma_reaches_within_mono;
use crate::reach::lemma_saturation;
use crate::reach::reaches;
use crate::reach::reaches_within;

/// The node views of one stored path of a frontier.
pub open spec fn path_views(fr: Seq<Vec<String>>, i: int) -> Seq<Seq<char>> {
    views_of(fr[i]@)
}

/// Whether `n` is the final node of some stored path.
pub open spec fn frontier_ends_at(fr: Seq<Vec<String>>, n: Seq<char>) -> bool {
    exists|i: int| 0 <= i < fr.len() && #[trigger] path_views(fr, i).last() == n
}

/// A duplicate-free sequence drawn from a finite universe is no longer
/// than the universe.
proof fn lemma_unique_seq_bounded(vs: Seq<Seq<char>>, uni: Set<Seq<char>>)
    requires
        vs.no_duplicates(),
        uni.finite(),
        forall|n: Seq<char>| vs.contains(n) ==> uni.contains(n),
    ensures
        vs.len() <= uni.len(),
{
    vs.unique_seq_to_set();
    assert(vs.to_set().subset_of(uni));
    vstd::set_lib::lemma_len_subset(vs.to_set(), uni);
}

/// Whether `n` lies in the connected component of some seed: reachable
/// from a seed by following edges transitively. A seed is always in its
/// own closure, even when no edge mentions it.
pub open spec fn in_closure(es: Seq<EdgeView>, seeds: Seq<Seq<char>>, n: Seq<char>) -> bool {
    exists|i: int| 0 <= i < seeds.len() && reaches(es, #[trigger] seeds[i], n)
}

/// The closure of the seeds, as a set.
pub open spec fn closure_set(es: Seq<EdgeView>, seeds: Seq<Seq<char>>) -> Set<Seq<char>> {
    Set::new(|n: Seq<char>| in_closure(es, seeds, n))
}

/// The edges a subnetwork keeps: those with an endpoint in the closure.
pub open spec fn closure_touches(es: Seq<EdgeView>, seeds: Seq<Seq<char>>) -> spec_fn(
    EdgeView,
) -> bool {
    |e: EdgeView| in_closure(es, seeds, e.a) || in_closure(es, seeds, e.b)
}

/// The edge list of the subnetwork induced by the seeds: the parent's
/// edges that touch the closure, in insertion order, each kept once.
pub open spec fn subnetwork_edges(es: Seq<EdgeView>, seeds: Seq<Seq<char>>) -> Seq<EdgeView> {
    es.filter(closure_touches(es, seeds))
}

/// A member of a non-empty sequence is still there after dropping the
/// last element, unless it was exactly the last element.
proof fn lemma_contains_drop_last<T>(s: Seq<T>, y: T)
    requires
        s.len() > 0,
        s.contains(y),
    ensures
        s.drop_last().contains(y) || s.last() == y,
{
    let i = choose|i: int| 0 <= i < s.len() && s[i] == y;
    if i < s.len() - 1 {
        assert(s.drop_last()[i] == y);
    }
}

/// The closure is itself closed under adjacency.
proof fn lemma_in_closure_adjacent(
    es: Seq<EdgeView>,
    seeds: Seq<Seq<char>>,
    x: Seq<char>,
    y: Seq<char>,
)
    requires
        in_closure(es, seeds, x),
        adjacent(es, x, y),
    ensures
        in_closure(es, seeds, y),
{
    let i = choose|i: int| 0 <= i < seeds.len() && reaches(es, #[trigger] seeds[i], x);
    crate::reach::lemma_reaches_adjacent(es, seeds[i], x, y);
}

impl InteractionNetwork {
    /// The nodes reachable from the seeds, by a depth-first worklist
    /// expansion: each seed's full connected component, and the seeds
    /// themselves.
    #[verifier::loop_isolation(false)]
    fn closure_nodes(&self, seeds: &Vec<String>) -> (r: Vec<String>)
        requires
            self.wf(),
        ensures
            views_of(r@).no_duplicates(),
            forall|n: Seq<char>| #[trigger]
                views_of(r@).contains(n) == in_closure(self.edges(), views_of(seeds@), n),
    {
        let ghost es = self.edges();
        let ghost sv = views_of(seeds@);
        let mut visited: Vec<String> = Vec::new();
        let mut stack: Vec<String> = clone_string_vec(seeds);
        proof {
            assert forall|x: Seq<char>| #[trigger] views_of(stack@).contains(x) implies in_closure(
                es,
                sv,
                x,
            ) by {
                let i = choose|i: int| 0 <= i < sv.len() && sv[i] == x;
                lemma_reaches_self(es, x);
            }
        }
        while stack.len() > 0
            invariant
                views_of(visited@).no_duplicates(),
                forall|x: Seq<char>| #[trigger]
                    views_of(visited@).contains(x) ==> in_closure(es, sv, x),
                forall|x: Seq<char>| #[trigger]
                    views_of(stack@).contains(x) ==> in_closure(es, sv, x),
                forall|x: Seq<char>| #[trigger]
                    sv.contains(x) ==> views_of(visited@).contains(x) || views_of(
                        stack@,
                    ).contains(x),
                forall|x: Seq<char>, y: Seq<char>|
                    views_of(visited@).contains(x) && #[trigger] adjacent(es, x, y) ==> views_of(
                        visited@,
                    ).contains(y) || views_of(stack@).contains(y),
                forall|x: Seq<char>| #[trigger]
                    views_of(visited@).contains(x) ==> self.nodes().contains(x) || sv.contains(x),
                forall|x: Seq<char>| #[trigger]
                    views_of(stack@).contains(x) ==> self.nodes().contains(x) || sv.contains(x),
                visited@.len() <= self.protein_set@.len() + seeds@.len(),
            decreases self.protein_set@.len() + seeds@.len() - visited@.len(), stack@.len(),
        {
            let ghost st0 = views_of(stack@);
            let n = stack.pop().unwrap();
            proof {
                assert(views_of(stack@) =~= st0.drop_last());
                assert(st0.last() == n@);
                assert(st0[st0.len() - 1] == n@);
                assert(st0.contains(n@));
            }
            if !contains_string(&visited, &n) {
                let ghost vs0 = views_of(visited@);
                visited.push(n.clone());
                proof {
                    assert(views_of(visited@) =~= vs0.push(n@));
                    lemma_no_dup_push(vs0, n@);
                    assert(views_of(visited@)[vs0.len() as int] == n@);
                    assert(views_of(visited@).contains(n@));
                    assert forall|x: Seq<char>| #[trigger]
                        views_of(stack@).contains(x) implies in_closure(es, sv, x) by {
                        let w = choose|w: int|
                            0 <= w < views_of(stack@).len() && views_of(stack@)[w] == x;
                        assert(st0[w] == x);
                        assert(st0.contains(x));
                    }
                    assert forall|x: Seq<char>| #[trigger]
                        views_of(stack@).contains(x) implies self.nodes().contains(x)
                        || sv.contains(x) by {
                        let w = choose|w: int|
                            0 <= w < views_of(stack@).len() && views_of(stack@)[w] == x;
                        assert(st0[w] == x);
                        assert(st0.contains(x));
                    }
                    assert forall|x: Seq<char>| #[trigger]
                        views_of(visited@).contains(x) implies in_closure(es, sv, x) by {
                        lemma_contains_push(vs0, n@, x);
                    }
                    assert forall|x: Seq<char>| #[trigger]
                        sv.contains(x) implies views_of(visited@).contains(x) || views_of(
                        stack@,
                    ).contains(x) by {
                        if !views_of(visited@).contains(x) {
                            assert(vs0.contains(x) ==> views_of(visited@).contains(x)) by {
                                lemma_contains_push(vs0, n@, x);
                            }
                            lemma_contains_drop_last(st0, x);
                        }
                    }
                    assert forall|x: Seq<char>, y: Seq<char>|
                        views_of(visited@).contains(x) && x != n@ && #[trigger] adjacent(es, x, y)
                            implies views_of(visited@).contains(y) || views_of(
                        stack@,
                    ).contains(y) by {
                        lemma_contains_push(vs0, n@, x);
                        if !views_of(visited@).contains(y) {
                            assert(vs0.contains(y) ==> views_of(visited@).contains(y)) by {
                                lemma_contains_push(vs0, n@, y);
                            }
                            lemma_contains_drop_last(st0, y);
                        }
                    }
                    assert forall|x: Seq<char>| #[trigger]
                        views_of(visited@).contains(x) implies self.nodes().contains(x)
                        || sv.contains(x) by {
                        lemma_contains_push(vs0, n@, x);
                    }
                    // the visited list stays within its universe
                    let uni = self.nodes().union(sv.to_set());
                    assert(self.nodes().finite()) by {
                        vstd::seq_lib::seq_to_set_is_finite(views_of(self.protein_set@));
                    }
                    assert(sv.to_set().finite()) by {
                        vstd::seq_lib::seq_to_set_is_finite(sv);
                    }
                    assert(self.nodes().len() <= self.protein_set@.len()) by {
                        views_of(self.protein_set@).lemma_cardinality_of_set();
                    }
                    assert(sv.to_set().len() <= seeds@.len()) by {
                        sv.lemma_cardinality_of_set();
                    }
                    vstd::set_lib::lemma_len_union(self.nodes(), sv.to_set());
                    assert forall|x: Seq<char>| views_of(visited@).contains(x) implies
                        uni.contains(x) by {
                        assert(self.nodes().contains(x) || sv.contains(x));
                    }
                    lemma_unique_seq_bounded(views_of(visited@), uni);
                }
                let neighbors = self.get_neighbors(n.as_str());
                let ghost nv = views_of(neighbors@);
                let mut ni: usize = 0;
                while ni < neighbors.len()
                    invariant
                        0 <= ni <= nv.len(),
                        neighbors@.len() == nv.len(),
                        views_of(neighbors@) == nv,
                        nv == neighbors_of(es, n@),
                        views_of(visited@).contains(n@),
                        views_of(visited@).no_duplicates(),
                        forall|x: Seq<char>| #[trigger]
                            views_of(visited@).contains(x) ==> in_closure(es, sv, x),
                        forall|x: Seq<char>| #[trigger]
                            views_of(stack@).contains(x) ==> in_closure(es, sv, x),
                        forall|x: Seq<char>| #[trigger]
                            sv.contains(x) ==> views_of(visited@).contains(x) || views_of(
                                stack@,
                            ).contains(x),
                        forall|x: Seq<char>, y: Seq<char>|
                            views_of(visited@).contains(x) && x != n@ && #[trigger] adjacent(
                                es,
                                x,
                                y,
                            ) ==> views_of(visited@).contains(y) || views_of(stack@).contains(y),
                        forall|j: int|
                            0 <= j < ni ==> views_of(visited@).contains(#[trigger] nv[j])
                                || views_of(stack@).contains(nv[j]),
                        forall|x: Seq<char>| #[trigger]
                            views_of(visited@).contains(x) ==> self.nodes().contains(x)
                                || sv.contains(x),
                        forall|x: Seq<char>| #[trigger]
                            views_of(stack@).contains(x) ==> self.nodes().contains(x)
                                || sv.contains(x),
                        visited@.len() <= self.protein_set@.len() + seeds@.len(),
                    decreases nv.len() - ni,
                {
                    let m = &neighbors[ni];
                    if !contains_string(&visited, m) {
                        let ghost st1 = views_of(stack@);
                        stack.push(m.clone());
                        proof {
                            assert(views_of(stack@) =~= st1.push(m@));
                            assert(nv[ni as int] == m@);
                            assert(neighbors_of(es, n@).contains(m@));
                            lemma_neighbors_adjacent(es, n@, m@);
                            lemma_in_closure_adjacent(es, sv, n@, m@);
                            assert forall|x: Seq<char>| #[trigger]
                                views_of(stack@).contains(x) implies in_closure(es, sv, x) by {
                                lemma_contains_push(st1, m@, x);
                            }
                            assert forall|x: Seq<char>| #[trigger]
                                sv.contains(x) implies views_of(visited@).contains(x) || views_of(
                                stack@,
                            ).contains(x) by {
                                lemma_contains_push(st1, m@, x);
                            }
                            assert forall|x: Seq<char>, y: Seq<char>|
                                views_of(visited@).contains(x) && x != n@ && #[trigger] adjacent(
                                    es,
                                    x,
                                    y,
                                ) implies views_of(visited@).contains(y) || views_of(
                                stack@,
                            ).contains(y) by {
                                lemma_contains_push(st1, m@, y);
                            }
                            assert forall|j: int| 0 <= j < ni + 1 implies views_of(
                                visited@,
                            ).contains(#[trigger] nv[j]) || views_of(stack@).contains(nv[j]) by {
                                lemma_contains_push(st1, m@, nv[j]);
                            }
                            assert forall|x: Seq<char>| #[trigger]
                                views_of(stack@).contains(x) implies self.nodes().contains(x)
                                || sv.contains(x) by {
                                lemma_contains_push(st1, m@, x);
                                if x == m@ {
                                    let w = choose|w: int|
                                        0 <= w < es.len() && crate::reach::edge_connects(
                                            #[trigger] es[w],
                                            n@,
                                            x,
                                        );
                                    assert(crate::network::touches(es[w], x));
                                    assert(crate::network::appears_in(es, x));
                                    assert(views_of(self.protein_set@).contains(x));
                                }
                            }
                        }
                    }
                    ni += 1;
                }
                proof {
                    // the node just finished is now fully expanded
                    assert forall|x: Seq<char>, y: Seq<char>|
                        views_of(visited@).contains(x) && #[trigger] adjacent(es, x, y) implies
                        views_of(visited@).contains(y) || views_of(stack@).contains(y) by {
                        if x == n@ {
                            lemma_neighbors_adjacent(es, n@, y);
                            let j = choose|j: int| 0 <= j < nv.len() && nv[j] == y;
                        }
                    }
                }
            } else {
                proof {
                    // the popped node was expanded before; any witness it
                    // gave is replaced by its own membership in visited
                    assert forall|x: Seq<char>| #[trigger] sv.contains(x) implies views_of(
                        visited@,
                    ).contains(x) || views_of(stack@).contains(x) by {
                        if !views_of(visited@).contains(x) {
                            lemma_contains_drop_last(st0, x);
                        }
                    }
                    assert forall|x: Seq<char>, y: Seq<char>|
                        views_of(visited@).contains(x) && #[trigger] adjacent(es, x, y) implies
                        views_of(visited@).contains(y) || views_of(stack@).contains(y) by {
                        if !views_of(visited@).contains(y) {
                            lemma_contains_drop_last(st0, y);
                        }
                    }
                    assert forall|x: Seq<char>| #[trigger]
                        views_of(stack@).contains(x) implies in_closure(es, sv, x) by {
                        let w = choose|w: int|
                            0 <= w < views_of(stack@).len() && views_of(stack@)[w] == x;
                        assert(st0[w] == x);
                        assert(st0.contains(x));
                    }
                    assert forall|x: Seq<char>| #[trigger]
                        views_of(stack@).contains(x) implies self.nodes().contains(x)
                        || sv.contains(x) by {
                        let w = choose|w: int|
                            0 <= w < views_of(stack@).len() && views_of(stack@)[w] == x;
                        assert(st0[w] == x);
                        assert(st0.contains(x));
                    }
                }
            }
        }
        proof {
            assert(views_of(stack@).len() == 0);
            assert forall|n: Seq<char>| in_closure(es, sv, n) implies #[trigger] views_of(
                visited@,
            ).contains(n) by {
                let i = choose|i: int| 0 <= i < sv.len() && reaches(es, #[trigger] sv[i], n);
                let vset = views_of(visited@).to_set();
                assert(sv.contains(sv[i]));
                assert(views_of(visited@).contains(sv[i]));
                assert forall|x: Seq<char>, y: Seq<char>|
                    vset.contains(x) && #[trigger] adjacent(es, x, y) implies vset.contains(y) by {
                    assert(views_of(visited@).contains(x));
                }
                lemma_closed_reaches(es, vset, sv[i], n);
            }
        }
        visited
    }

    /// A shortest path from `start` to `end` over the undirected edge
    /// relation: a path with as few edges as any discoverable path, or
    /// `None` exactly when no path exists. `start == end` yields the
    /// one-node path even for ids no edge mentions.
    #[verifier::loop_isolation(false)]
    pub fn find_shortest_path(&self, start: &str, end: &str) -> (r: Option<Vec<String>>)
        requires
            self.wf(),
        ensures
            match r {
                Some(p) => {
                    &&& is_path(self.edges(), views_of(p@))
                    &&& views_of(p@).first() == start@
                    &&& views_of(p@).last() == end@
                    &&& forall|q: Seq<Seq<char>>|
                        #[trigger] is_path(self.edges(), q) && q.first() == start@ && q.last()
                            == end@ ==> p@.len() <= q.len()
                },
                None => !reaches(self.edges(), start@, end@),
            },
    {
        let ghost es = self.edges();
        let ghost s0 = start@;
        let ghost e0 = end@;
        let s = start.to_owned();
        let e = end.to_owned();
        if s == e {
            let mut p: Vec<String> = Vec::new();
            p.push(s);
            proof {
                assert(views_of(p@) =~= seq![s0]);
                assert(is_path(es, views_of(p@)));
                assert forall|q: Seq<Seq<char>>|
                    #[trigger] is_path(es, q) && q.first() == s0 && q.last() == e0 implies p@.len()
                    <= q.len() by {}
            }
            return Some(p);
        }
        let mut visited: Vec<String> = Vec::new();
        visited.push(s.clone());
        let mut first_path: Vec<String> = Vec::new();
        first_path.push(s);
        let mut frontier: Vec<Vec<String>> = Vec::new();
        frontier.push(first_path);
        let ghost mut k: int = 0;
        proof {
            lemma_reaches_self(es, s0);
            assert(views_of(visited@) =~= seq![s0]);
            assert(path_views(frontier@, 0) =~= seq![s0]);
            assert forall|n: Seq<char>| views_of(visited@).to_set().contains(n) implies
                reaches_within(es, s0, n, 0) by {
                assert(n == s0);
            }
            assert forall|n: Seq<char>| reaches_within(es, s0, n, 0) implies views_of(
                visited@,
            ).to_set().contains(n) by {
                let p = choose|p: Seq<Seq<char>>|
                    #[trigger] is_path(es, p) && p.first() == s0 && p.last() == n && p.len() <= 1;
                assert(p.last() == p.first());
                assert(views_of(visited@)[0] == s0);
                assert(views_of(visited@).contains(s0));
            }
            assert(path_views(frontier@, 0).last() == s0);
            assert(frontier_ends_at(frontier@, s0));
            assert forall|n: Seq<char>| reaches_within(es, s0, n, 0) implies n == s0 by {
                let p = choose|p: Seq<Seq<char>>|
                    #[trigger] is_path(es, p) && p.first() == s0 && p.last() == n && p.len() <= 1;
                assert(p.last() == p.first());
            }
        }
        while frontier.len() > 0
            invariant
                k >= 0,
                // the visited set is exactly the nodes within k edges of the start
                forall|n: Seq<char>| #[trigger]
                    views_of(visited@).to_set().contains(n) == reaches_within(es, s0, n, k),
                // every frontier entry is a k-edge path from the start to a visited node
                forall|i: int|
                    0 <= i < frontier@.len() ==> is_path(es, #[trigger] path_views(frontier@, i))
                        && path_views(frontier@, i).first() == s0 && path_views(
                        frontier@,
                        i,
                    ).len() == k + 1,
                // frontier entries end at nodes at distance exactly k
                forall|i: int|
                    0 <= i < frontier@.len() ==> !reaches_within(
                        es,
                        s0,
                        #[trigger] path_views(frontier@, i).last(),
                        k - 1,
                    ),
                // every node at distance exactly k ends some frontier entry
                forall|n: Seq<char>|
                    reaches_within(es, s0, n, k) && !reaches_within(es, s0, n, k - 1)
                        ==> frontier_ends_at(frontier@, n),
                // the target has not been discovered
                !views_of(visited@).to_set().contains(e0),
                views_of(visited@).no_duplicates(),
                forall|n: Seq<char>| #[trigger]
                    views_of(visited@).contains(n) ==> n == s0 || self.nodes().contains(n),
                visited@.len() <= self.protein_set@.len() + 1,
            decreases self.protein_set@.len() + 1 - visited@.len(), frontier@.len(),
        {
            let ghost v0 = views_of(visited@).to_set();
            let ghost fr0 = frontier@;
            let ghost old_visited_len = visited@.len();
            let mut next: Vec<Vec<String>> = Vec::new();
            let mut fi: usize = 0;
            while fi < frontier.len()
                invariant
                    0 <= fi <= fr0.len(),
                    frontier@ == fr0,
                    // visited only grew, by exactly the ends of the new paths
                    forall|n: Seq<char>| #[trigger]
                        v0.contains(n) ==> views_of(visited@).to_set().contains(n),
                    forall|n: Seq<char>| #[trigger]
                        views_of(visited@).to_set().contains(n) ==> v0.contains(n)
                            || frontier_ends_at(next@, n),
                    // new paths extend frontier paths to unvisited nodes
                    forall|i: int|
                        0 <= i < next@.len() ==> is_path(es, #[trigger] path_views(next@, i))
                            && path_views(next@, i).first() == s0 && path_views(next@, i).len() == k
                            + 2 && !v0.contains(path_views(next@, i).last()) && views_of(
                            visited@,
                        ).to_set().contains(path_views(next@, i).last()),
                    // every neighbor of a processed frontier end is visited
                    forall|i: int, y: Seq<char>|
                        0 <= i < fi && #[trigger] adjacent(es, path_views(fr0, i).last(), y)
                            ==> views_of(visited@).to_set().contains(y),
                    !views_of(visited@).to_set().contains(e0),
                    views_of(visited@).no_duplicates(),
                    forall|n: Seq<char>| #[trigger]
                        views_of(visited@).contains(n) ==> n == s0 || self.nodes().contains(n),
                    visited@.len() >= old_visited_len,
                    visited@.len() - old_visited_len == next@.len(),
                    visited@.len() <= self.protein_set@.len() + 1,
                decreases fr0.len() - fi,
            {
                let current = clone_string_vec(&frontier[fi]);
                proof {
                    assert(current@.len() == path_views(fr0, fi as int).len());
                    assert(path_views(fr0, fi as int).len() == k + 1);
                }
                let last = &current[current.len() - 1];
                let ghost m0 = path_views(fr0, fi as int).last();
                proof {
                    assert(last@ == m0);
                }
                let neighbors = self.get_neighbors(last.as_str());
                let ghost nv = views_of(neighbors@);
                let mut ni: usize = 0;
                while ni < neighbors.len()
                    invariant
                        0 <= ni <= nv.len(),
                        neighbors@.len() == nv.len(),
                        views_of(neighbors@) == nv,
                        nv == neighbors_of(es, m0),
                        current@ == fr0[fi as int]@,
                        0 <= fi < fr0.len(),
                        frontier@ == fr0,
                        forall|n: Seq<char>| #[trigger]
                            v0.contains(n) ==> views_of(visited@).to_set().contains(n),
                        forall|n: Seq<char>| #[trigger]
                            views_of(visited@).to_set().contains(n) ==> v0.contains(n)
                                || frontier_ends_at(next@, n),
                        forall|i: int|
                            0 <= i < next@.len() ==> is_path(es, #[trigger] path_views(next@, i))
                                && path_views(next@, i).first() == s0 && path_views(
                                next@,
                                i,
                            ).len() == k + 2 && !v0.contains(path_views(next@, i).last())
                                && views_of(visited@).to_set().contains(
                                path_views(next@, i).last(),
                            ),
                        forall|i: int, y: Seq<char>|
                            0 <= i < fi && #[trigger] adjacent(es, path_views(fr0, i).last(), y)
                                ==> views_of(visited@).to_set().contains(y),
                        // neighbors already scanned are visited
                        forall|j: int|
                            0 <= j < ni ==> views_of(visited@).to_set().contains(#[trigger] nv[j]),
                        !views_of(visited@).to_set().contains(e0),
                        views_of(visited@).no_duplicates(),
                        forall|n: Seq<char>| #[trigger]
                            views_of(visited@).contains(n) ==> n == s0 || self.nodes().contains(n),
                        visited@.len() >= old_visited_len,
                        visited@.len() - old_visited_len == next@.len(),
                        visited@.len() <= self.protein_set@.len() + 1,
                    decreases nv.len() - ni,
                {
                    let m = &neighbors[ni];
                    if !contains_string(&visited, m) {
                        let mut q = clone_string_vec(&current);
                        q.push(m.clone());
                        proof {
                            assert(views_of(q@) =~= path_views(fr0, fi as int).push(m@));
                            lemma_neighbors_adjacent(es, m0, m@);
                            assert(nv[ni as int] == m@);
                            assert(neighbors_of(es, m0).contains(m@));
                            assert(adjacent(es, m0, m@));
                            // q is a path: its prefix is one, and its
                            // last hop is an edge
                            let qq = views_of(q@);
                            let pp = path_views(fr0, fi as int);
                            assert forall|i: int| 0 <= i < qq.len() - 1 implies adjacent(
                                es,
                                #[trigger] qq[i],
                                qq[i + 1],
                            ) by {
                                if i < pp.len() - 1 {
                                    assert(qq[i] == pp[i] && qq[i + 1] == pp[i + 1]);
                                    assert(adjacent(es, pp[i], pp[i + 1]));
                                } else {
                                    assert(qq[i] == m0 && qq[i + 1] == m@);
                                }
                            }
                            assert(is_path(es, qq));
                        }
                        if *m == e {
                            proof {
                                // the target is at distance exactly k + 1,
                                // so the found path is as short as any
                                assert(!reaches_within(es, s0, e0, k));
                                assert forall|qd: Seq<Seq<char>>|
                                    #[trigger] is_path(es, qd) && qd.first() == s0 && qd.last()
                                        == e0 implies q@.len() <= qd.len() by {
                                    if qd.len() < k + 2 {
                                        assert(qd.len() <= qd.len());
                                        assert(reaches_within(es, s0, e0, qd.len() - 1));
                                        lemma_reaches_within_mono(es, s0, e0, qd.len() - 1, k);
                                    }
                                }
                            }
                            return Some(q);
                        }
                        proof {
                            assert(m@ != e0);
                        }
                        let ghost vs_before = views_of(visited@);
                        let ghost next_before = next@;
                        visited.push(m.clone());
                        next.push(q);
                        proof {
                            assert(views_of(visited@) =~= vs_before.push(m@));
                            lemma_no_dup_push(vs_before, m@);
                            assert forall|n: Seq<char>| #[trigger]
                                v0.contains(n) implies views_of(visited@).to_set().contains(
                                n,
                            ) by {
                                lemma_contains_push(vs_before, m@, n);
                            }
                            assert(!views_of(visited@).to_set().contains(e0)) by {
                                lemma_contains_push(vs_before, m@, e0);
                            }
                            assert forall|j: int| 0 <= j < ni + 1 implies views_of(
                                visited@,
                            ).to_set().contains(#[trigger] nv[j]) by {
                                lemma_contains_push(vs_before, m@, nv[j]);
                            }
                            assert forall|i: int, y: Seq<char>|
                                0 <= i < fi && #[trigger] adjacent(
                                    es,
                                    path_views(fr0, i).last(),
                                    y,
                                ) implies views_of(visited@).to_set().contains(y) by {
                                assert(vs_before.to_set().contains(y));
                                lemma_contains_push(vs_before, m@, y);
                            }
                            assert forall|n: Seq<char>| #[trigger]
                                views_of(visited@).to_set().contains(n) implies v0.contains(n)
                                || frontier_ends_at(next@, n) by {
                                lemma_contains_push(vs_before, m@, n);
                                if n == m@ {
                                    assert(path_views(next@, next@.len() - 1).last() == m@);
                                } else {
                                    assert(vs_before.contains(n));
                                    assert(vs_before.to_set().contains(n));
                                    if !v0.contains(n) {
                                        assert(frontier_ends_at(next_before, n));
                                        let w = choose|w: int|
                                            0 <= w < next_before.len() && #[trigger] path_views(
                                                next_before,
                                                w,
                                            ).last() == n;
                                        assert(next@[w] == next_before[w]);
                                        assert(path_views(next@, w).last() == n);
                                    }
                                }
                            }
                            assert forall|n: Seq<char>| #[trigger]
                                views_of(visited@).contains(n) implies n == s0
                                || self.nodes().contains(n) by {
                                lemma_contains_push(vs_before, m@, n);
                                if n == m@ {
                                    lemma_neighbors_adjacent(es, m0, n);
                                    let w = choose|w: int|
                                        0 <= w < es.len() && crate::reach::edge_connects(
                                            #[trigger] es[w],
                                            m0,
                                            n,
                                        );
                                    assert(crate::network::touches(es[w], n));
                                    assert(crate::network::appears_in(es, n));
                                    assert(views_of(self.protein_set@).contains(n));
                                }
                            }
                            assert forall|i: int|
                                0 <= i < next@.len() implies is_path(
                                es,
                                #[trigger] path_views(next@, i),
                            ) && path_views(next@, i).first() == s0 && path_views(next@, i).len()
                                == k + 2 && !v0.contains(path_views(next@, i).last()) && views_of(
                                visited@,
                            ).to_set().contains(path_views(next@, i).last()) by {
                                if i < next@.len() - 1 {
                                    assert(next@[i] == next_before[i]);
                                    assert(path_views(next@, i) == path_views(next_before, i));
                                }
                                lemma_contains_push(vs_before, m@, path_views(next@, i).last());
                            }
                            // bound the visited list by the node universe
                            let uni = self.nodes().insert(s0);
                            assert(self.nodes().finite()) by {
                                vstd::seq_lib::seq_to_set_is_finite(
                                    views_of(self.protein_set@),
                                );
                            }
                            assert(views_of(self.protein_set@).to_set().len() <= views_of(
                                self.protein_set@,
                            ).len()) by {
                                views_of(self.protein_set@).lemma_cardinality_of_set();
                            }
                            lemma_unique_seq_bounded(views_of(visited@), uni);
                        }
                    }
                    ni += 1;
                }
                proof {
                    assert forall|i: int, y: Seq<char>|
                        0 <= i < fi + 1 && #[trigger] adjacent(es, path_views(fr0, i).last(), y)
                            implies views_of(visited@).to_set().contains(y) by {
                        if i == fi {
                            assert(path_views(fr0, i).last() == m0);
                            assert(adjacent(es, m0, y));
                            lemma_neighbors_adjacent(es, m0, y);
                            assert(neighbors_of(es, m0).contains(y));
                            assert(nv.contains(y));
                            let j = choose|j: int| 0 <= j < nv.len() && nv[j] == y;
                            assert(views_of(visited@).to_set().contains(nv[j]));
                            assert(views_of(visited@).to_set().contains(y));
                        }
                    }
                }
                fi += 1;
            }
            // the round is over: everything within k + 1 edges is now
            // visited, and the new frontier is exactly distance k + 1
            proof {
                assert forall|n: Seq<char>| reaches_within(es, s0, n, k + 1) implies #[trigger]
                    views_of(visited@).to_set().contains(n) by {
                    lemma_reaches_unfold(es, s0, n, k);
                    if reaches_within(es, s0, n, k) {
                        assert(v0.contains(n));
                    } else {
                        let m = choose|m: Seq<char>|
                            #[trigger] reaches_within(es, s0, m, k) && adjacent(es, m, n);
                        if reaches_within(es, s0, m, k - 1) {
                            lemma_reaches_step(es, s0, m, n, k - 1);
                            assert(reaches_within(es, s0, n, k));
                        } else {
                            assert(frontier_ends_at(fr0, m));
                            let i = choose|i: int|
                                0 <= i < fr0.len() && #[trigger] path_views(fr0, i).last() == m;
                        }
                    }
                }
                assert forall|n: Seq<char>| #[trigger]
                    views_of(visited@).to_set().contains(n) implies reaches_within(
                    es,
                    s0,
                    n,
                    k + 1,
                ) by {
                    if v0.contains(n) {
                        lemma_reaches_within_mono(es, s0, n, k, k + 1);
                    } else {
                        assert(frontier_ends_at(next@, n));
                        let i = choose|i: int|
                            0 <= i < next@.len() && #[trigger] path_views(next@, i).last() == n;
                        assert(is_path(es, path_views(next@, i)));
                        assert(reaches_within(es, s0, n, k + 1));
                    }
                }
                assert forall|n: Seq<char>|
                    reaches_within(es, s0, n, k + 1) && !reaches_within(es, s0, n, k) implies
                    frontier_ends_at(next@, n) by {
                    assert(views_of(visited@).to_set().contains(n));
                    assert(!v0.contains(n));
                }
                assert forall|i: int| 0 <= i < next@.len() implies !reaches_within(
                    es,
                    s0,
                    #[trigger] path_views(next@, i).last(),
                    k,
                ) by {
                    assert(!v0.contains(path_views(next@, i).last()));
                }
                k = k + 1;
            }
            frontier = next;
        }
        // the frontier died out: reachability has saturated below k,
        // and the target was never seen
        proof {
            if k == 0 {
                lemma_reaches_self(es, s0);
                assert(frontier_ends_at(frontier@, s0));
            }
            assert(k >= 1);
            assert forall|n: Seq<char>| #[trigger] reaches_within(es, s0, n, k) implies
                reaches_within(es, s0, n, k - 1) by {
                if !reaches_within(es, s0, n, k - 1) {
                    assert(frontier_ends_at(frontier@, n));
                }
            }
            if reaches(es, s0, e0) {
                lemma_reaches_gives_within(es, s0, e0);
                let j = choose|j: int| 0 <= j && #[trigger] reaches_within(es, s0, e0, j);
                lemma_saturation(es, s0, k, j);
                assert(reaches_within(es, s0, e0, k - 1));
                lemma_reaches_within_mono(es, s0, e0, k - 1, k);
                assert(views_of(visited@).to_set().contains(e0));
            }
        }
        None
    }

    /// The subnetwork induced by `seeds`: a fresh, independently-owned
    /// store holding the parent's edges that touch the connected
    /// component of any seed, in the parent's insertion order and each
    /// kept once, together with the attributes of every node in those
    /// components. Running it again on an unchanged store gives the
    /// same result.
    #[verifier::loop_isolation(false)]
    pub fn extract_subnetwork(&self, seeds: &Vec<String>) -> (r: InteractionNetwork)
        requires
            self.wf(),
        ensures
            r.wf(),
            r.edges() == subnetwork_edges(self.edges(), views_of(seeds@)),
            r.attrs() == self.attrs().restrict(closure_set(self.edges(), views_of(seeds@))),
    {
        let ghost es = self.edges();
        let ghost sv = views_of(seeds@);
        let ghost cl = closure_set(es, sv);
        let visited = self.closure_nodes(seeds);
        let mut r = InteractionNetwork::new();
        let ghost pred = closure_touches(es, sv);
        let mut i: usize = 0;
        proof {
            reveal(Seq::filter);
            assert(r.edges() =~= es.take(0).filter(pred));
        }
        while i < self.interactions.len()
            invariant
                0 <= i <= self.interactions@.len(),
                r.wf(),
                r.edges() == es.take(i as int).filter(pred),
                r.attrs() == Map::<Seq<char>, Map<Seq<char>, Seq<char>>>::empty(),
            decreases self.interactions@.len() - i,
        {
            let ghost e = es[i as int];
            let ghost prefix = es.take(i as int);
            let pa_in = contains_string(&visited, &self.interactions[i].protein_a);
            let pb_in = contains_string(&visited, &self.interactions[i].protein_b);
            proof {
                assert(pa_in == in_closure(es, sv, e.a));
                assert(pb_in == in_closure(es, sv, e.b));
            }
            if pa_in || pb_in {
                let c = self.interactions[i].clone();
                r.add_interaction(c);
            }
            proof {
                reveal(Seq::filter);
                assert(es.take(i + 1).drop_last() =~= prefix);
                assert(es.take(i + 1).last() == e);
                assert(pred(e) == (pa_in || pb_in));
            }
            i += 1;
        }
        proof {
            assert(es.take(self.interactions@.len() as int) =~= es);
        }
        // copy the attributes of every node in the closure
        let ghost t = self.node_attributes@;
        let mut ti: usize = 0;
        proof {
            assert(table_map(t.take(0)).restrict(cl) =~= r.attrs());
        }
        while ti < self.node_attributes.len()
            invariant
                0 <= ti <= t.len(),
                r.wf(),
                r.edges() == subnetwork_edges(es, sv),
                r.attrs() == table_map(t.take(ti as int)).restrict(cl),
            decreases t.len() - ti,
        {
            let ghost na_g = t[ti as int];
            let ghost base = r.attrs();
            let in_cl = contains_string(&visited, &self.node_attributes[ti].node);
            proof {
                assert(entry_keys(t[ti as int].entries@).no_duplicates() && t[ti as int].entries@.len()
                    > 0);
                assert forall|q: int|
                    0 <= q < t.take(ti as int).len() implies (#[trigger] t.take(
                    ti as int,
                )[q]).node@ != na_g.node@ by {
                    assert(table_nodes(t)[q] != table_nodes(t)[ti as int]);
                }
                lemma_table_map_absent(t.take(ti as int), na_g.node@);
                assert(t.take(ti as int + 1) =~= t.take(ti as int).push(na_g));
                lemma_table_map_push(t.take(ti as int), na_g);
            }
            if in_cl {
                proof {
                    assert(cl.contains(na_g.node@));
                }
                let elen = self.node_attributes[ti].entries.len();
                let mut j: usize = 0;
                while j < elen
                    invariant
                        0 <= j <= na_g.entries@.len(),
                        elen == na_g.entries@.len(),
                        r.wf(),
                        r.edges() == subnetwork_edges(es, sv),
                        j == 0 ==> r.attrs() == base,
                        j > 0 ==> r.attrs() == base.insert(
                            na_g.node@,
                            entries_map(na_g.entries@.take(j as int)),
                        ),
                    decreases elen - j,
                {
                    let ghost before = r.attrs();
                    r.add_node_attribute(
                        self.node_attributes[ti].node.as_str(),
                        self.node_attributes[ti].entries[j].key.as_str(),
                        self.node_attributes[ti].entries[j].value.as_str(),
                    );
                    proof {
                        let ej = na_g.entries@[j as int];
                        assert(na_g.entries@.take(j as int + 1) =~= na_g.entries@.take(
                            j as int,
                        ).push(ej));
                        lemma_entries_map_push(na_g.entries@.take(j as int), ej);
                        if j == 0 {
                            assert(!before.contains_key(na_g.node@));
                            assert(entries_map(na_g.entries@.take(0)) =~= Map::<
                                Seq<char>,
                                Seq<char>,
                            >::empty());
                            assert(r.attrs() =~= base.insert(
                                na_g.node@,
                                entries_map(na_g.entries@.take(1)),
                            ));
                        } else {
                            assert(before.contains_key(na_g.node@));
                            assert(submap_or_empty(before, na_g.node@) == entries_map(
                                na_g.entries@.take(j as int),
                            ));
                            assert(r.attrs() =~= base.insert(
                                na_g.node@,
                                entries_map(na_g.entries@.take(j as int + 1)),
                            ));
                        }
                    }
                    j += 1;
                }
                proof {
                    assert(na_g.entries@.take(na_g.entries@.len() as int) =~= na_g.entries@);
                    assert(r.attrs() == base.insert(na_g.node@, entries_map(na_g.entries@)));
                    assert(r.attrs() =~= table_map(t.take(ti as int + 1)).restrict(cl));
                }
            } else {
                proof {
                    assert(!cl.contains(na_g.node@));
                    assert(table_map(t.take(ti as int + 1)).restrict(cl) =~= base);
                }
            }
            ti += 1;
        }
        proof {
            assert(t.take(t.len() as int) =~= t);
        }
        r
    }
}

/// Subnetwork extraction is deterministic: its contract pins the edge
/// list and the attribute table as functions of the parent store and
/// the seeds, and well-formedness pins the node set as a function of
/// the edge list. So two extractions with the same seeds from the same
/// unmodified store agree on nodes, edges and attributes.
pub proof fn lemma_subnetwork_deterministic(
    net: InteractionNetwork,
    seeds: Seq<Seq<char>>,
    r1: InteractionNetwork,
    r2: InteractionNetwork,
)
    requires
        r1.wf(),
        r2.wf(),
        r1.edges() == subnetwork_edges(net.edges(), seeds),
        r2.edges() == subnetwork_edges(net.edges(), seeds),
        r1.attrs() == net.attrs().restrict(closure_set(net.edges(), seeds)),
        r2.attrs() == net.attrs().restrict(closure_set(net.edges(), seeds)),
    ensures
        r1.nodes() == r2.nodes(),
        r1.edges() == r2.edges(),
        r1.attrs() == r2.attrs(),
{
    assert forall|n: Seq<char>| r1.nodes().contains(n) == r2.nodes().contains(n) by {
        assert(views_of(r1.protein_set@).contains(n) == crate::network::appears_in(
            r1.edges(),
            n,
        ));
        assert(views_of(r2.protein_set@).contains(n) == crate::network::appears_in(
            r2.edges(),
            n,
        ));
    }
    assert(r1.nodes() =~= r2.nodes());
}

} // verus!
