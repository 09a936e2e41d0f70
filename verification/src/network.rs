//! The network store: edge records, the node set, and per-node attributes.
//!
//! Confidence scores are held in fixed point as thousandths (a score of
//! nine tenths is stored as `900`), so that the store and every query over
//! it can be reasoned about exactly.

use vstd::prelude::*;

verus! {

use crate::attributes::AttributeEntry;
use crate::attributes::NodeAttributes;
use crate::attributes::entries_map;
use crate::attributes::entry_keys;
use crate::attributes::table_map;
use crate::attributes::table_nodes;
use crate::attributes::table_wf;
use crate::attributes::lemma_entries_map_push;
use crate::attributes::lemma_entries_map_absent;
use crate::attributes::lemma_entries_map_lookup;
use crate::attributes::lemma_entries_map_update;
use crate::attributes::lemma_table_map_push;
use crate::attributes::lemma_table_map_absent;
use crate::attributes::lemma_table_map_lookup;
use crate::attributes::lemma_table_map_update;

/// One recorded interaction between two named proteins.
///
/// Edges are undirected for traversal purposes; `protein_a` and
/// `protein_b` only preserve the direction the record arrived with.
pub struct ProteinInteraction {
    pub protein_a: String,
    pub protein_b: String,
    pub interaction_type: String,
    /// Confidence in thousandths: a raw score of 0.85 is stored as 850.
    pub confidence_millis: u32,
}

/// The mathematical value of an edge record.
pub ghost struct EdgeView {
    pub a: Seq<char>,
    pub b: Seq<char>,
    pub kind: Seq<char>,
    pub confidence: u32,
}

impl View for ProteinInteraction {
    type V = EdgeView;

    open spec fn view(&self) -> EdgeView {
        EdgeView {
            a: self.protein_a@,
            b: self.protein_b@,
            kind: self.interaction_type@,
            confidence: self.confidence_millis,
        }
    }
}

impl Clone for ProteinInteraction {
    fn clone(&self) -> (r: Self)
        ensures
            r@ == self@,
    {
        ProteinInteraction {
            protein_a: self.protein_a.clone(),
            protein_b: self.protein_b.clone(),
            interaction_type: self.interaction_type.clone(),
            confidence_millis: self.confidence_millis,
        }
    }
}

/// Whether node `n` is an endpoint of edge `e`.
pub open spec fn touches(e: EdgeView, n: Seq<char>) -> bool {
    e.a == n || e.b == n
}

/// The views of a sequence of strings.
pub open spec fn views_of(ss: Seq<String>) -> Seq<Seq<char>> {
    ss.map_values(|s: String| s@)
}

/// How many endpoint fields of `e` match `n` (2 for a self-loop on `n`).
pub open spec fn side_count(e: EdgeView, n: Seq<char>) -> int {
    (if e.a == n { 1int } else { 0int }) + (if e.b == n { 1int } else { 0int })
}

/// The degree of `n`: endpoint-field matches summed over all edges.
pub open spec fn degree_of(es: Seq<EdgeView>, n: Seq<char>) -> int
    decreases es.len(),
{
    if es.len() == 0 {
        0
    } else {
        degree_of(es.drop_last(), n) + side_count(es.last(), n)
    }
}

/// The neighbor entries one edge contributes for `n`: the other endpoint,
/// once per matching side.
pub open spec fn neighbor_entries(e: EdgeView, n: Seq<char>) -> Seq<Seq<char>> {
    (if e.a == n { seq![e.b] } else { Seq::empty() })
        + (if e.b == n { seq![e.a] } else { Seq::empty() })
}

/// All neighbor entries of `n`, in edge-insertion order.
pub open spec fn neighbors_of(es: Seq<EdgeView>, n: Seq<char>) -> Seq<Seq<char>>
    decreases es.len(),
{
    if es.len() == 0 {
        Seq::empty()
    } else {
        neighbors_of(es.drop_last(), n) + neighbor_entries(es.last(), n)
    }
}

/// Each node contributes one neighbor entry per matching edge side, so the
/// neighbor list of `n` is exactly as long as the degree of `n`.
pub proof fn lemma_neighbors_len_is_degree(es: Seq<EdgeView>, n: Seq<char>)
    ensures
        neighbors_of(es, n).len() == degree_of(es, n),
    decreases es.len(),
{
    if es.len() > 0 {
        lemma_neighbors_len_is_degree(es.drop_last(), n);
    }
}

/// Whether some edge of `es` has `n` as an endpoint.
pub open spec fn appears_in(es: Seq<EdgeView>, n: Seq<char>) -> bool {
    exists|i: int| 0 <= i < es.len() && touches(#[trigger] es[i], n)
}

/// The views of a sequence of edge records.
pub open spec fn edge_views(es: Seq<ProteinInteraction>) -> Seq<EdgeView> {
    es.map_values(|e: ProteinInteraction| e@)
}

/// The network store: the edge list in insertion order, the set of nodes
/// an edge has ever mentioned, and the per-node attribute table.
pub struct InteractionNetwork {
    pub interactions: Vec<ProteinInteraction>,
    pub protein_set: Vec<String>,
    pub node_attributes: Vec<NodeAttributes>,
}

impl InteractionNetwork {
    /// The edges of the store, in insertion order.
    pub open spec fn edges(&self) -> Seq<EdgeView> {
        edge_views(self.interactions@)
    }

    /// The node set: every identifier some edge mentions.
    pub open spec fn nodes(&self) -> Set<Seq<char>> {
        views_of(self.protein_set@).to_set()
    }

    /// The attribute table as a mapping from node to key-value mapping.
    pub open spec fn attrs(&self) -> Map<Seq<char>, Map<Seq<char>, Seq<char>>> {
        table_map(self.node_attributes@)
    }

    /// The store's invariant: the node list holds, without repetition,
    /// exactly the identifiers that appear in some edge, and the
    /// attribute table is well-formed.
    pub open spec fn wf(&self) -> bool {
        &&& views_of(self.protein_set@).no_duplicates()
        &&& forall|n: Seq<char>|
            #![trigger views_of(self.protein_set@).contains(n)]
            #![trigger appears_in(self.edges(), n)]
            views_of(self.protein_set@).contains(n) == appears_in(self.edges(), n)
        &&& table_wf(self.node_attributes@)
    }

    /// An empty store.
    pub fn new() -> (r: Self)
        ensures
            r.wf(),
            r.edges() == Seq::<EdgeView>::empty(),
            r.attrs() == Map::<Seq<char>, Map<Seq<char>, Seq<char>>>::empty(),
            r.nodes() == Set::<Seq<char>>::empty(),
    {
        let r = InteractionNetwork {
            interactions: Vec::new(),
            protein_set: Vec::new(),
            node_attributes: Vec::new(),
        };
        proof {
            assert(r.edges() =~= Seq::<EdgeView>::empty());
            assert(r.nodes() =~= Set::<Seq<char>>::empty());
            assert(views_of(r.protein_set@) =~= Seq::<Seq<char>>::empty());
        }
        r
    }

    /// How many distinct proteins some edge mentions.
    pub fn get_protein_count(&self) -> (r: usize)
        requires
            self.wf(),
        ensures
            r == self.nodes().len(),
    {
        proof {
            views_of(self.protein_set@).unique_seq_to_set();
        }
        self.protein_set.len()
    }

    /// How many edges the store holds.
    pub fn get_interaction_count(&self) -> (r: usize)
        ensures
            r == self.edges().len(),
    {
        self.interactions.len()
    }

    /// Appends one edge record and makes both its endpoints known nodes.
    /// Attributes are untouched; every later query sees the new edge.
    pub fn add_interaction(&mut self, interaction: ProteinInteraction)
        requires
            old(self).wf(),
        ensures
            final(self).wf(),
            final(self).edges() == old(self).edges().push(interaction@),
            final(self).attrs() == old(self).attrs(),
            final(self).nodes() == old(self).nodes().insert(interaction@.a).insert(
                interaction@.b,
            ),
    {
        let ghost old_edges = self.edges();
        let ghost old_views = views_of(self.protein_set@);
        let a = interaction.protein_a.clone();
        let b = interaction.protein_b.clone();
        let ghost e = interaction@;
        self.interactions.push(interaction);
        proof {
            assert(self.edges() =~= old_edges.push(e));
        }
        if !contains_string(&self.protein_set, &a) {
            let ghost before = views_of(self.protein_set@);
            self.protein_set.push(a);
            proof {
                assert(views_of(self.protein_set@) =~= before.push(e.a));
                lemma_no_dup_push(before, e.a);
            }
        }
        if !contains_string(&self.protein_set, &b) {
            let ghost before = views_of(self.protein_set@);
            self.protein_set.push(b);
            proof {
                assert(views_of(self.protein_set@) =~= before.push(e.b));
                lemma_no_dup_push(before, e.b);
            }
        }
        proof {
            let new_views = views_of(self.protein_set@);
            assert forall|n: Seq<char>| new_views.contains(n) == appears_in(
                self.edges(),
                n,
            ) by {
                lemma_appears_push(old_edges, e, n);
                lemma_contains_push(old_views, e.a, n);
                lemma_contains_push(old_views.push(e.a), e.b, n);
                lemma_contains_push(old_views, e.b, n);
            }
            assert(self.nodes() =~= old(self).nodes().insert(e.a).insert(e.b)) by {
                lemma_contains_push(old_views, e.a, e.a);
                assert forall|n: Seq<char>|
                    self.nodes().contains(n) == old(self).nodes().insert(e.a).insert(
                        e.b,
                    ).contains(n) by {
                    lemma_contains_push(old_views, e.a, n);
                    lemma_contains_push(old_views.push(e.a), e.b, n);
                    lemma_contains_push(old_views, e.b, n);
                }
            }
        }
    }

    /// The other endpoint of every edge side that matches `protein`, in
    /// edge-insertion order; absent nodes simply have no entries.
    pub fn get_neighbors(&self, protein: &str) -> (r: Vec<String>)
        ensures
            views_of(r@) == neighbors_of(self.edges(), protein@),
            r@.len() == degree_of(self.edges(), protein@),
    {
        proof {
            lemma_neighbors_len_is_degree(self.edges(), protein@);
        }
        let p = protein.to_owned();
        let mut r: Vec<String> = Vec::new();
        let mut i: usize = 0;
        proof {
            assert(views_of(r@) =~= neighbors_of(self.edges().take(0), p@));
        }
        while i < self.interactions.len()
            invariant
                0 <= i <= self.interactions@.len(),
                p@ == protein@,
                self.edges().len() == self.interactions@.len(),
                views_of(r@) == neighbors_of(self.edges().take(i as int), p@),
            decreases self.interactions@.len() - i,
        {
            let ghost prefix = self.edges().take(i as int);
            let ghost e = self.edges()[i as int];
            if self.interactions[i].protein_a == p {
                let v = self.interactions[i].protein_b.clone();
                let ghost before = views_of(r@);
                r.push(v);
                proof {
                    assert(views_of(r@) =~= before.push(e.b));
                }
            }
            if self.interactions[i].protein_b == p {
                let v = self.interactions[i].protein_a.clone();
                let ghost before = views_of(r@);
                r.push(v);
                proof {
                    assert(views_of(r@) =~= before.push(e.a));
                }
            }
            proof {
                assert(self.edges().take(i + 1).drop_last() =~= prefix);
                assert(self.edges().take(i + 1).last() == e);
                assert(views_of(r@) =~= neighbors_of(prefix, p@) + neighbor_entries(e, p@));
            }
            i += 1;
        }
        proof {
            assert(self.edges().take(self.interactions@.len() as int) =~= self.edges());
        }
        r
    }

    /// The degree of `protein`: how many edge endpoint fields name it (a
    /// self-loop counts twice). The bound on the edge count only keeps
    /// the result inside `usize`.
    pub fn get_degree(&self, protein: &str) -> (r: usize)
        requires
            2 * self.edges().len() <= usize::MAX,
        ensures
            r == degree_of(self.edges(), protein@),
    {
        let p = protein.to_owned();
        let mut count: usize = 0;
        let mut i: usize = 0;
        proof {
            assert(degree_of(self.edges().take(0), p@) == 0);
        }
        while i < self.interactions.len()
            invariant
                0 <= i <= self.interactions@.len(),
                p@ == protein@,
                self.edges().len() == self.interactions@.len(),
                2 * self.interactions@.len() <= usize::MAX,
                count <= 2 * i,
                count == degree_of(self.edges().take(i as int), p@),
            decreases self.interactions@.len() - i,
        {
            let ghost prefix = self.edges().take(i as int);
            let ghost e = self.edges()[i as int];
            if self.interactions[i].protein_a == p {
                count += 1;
            }
            if self.interactions[i].protein_b == p {
                count += 1;
            }
            proof {
                assert(self.edges().take(i + 1).drop_last() =~= prefix);
                assert(self.edges().take(i + 1).last() == e);
            }
            i += 1;
        }
        proof {
            assert(self.edges().take(self.interactions@.len() as int) =~= self.edges());
        }
        count
    }

    /// Sets attribute `key` of `node` to `value`, overwriting an earlier
    /// value and creating the node's attribute block lazily. The node
    /// need not be known to any edge: attribute-only nodes are allowed
    /// and do not enter the node set.
    pub fn add_node_attribute(&mut self, node: &str, key: &str, value: &str)
        requires
            old(self).wf(),
        ensures
            final(self).wf(),
            final(self).edges() == old(self).edges(),
            final(self).nodes() == old(self).nodes(),
            final(self).attrs() == old(self).attrs().insert(
                node@,
                submap_or_empty(old(self).attrs(), node@).insert(key@, value@),
            ),
    {
        let n = node.to_owned();
        let k = key.to_owned();
        let v = value.to_owned();
        let ghost t0 = self.node_attributes@;
        let i = find_node_index(&self.node_attributes, &n);
        if i == self.node_attributes.len() {
            // the node has no attribute block yet
            proof {
                lemma_table_map_absent(t0, n@);
            }
            let mut entries: Vec<AttributeEntry> = Vec::new();
            entries.push(AttributeEntry { key: k, value: v });
            let na = NodeAttributes { node: n, entries };
            proof {
                lemma_table_map_push(t0, na);
                assert(entries_map(na.entries@.drop_last()) =~= Map::<Seq<char>, Seq<char>>::empty());
                assert(entries_map(na.entries@) =~= submap_or_empty(table_map(t0), node@).insert(
                    key@,
                    value@,
                ));
                assert(table_nodes(t0.push(na)) =~= table_nodes(t0).push(na.node@));
                lemma_no_dup_push(table_nodes(t0), na.node@);
                if table_nodes(t0).contains(na.node@) {
                    let w = choose|w: int| 0 <= w < t0.len() && table_nodes(t0)[w] == na.node@;
                    assert(t0[w].node@ == n@);
                }
                assert(entry_keys(na.entries@) =~= Seq::<Seq<char>>::empty().push(key@));
            }
            self.node_attributes.push(na);
            proof {
                assert forall|q: int| 0 <= q < self.node_attributes@.len() implies entry_keys(
                    #[trigger] self.node_attributes@[q].entries@,
                ).no_duplicates() by {
                    if q < t0.len() {
                        assert(self.node_attributes@[q] == t0[q]);
                    }
                }
            }
        } else {
            // the node has a block at index i; look for the key in it
            let ghost ti = t0[i as int];
            proof {
                lemma_table_map_lookup(t0, i as int);
                assert(entry_keys(t0[i as int].entries@).no_duplicates());
            }
            let j = find_key_index(&self.node_attributes[i].entries, &k);
            let na = &mut self.node_attributes[i];
            let entry = AttributeEntry { key: k, value: v };
            if j == na.entries.len() {
                // a new key for this node
                proof {
                    lemma_entries_map_absent(ti.entries@, key@);
                    lemma_entries_map_push(ti.entries@, entry);
                }
                na.entries.push(entry);
                proof {
                    assert(entry_keys(ti.entries@.push(entry)) =~= entry_keys(ti.entries@).push(
                        key@,
                    ));
                    lemma_no_dup_push(entry_keys(ti.entries@), key@);
                    if entry_keys(ti.entries@).contains(key@) {
                        let w = choose|w: int|
                            0 <= w < ti.entries@.len() && entry_keys(ti.entries@)[w] == key@;
                        assert(ti.entries@[w].key@ == key@);
                    }
                }
            } else {
                // overwrite the value under an existing key
                proof {
                    lemma_entries_map_lookup(ti.entries@, j as int);
                    lemma_entries_map_update(ti.entries@, j as int, entry);
                    assert(entry_keys(ti.entries@.update(j as int, entry)) =~= entry_keys(
                        ti.entries@,
                    ));
                }
                na.entries.set(j, entry);
            }
            proof {
                lemma_table_map_update(t0, i as int, *final(na));
                assert(table_nodes(t0.update(i as int, *final(na))) =~= table_nodes(t0));
                assert forall|q: int| 0 <= q < self.node_attributes@.len() implies entry_keys(
                    #[trigger] self.node_attributes@[q].entries@,
                ).no_duplicates() by {
                    if q != i {
                        assert(self.node_attributes@[q] == t0[q]);
                    }
                }
            }
        }
    }

    /// The value of attribute `key` of `node`, if one was recorded.
    pub fn get_node_attribute(&self, node: &str, key: &str) -> (r: Option<String>)
        requires
            self.wf(),
        ensures
            match r {
                Some(v) => self.attrs().contains_key(node@) && self.attrs()[node@].contains_key(
                    key@,
                ) && v@ == self.attrs()[node@][key@],
                None => !(self.attrs().contains_key(node@) && self.attrs()[node@].contains_key(
                    key@,
                )),
            },
    {
        let n = node.to_owned();
        let k = key.to_owned();
        let ghost t0 = self.node_attributes@;
        let i = find_node_index(&self.node_attributes, &n);
        if i == self.node_attributes.len() {
            proof {
                lemma_table_map_absent(t0, node@);
            }
            return None;
        }
        let ghost ti = t0[i as int];
        proof {
            lemma_table_map_lookup(t0, i as int);
            assert(entry_keys(t0[i as int].entries@).no_duplicates());
        }
        let j = find_key_index(&self.node_attributes[i].entries, &k);
        if j == self.node_attributes[i].entries.len() {
            proof {
                lemma_entries_map_absent(ti.entries@, key@);
            }
            return None;
        }
        proof {
            lemma_entries_map_lookup(ti.entries@, j as int);
        }
        Some(self.node_attributes[i].entries[j].value.clone())
    }

    /// The edges whose confidence reaches `min_millis`, in insertion
    /// order.
    pub fn filter_by_confidence(&self, min_millis: u32) -> (r: Vec<ProteinInteraction>)
        ensures
            edge_views(r@) == self.edges().filter(confidence_at_least(min_millis)),
    {
        let mut r: Vec<ProteinInteraction> = Vec::new();
        let mut i: usize = 0;
        proof {
            reveal(Seq::filter);
            assert(edge_views(r@) =~= self.edges().take(0).filter(
                confidence_at_least(min_millis),
            ));
        }
        while i < self.interactions.len()
            invariant
                0 <= i <= self.interactions@.len(),
                self.edges().len() == self.interactions@.len(),
                edge_views(r@) == self.edges().take(i as int).filter(
                    confidence_at_least(min_millis),
                ),
            decreases self.interactions@.len() - i,
        {
            let ghost prefix = self.edges().take(i as int);
            let ghost e = self.edges()[i as int];
            let ghost before = edge_views(r@);
            if self.interactions[i].confidence_millis >= min_millis {
                let v = self.interactions[i].clone();
                r.push(v);
                proof {
                    assert(edge_views(r@) =~= before.push(e));
                }
            }
            proof {
                reveal(Seq::filter);
                assert(self.edges().take(i + 1).drop_last() =~= prefix);
                assert(self.edges().take(i + 1).last() == e);
            }
            i += 1;
        }
        proof {
            assert(self.edges().take(self.interactions@.len() as int) =~= self.edges());
        }
        r
    }
}

/// The predicate `filter_by_confidence` selects by: confidence at least
/// `min` thousandths.
pub open spec fn confidence_at_least(min: u32) -> spec_fn(EdgeView) -> bool {
    |e: EdgeView| e.confidence >= min
}

/// The key-value mapping of `n` in `m`, or the empty mapping when `m`
/// has no entry for `n`.
pub open spec fn submap_or_empty(
    m: Map<Seq<char>, Map<Seq<char>, Seq<char>>>,
    n: Seq<char>,
) -> Map<Seq<char>, Seq<char>> {
    if m.contains_key(n) {
        m[n]
    } else {
        Map::empty()
    }
}

/// Pushing onto a sequence adds one possible witness for membership.
pub proof fn lemma_contains_push<T>(s: Seq<T>, x: T, y: T)
    ensures
        s.push(x).contains(y) == (s.contains(y) || x == y),
{
    if s.contains(y) {
        let i = choose|i: int| 0 <= i < s.len() && s[i] == y;
        assert(s.push(x)[i] == y);
    }
    if x == y {
        assert(s.push(x)[s.len() as int] == y);
    }
    if s.push(x).contains(y) {
        let i = choose|i: int| 0 <= i < s.push(x).len() && s.push(x)[i] == y;
        if i < s.len() {
            assert(s[i] == y);
        }
    }
}

/// Pushing a fresh element keeps a sequence free of duplicates.
pub proof fn lemma_no_dup_push<T>(s: Seq<T>, x: T)
    requires
        s.no_duplicates(),
        !s.contains(x),
    ensures
        s.push(x).no_duplicates(),
{
    assert forall|i: int, j: int|
        0 <= i < s.push(x).len() && 0 <= j < s.push(x).len() && i != j implies s.push(x)[i]
        != s.push(x)[j] by {
        if i < s.len() && j < s.len() {
        } else if i == s.len() && 0 <= j < s.len() {
            assert(s.contains(s[j]));
        } else if j == s.len() && 0 <= i < s.len() {
            assert(s.contains(s[i]));
        }
    }
}

/// Appending an edge extends the set of identifiers that appear in the
/// edge list by exactly that edge's endpoints.
pub proof fn lemma_appears_push(es: Seq<EdgeView>, e: EdgeView, n: Seq<char>)
    ensures
        appears_in(es.push(e), n) == (appears_in(es, n) || touches(e, n)),
{
    if appears_in(es, n) {
        let i = choose|i: int| 0 <= i < es.len() && touches(es[i], n);
        assert(touches(es.push(e)[i], n));
    }
    if touches(e, n) {
        assert(touches(es.push(e)[es.len() as int], n));
    }
    if appears_in(es.push(e), n) {
        let i = choose|i: int| 0 <= i < es.push(e).len() && touches(es.push(e)[i], n);
        if i < es.len() {
            assert(touches(es[i], n));
        }
    }
}

/// The index of the attribute block for node `n`, or the table's length
/// when there is none.
fn find_node_index(t: &Vec<NodeAttributes>, n: &String) -> (r: usize)
    ensures
        r <= t@.len(),
        r < t@.len() ==> t@[r as int].node@ == n@,
        forall|j: int| 0 <= j < r ==> (#[trigger] t@[j]).node@ != n@,
{
    let mut i: usize = 0;
    while i < t.len()
        invariant
            0 <= i <= t@.len(),
            forall|j: int| 0 <= j < i ==> (#[trigger] t@[j]).node@ != n@,
        decreases t@.len() - i,
    {
        if t[i].node == *n {
            return i;
        }
        i += 1;
    }
    i
}

/// The index of the entry for key `k`, or the list's length when there
/// is none.
fn find_key_index(es: &Vec<AttributeEntry>, k: &String) -> (r: usize)
    ensures
        r <= es@.len(),
        r < es@.len() ==> es@[r as int].key@ == k@,
        forall|j: int| 0 <= j < r ==> (#[trigger] es@[j]).key@ != k@,
{
    let mut i: usize = 0;
    while i < es.len()
        invariant
            0 <= i <= es@.len(),
            forall|j: int| 0 <= j < i ==> (#[trigger] es@[j]).key@ != k@,
        decreases es@.len() - i,
    {
        if es[i].key == *k {
            return i;
        }
        i += 1;
    }
    i
}

/// A copy of a vector of strings.
pub fn clone_string_vec(v: &Vec<String>) -> (r: Vec<String>)
    ensures
        r@ == v@,
{
    let mut r: Vec<String> = Vec::new();
    let mut i: usize = 0;
    while i < v.len()
        invariant
            0 <= i <= v@.len(),
            r@ == v@.take(i as int),
        decreases v@.len() - i,
    {
        r.push(v[i].clone());
        proof {
            assert(v@.take(i + 1) =~= v@.take(i as int).push(v@[i as int]));
        }
        i += 1;
    }
    proof {
        assert(v@.take(v@.len() as int) =~= v@);
    }
    r
}

/// Whether `x` occurs in `v`, compared as strings.
pub fn contains_string(v: &Vec<String>, x: &String) -> (r: bool)
    ensures
        r == views_of(v@).contains(x@),
{
    let mut i: usize = 0;
    while i < v.len()
        invariant
            0 <= i <= v@.len(),
            forall|j: int| 0 <= j < i ==> views_of(v@)[j] != x@,
        decreases v@.len() - i,
    {
        if v[i] == *x {
            assert(views_of(v@)[i as int] == x@);
            return true;
        }
        i += 1;
    }
    false
}

} // verus!
