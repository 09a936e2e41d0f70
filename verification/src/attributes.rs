//! Per-node attribute tables, stored as association lists whose meaning
//! is a `Map`, with the lemmas that connect list edits to map edits.

use vstd::prelude::*;

verus! {

/// One attribute of a node: a key and its value.
pub struct AttributeEntry {
    pub key: String,
    pub value: String,
}

/// The attributes recorded for one node.
pub struct NodeAttributes {
    pub node: String,
    pub entries: Vec<AttributeEntry>,
}

/// The mapping an attribute list stands for: later entries win, though a
/// well-formed list never repeats a key.
pub open spec fn entries_map(es: Seq<AttributeEntry>) -> Map<Seq<char>, Seq<char>>
    decreases es.len(),
{
    if es.len() == 0 {
        Map::empty()
    } else {
        entries_map(es.drop_last()).insert(es.last().key@, es.last().value@)
    }
}

/// The keys of an attribute list.
pub open spec fn entry_keys(es: Seq<AttributeEntry>) -> Seq<Seq<char>> {
    es.map_values(|e: AttributeEntry| e.key@)
}

/// The per-node attribute table a list of `NodeAttributes` stands for.
pub open spec fn table_map(t: Seq<NodeAttributes>) -> Map<Seq<char>, Map<Seq<char>, Seq<char>>>
    decreases t.len(),
{
    if t.len() == 0 {
        Map::empty()
    } else {
        table_map(t.drop_last()).insert(t.last().node@, entries_map(t.last().entries@))
    }
}

/// The node names of an attribute table.
pub open spec fn table_nodes(t: Seq<NodeAttributes>) -> Seq<Seq<char>> {
    t.map_values(|na: NodeAttributes| na.node@)
}

/// A well-formed attribute table: no node listed twice, no key listed
/// twice for one node, and no node listed without at least one
/// attribute (blocks are created lazily, on the first value).
pub open spec fn table_wf(t: Seq<NodeAttributes>) -> bool {
    &&& table_nodes(t).no_duplicates()
    &&& forall|i: int|
        0 <= i < t.len() ==> entry_keys(#[trigger] t[i].entries@).no_duplicates()
            && t[i].entries@.len() > 0
}

/// Appending an attribute entry inserts its pair into the mapping.
pub proof fn lemma_entries_map_push(es: Seq<AttributeEntry>, e: AttributeEntry)
    ensures
        entries_map(es.push(e)) == entries_map(es).insert(e.key@, e.value@),
{
    assert(es.push(e).drop_last() =~= es);
}

/// A key that no entry carries is not in the mapping.
pub proof fn lemma_entries_map_absent(es: Seq<AttributeEntry>, k: Seq<char>)
    requires
        forall|i: int| 0 <= i < es.len() ==> (#[trigger] es[i]).key@ != k,
    ensures
        !entries_map(es).contains_key(k),
    decreases es.len(),
{
    if es.len() > 0 {
        lemma_entries_map_absent(es.drop_last(), k);
    }
}

/// With no repeated keys, the entry at any index gives the mapped value.
pub proof fn lemma_entries_map_lookup(es: Seq<AttributeEntry>, i: int)
    requires
        entry_keys(es).no_duplicates(),
        0 <= i < es.len(),
    ensures
        entries_map(es).contains_key(es[i].key@),
        entries_map(es)[es[i].key@] == es[i].value@,
    decreases es.len(),
{
    assert(entry_keys(es.drop_last()) =~= entry_keys(es).drop_last());
    if i == es.len() - 1 {
    } else {
        lemma_entries_map_lookup(es.drop_last(), i);
        assert(entry_keys(es)[i] != entry_keys(es)[es.len() - 1]);
    }
}

/// Overwriting the entry that carries a key re-points that key alone.
pub proof fn lemma_entries_map_update(es: Seq<AttributeEntry>, i: int, e: AttributeEntry)
    requires
        entry_keys(es).no_duplicates(),
        0 <= i < es.len(),
        e.key@ == es[i].key@,
    ensures
        entries_map(es.update(i, e)) == entries_map(es).insert(e.key@, e.value@),
    decreases es.len(),
{
    assert(entry_keys(es.drop_last()) =~= entry_keys(es).drop_last());
    if i == es.len() - 1 {
        assert(es.update(i, e).drop_last() =~= es.drop_last());
        assert(es.update(i, e).last() == e);
        assert(entries_map(es.drop_last()).insert(es.last().key@, es.last().value@).insert(
            e.key@,
            e.value@,
        ) =~= entries_map(es.drop_last()).insert(e.key@, e.value@));
    } else {
        lemma_entries_map_update(es.drop_last(), i, e);
        assert(es.update(i, e).drop_last() =~= es.drop_last().update(i, e));
        assert(es.update(i, e).last() == es.last());
        assert(entry_keys(es)[i] != entry_keys(es)[es.len() - 1]);
        assert(entries_map(es.drop_last()).insert(e.key@, e.value@).insert(
            es.last().key@,
            es.last().value@,
        ) =~= entries_map(es.drop_last()).insert(es.last().key@, es.last().value@).insert(
            e.key@,
            e.value@,
        ));
    }
}

/// Appending a node's attribute block inserts that node's mapping.
pub proof fn lemma_table_map_push(t: Seq<NodeAttributes>, na: NodeAttributes)
    ensures
        table_map(t.push(na)) == table_map(t).insert(na.node@, entries_map(na.entries@)),
{
    assert(t.push(na).drop_last() =~= t);
}

/// A node no block names is not in the table mapping.
pub proof fn lemma_table_map_absent(t: Seq<NodeAttributes>, n: Seq<char>)
    requires
        forall|i: int| 0 <= i < t.len() ==> (#[trigger] t[i]).node@ != n,
    ensures
        !table_map(t).contains_key(n),
    decreases t.len(),
{
    if t.len() > 0 {
        lemma_table_map_absent(t.drop_last(), n);
    }
}

/// With no repeated nodes, the block at any index gives that node's
/// mapping.
pub proof fn lemma_table_map_lookup(t: Seq<NodeAttributes>, i: int)
    requires
        table_nodes(t).no_duplicates(),
        0 <= i < t.len(),
    ensures
        table_map(t).contains_key(t[i].node@),
        table_map(t)[t[i].node@] == entries_map(t[i].entries@),
    decreases t.len(),
{
    assert(table_nodes(t.drop_last()) =~= table_nodes(t).drop_last());
    if i == t.len() - 1 {
    } else {
        lemma_table_map_lookup(t.drop_last(), i);
        assert(table_nodes(t)[i] != table_nodes(t)[t.len() - 1]);
    }
}

/// Replacing the block that names a node re-points that node alone.
pub proof fn lemma_table_map_update(t: Seq<NodeAttributes>, i: int, na: NodeAttributes)
    requires
        table_nodes(t).no_duplicates(),
        0 <= i < t.len(),
        na.node@ == t[i].node@,
    ensures
        table_map(t.update(i, na)) == table_map(t).insert(na.node@, entries_map(na.entries@)),
    decreases t.len(),
{
    assert(table_nodes(t.drop_last()) =~= table_nodes(t).drop_last());
    if i == t.len() - 1 {
        assert(t.update(i, na).drop_last() =~= t.drop_last());
        assert(t.update(i, na).last() == na);
        assert(table_map(t.drop_last()).insert(t.last().node@, entries_map(t.last().entries@)).insert(
            na.node@,
            entries_map(na.entries@),
        ) =~= table_map(t.drop_last()).insert(na.node@, entries_map(na.entries@)));
    } else {
        lemma_table_map_update(t.drop_last(), i, na);
        assert(t.update(i, na).drop_last() =~= t.drop_last().update(i, na));
        assert(t.update(i, na).last() == t.last());
        assert(table_nodes(t)[i] != table_nodes(t)[t.len() - 1]);
        assert(table_map(t.drop_last()).insert(na.node@, entries_map(na.entries@)).insert(
            t.last().node@,
            entries_map(t.last().entries@),
        ) =~= table_map(t.drop_last()).insert(t.last().node@, entries_map(t.last().entries@)).insert(
            na.node@,
            entries_map(na.entries@),
        ));
    }
}

} // verus!
