use vstd::prelude::*;

verus! {

/// Association sequences: sequences of `(key, value)` entries, read as maps
/// in which a later entry overwrites an earlier one with the same key.
/// Sections read their pair lists this way and settings their section lists.
pub open spec fn assoc_map<V>(entries: Seq<(Seq<char>, V)>) -> Map<Seq<char>, V>
    decreases entries.len(),
{
    if entries.len() == 0 {
        Map::empty()
    } else {
        assoc_map(entries.drop_last()).insert(entries.last().0, entries.last().1)
    }
}

/// Some entry of the sequence carries the given key.
pub open spec fn has_entry_key<V>(entries: Seq<(Seq<char>, V)>, key: Seq<char>) -> bool {
    exists|i: int| 0 <= i < entries.len() && entries[i].0 == key
}

/// No two entries of the sequence share a key.
pub open spec fn unique_entry_keys<V>(entries: Seq<(Seq<char>, V)>) -> bool {
    forall|i: int, j: int| 0 <= i < j < entries.len() ==> entries[i].0 != entries[j].0
}

/// Inserting the entries one after the other, first entry first.
pub open spec fn insert_entries<V>(
    m: Map<Seq<char>, V>,
    entries: Seq<(Seq<char>, V)>,
) -> Map<Seq<char>, V>
    decreases entries.len(),
{
    if entries.len() == 0 {
        m
    } else {
        insert_entries(m.insert(entries[0].0, entries[0].1), entries.skip(1))
    }
}

/// The map view's domain is exactly the set of keys that occur.
pub proof fn lemma_assoc_map_dom<V>(entries: Seq<(Seq<char>, V)>, key: Seq<char>)
    ensures
        assoc_map(entries).contains_key(key) <==> has_entry_key(entries, key),
    decreases entries.len(),
{
    if entries.len() > 0 {
        lemma_assoc_map_dom(entries.drop_last(), key);
        if has_entry_key(entries.drop_last(), key) {
            let i = choose|i: int|
                0 <= i < entries.drop_last().len() && entries.drop_last()[i].0 == key;
            assert(entries[i].0 == key);
        }
        if has_entry_key(entries, key) && entries.last().0 != key {
            let i = choose|i: int| 0 <= i < entries.len() && entries[i].0 == key;
            assert(entries.drop_last()[i].0 == key);
        }
    }
}

/// With unique keys, the map view sends each entry's key to its value.
pub proof fn lemma_assoc_map_index<V>(entries: Seq<(Seq<char>, V)>, i: int)
    requires
        unique_entry_keys(entries),
        0 <= i < entries.len(),
    ensures
        assoc_map(entries).contains_key(entries[i].0),
        assoc_map(entries)[entries[i].0] == entries[i].1,
    decreases entries.len(),
{
    if i < entries.len() - 1 {
        assert(unique_entry_keys(entries.drop_last()));
        assert(entries.drop_last()[i] == entries[i]);
        lemma_assoc_map_index(entries.drop_last(), i);
        assert(entries[i].0 != entries.last().0);
    }
}

/// Replacing the entry at `i` by one with the same key updates the map view
/// exactly as an insert of the new value does.
pub proof fn lemma_assoc_map_update<V>(entries: Seq<(Seq<char>, V)>, i: int, e: (Seq<char>, V))
    requires
        unique_entry_keys(entries),
        0 <= i < entries.len(),
        e.0 == entries[i].0,
    ensures
        assoc_map(entries.update(i, e)) == assoc_map(entries).insert(e.0, e.1),
    decreases entries.len(),
{
    let upd = entries.update(i, e);
    if i == entries.len() - 1 {
        assert(upd.drop_last() =~= entries.drop_last());
        assert(upd.last() == e);
        assert(assoc_map(entries.drop_last()).insert(entries.last().0, entries.last().1).insert(
            e.0,
            e.1,
        ) =~= assoc_map(entries.drop_last()).insert(e.0, e.1));
    } else {
        assert(unique_entry_keys(entries.drop_last()));
        assert(entries.drop_last()[i] == entries[i]);
        lemma_assoc_map_update(entries.drop_last(), i, e);
        assert(upd.drop_last() =~= entries.drop_last().update(i, e));
        assert(upd.last() == entries.last());
        assert(e.0 != entries.last().0);
        assert(assoc_map(entries.drop_last()).insert(e.0, e.1).insert(
            entries.last().0,
            entries.last().1,
        ) =~= assoc_map(entries.drop_last()).insert(entries.last().0, entries.last().1).insert(
            e.0,
            e.1,
        ));
    }
}

/// The first entry can be split off the map view.
pub proof fn lemma_assoc_map_front<V>(entries: Seq<(Seq<char>, V)>)
    requires
        entries.len() > 0,
    ensures
        assoc_map(entries) == map![entries[0].0 => entries[0].1].union_prefer_right(
            assoc_map(entries.skip(1)),
        ),
    decreases entries.len(),
{
    if entries.len() == 1 {
        assert(entries.skip(1).len() == 0);
        assert(assoc_map(entries.skip(1)) == Map::<Seq<char>, V>::empty());
        assert(entries.drop_last().len() == 0);
        assert(assoc_map(entries.drop_last()) == Map::<Seq<char>, V>::empty());
        assert(entries.last() == entries[0]);
        assert(assoc_map(entries) =~= map![entries[0].0 => entries[0].1].union_prefer_right(
            assoc_map(entries.skip(1)),
        ));
    } else {
        lemma_assoc_map_front(entries.drop_last());
        assert(entries.drop_last()[0] == entries[0]);
        assert(entries.skip(1).drop_last() =~= entries.drop_last().skip(1));
        assert(entries.skip(1).last() == entries.last());
        assert(assoc_map(entries) =~= map![entries[0].0 => entries[0].1].union_prefer_right(
            assoc_map(entries.skip(1)),
        ));
    }
}

/// Inserting all entries of a sequence into a map is overriding the map with
/// the sequence's own map view.
pub proof fn lemma_insert_entries<V>(m: Map<Seq<char>, V>, entries: Seq<(Seq<char>, V)>)
    ensures
        insert_entries(m, entries) == m.union_prefer_right(assoc_map(entries)),
    decreases entries.len(),
{
    if entries.len() == 0 {
        assert(insert_entries(m, entries) =~= m.union_prefer_right(assoc_map(entries)));
    } else {
        lemma_insert_entries(m.insert(entries[0].0, entries[0].1), entries.skip(1));
        lemma_assoc_map_front(entries);
        assert(m.insert(entries[0].0, entries[0].1).union_prefer_right(assoc_map(entries.skip(1)))
            =~= m.union_prefer_right(
            map![entries[0].0 => entries[0].1].union_prefer_right(assoc_map(entries.skip(1))),
        ));
    }
}

/// Overriding with a merged map is overriding with both maps in turn:
/// merging is associative.
pub proof fn lemma_merge_associative<V>(
    a: Map<Seq<char>, V>,
    b: Map<Seq<char>, V>,
    c: Map<Seq<char>, V>,
)
    ensures
        a.union_prefer_right(b).union_prefer_right(c) == a.union_prefer_right(
            b.union_prefer_right(c),
        ),
{
    assert(a.union_prefer_right(b).union_prefer_right(c) =~= a.union_prefer_right(
        b.union_prefer_right(c),
    ));
}

/// Two merges into a base map commute when their key sets are disjoint.
pub proof fn lemma_merge_disjoint_commutes<V>(
    base: Map<Seq<char>, V>,
    a: Map<Seq<char>, V>,
    b: Map<Seq<char>, V>,
)
    requires
        forall|k: Seq<char>| !(a.contains_key(k) && b.contains_key(k)),
    ensures
        base.union_prefer_right(a).union_prefer_right(b) == base.union_prefer_right(
            b,
        ).union_prefer_right(a),
{
    assert(base.union_prefer_right(a).union_prefer_right(b) =~= base.union_prefer_right(
        b,
    ).union_prefer_right(a));
}

/// On a key collision the merged-in map wins: last writer wins.
pub proof fn lemma_merge_last_wins<V>(a: Map<Seq<char>, V>, b: Map<Seq<char>, V>, k: Seq<char>)
    requires
        b.contains_key(k),
    ensures
        a.union_prefer_right(b).contains_key(k),
        a.union_prefer_right(b)[k] == b[k],
{
}

/// The key set of a merge is the union of the two key sets.
pub proof fn lemma_merge_key_set<V>(a: Map<Seq<char>, V>, b: Map<Seq<char>, V>)
    ensures
        a.union_prefer_right(b).dom() == a.dom() + b.dom(),
{
    assert(a.union_prefer_right(b).dom() =~= a.dom() + b.dom());
}

/// Merging a map whose keys are all fresh inserts it entry by entry.
pub proof fn lemma_union_insert<V>(
    a: Map<Seq<char>, V>,
    b: Map<Seq<char>, V>,
    k: Seq<char>,
    v: V,
)
    ensures
        a.union_prefer_right(b.insert(k, v)) == a.union_prefer_right(b).insert(k, v),
{
    assert(a.union_prefer_right(b.insert(k, v)) =~= a.union_prefer_right(b).insert(k, v));
}

/// Merging the empty map changes nothing.
pub proof fn lemma_union_empty<V>(a: Map<Seq<char>, V>)
    ensures
        a.union_prefer_right(Map::<Seq<char>, V>::empty()) == a,
        Map::<Seq<char>, V>::empty().union_prefer_right(a) == a,
{
    assert(a.union_prefer_right(Map::<Seq<char>, V>::empty()) =~= a);
    assert(Map::<Seq<char>, V>::empty().union_prefer_right(a) =~= a);
}

} // verus!
