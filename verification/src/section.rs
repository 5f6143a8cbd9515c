use vstd::prelude::*;

use crate::filtering::lemma_filter_all;
use crate::filtering::lemma_filter_element_from;
use crate::filtering::lemma_filter_take_step;
use crate::keyed::assoc_map;
use crate::keyed::lemma_assoc_map_update;
use crate::keyed::lemma_union_empty;
use crate::keyed::lemma_union_insert;
use crate::keyed::unique_entry_keys;
use crate::pair::SettingsPair;

verus! {

/// The entry a pair contributes to its section's map view.
pub open spec fn pair_entry() -> spec_fn(SettingsPair) -> (Seq<char>, (Seq<char>, bool)) {
    |p: SettingsPair| (p.key@, (p.value@, p.is_selected))
}

/// A pair list as a map from key to value and selection flag; on a repeated
/// key the later pair wins.
pub open spec fn pair_view(pairs: Seq<SettingsPair>) -> Map<Seq<char>, (Seq<char>, bool)> {
    assoc_map(pairs.map_values(pair_entry()))
}

/// No two pairs share a key.
pub open spec fn unique_keys(pairs: Seq<SettingsPair>) -> bool {
    forall|i: int, j: int| 0 <= i < j < pairs.len() ==> pairs[i].key@ != pairs[j].key@
}

/// Some pair carries the given key.
pub open spec fn has_key(pairs: Seq<SettingsPair>, key: Seq<char>) -> bool {
    exists|i: int| 0 <= i < pairs.len() && pairs[i].key@ == key
}

/// Some pair is selected.
pub open spec fn any_selected(pairs: Seq<SettingsPair>) -> bool {
    exists|i: int| 0 <= i < pairs.len() && pairs[i].is_selected
}

/// Every pair is selected.
pub open spec fn all_selected(pairs: Seq<SettingsPair>) -> bool {
    forall|i: int| 0 <= i < pairs.len() ==> pairs[i].is_selected
}

/// No pair is selected.
pub open spec fn none_selected(pairs: Seq<SettingsPair>) -> bool {
    forall|i: int| 0 <= i < pairs.len() ==> !pairs[i].is_selected
}

/// The predicate a pair must pass to enter a subset copy.
pub open spec fn is_selected_pair() -> spec_fn(SettingsPair) -> bool {
    |p: SettingsPair| p.is_selected
}

/// The predicate a pair must pass to survive a removal.
pub open spec fn is_kept_pair() -> spec_fn(SettingsPair) -> bool {
    |p: SettingsPair| !p.is_selected
}

/// The selected pairs, in order.
pub open spec fn subset_pairs(pairs: Seq<SettingsPair>) -> Seq<SettingsPair> {
    pairs.filter(is_selected_pair())
}

/// The unselected pairs, in order: what a removal leaves behind.
pub open spec fn kept_pairs(pairs: Seq<SettingsPair>) -> Seq<SettingsPair> {
    pairs.filter(is_kept_pair())
}

/// Filtering cannot introduce a duplicate key.
pub proof fn lemma_filter_preserves_unique_keys(
    pairs: Seq<SettingsPair>,
    pred: spec_fn(SettingsPair) -> bool,
)
    requires
        unique_keys(pairs),
    ensures
        unique_keys(pairs.filter(pred)),
        forall|k: Seq<char>| has_key(pairs.filter(pred), k) ==> has_key(pairs, k),
    decreases pairs.len(),
{
    reveal(Seq::filter);
    let f = pairs.filter(pred);
    if pairs.len() > 0 {
        let t = pairs.drop_last();
        assert(unique_keys(t));
        lemma_filter_preserves_unique_keys(t, pred);
        let tf = t.filter(pred);
        if pred(pairs.last()) {
            assert(f == tf.push(pairs.last()));
            assert forall|j: int| 0 <= j < tf.len() implies tf[j].key@ != pairs.last().key@ by {
                lemma_filter_element_from(t, pred, j);
                let a = choose|a: int| 0 <= a < t.len() && t[a] == tf[j];
                assert(pairs[a].key@ != pairs[pairs.len() - 1].key@);
            }
            assert(unique_keys(f));
        } else {
            assert(f == tf);
        }
    }
    assert forall|k: Seq<char>| has_key(f, k) implies has_key(pairs, k) by {
        let j = choose|j: int| 0 <= j < f.len() && f[j].key@ == k;
        lemma_filter_element_from(pairs, pred, j);
        let a = choose|a: int| 0 <= a < pairs.len() && pairs[a] == f[j];
        assert(pairs[a].key@ == k);
    }
}

/// A named, order-irrelevant set of unique key/value pairs with a derived
/// selection flag: `is_selected` caches "all pairs selected" and is
/// maintained by `select`, `unselect` and `adjust_self_selected_from_pairs`.
pub struct SettingsSection {
    pub name: String,
    pub pairs: Vec<SettingsPair>,
    pub is_selected: bool,
}

impl SettingsSection {
    /// Key uniqueness, the section's structural invariant.
    pub open spec fn wf(self) -> bool {
        unique_keys(self.pairs@)
    }

    /// The section's contents as a map from key to value and flag.
    pub open spec fn pair_map(self) -> Map<Seq<char>, (Seq<char>, bool)> {
        pair_view(self.pairs@)
    }

    /// Whether any pair of the section is selected.
    pub open spec fn spec_has_selection(self) -> bool {
        any_selected(self.pairs@)
    }

    /// A fresh section starts unselected.
    pub fn new(name: String, pairs: Vec<SettingsPair>) -> (r: SettingsSection)
        requires
            unique_keys(pairs@),
        ensures
            r.name == name,
            r.pairs == pairs,
            !r.is_selected,
            r.wf(),
    {
        SettingsSection { name, pairs, is_selected: false }
    }

    /// Inserts or overwrites by key; the last write wins.
    pub fn insert(&mut self, pair: SettingsPair)
        requires
            old(self).wf(),
        ensures
            final(self).wf(),
            final(self).name == old(self).name,
            final(self).is_selected == old(self).is_selected,
            final(self).pair_map() == old(self).pair_map().insert(
                pair.key@,
                (pair.value@, pair.is_selected),
            ),
            none_selected(old(self).pairs@) && !pair.is_selected ==> none_selected(
                final(self).pairs@,
            ),
    {
        let n = self.pairs.len();
        let mut i: usize = 0;
        while i < n
            invariant
                *self == *old(self),
                n == self.pairs@.len(),
                i <= n,
                old(self).wf(),
                forall|j: int| 0 <= j < i ==> old(self).pairs@[j].key@ != pair.key@,
            decreases n - i,
        {
            if self.pairs[i].key == pair.key {
                proof {
                    let entries = old(self).pairs@.map_values(pair_entry());
                    assert(unique_entry_keys(entries));
                    lemma_assoc_map_update(
                        entries,
                        i as int,
                        (pair.key@, (pair.value@, pair.is_selected)),
                    );
                }
                let r = &mut self.pairs[i];
                *r = pair;
                proof {
                    assert(self.pairs@ =~= old(self).pairs@.update(i as int, pair));
                    assert(self.pairs@.map_values(pair_entry()) =~= old(self).pairs@.map_values(
                        pair_entry(),
                    ).update(i as int, (pair.key@, (pair.value@, pair.is_selected))));
                }
                return ;
            }
            i += 1;
        }
        self.pairs.push(pair);
        proof {
            assert(self.pairs@ =~= old(self).pairs@.push(pair));
            let entries = self.pairs@.map_values(pair_entry());
            assert(entries.drop_last() =~= old(self).pairs@.map_values(pair_entry()));
            assert(entries.last() == (pair.key@, (pair.value@, pair.is_selected)));
        }
    }

    /// Merges another section's pairs into this one, the other's pairs
    /// winning on a key collision.  Used when two loaded sources define the
    /// same section name: their pairs are unioned, not rejected.
    pub fn consume(&mut self, other: SettingsSection)
        requires
            old(self).wf(),
        ensures
            final(self).wf(),
            final(self).name == old(self).name,
            final(self).is_selected == old(self).is_selected,
            final(self).pair_map() == old(self).pair_map().union_prefer_right(
                pair_view(other.pairs@),
            ),
            none_selected(old(self).pairs@) && none_selected(other.pairs@) ==> none_selected(
                final(self).pairs@,
            ),
    {
        let mut rest = other.pairs;
        let ghost orig = rest@;
        let ghost mut done: int = 0;
        proof {
            assert(orig.take(0).map_values(pair_entry()) =~= Seq::<
                (Seq<char>, (Seq<char>, bool)),
            >::empty());
            lemma_union_empty(old(self).pair_map());
        }
        while rest.len() > 0
            invariant
                self.wf(),
                self.name == old(self).name,
                self.is_selected == old(self).is_selected,
                0 <= done <= orig.len(),
                rest@ == orig.skip(done),
                self.pair_map() == old(self).pair_map().union_prefer_right(
                    pair_view(orig.take(done)),
                ),
                none_selected(old(self).pairs@) && none_selected(orig) ==> none_selected(
                    self.pairs@,
                ),
            decreases rest@.len(),
        {
            let p = rest.remove(0);
            proof {
                assert(p == orig[done]);
                assert(rest@ =~= orig.skip(done + 1));
            }
            self.insert(p);
            proof {
                let entries = orig.take(done + 1).map_values(pair_entry());
                assert(orig.take(done + 1).drop_last() =~= orig.take(done));
                assert(entries.drop_last() =~= orig.take(done).map_values(pair_entry()));
                assert(entries.last() == (p.key@, (p.value@, p.is_selected)));
                lemma_union_insert(
                    old(self).pair_map(),
                    pair_view(orig.take(done)),
                    p.key@,
                    (p.value@, p.is_selected),
                );
                done = done + 1;
            }
        }
        proof {
            assert(orig.take(done) =~= orig);
        }
    }

    /// Selects the section and every pair in it.
    pub fn select(&mut self)
        ensures
            final(self).name == old(self).name,
            final(self).is_selected,
            final(self).pairs@.len() == old(self).pairs@.len(),
            forall|i: int|
                0 <= i < old(self).pairs@.len() ==> {
                    &&& (#[trigger] final(self).pairs@[i]).key == old(self).pairs@[i].key
                    &&& final(self).pairs@[i].value == old(self).pairs@[i].value
                    &&& final(self).pairs@[i].is_selected
                },
            old(self).wf() ==> final(self).wf(),
    {
        self.is_selected = true;
        let n = self.pairs.len();
        let mut i: usize = 0;
        while i < n
            invariant
                n == self.pairs@.len(),
                n == old(self).pairs@.len(),
                i <= n,
                self.name == old(self).name,
                self.is_selected,
                forall|j: int|
                    0 <= j < i ==> {
                        &&& (#[trigger] self.pairs@[j]).key == old(self).pairs@[j].key
                        &&& self.pairs@[j].value == old(self).pairs@[j].value
                        &&& self.pairs@[j].is_selected
                    },
                forall|j: int| i <= j < n ==> self.pairs@[j] == old(self).pairs@[j],
            decreases n - i,
        {
            let p = &mut self.pairs[i];
            p.is_selected = true;
            i += 1;
        }
        proof {
            if old(self).wf() {
                assert forall|a: int, b: int|
                    0 <= a < b < self.pairs@.len() implies self.pairs@[a].key@
                    != self.pairs@[b].key@ by {
                    assert(self.pairs@[a].key == old(self).pairs@[a].key);
                    assert(self.pairs@[b].key == old(self).pairs@[b].key);
                }
            }
        }
    }

    /// Unselects the section and every pair in it.
    pub fn unselect(&mut self)
        ensures
            final(self).name == old(self).name,
            !final(self).is_selected,
            final(self).pairs@.len() == old(self).pairs@.len(),
            forall|i: int|
                0 <= i < old(self).pairs@.len() ==> {
                    &&& (#[trigger] final(self).pairs@[i]).key == old(self).pairs@[i].key
                    &&& final(self).pairs@[i].value == old(self).pairs@[i].value
                    &&& !final(self).pairs@[i].is_selected
                },
            old(self).wf() ==> final(self).wf(),
    {
        self.is_selected = false;
        let n = self.pairs.len();
        let mut i: usize = 0;
        while i < n
            invariant
                n == self.pairs@.len(),
                n == old(self).pairs@.len(),
                i <= n,
                self.name == old(self).name,
                !self.is_selected,
                forall|j: int|
                    0 <= j < i ==> {
                        &&& (#[trigger] self.pairs@[j]).key == old(self).pairs@[j].key
                        &&& self.pairs@[j].value == old(self).pairs@[j].value
                        &&& !self.pairs@[j].is_selected
                    },
                forall|j: int| i <= j < n ==> self.pairs@[j] == old(self).pairs@[j],
            decreases n - i,
        {
            let p = &mut self.pairs[i];
            p.is_selected = false;
            i += 1;
        }
        proof {
            if old(self).wf() {
                assert forall|a: int, b: int|
                    0 <= a < b < self.pairs@.len() implies self.pairs@[a].key@
                    != self.pairs@[b].key@ by {
                    assert(self.pairs@[a].key == old(self).pairs@[a].key);
                    assert(self.pairs@[b].key == old(self).pairs@[b].key);
                }
            }
        }
    }

    /// Recomputes the section flag from the pairs: non-empty and all pairs
    /// selected.  An empty section deliberately counts as unselected.
    pub fn adjust_self_selected_from_pairs(&mut self)
        ensures
            final(self).name == old(self).name,
            final(self).pairs == old(self).pairs,
            final(self).is_selected == (old(self).pairs@.len() > 0 && all_selected(
                old(self).pairs@,
            )),
    {
        let n = self.pairs.len();
        let mut all: bool = n > 0;
        let mut i: usize = 0;
        while i < n
            invariant
                *self == *old(self),
                n == self.pairs@.len(),
                i <= n,
                all == (n > 0 && forall|j: int| 0 <= j < i ==> self.pairs@[j].is_selected),
            decreases n - i,
        {
            if !self.pairs[i].is_selected {
                all = false;
            }
            i += 1;
        }
        self.is_selected = all;
    }

    /// Whether any pair of the section is selected.
    pub fn has_any_child_selected(&self) -> (r: bool)
        ensures
            r == any_selected(self.pairs@),
    {
        let n = self.pairs.len();
        let mut i: usize = 0;
        while i < n
            invariant
                n == self.pairs@.len(),
                i <= n,
                forall|j: int| 0 <= j < i ==> !self.pairs@[j].is_selected,
            decreases n - i,
        {
            if self.pairs[i].is_selected {
                assert(self.pairs@[i as int].is_selected);
                return true;
            }
            i += 1;
        }
        false
    }

    /// A new, independently owned section holding only the selected pairs,
    /// itself marked selected.
    pub fn into_only_selected(&self) -> (r: SettingsSection)
        ensures
            r.name == self.name,
            r.is_selected,
            r.pairs@ == subset_pairs(self.pairs@),
            self.wf() ==> r.wf(),
    {
        let mut out: Vec<SettingsPair> = Vec::new();
        let n = self.pairs.len();
        let mut i: usize = 0;
        proof {
            assert(self.pairs@.take(0).filter(is_selected_pair()) =~= Seq::<
                SettingsPair,
            >::empty());
        }
        while i < n
            invariant
                n == self.pairs@.len(),
                i <= n,
                out@ == self.pairs@.take(i as int).filter(is_selected_pair()),
            decreases n - i,
        {
            proof {
                lemma_filter_take_step(self.pairs@, is_selected_pair(), i as int);
            }
            if self.pairs[i].is_selected {
                out.push(self.pairs[i].clone());
            }
            i += 1;
        }
        proof {
            assert(self.pairs@.take(n as int) =~= self.pairs@);
            if self.wf() {
                lemma_filter_preserves_unique_keys(self.pairs@, is_selected_pair());
            }
        }
        SettingsSection { name: self.name.clone(), pairs: out, is_selected: true }
    }

    /// Deletes every selected pair in place; the result says whether the
    /// section is now empty, a signal to the caller to prune it.
    pub fn remove_selected(&mut self) -> (empty: bool)
        ensures
            final(self).name == old(self).name,
            final(self).is_selected == old(self).is_selected,
            final(self).pairs@ == kept_pairs(old(self).pairs@),
            old(self).wf() ==> final(self).wf(),
            empty == (final(self).pairs@.len() == 0),
    {
        let mut out: Vec<SettingsPair> = Vec::new();
        let n = self.pairs.len();
        let mut i: usize = 0;
        proof {
            assert(self.pairs@.take(0).filter(is_kept_pair()) =~= Seq::<SettingsPair>::empty());
        }
        while i < n
            invariant
                *self == *old(self),
                n == self.pairs@.len(),
                i <= n,
                out@ == self.pairs@.take(i as int).filter(is_kept_pair()),
            decreases n - i,
        {
            proof {
                lemma_filter_take_step(self.pairs@, is_kept_pair(), i as int);
            }
            if !self.pairs[i].is_selected {
                out.push(self.pairs[i].clone());
            }
            i += 1;
        }
        proof {
            assert(self.pairs@.take(n as int) =~= self.pairs@);
            if self.wf() {
                lemma_filter_preserves_unique_keys(self.pairs@, is_kept_pair());
            }
        }
        self.pairs = out;
        self.pairs.len() == 0
    }
}

impl Clone for SettingsSection {
    fn clone(&self) -> (r: Self)
        ensures
            r.name == self.name,
            r.is_selected == self.is_selected,
            r.pairs@ == self.pairs@,
    {
        let mut pairs: Vec<SettingsPair> = Vec::new();
        let n = self.pairs.len();
        let mut i: usize = 0;
        while i < n
            invariant
                n == self.pairs@.len(),
                i <= n,
                pairs@ == self.pairs@.take(i as int),
            decreases n - i,
        {
            pairs.push(self.pairs[i].clone());
            proof {
                assert(pairs@ =~= self.pairs@.take(i + 1));
            }
            i += 1;
        }
        proof {
            assert(self.pairs@.take(n as int) =~= self.pairs@);
        }
        SettingsSection { name: self.name.clone(), pairs, is_selected: self.is_selected }
    }
}

/// After a whole-section select, a non-empty section reports a selection.
/// (An empty section has nothing to select and still reports none.)
pub proof fn lemma_select_then_has_selection(pairs: Seq<SettingsPair>)
    requires
        pairs.len() > 0,
        all_selected(pairs),
    ensures
        any_selected(pairs),
{
    assert(pairs[0].is_selected);
}

/// After a whole-section unselect, no pair is selected.
pub proof fn lemma_unselect_then_no_selection(pairs: Seq<SettingsPair>)
    requires
        none_selected(pairs),
    ensures
        !any_selected(pairs),
{
}

/// A subset copy contains only selected pairs.
pub proof fn lemma_subset_pairs_selected(pairs: Seq<SettingsPair>)
    ensures
        all_selected(subset_pairs(pairs)),
{
    assert forall|i: int| 0 <= i < subset_pairs(pairs).len() implies subset_pairs(
        pairs,
    )[i].is_selected by {
        pairs.lemma_filter_pred(is_selected_pair(), i);
    }
}

/// Taking the selected subset twice gives the subset itself: a subset copy
/// is already fully selected.
pub proof fn lemma_subset_pairs_idempotent(pairs: Seq<SettingsPair>)
    ensures
        subset_pairs(subset_pairs(pairs)) == subset_pairs(pairs),
{
    lemma_subset_pairs_selected(pairs);
    assert(forall|i: int|
        0 <= i < subset_pairs(pairs).len() ==> is_selected_pair()(
            #[trigger] subset_pairs(pairs)[i],
        ));
    lemma_filter_all(subset_pairs(pairs), is_selected_pair());
}

/// After removing the selected pairs, nothing remains selected.
pub proof fn lemma_remove_then_no_selection(before: Seq<SettingsPair>, after: Seq<SettingsPair>)
    requires
        after == kept_pairs(before),
    ensures
        !any_selected(after),
{
    assert forall|i: int| 0 <= i < after.len() implies !after[i].is_selected by {
        before.lemma_filter_pred(is_kept_pair(), i);
    }
}

} // verus!
