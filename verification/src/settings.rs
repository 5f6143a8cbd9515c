use vstd::prelude::*;

use crate::collection::SettingsCollection;
use crate::filtering::lemma_filter_all;
use crate::filtering::lemma_filter_element_from;
use crate::filtering::lemma_filter_take_step;
use crate::keyed::assoc_map;
use crate::keyed::lemma_assoc_map_dom;
use crate::keyed::lemma_assoc_map_index;
use crate::keyed::lemma_assoc_map_update;
use crate::keyed::unique_entry_keys;
use crate::section::any_selected;
use crate::section::kept_pairs;
use crate::section::lemma_remove_then_no_selection;
use crate::section::lemma_subset_pairs_selected;
use crate::section::none_selected;
use crate::section::pair_view;
use crate::section::subset_pairs;
use crate::section::SettingsSection;

verus! {

/// The entry a section contributes to its settings' map view.
pub open spec fn section_entry() -> spec_fn(SettingsSection) -> (
    Seq<char>,
    Map<Seq<char>, (Seq<char>, bool)>,
) {
    |s: SettingsSection| (s.name@, pair_view(s.pairs@))
}

/// A section list as a map from section name to that section's pair map; on
/// a repeated name the later section wins.
pub open spec fn sections_view(sections: Seq<SettingsSection>) -> Map<
    Seq<char>,
    Map<Seq<char>, (Seq<char>, bool)>,
> {
    assoc_map(sections.map_values(section_entry()))
}

/// No two sections share a name.
pub open spec fn unique_names(sections: Seq<SettingsSection>) -> bool {
    forall|i: int, j: int| 0 <= i < j < sections.len() ==> sections[i].name@ != sections[j].name@
}

/// Some section carries the given name.
pub open spec fn has_name(sections: Seq<SettingsSection>, name: Seq<char>) -> bool {
    exists|i: int| 0 <= i < sections.len() && sections[i].name@ == name
}

/// Some section has a selected pair.
pub open spec fn any_section_selection(sections: Seq<SettingsSection>) -> bool {
    exists|i: int| 0 <= i < sections.len() && any_selected(sections[i].pairs@)
}

/// No section flag is set and no pair is selected anywhere: the state of
/// freshly loaded data.
pub open spec fn sections_unselected(sections: Seq<SettingsSection>) -> bool {
    forall|i: int|
        0 <= i < sections.len() ==> !(#[trigger] sections[i]).is_selected && none_selected(
            sections[i].pairs@,
        )
}

/// The predicate a section must pass to enter a subset copy.
pub open spec fn has_selection_section() -> spec_fn(SettingsSection) -> bool {
    |s: SettingsSection| any_selected(s.pairs@)
}

/// The sections with a selection, in order.
pub open spec fn selected_sections(sections: Seq<SettingsSection>) -> Seq<SettingsSection> {
    sections.filter(has_selection_section())
}

/// The predicate a section must pass to survive a removal: some pair is left.
pub open spec fn survives_removal() -> spec_fn(SettingsSection) -> bool {
    |s: SettingsSection| kept_pairs(s.pairs@).len() != 0
}

/// What a selected-subset copy of a section list looks like: one section per
/// original section with a selection, holding exactly its selected pairs and
/// marked selected itself.
pub open spec fn selected_subset_of(
    post: Seq<SettingsSection>,
    pre: Seq<SettingsSection>,
) -> bool {
    &&& post.len() == selected_sections(pre).len()
    &&& forall|i: int|
        0 <= i < post.len() ==> {
            &&& (#[trigger] post[i]).name == selected_sections(pre)[i].name
            &&& post[i].is_selected
            &&& post[i].pairs@ == subset_pairs(selected_sections(pre)[i].pairs@)
        }
}

/// What a removal leaves of a section list: the unselected pairs of every
/// section that still has one, empty sections pruned.
pub open spec fn removal_result_of(
    post: Seq<SettingsSection>,
    pre: Seq<SettingsSection>,
) -> bool {
    &&& post.len() == pre.filter(survives_removal()).len()
    &&& forall|i: int|
        0 <= i < post.len() ==> {
            &&& (#[trigger] post[i]).name == pre.filter(survives_removal())[i].name
            &&& post[i].is_selected == pre.filter(survives_removal())[i].is_selected
            &&& post[i].pairs@ == kept_pairs(pre.filter(survives_removal())[i].pairs@)
        }
}

/// Upserting one section into a settings map view: a new name is inserted,
/// an existing one has the incoming pairs merged over its own.
pub open spec fn upsert_section(
    m: Map<Seq<char>, Map<Seq<char>, (Seq<char>, bool)>>,
    name: Seq<char>,
    sec: Map<Seq<char>, (Seq<char>, bool)>,
) -> Map<Seq<char>, Map<Seq<char>, (Seq<char>, bool)>> {
    m.insert(
        name,
        if m.contains_key(name) {
            m[name].union_prefer_right(sec)
        } else {
            sec
        },
    )
}

/// One step of an import: a section with a selection contributes its
/// selected pairs under its name; one without contributes nothing.
pub open spec fn import_section_step(
    m: Map<Seq<char>, Map<Seq<char>, (Seq<char>, bool)>>,
    s: SettingsSection,
) -> Map<Seq<char>, Map<Seq<char>, (Seq<char>, bool)>> {
    if any_selected(s.pairs@) {
        upsert_section(m, s.name@, pair_view(subset_pairs(s.pairs@)))
    } else {
        m
    }
}

/// Importing from one member: its sections contribute in order.
pub open spec fn import_sections(
    m: Map<Seq<char>, Map<Seq<char>, (Seq<char>, bool)>>,
    secs: Seq<SettingsSection>,
) -> Map<Seq<char>, Map<Seq<char>, (Seq<char>, bool)>>
    decreases secs.len(),
{
    if secs.len() == 0 {
        m
    } else {
        import_sections(import_section_step(m, secs[0]), secs.skip(1))
    }
}

/// Importing from a whole collection: its members contribute in order.
pub open spec fn import_members(
    m: Map<Seq<char>, Map<Seq<char>, (Seq<char>, bool)>>,
    members: Seq<Settings>,
) -> Map<Seq<char>, Map<Seq<char>, (Seq<char>, bool)>>
    decreases members.len(),
{
    if members.len() == 0 {
        m
    } else {
        import_members(import_sections(m, members[0].sections@), members.skip(1))
    }
}

/// How a whole-settings select leaves one section: same name and pairs,
/// everything selected.
pub open spec fn section_all_selected_like(post: SettingsSection, pre: SettingsSection) -> bool {
    &&& post.name == pre.name
    &&& post.is_selected
    &&& post.pairs@.len() == pre.pairs@.len()
    &&& forall|j: int|
        0 <= j < pre.pairs@.len() ==> {
            &&& (#[trigger] post.pairs@[j]).key == pre.pairs@[j].key
            &&& post.pairs@[j].value == pre.pairs@[j].value
            &&& post.pairs@[j].is_selected
        }
}

/// How a whole-settings unselect leaves one section.
pub open spec fn section_none_selected_like(post: SettingsSection, pre: SettingsSection) -> bool {
    &&& post.name == pre.name
    &&& !post.is_selected
    &&& post.pairs@.len() == pre.pairs@.len()
    &&& forall|j: int|
        0 <= j < pre.pairs@.len() ==> {
            &&& (#[trigger] post.pairs@[j]).key == pre.pairs@[j].key
            &&& post.pairs@[j].value == pre.pairs@[j].value
            &&& !post.pairs@[j].is_selected
        }
}

/// Filtering cannot introduce a duplicate section name.
pub proof fn lemma_filter_preserves_unique_names(
    sections: Seq<SettingsSection>,
    pred: spec_fn(SettingsSection) -> bool,
)
    requires
        unique_names(sections),
    ensures
        unique_names(sections.filter(pred)),
{
    let f = sections.filter(pred);
    assert forall|i: int, j: int| 0 <= i < j < f.len() implies f[i].name@ != f[j].name@ by {
        lemma_filter_unique_names_rec(sections, pred, i, j);
    }
}

proof fn lemma_filter_unique_names_rec(
    sections: Seq<SettingsSection>,
    pred: spec_fn(SettingsSection) -> bool,
    i: int,
    j: int,
)
    requires
        unique_names(sections),
        0 <= i < j < sections.filter(pred).len(),
    ensures
        sections.filter(pred)[i].name@ != sections.filter(pred)[j].name@,
    decreases sections.len(),
{
    reveal(Seq::filter);
    let t = sections.drop_last();
    assert(sections.len() > 0);
    assert(unique_names(t));
    let tf = t.filter(pred);
    if pred(sections.last()) && j == sections.filter(pred).len() - 1 {
        assert(sections.filter(pred)[j] == sections.last());
        lemma_filter_element_from(t, pred, i);
        let a = choose|a: int| 0 <= a < t.len() && t[a] == tf[i];
        assert(sections[a].name@ != sections[sections.len() - 1].name@);
    } else {
        lemma_filter_unique_names_rec(t, pred, i, j);
    }
}

/// One loaded settings file, or a preset derived from one: named sections
/// with unique names, a path for file-backed instances, and the derived
/// selection flag.
pub struct Settings {
    pub sections: Vec<SettingsSection>,
    pub path: String,
    pub name: String,
    pub is_selected: bool,
}

impl Settings {
    /// Unique section names, each section itself well formed.
    pub open spec fn wf(self) -> bool {
        &&& unique_names(self.sections@)
        &&& forall|i: int| 0 <= i < self.sections@.len() ==> (#[trigger] self.sections@[i]).wf()
    }

    /// The contents as a map from section name to pair map.
    pub open spec fn sections_map(self) -> Map<Seq<char>, Map<Seq<char>, (Seq<char>, bool)>> {
        sections_view(self.sections@)
    }

    /// An empty settings instance under the given name and source path.
    pub fn new(name: String, path: String) -> (r: Settings)
        ensures
            r.name == name,
            r.path == path,
            r.sections@.len() == 0,
            !r.is_selected,
            sections_unselected(r.sections@),
            r.wf(),
            r.sections_map() == Map::<Seq<char>, Map<Seq<char>, (Seq<char>, bool)>>::empty(),
    {
        let r = Settings { sections: Vec::new(), path, name, is_selected: false };
        proof {
            assert(r.sections@.map_values(section_entry()) =~= Seq::<
                (Seq<char>, Map<Seq<char>, (Seq<char>, bool)>),
            >::empty());
        }
        r
    }

    /// Adds a section: merged into the section of the same name if one
    /// exists, appended as new otherwise.
    pub fn add_section(&mut self, section: SettingsSection)
        requires
            old(self).wf(),
            section.wf(),
        ensures
            final(self).wf(),
            final(self).name == old(self).name,
            final(self).path == old(self).path,
            final(self).is_selected == old(self).is_selected,
            final(self).sections_map() == upsert_section(
                old(self).sections_map(),
                section.name@,
                pair_view(section.pairs@),
            ),
            sections_unselected(old(self).sections@) && !section.is_selected && none_selected(
                section.pairs@,
            ) ==> sections_unselected(final(self).sections@),
    {
        let n = self.sections.len();
        let mut i: usize = 0;
        while i < n
            invariant
                *self == *old(self),
                n == self.sections@.len(),
                i <= n,
                old(self).wf(),
                section.wf(),
                forall|j: int| 0 <= j < i ==> old(self).sections@[j].name@ != section.name@,
            decreases n - i,
        {
            if self.sections[i].name == section.name {
                proof {
                    let entries = old(self).sections@.map_values(section_entry());
                    assert(unique_entry_keys(entries));
                    lemma_assoc_map_index(entries, i as int);
                }
                let mut cur = self.sections.remove(i);
                cur.consume(section);
                self.sections.insert(i, cur);
                proof {
                    assert(self.sections@ =~= old(self).sections@.update(i as int, cur));
                    let entries = old(self).sections@.map_values(section_entry());
                    lemma_assoc_map_update(
                        entries,
                        i as int,
                        (cur.name@, pair_view(cur.pairs@)),
                    );
                    assert(self.sections@.map_values(section_entry()) =~= entries.update(
                        i as int,
                        (cur.name@, pair_view(cur.pairs@)),
                    ));
                    assert forall|a: int|
                        0 <= a < self.sections@.len() implies (
                        #[trigger] self.sections@[a]).wf() by {
                        if a != i {
                            assert(self.sections@[a] == old(self).sections@[a]);
                        }
                    }
                }
                return ;
            }
            i += 1;
        }
        self.sections.push(section);
        proof {
            assert(self.sections@ =~= old(self).sections@.push(section));
            let entries = self.sections@.map_values(section_entry());
            assert(entries.drop_last() =~= old(self).sections@.map_values(section_entry()));
            assert(entries.last() == (section.name@, pair_view(section.pairs@)));
            lemma_assoc_map_dom(
                old(self).sections@.map_values(section_entry()),
                section.name@,
            );
            assert(!has_name(old(self).sections@, section.name@));
            assert forall|a: int|
                0 <= a < self.sections@.len() implies (#[trigger] self.sections@[a]).wf() by {
                if a < old(self).sections@.len() {
                    assert(self.sections@[a] == old(self).sections@[a]);
                }
            }
        }
    }

    /// Selects the settings and everything below.
    pub fn select(&mut self)
        ensures
            final(self).name == old(self).name,
            final(self).path == old(self).path,
            final(self).is_selected,
            final(self).sections@.len() == old(self).sections@.len(),
            forall|i: int|
                0 <= i < old(self).sections@.len() ==> section_all_selected_like(
                    #[trigger] final(self).sections@[i],
                    old(self).sections@[i],
                ),
            old(self).wf() ==> final(self).wf(),
    {
        self.is_selected = true;
        let n = self.sections.len();
        let mut i: usize = 0;
        while i < n
            invariant
                n == self.sections@.len(),
                n == old(self).sections@.len(),
                i <= n,
                self.name == old(self).name,
                self.path == old(self).path,
                self.is_selected,
                forall|j: int|
                    0 <= j < i ==> section_all_selected_like(
                        #[trigger] self.sections@[j],
                        old(self).sections@[j],
                    ),
                forall|j: int|
                    0 <= j < i ==> (old(self).sections@[j].wf() ==> (
                    #[trigger] self.sections@[j]).wf()),
                forall|j: int| i <= j < n ==> self.sections@[j] == old(self).sections@[j],
            decreases n - i,
        {
            let ghost prev = self.sections@;
            let mut sec = self.sections.remove(i);
            sec.select();
            self.sections.insert(i, sec);
            proof {
                assert(self.sections@ =~= prev.update(i as int, sec));
            }
            i += 1;
        }
        proof {
            if old(self).wf() {
                assert forall|a: int, b: int|
                    0 <= a < b < self.sections@.len() implies self.sections@[a].name@
                    != self.sections@[b].name@ by {
                    assert(self.sections@[a].name == old(self).sections@[a].name);
                    assert(self.sections@[b].name == old(self).sections@[b].name);
                }
            }
        }
    }

    /// Unselects the settings and everything below.
    pub fn unselect(&mut self)
        ensures
            final(self).name == old(self).name,
            final(self).path == old(self).path,
            !final(self).is_selected,
            final(self).sections@.len() == old(self).sections@.len(),
            forall|i: int|
                0 <= i < old(self).sections@.len() ==> section_none_selected_like(
                    #[trigger] final(self).sections@[i],
                    old(self).sections@[i],
                ),
            old(self).wf() ==> final(self).wf(),
    {
        self.is_selected = false;
        let n = self.sections.len();
        let mut i: usize = 0;
        while i < n
            invariant
                n == self.sections@.len(),
                n == old(self).sections@.len(),
                i <= n,
                self.name == old(self).name,
                self.path == old(self).path,
                !self.is_selected,
                forall|j: int|
                    0 <= j < i ==> section_none_selected_like(
                        #[trigger] self.sections@[j],
                        old(self).sections@[j],
                    ),
                forall|j: int|
                    0 <= j < i ==> (old(self).sections@[j].wf() ==> (
                    #[trigger] self.sections@[j]).wf()),
                forall|j: int| i <= j < n ==> self.sections@[j] == old(self).sections@[j],
            decreases n - i,
        {
            let ghost prev = self.sections@;
            let mut sec = self.sections.remove(i);
            sec.unselect();
            self.sections.insert(i, sec);
            proof {
                assert(self.sections@ =~= prev.update(i as int, sec));
            }
            i += 1;
        }
        proof {
            if old(self).wf() {
                assert forall|a: int, b: int|
                    0 <= a < b < self.sections@.len() implies self.sections@[a].name@
                    != self.sections@[b].name@ by {
                    assert(self.sections@[a].name == old(self).sections@[a].name);
                    assert(self.sections@[b].name == old(self).sections@[b].name);
                }
            }
        }
    }

    /// Recomputes the settings flag from the section flags: non-empty and
    /// every section flagged.  An empty settings instance counts as
    /// unselected, the same deliberate policy as for an empty section.
    pub fn adjust_self_selected_from_pairs(&mut self)
        ensures
            final(self).name == old(self).name,
            final(self).path == old(self).path,
            final(self).sections == old(self).sections,
            final(self).is_selected == (old(self).sections@.len() > 0 && forall|i: int|
                0 <= i < old(self).sections@.len() ==> (
                #[trigger] old(self).sections@[i]).is_selected),
    {
        let n = self.sections.len();
        let mut all: bool = n > 0;
        let mut i: usize = 0;
        while i < n
            invariant
                *self == *old(self),
                n == self.sections@.len(),
                i <= n,
                all == (n > 0 && forall|j: int|
                    0 <= j < i ==> (#[trigger] self.sections@[j]).is_selected),
            decreases n - i,
        {
            if !self.sections[i].is_selected {
                all = false;
            }
            i += 1;
        }
        self.is_selected = all;
    }

    /// Whether any pair anywhere below is selected.
    pub fn has_any_child_selected(&self) -> (r: bool)
        ensures
            r == any_section_selection(self.sections@),
    {
        let n = self.sections.len();
        let mut i: usize = 0;
        while i < n
            invariant
                n == self.sections@.len(),
                i <= n,
                forall|j: int| 0 <= j < i ==> !any_selected(self.sections@[j].pairs@),
            decreases n - i,
        {
            let sec = &self.sections[i];
            if sec.has_any_child_selected() {
                assert(any_selected(self.sections@[i as int].pairs@));
                return true;
            }
            i += 1;
        }
        false
    }

    /// A new, independently owned settings instance holding only the
    /// sections with a selection, each reduced to its selected pairs, and
    /// marked selected throughout.
    pub fn into_only_selected(&self) -> (r: Settings)
        ensures
            r.name == self.name,
            r.path == self.path,
            r.is_selected,
            selected_subset_of(r.sections@, self.sections@),
            self.wf() ==> r.wf(),
    {
        let mut out: Vec<SettingsSection> = Vec::new();
        let n = self.sections.len();
        let mut i: usize = 0;
        proof {
            assert(self.sections@.take(0).filter(has_selection_section()) =~= Seq::<
                SettingsSection,
            >::empty());
        }
        while i < n
            invariant
                n == self.sections@.len(),
                i <= n,
                out@.len() == selected_sections(self.sections@.take(i as int)).len(),
                forall|j: int|
                    0 <= j < out@.len() ==> {
                        &&& (#[trigger] out@[j]).name == selected_sections(
                            self.sections@.take(i as int),
                        )[j].name
                        &&& out@[j].is_selected
                        &&& out@[j].pairs@ == subset_pairs(
                            selected_sections(self.sections@.take(i as int))[j].pairs@,
                        )
                    },
                self.wf() ==> forall|j: int| 0 <= j < out@.len() ==> (#[trigger] out@[j]).wf(),
            decreases n - i,
        {
            proof {
                lemma_filter_take_step(self.sections@, has_selection_section(), i as int);
            }
            let sec = &self.sections[i];
            if sec.has_any_child_selected() {
                out.push(sec.into_only_selected());
            }
            i += 1;
        }
        proof {
            assert(self.sections@.take(n as int) =~= self.sections@);
            if self.wf() {
                lemma_filter_preserves_unique_names(self.sections@, has_selection_section());
                assert forall|a: int, b: int|
                    0 <= a < b < out@.len() implies out@[a].name@ != out@[b].name@ by {
                    assert(out@[a].name == selected_sections(self.sections@)[a].name);
                    assert(out@[b].name == selected_sections(self.sections@)[b].name);
                }
            }
        }
        Settings {
            sections: out,
            path: self.path.clone(),
            name: self.name.clone(),
            is_selected: true,
        }
    }

    /// Removes every selected pair; a section left empty by this is pruned.
    /// Untouched sections stay as they are.
    pub fn remove_selected(&mut self)
        ensures
            final(self).name == old(self).name,
            final(self).path == old(self).path,
            final(self).is_selected == old(self).is_selected,
            removal_result_of(final(self).sections@, old(self).sections@),
            old(self).wf() ==> final(self).wf(),
    {
        let mut out: Vec<SettingsSection> = Vec::new();
        let n = self.sections.len();
        let mut i: usize = 0;
        proof {
            assert(self.sections@.take(0).filter(survives_removal()) =~= Seq::<
                SettingsSection,
            >::empty());
        }
        while i < n
            invariant
                *self == *old(self),
                n == self.sections@.len(),
                i <= n,
                out@.len() == self.sections@.take(i as int).filter(survives_removal()).len(),
                forall|j: int|
                    0 <= j < out@.len() ==> {
                        &&& (#[trigger] out@[j]).name == self.sections@.take(i as int).filter(
                            survives_removal(),
                        )[j].name
                        &&& out@[j].is_selected == self.sections@.take(i as int).filter(
                            survives_removal(),
                        )[j].is_selected
                        &&& out@[j].pairs@ == kept_pairs(
                            self.sections@.take(i as int).filter(survives_removal())[j].pairs@,
                        )
                    },
                self.wf() ==> forall|j: int| 0 <= j < out@.len() ==> (#[trigger] out@[j]).wf(),
            decreases n - i,
        {
            proof {
                lemma_filter_take_step(self.sections@, survives_removal(), i as int);
            }
            let mut sec = self.sections[i].clone();
            let empty = sec.remove_selected();
            if !empty {
                out.push(sec);
            }
            i += 1;
        }
        proof {
            assert(self.sections@.take(n as int) =~= self.sections@);
            if old(self).wf() {
                lemma_filter_preserves_unique_names(self.sections@, survives_removal());
                assert forall|a: int, b: int|
                    0 <= a < b < out@.len() implies out@[a].name@ != out@[b].name@ by {
                    assert(out@[a].name == self.sections@.filter(survives_removal())[a].name);
                    assert(out@[b].name == self.sections@.filter(survives_removal())[b].name);
                }
            }
        }
        self.sections = out;
    }

    /// Imports the selected pairs of every collection member, merging by
    /// section name and key.  The collection itself is not touched; its
    /// selection state is the caller's to reset.
    pub fn import_selected(&mut self, collection: &SettingsCollection)
        requires
            old(self).wf(),
            collection.wf(),
        ensures
            final(self).wf(),
            final(self).name == old(self).name,
            final(self).path == old(self).path,
            final(self).is_selected == old(self).is_selected,
            final(self).sections_map() == import_members(
                old(self).sections_map(),
                collection.settings@,
            ),
    {
        let ghost target = import_members(old(self).sections_map(), collection.settings@);
        let m = collection.settings.len();
        let mut j: usize = 0;
        proof {
            assert(collection.settings@.skip(0) =~= collection.settings@);
        }
        while j < m
            invariant
                self.wf(),
                collection.wf(),
                self.name == old(self).name,
                self.path == old(self).path,
                self.is_selected == old(self).is_selected,
                m == collection.settings@.len(),
                j <= m,
                import_members(self.sections_map(), collection.settings@.skip(j as int))
                    == target,
            decreases m - j,
        {
            let member = &collection.settings[j];
            proof {
                assert(collection.settings@.skip(j as int)[0] == member);
                assert(collection.settings@.skip(j as int).skip(1) =~= collection.settings@.skip(
                    j as int + 1,
                ));
                assert(member.sections@.skip(0) =~= member.sections@);
            }
            let n = member.sections.len();
            let mut k: usize = 0;
            while k < n
                invariant
                    self.wf(),
                    collection.wf(),
                    self.name == old(self).name,
                    self.path == old(self).path,
                    self.is_selected == old(self).is_selected,
                    m == collection.settings@.len(),
                    j < m,
                    member == collection.settings@[j as int],
                    n == member.sections@.len(),
                    k <= n,
                    import_members(
                        import_sections(self.sections_map(), member.sections@.skip(k as int)),
                        collection.settings@.skip(j as int + 1),
                    ) == target,
                decreases n - k,
            {
                proof {
                    assert(member.sections@.skip(k as int)[0] == member.sections@[k as int]);
                    assert(member.sections@.skip(k as int).skip(1) =~= member.sections@.skip(
                        k as int + 1,
                    ));
                }
                let sec = &member.sections[k];
                if sec.has_any_child_selected() {
                    let sub = sec.into_only_selected();
                    proof {
                        assert(member.wf());
                        assert(member.sections@[k as int].wf());
                    }
                    self.add_section(sub);
                }
                k += 1;
            }
            proof {
                assert(member.sections@.skip(n as int) =~= Seq::<SettingsSection>::empty());
            }
            j += 1;
        }
        proof {
            assert(collection.settings@.skip(m as int) =~= Seq::<Settings>::empty());
        }
    }

    /// First phase of an export: the preset value to persist and append, or
    /// `None` when the export name is empty (such an export is a no-op).
    /// The caller must write the preset's text to durable storage first and
    /// only on success hand the value to `SettingsCollection::append`; a
    /// failed write must leave the collection unchanged.
    pub fn build_export(&self, export_name: &str) -> (r: Option<Settings>)
        ensures
            (export_name@.len() == 0) <==> r is None,
            r matches Some(e) ==> {
                &&& e.name@ == export_name@
                &&& e.path == self.path
                &&& e.is_selected
                &&& selected_subset_of(e.sections@, self.sections@)
                &&& (self.wf() ==> e.wf())
            },
    {
        if export_name.is_empty() {
            return None;
        }
        let mut exports = self.into_only_selected();
        exports.name = export_name.to_owned();
        Some(exports)
    }
}

/// Importing from a member with no selected pair leaves the target
/// unchanged.
pub proof fn lemma_import_unselected_member(
    m: Map<Seq<char>, Map<Seq<char>, (Seq<char>, bool)>>,
    secs: Seq<SettingsSection>,
)
    requires
        forall|i: int| 0 <= i < secs.len() ==> !any_selected(secs[i].pairs@),
    ensures
        import_sections(m, secs) == m,
    decreases secs.len(),
{
    if secs.len() > 0 {
        assert(!any_selected(secs[0].pairs@));
        assert(forall|i: int|
            0 <= i < secs.skip(1).len() ==> !any_selected(#[trigger] secs.skip(1)[i].pairs@));
        lemma_import_unselected_member(m, secs.skip(1));
    }
}

/// A selected-subset copy is a fixed point: every section of a subset copy
/// still has a selection and every pair of it is selected, so taking the
/// subset again reproduces it exactly.
pub proof fn lemma_subset_copy_idempotent(
    base: Seq<SettingsSection>,
    once: Seq<SettingsSection>,
    twice: Seq<SettingsSection>,
)
    requires
        selected_subset_of(once, base),
        selected_subset_of(twice, once),
    ensures
        twice.len() == once.len(),
        forall|i: int|
            0 <= i < once.len() ==> {
                &&& (#[trigger] twice[i]).name == once[i].name
                &&& twice[i].is_selected == once[i].is_selected
                &&& twice[i].pairs@ == once[i].pairs@
            },
{
    assert forall|i: int|
        0 <= i < once.len() implies any_selected(#[trigger] once[i].pairs@) by {
        base.lemma_filter_pred(has_selection_section(), i);
        let sel = selected_sections(base)[i];
        assert(any_selected(sel.pairs@));
        let a = choose|a: int| 0 <= a < sel.pairs@.len() && sel.pairs@[a].is_selected;
        sel.pairs@.lemma_filter_contains(crate::section::is_selected_pair(), a);
        assert(subset_pairs(sel.pairs@).contains(sel.pairs@[a]));
        let b = choose|b: int|
            0 <= b < subset_pairs(sel.pairs@).len() && subset_pairs(sel.pairs@)[b]
                == sel.pairs@[a];
        assert(once[i].pairs@[b].is_selected);
    }
    assert(forall|i: int|
        0 <= i < once.len() ==> has_selection_section()(#[trigger] once[i]));
    lemma_filter_all(once, has_selection_section());
    assert forall|i: int|
        0 <= i < once.len() implies (#[trigger] twice[i]).pairs@ == once[i].pairs@ by {
        assert(selected_sections(once)[i] == once[i]);
        lemma_subset_pairs_selected(once[i].pairs@);
        let sub = subset_pairs(once[i].pairs@);
        assert(once[i].pairs@ == subset_pairs(selected_sections(base)[i].pairs@));
        crate::section::lemma_subset_pairs_idempotent(selected_sections(base)[i].pairs@);
    }
    assert forall|i: int|
        0 <= i < once.len() implies (#[trigger] twice[i]).name == once[i].name
        && twice[i].is_selected == once[i].is_selected by {
        assert(selected_sections(once)[i] == once[i]);
    }
}

/// After a whole-settings removal, no node below reports a selection.
pub proof fn lemma_remove_all_then_no_selection(
    pre: Seq<SettingsSection>,
    post: Seq<SettingsSection>,
)
    requires
        removal_result_of(post, pre),
    ensures
        !any_section_selection(post),
{
    assert forall|i: int| 0 <= i < post.len() implies !any_selected(post[i].pairs@) by {
        lemma_remove_then_no_selection(
            pre.filter(survives_removal())[i].pairs@,
            post[i].pairs@,
        );
    }
}

} // verus!
