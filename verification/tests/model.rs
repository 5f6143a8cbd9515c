use settings_manager::Settings;
use settings_manager::SettingsCollection;
use settings_manager::SettingsPair;
use settings_manager::SettingsSection;

fn pair(key: &str, value: &str) -> SettingsPair {
    SettingsPair::new(key.to_string(), value.to_string())
}

fn section(name: &str, pairs: Vec<SettingsPair>) -> SettingsSection {
    let mut sec = SettingsSection::new(name.to_string(), Vec::new());
    for p in pairs {
        sec.insert(p);
    }
    sec
}

fn value_of(sec: &SettingsSection, key: &str) -> Option<String> {
    for p in &sec.pairs {
        if p.key == key {
            return Some(p.value.clone());
        }
    }
    None
}

fn section_of<'a>(s: &'a Settings, name: &str) -> Option<&'a SettingsSection> {
    s.sections.iter().find(|sec| sec.name == name)
}

#[test]
fn new_pair_starts_unselected() {
    let p = pair("Brightness", "50");
    assert_eq!(p.key, "Brightness");
    assert_eq!(p.value, "50");
    assert!(!p.is_selected);
}

#[test]
fn select_marks_every_pair_and_reports_selection() {
    let mut sec = section("Graphics", vec![pair("a", "1"), pair("b", "2")]);
    sec.select();
    assert!(sec.is_selected);
    assert!(sec.has_any_child_selected());
    assert!(sec.pairs.iter().all(|p| p.is_selected));
}

#[test]
fn unselect_clears_every_pair() {
    let mut sec = section("Graphics", vec![pair("a", "1"), pair("b", "2")]);
    sec.select();
    sec.unselect();
    assert!(!sec.is_selected);
    assert!(!sec.has_any_child_selected());
    assert!(sec.pairs.iter().all(|p| !p.is_selected));
}

#[test]
fn select_on_empty_section_reports_no_selection() {
    let mut sec = section("Empty", vec![]);
    sec.select();
    assert!(!sec.has_any_child_selected());
}

#[test]
fn recompute_follows_pairs() {
    let mut sec = section("Graphics", vec![pair("a", "1"), pair("b", "2")]);
    sec.pairs[0].is_selected = true;
    sec.adjust_self_selected_from_pairs();
    assert!(!sec.is_selected);
    sec.pairs[1].is_selected = true;
    sec.adjust_self_selected_from_pairs();
    assert!(sec.is_selected);
}

#[test]
fn recompute_on_empty_section_is_false() {
    let mut sec = section("Empty", vec![]);
    sec.adjust_self_selected_from_pairs();
    assert!(!sec.is_selected);
}

#[test]
fn recompute_on_empty_settings_is_false() {
    let mut s = Settings::new("s".to_string(), String::new());
    s.adjust_self_selected_from_pairs();
    assert!(!s.is_selected);
}

#[test]
fn insert_overwrites_by_key_last_write_wins() {
    let mut sec = section("S", vec![pair("k", "old")]);
    sec.insert(pair("k", "new"));
    assert_eq!(sec.pairs.len(), 1);
    assert_eq!(value_of(&sec, "k"), Some("new".to_string()));
}

#[test]
fn consume_unions_and_other_wins_on_collision() {
    let mut a = section("S", vec![pair("k", "mine"), pair("x", "1")]);
    let b = section("S", vec![pair("k", "theirs"), pair("y", "2")]);
    a.consume(b);
    assert_eq!(a.pairs.len(), 3);
    assert_eq!(value_of(&a, "k"), Some("theirs".to_string()));
    assert_eq!(value_of(&a, "x"), Some("1".to_string()));
    assert_eq!(value_of(&a, "y"), Some("2".to_string()));
}

#[test]
fn merge_disjoint_sections_commutes() {
    let mk = || section("S", vec![pair("base", "0")]);
    let s1 = || section("S", vec![pair("a", "1")]);
    let s2 = || section("S", vec![pair("b", "2")]);
    let mut left = mk();
    left.consume(s1());
    left.consume(s2());
    let mut right = mk();
    right.consume(s2());
    right.consume(s1());
    for key in ["base", "a", "b"] {
        assert_eq!(value_of(&left, key), value_of(&right, key));
    }
    assert_eq!(left.pairs.len(), right.pairs.len());
}

#[test]
fn upsert_section_merges_on_same_name() {
    let mut s = Settings::new("s".to_string(), String::new());
    s.add_section(section("A", vec![pair("k", "1")]));
    s.add_section(section("A", vec![pair("j", "2")]));
    s.add_section(section("B", vec![pair("k", "3")]));
    assert_eq!(s.sections.len(), 2);
    let a = section_of(&s, "A").unwrap();
    assert_eq!(value_of(a, "k"), Some("1".to_string()));
    assert_eq!(value_of(a, "j"), Some("2".to_string()));
}

#[test]
fn subset_copy_holds_exactly_the_selected_pairs() {
    let mut s = Settings::new("s".to_string(), String::new());
    s.add_section(section("A", vec![pair("k", "1"), pair("j", "2")]));
    s.add_section(section("B", vec![pair("x", "3")]));
    s.sections[0].pairs[0].is_selected = true;
    let sub = s.into_only_selected();
    assert!(sub.is_selected);
    assert_eq!(sub.sections.len(), 1);
    assert_eq!(sub.sections[0].name, "A");
    assert_eq!(sub.sections[0].pairs.len(), 1);
    assert_eq!(value_of(&sub.sections[0], "k"), Some("1".to_string()));
}

#[test]
fn subset_copy_is_idempotent() {
    let mut s = Settings::new("s".to_string(), String::new());
    s.add_section(section("A", vec![pair("k", "1"), pair("j", "2")]));
    s.add_section(section("B", vec![pair("x", "3")]));
    s.sections[0].pairs[1].is_selected = true;
    s.sections[1].pairs[0].is_selected = true;
    let once = s.into_only_selected();
    let twice = once.into_only_selected();
    assert_eq!(once.sections.len(), twice.sections.len());
    for (a, b) in once.sections.iter().zip(twice.sections.iter()) {
        assert_eq!(a.name, b.name);
        assert_eq!(a.pairs.len(), b.pairs.len());
        for (pa, pb) in a.pairs.iter().zip(b.pairs.iter()) {
            assert_eq!(pa.key, pb.key);
            assert_eq!(pa.value, pb.value);
            assert_eq!(pa.is_selected, pb.is_selected);
        }
    }
}

#[test]
fn subset_copy_is_independently_owned() {
    let mut s = Settings::new("s".to_string(), String::new());
    s.add_section(section("A", vec![pair("k", "1")]));
    s.sections[0].pairs[0].is_selected = true;
    let sub = s.into_only_selected();
    s.sections[0].pairs[0].value = "changed".to_string();
    assert_eq!(value_of(&sub.sections[0], "k"), Some("1".to_string()));
}

#[test]
fn remove_selected_in_section_reports_emptiness() {
    let mut sec = section("A", vec![pair("k", "1"), pair("j", "2")]);
    sec.pairs[0].is_selected = true;
    let empty = sec.remove_selected();
    assert!(!empty);
    assert_eq!(sec.pairs.len(), 1);
    assert!(!sec.has_any_child_selected());
    sec.pairs[0].is_selected = true;
    let empty = sec.remove_selected();
    assert!(empty);
    assert_eq!(sec.pairs.len(), 0);
}

#[test]
fn remove_selected_prunes_emptied_sections() {
    let mut s = Settings::new("s".to_string(), String::new());
    s.add_section(section("A", vec![pair("k", "1")]));
    s.add_section(section("B", vec![pair("x", "2"), pair("y", "3")]));
    s.add_section(section("C", vec![pair("z", "4")]));
    s.sections[0].pairs[0].is_selected = true;
    s.sections[1].pairs[0].is_selected = true;
    s.remove_selected();
    assert!(!s.has_any_child_selected());
    assert_eq!(s.sections.len(), 2);
    assert_eq!(s.sections[0].name, "B");
    assert_eq!(value_of(&s.sections[0], "y"), Some("3".to_string()));
    assert_eq!(s.sections[1].name, "C");
    assert_eq!(value_of(&s.sections[1], "z"), Some("4".to_string()));
}

#[test]
fn import_from_member_with_no_selection_changes_nothing() {
    let mut target = Settings::new("t".to_string(), String::new());
    target.add_section(section("A", vec![pair("k", "1")]));
    let mut member = Settings::new("m".to_string(), String::new());
    member.add_section(section("B", vec![pair("x", "2")]));
    let mut collection = SettingsCollection::new();
    collection.append(member);
    target.import_selected(&collection);
    assert_eq!(target.sections.len(), 1);
    assert_eq!(target.sections[0].name, "A");
    assert_eq!(target.sections[0].pairs.len(), 1);
}

#[test]
fn import_copies_selected_subtrees_and_merges() {
    let mut target = Settings::new("t".to_string(), String::new());
    target.add_section(section("A", vec![pair("k", "old")]));
    let mut member = Settings::new("m".to_string(), String::new());
    member.add_section(section("A", vec![pair("k", "new"), pair("skip", "s")]));
    member.add_section(section("B", vec![pair("x", "2")]));
    member.sections[0].pairs[0].is_selected = true;
    member.sections[1].pairs[0].is_selected = true;
    let mut collection = SettingsCollection::new();
    collection.append(member);
    target.import_selected(&collection);
    assert_eq!(target.sections.len(), 2);
    let a = section_of(&target, "A").unwrap();
    assert_eq!(value_of(a, "k"), Some("new".to_string()));
    assert_eq!(value_of(a, "skip"), None);
    let b = section_of(&target, "B").unwrap();
    assert_eq!(value_of(b, "x"), Some("2".to_string()));
    // the collection member itself is untouched
    assert_eq!(collection.settings[0].sections[0].pairs.len(), 2);
}

#[test]
fn export_with_empty_name_is_a_no_op() {
    let mut s = Settings::new("s".to_string(), String::new());
    s.add_section(section("A", vec![pair("k", "1")]));
    s.sections[0].pairs[0].is_selected = true;
    let collection = SettingsCollection::new();
    assert!(s.build_export("").is_none());
    assert_eq!(collection.settings.len(), 0);
}

#[test]
fn export_builds_named_preset_and_appends_after_write() {
    let mut s = Settings::new("user.settings".to_string(), "somewhere".to_string());
    s.add_section(section("Graphics", vec![pair("Brightness", "50")]));
    s.sections[0].pairs[0].is_selected = true;
    let mut collection = SettingsCollection::new();
    let preset = s.build_export("night-mode").expect("non-empty name must build");
    assert_eq!(preset.name, "night-mode");
    assert_eq!(preset.to_text(), "[Graphics]\nBrightness=50\n\n");
    collection.append(preset);
    assert_eq!(collection.settings.len(), 1);
    assert_eq!(collection.settings[0].name, "night-mode");
    assert_eq!(collection.settings[0].to_text(), "[Graphics]\nBrightness=50\n\n");
}

#[test]
fn fresh_collection_is_empty() {
    let c = SettingsCollection::new();
    assert!(c.settings.is_empty());
}

#[test]
fn clear_empties_the_collection() {
    let mut c = SettingsCollection::new();
    c.append(Settings::new("a".to_string(), String::new()));
    c.append(Settings::new("b".to_string(), String::new()));
    c.clear();
    assert!(c.settings.is_empty());
}
