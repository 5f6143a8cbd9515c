use settings_manager::LoadError;
use settings_manager::Settings;
use settings_manager::SettingsPair;
use settings_manager::SettingsSection;

fn build(name: &str, sections: Vec<(&str, Vec<(&str, &str)>)>) -> Settings {
    let mut s = Settings::new(name.to_string(), String::new());
    for (sec_name, pairs) in sections {
        let mut sec = SettingsSection::new(sec_name.to_string(), Vec::new());
        for (k, v) in pairs {
            sec.insert(SettingsPair::new(k.to_string(), v.to_string()));
        }
        s.add_section(sec);
    }
    s
}

fn value_of(sec: &SettingsSection, key: &str) -> Option<String> {
    for p in &sec.pairs {
        if p.key == key {
            return Some(p.value.clone());
        }
    }
    None
}

#[test]
fn encode_writes_headers_pairs_and_blank_separators() {
    let s = build("s", vec![("A", vec![("k", "1"), ("j", "2")]), ("B", vec![("x", "3")])]);
    assert_eq!(s.to_text(), "[A]\nk=1\nj=2\n\n[B]\nx=3\n\n");
}

#[test]
fn encode_of_empty_settings_is_empty() {
    let s = build("s", vec![]);
    assert_eq!(s.to_text(), "");
}

#[test]
fn decode_reads_sections_pairs_and_skips_blank_lines() {
    let s = Settings::from_text("n".to_string(), "p".to_string(), "[A]\nk=1\n\n\n[B]\nx=3\ny=4\n")
        .expect("well-formed text must decode");
    assert_eq!(s.name, "n");
    assert_eq!(s.path, "p");
    assert!(!s.is_selected);
    assert_eq!(s.sections.len(), 2);
    assert_eq!(s.sections[0].name, "A");
    assert_eq!(value_of(&s.sections[0], "k"), Some("1".to_string()));
    assert_eq!(s.sections[1].name, "B");
    assert_eq!(value_of(&s.sections[1], "x"), Some("3".to_string()));
    assert_eq!(value_of(&s.sections[1], "y"), Some("4".to_string()));
    assert!(s.sections.iter().all(|sec| !sec.is_selected));
    assert!(s.sections.iter().all(|sec| sec.pairs.iter().all(|p| !p.is_selected)));
}

#[test]
fn decode_of_empty_text_yields_empty_settings() {
    let s = Settings::from_text("n".to_string(), String::new(), "").unwrap();
    assert_eq!(s.sections.len(), 0);
}

#[test]
fn decode_merges_repeated_headers() {
    let s = Settings::from_text("n".to_string(), String::new(), "[A]\nk=1\n[A]\nj=2\n").unwrap();
    assert_eq!(s.sections.len(), 1);
    assert_eq!(value_of(&s.sections[0], "k"), Some("1".to_string()));
    assert_eq!(value_of(&s.sections[0], "j"), Some("2".to_string()));
}

#[test]
fn decode_lets_a_later_pair_win_a_repeated_key() {
    let s = Settings::from_text("n".to_string(), String::new(), "[A]\nk=1\nk=2\n").unwrap();
    assert_eq!(s.sections[0].pairs.len(), 1);
    assert_eq!(value_of(&s.sections[0], "k"), Some("2".to_string()));
}

#[test]
fn decode_splits_at_the_first_equals_sign() {
    let s = Settings::from_text("n".to_string(), String::new(), "[A]\nk=a=b\n").unwrap();
    assert_eq!(value_of(&s.sections[0], "k"), Some("a=b".to_string()));
}

#[test]
fn decode_rejects_a_headerless_pair_line() {
    let r = Settings::from_text("n".to_string(), String::new(), "k=1\n");
    assert!(matches!(r, Err(LoadError::Malformed)));
}

#[test]
fn decode_rejects_a_line_without_equals() {
    let r = Settings::from_text("n".to_string(), String::new(), "[A]\nnopair\n");
    assert!(matches!(r, Err(LoadError::Malformed)));
}

#[test]
fn decode_rejects_a_broken_header() {
    let r = Settings::from_text("n".to_string(), String::new(), "[A\nk=1\n");
    assert!(matches!(r, Err(LoadError::Malformed)));
}

#[test]
fn round_trip_reproduces_the_sections() {
    let s = build(
        "s",
        vec![
            ("Graphics", vec![("Brightness", "50"), ("Gamma", "1.0")]),
            ("Audio", vec![("Volume", "80")]),
        ],
    );
    let text = s.to_text();
    let d = Settings::from_text("s".to_string(), String::new(), &text).unwrap();
    assert_eq!(d.sections.len(), s.sections.len());
    for (a, b) in s.sections.iter().zip(d.sections.iter()) {
        assert_eq!(a.name, b.name);
        assert_eq!(a.pairs.len(), b.pairs.len());
        for (pa, pb) in a.pairs.iter().zip(b.pairs.iter()) {
            assert_eq!(pa.key, pb.key);
            assert_eq!(pa.value, pb.value);
        }
    }
}

#[test]
fn round_trip_keeps_empty_values_and_odd_names() {
    let s = build("s", vec![("", vec![("k", "")]), ("A]B", vec![("x", "1")])]);
    let text = s.to_text();
    let d = Settings::from_text("s".to_string(), String::new(), &text).unwrap();
    assert_eq!(d.sections.len(), 2);
    assert_eq!(d.sections[0].name, "");
    assert_eq!(value_of(&d.sections[0], "k"), Some(String::new()));
    assert_eq!(d.sections[1].name, "A]B");
    assert_eq!(value_of(&d.sections[1], "x"), Some("1".to_string()));
}
