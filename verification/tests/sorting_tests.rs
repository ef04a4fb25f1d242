use copaiba::oto::OtoEntry;
use copaiba::sorting::{detect_phoneme_type, phoneme_type_from, sort_entries, sorted_order, SortMode, SortSettings};

fn entry(filename: &str, alias: &str, offset: i64, done: bool) -> OtoEntry {
    OtoEntry {
        filename: filename.to_string(),
        alias: alias.to_string(),
        offset,
        consonant: 0,
        cutoff: 0,
        preutter: 0,
        overlap: 0,
        line_index: 0,
        done,
        notes: String::new(),
    }
}

fn aliases(es: &[OtoEntry]) -> Vec<String> {
    es.iter().map(|e| e.alias.clone()).collect()
}

fn settings(mode: SortMode, group_by_file: bool, completed_first: bool) -> SortSettings {
    SortSettings { mode, group_by_file, completed_first }
}

#[test]
fn default_settings() {
    assert_eq!(SortSettings::default(), settings(SortMode::Alpha, false, false));
}

#[test]
fn phoneme_types() {
    assert_eq!(detect_phoneme_type("a ka"), 1);
    assert_eq!(detect_phoneme_type("A KA"), 1);
    assert_eq!(detect_phoneme_type("あ か"), 1);
    assert_eq!(detect_phoneme_type("a k"), 1);
    assert_eq!(detect_phoneme_type("- ka"), 4);
    assert_eq!(detect_phoneme_type("[breath]"), 4);
    assert_eq!(detect_phoneme_type("ka"), 0);
    assert_eq!(detect_phoneme_type(""), 0);
    assert_eq!(phoneme_type_from("a k", false, true), 2);
    assert_eq!(phoneme_type_from("-a", false, false), 4);
    assert_eq!(phoneme_type_from("ka", true, false), 1);
}

#[test]
fn alpha_is_case_insensitive_and_stable() {
    let mut es = vec![entry("1.wav", "b", 0, false), entry("2.wav", "A", 0, false), entry("3.wav", "B", 0, false), entry("4.wav", "a", 0, false)];
    sort_entries(&mut es, &settings(SortMode::Alpha, false, false));
    assert_eq!(aliases(&es), vec!["A", "a", "b", "B"]);
    let mut es2 = es.clone();
    sort_entries(&mut es2, &settings(SortMode::AlphaRev, false, false));
    assert_eq!(aliases(&es2), vec!["b", "B", "A", "a"]);
}

#[test]
fn by_file_name() {
    let mut es = vec![entry("b.wav", "x", 0, false), entry("A.wav", "y", 0, false), entry("a.wav", "z", 0, false)];
    sort_entries(&mut es, &settings(SortMode::FileName, false, false));
    assert_eq!(aliases(&es), vec!["y", "z", "x"]);
}

#[test]
fn by_type_then_alias() {
    let mut es = vec![entry("1.wav", "- ka", 0, false), entry("2.wav", "ki", 0, false), entry("3.wav", "a ka", 0, false), entry("4.wav", "ka", 0, false)];
    sort_entries(&mut es, &settings(SortMode::Type, false, false));
    assert_eq!(aliases(&es), vec!["ka", "ki", "a ka", "- ka"]);
}

#[test]
fn by_byte_length_then_alias() {
    let mut es = vec![entry("1.wav", "あ", 0, false), entry("2.wav", "kya", 0, false), entry("3.wav", "ka", 0, false), entry("4.wav", "ab", 0, false)];
    sort_entries(&mut es, &settings(SortMode::Length, false, false));
    assert_eq!(aliases(&es), vec!["ab", "ka", "kya", "あ"]);
}

#[test]
fn by_offset_stable() {
    let mut es = vec![entry("1.wav", "c", 300, false), entry("2.wav", "a", -5, false), entry("3.wav", "b", 300, false)];
    sort_entries(&mut es, &settings(SortMode::Offset, false, false));
    assert_eq!(aliases(&es), vec!["a", "c", "b"]);
}

#[test]
fn completed_first_then_grouped_by_file() {
    let mut es = vec![
        entry("b.wav", "1", 0, false),
        entry("b.wav", "2", 0, true),
        entry("a.wav", "3", 0, false),
        entry("a.wav", "4", 0, true),
    ];
    sort_entries(&mut es, &settings(SortMode::Alpha, true, true));
    assert_eq!(aliases(&es), vec!["4", "2", "3", "1"]);
}

#[test]
fn sorted_order_is_a_permutation() {
    let es = vec![entry("1.wav", "c", 0, false), entry("2.wav", "a", 0, false), entry("3.wav", "b", 0, false)];
    assert_eq!(sorted_order(&es, &SortSettings::default()), vec![1, 2, 0]);
}

#[test]
fn sorting_twice_changes_nothing() {
    let mut es = vec![entry("b.wav", "ka", 3, true), entry("a.wav", "Ka", 1, false), entry("a.wav", "a ka", 2, false)];
    for mode in [SortMode::Alpha, SortMode::AlphaRev, SortMode::FileName, SortMode::Type, SortMode::Length, SortMode::Offset] {
        let s = settings(mode, true, true);
        sort_entries(&mut es, &s);
        let once = es.clone();
        sort_entries(&mut es, &s);
        assert_eq!(es, once);
    }
}
