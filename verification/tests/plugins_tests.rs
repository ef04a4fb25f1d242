use copaiba::duplicates::detect_duplicates;
use copaiba::levenshtein::levenshtein_distance;
use copaiba::oto::OtoEntry;
use copaiba::plugins::{check_consistency, ValidationIssue};

fn entry(filename: &str, alias: &str, t: [i64; 5]) -> OtoEntry {
    OtoEntry {
        filename: filename.to_string(),
        alias: alias.to_string(),
        offset: t[0],
        consonant: t[1],
        cutoff: t[2],
        preutter: t[3],
        overlap: t[4],
        line_index: 0,
        done: false,
        notes: String::new(),
    }
}

fn summary(i: &ValidationIssue) -> (String, String, usize, String, Option<String>, Option<i64>) {
    (
        i.severity.clone(),
        i.message.clone(),
        i.row,
        i.alias.clone(),
        i.field.clone(),
        i.suggested_fix,
    )
}

#[test]
fn levenshtein_known_values() {
    assert_eq!(levenshtein_distance("kitten", "sitting"), 3);
    assert_eq!(levenshtein_distance("", "abc"), 3);
    assert_eq!(levenshtein_distance("abc", ""), 3);
    assert_eq!(levenshtein_distance("あいう", "あいえ"), 1);
    assert_eq!(levenshtein_distance("ka", "ka"), 0);
    assert_eq!(levenshtein_distance("flaw", "lawn"), 2);
}

#[test]
fn levenshtein_is_symmetric_and_bounded() {
    let words = ["", "a", "ab", "- ka", "a ka", "ka", "かa", "sitting"];
    for x in words.iter() {
        for y in words.iter() {
            let d = levenshtein_distance(x, y);
            assert_eq!(d, levenshtein_distance(y, x));
            assert_eq!(d == 0, x == y);
            assert!(d <= x.chars().count().max(y.chars().count()));
        }
    }
}

#[test]
fn clean_entry_has_no_issues() {
    let es = vec![entry("a.wav", "a", [10_000, 60_000, -200_000, 50_000, 20_000])];
    assert!(check_consistency(&es, None).is_empty());
    assert!(check_consistency(&es, Some(&[true])).is_empty());
}

#[test]
fn missing_file_and_empty_alias() {
    let es = vec![entry("a.wav", "  ", [0; 5])];
    let issues = check_consistency(&es, Some(&[false]));
    let got: Vec<_> = issues.iter().map(summary).collect();
    assert_eq!(
        got,
        vec![
            (
                "error".to_string(),
                "Arquivo não encontrado: a.wav".to_string(),
                0,
                "  ".to_string(),
                Some("filename".to_string()),
                None
            ),
            (
                "warning".to_string(),
                "Alias vazio".to_string(),
                0,
                "(vazio)".to_string(),
                Some("alias".to_string()),
                None
            ),
        ]
    );
}

#[test]
fn negative_values_are_errors() {
    let es = vec![entry("a.wav", "a", [0, 0, 0, 0, 0]), entry("b.wav", "b", [-2_500, -1_000, 0, -3_000, 0])];
    let issues = check_consistency(&es, None);
    let got: Vec<_> = issues.iter().map(summary).collect();
    assert_eq!(
        got,
        vec![
            (
                "error".to_string(),
                "Offset negativo: -2.5ms".to_string(),
                1,
                "b".to_string(),
                Some("offset".to_string()),
                Some(0)
            ),
            (
                "error".to_string(),
                "Preutter negativo: -3ms".to_string(),
                1,
                "b".to_string(),
                Some("preutter".to_string()),
                Some(0)
            ),
            (
                "error".to_string(),
                "Consonant negativo: -1ms".to_string(),
                1,
                "b".to_string(),
                Some("consonant".to_string()),
                Some(0)
            ),
        ]
    );
}

#[test]
fn overlap_and_consonant_against_preutter() {
    let es = vec![entry("a.wav", "a", [0, 30_000, 0, 50_000, 60_125])];
    let issues = check_consistency(&es, None);
    let got: Vec<_> = issues.iter().map(summary).collect();
    assert_eq!(
        got,
        vec![
            (
                "warning".to_string(),
                "Overlap (60.125ms) maior que Preutter (50ms)".to_string(),
                0,
                "a".to_string(),
                Some("overlap".to_string()),
                Some(25_000)
            ),
            (
                "info".to_string(),
                "Consonant (30ms) menor que Preutter (50ms)".to_string(),
                0,
                "a".to_string(),
                Some("consonant".to_string()),
                None
            ),
        ]
    );
}

#[test]
fn overlap_check_needs_positive_preutter() {
    let es = vec![entry("a.wav", "a", [0, 0, 0, 0, 10_000])];
    assert!(check_consistency(&es, None).is_empty());
}

fn dups(es: &[OtoEntry], e: bool, c: bool, f: bool, s: bool) -> Vec<(usize, usize, String, String, String)> {
    detect_duplicates(es, e, c, f, s)
        .into_iter()
        .map(|d| (d.row1, d.row2, d.alias1, d.alias2, d.match_type))
        .collect()
}

fn t(r1: usize, r2: usize, a1: &str, a2: &str, k: &str) -> (usize, usize, String, String, String) {
    (r1, r2, a1.to_string(), a2.to_string(), k.to_string())
}

#[test]
fn exact_duplicates_point_to_first_row() {
    let es = vec![entry("a.wav", "ka", [0; 5]), entry("b.wav", "ki", [0; 5]), entry("c.wav", "ka", [0; 5]), entry("d.wav", "ka", [0; 5])];
    assert_eq!(dups(&es, true, false, false, false), vec![t(0, 2, "ka", "ka", "exact"), t(0, 3, "ka", "ka", "exact")]);
}

#[test]
fn case_duplicates_only_without_exact() {
    let es = vec![entry("a.wav", "Ka", [0; 5]), entry("b.wav", "ka", [0; 5]), entry("c.wav", "Ka", [0; 5])];
    assert_eq!(dups(&es, false, true, false, false), vec![t(0, 1, "Ka", "ka", "case")]);
    assert_eq!(dups(&es, true, true, false, false), vec![t(0, 2, "Ka", "Ka", "exact")]);
}

#[test]
fn functional_duplicates_same_cut() {
    let es = vec![
        entry("a.wav", "a", [100_040, 0, -5_000, 0, 0]),
        entry("a.wav", "b", [100_090, 7, -5_010, 0, 0]),
        entry("a.wav", "c", [100_100, 0, -5_000, 0, 0]),
        entry("b.wav", "d", [100_040, 0, -5_000, 0, 0]),
    ];
    assert_eq!(dups(&es, false, false, true, false), vec![t(0, 1, "a", "b", "functional")]);
}

#[test]
fn similar_aliases_within_two_edits() {
    let es = vec![entry("a.wav", "a ka", [0; 5]), entry("b.wav", "a ki", [0; 5]), entry("c.wav", "a ka", [0; 5]), entry("d.wav", "xyzw", [0; 5])];
    assert_eq!(
        dups(&es, false, false, false, true),
        vec![t(0, 1, "a ka", "a ki", "similar"), t(1, 2, "a ki", "a ka", "similar")]
    );
}

#[test]
fn all_checks_together_in_row_order() {
    let es = vec![entry("a.wav", "ka", [0; 5]), entry("a.wav", "ka", [0; 5]), entry("a.wav", "ki", [0; 5])];
    assert_eq!(
        dups(&es, true, true, true, true),
        vec![t(0, 1, "ka", "ka", "exact"), t(0, 2, "ka", "ki", "functional"), t(0, 2, "ka", "ki", "similar"), t(1, 2, "ka", "ki", "similar")]
    );
}

#[test]
fn issues_come_in_row_order() {
    let es = vec![
        entry("a.wav", "", [-1_000, 0, 0, 0, 0]),
        entry("b.wav", "b", [0, 0, 0, 0, 0]),
        entry("c.wav", "c", [0, -5, 0, 10, 0]),
    ];
    let issues = check_consistency(&es, Some(&[true, true, false]));
    let rows: Vec<usize> = issues.iter().map(|i| i.row).collect();
    assert_eq!(rows, vec![0, 0, 2, 2]);
}

#[test]
fn duplicates_name_the_earlier_row_first() {
    let es = vec![entry("a.wav", "ka", [0; 5]), entry("a.wav", "Ka", [0; 5]), entry("b.wav", "ka", [0; 5]), entry("a.wav", "ki", [0; 5])];
    for flags in 0..16u8 {
        let (e, c, f, s) = (flags & 1 != 0, flags & 2 != 0, flags & 4 != 0, flags & 8 != 0);
        for d in detect_duplicates(&es, e, c, f, s) {
            assert!(d.row1 < d.row2 && d.row2 < es.len());
            assert_eq!(d.alias1, es[d.row1].alias);
            assert_eq!(d.alias2, es[d.row2].alias);
            assert_eq!(d.match_type == "exact", d.alias1 == d.alias2);
        }
    }
}

#[test]
fn checking_joined_lists_shifts_the_second_lists_rows() {
    let a = vec![
        entry("a.wav", "", [-1_000, 60_000, 0, 50_000, 20_000]),
        entry("b.wav", "b", [0, 10_000, 0, 50_000, 60_000]),
    ];
    let b = vec![
        entry("c.wav", "c", [0, 0, 0, 0, 0]),
        entry("d.wav", " ", [0, -5, 0, 30_000, 0]),
    ];
    let mut joined = a.clone();
    joined.extend(b.iter().cloned());
    let pa = [true, false];
    let pb = [false, true];
    let pj = [true, false, false, true];
    let whole: Vec<_> = check_consistency(&joined, Some(&pj)).iter().map(summary).collect();
    let mut parts: Vec<_> = check_consistency(&a, Some(&pa)).iter().map(summary).collect();
    for i in check_consistency(&b, Some(&pb)).iter() {
        let mut s = summary(i);
        s.2 += a.len();
        parts.push(s);
    }
    assert_eq!(whole, parts);
    assert!(!whole.is_empty());
    let whole_none: Vec<_> = check_consistency(&joined, None).iter().map(summary).collect();
    let mut parts_none: Vec<_> = check_consistency(&a, None).iter().map(summary).collect();
    for i in check_consistency(&b, None).iter() {
        let mut s = summary(i);
        s.2 += a.len();
        parts_none.push(s);
    }
    assert_eq!(whole_none, parts_none);
}

#[test]
fn levenshtein_triangle_inequality() {
    let words = ["", "a", "ab", "- ka", "a ka", "ka", "かa", "sitting", "kitten"];
    for x in words.iter() {
        for y in words.iter() {
            for z in words.iter() {
                assert!(
                    levenshtein_distance(x, z)
                        <= levenshtein_distance(x, y) + levenshtein_distance(y, z)
                );
            }
        }
    }
}
