use copaiba::oto::{parse_line, parse_oto, save_oto_bytes, OtoEncoding, OtoEntry};

fn entry(filename: &str, alias: &str, t: [i64; 5]) -> OtoEntry {
    OtoEntry {
        filename: filename.to_string(),
        alias: alias.to_string(),
        offset: t[0],
        consonant: t[1],
        cutoff: t[2],
        preutter: t[3],
        overlap: t[4],
        line_index: 0,
        done: false,
        notes: String::new(),
    }
}

#[test]
fn parse_line_reads_all_fields() {
    let e = parse_line("a.wav=- a,10,20,-30,40,5", 3).unwrap();
    assert_eq!(e.filename, "a.wav");
    assert_eq!(e.alias, "- a");
    assert_eq!(e.offset, 10_000);
    assert_eq!(e.consonant, 20_000);
    assert_eq!(e.cutoff, -30_000);
    assert_eq!(e.preutter, 40_000);
    assert_eq!(e.overlap, 5_000);
    assert_eq!(e.line_index, 3);
    assert!(!e.done);
    assert_eq!(e.notes, "");
}

#[test]
fn parse_line_reads_decimals_and_signs() {
    let e = parse_line("x.wav=x, 1.5 ,+3,-0.25,.5,1.", 0).unwrap();
    assert_eq!(e.offset, 1_500);
    assert_eq!(e.consonant, 3_000);
    assert_eq!(e.cutoff, -250);
    assert_eq!(e.preutter, 500);
    assert_eq!(e.overlap, 1_000);
}

#[test]
fn parse_line_drops_digits_past_microseconds() {
    let e = parse_line("x.wav=x,12.3456,0.0009,0,0,0", 0).unwrap();
    assert_eq!(e.offset, 12_345);
    assert_eq!(e.consonant, 0);
}

#[test]
fn parse_line_non_numbers_read_as_zero() {
    let e = parse_line("x.wav=x,abc,.,,1-2,99999999999999999999", 0).unwrap();
    assert_eq!(e.offset, 0);
    assert_eq!(e.consonant, 0);
    assert_eq!(e.cutoff, 0);
    assert_eq!(e.preutter, 0);
    assert_eq!(e.overlap, 0);
}

#[test]
fn parse_line_reads_exponents() {
    let e = parse_line("f=a,1e3,1.5E-2,2e+1,-2.5e-1,.5e1", 0).unwrap();
    assert_eq!(e.offset, 1_000_000);
    assert_eq!(e.consonant, 15);
    assert_eq!(e.cutoff, 20_000);
    assert_eq!(e.preutter, -250);
    assert_eq!(e.overlap, 5_000);
}

#[test]
fn parse_line_exponent_edge_cases() {
    let e = parse_line("f=a,1e,e5,1e999,0e999,1e-4", 0).unwrap();
    assert_eq!(e.offset, 0);
    assert_eq!(e.consonant, 0);
    assert_eq!(e.cutoff, 0);
    assert_eq!(e.preutter, 0);
    assert_eq!(e.overlap, 0);
    let f = parse_line("f=a,1.e2,1e5e3, 3E0 ,-0e-99999999999999999999999999999999999,12e-1", 0).unwrap();
    assert_eq!(f.offset, 100_000);
    assert_eq!(f.consonant, 0);
    assert_eq!(f.cutoff, 3_000);
    assert_eq!(f.preutter, 0);
    assert_eq!(f.overlap, 1_200);
}

#[test]
fn parse_line_needs_equals_and_six_fields() {
    assert!(parse_line("a.wav,a,1,2,3,4,5", 0).is_none());
    assert!(parse_line("a.wav=a,1,2,3,4", 0).is_none());
    let e = parse_line("a=b=c,1,2,3,4,5,6,7", 0).unwrap();
    assert_eq!(e.filename, "a");
    assert_eq!(e.alias, "b=c");
    assert_eq!(e.overlap, 5_000);
}

#[test]
fn to_line_rounds_half_away_from_zero() {
    let e = entry("a.wav", "a", [1_500, -500, -400, 2_499, 0]);
    assert_eq!(e.to_line(), "a.wav=a,2,-1,-0,2,0");
}

#[test]
fn parse_oto_utf8_skips_blank_and_comment_lines() {
    let text = "# comment\r\na.wav=a,1,2,3,4,5\r\n\r\n  b.wav=b,6,7,8,9,10  \nbad line\nc.wav=c,1,1,1,1,1";
    let parsed = parse_oto(text.as_bytes());
    assert_eq!(parsed.encoding, OtoEncoding::Utf8);
    assert_eq!(parsed.entries.len(), 3);
    assert_eq!(parsed.entries[0].filename, "a.wav");
    assert_eq!(parsed.entries[0].line_index, 1);
    assert_eq!(parsed.entries[0].overlap, 5_000);
    assert_eq!(parsed.entries[1].filename, "b.wav");
    assert_eq!(parsed.entries[1].line_index, 3);
    assert_eq!(parsed.entries[1].overlap, 10_000);
    assert_eq!(parsed.entries[2].alias, "c");
    assert_eq!(parsed.entries[2].line_index, 5);
}

#[test]
fn parse_oto_empty_file() {
    let parsed = parse_oto(b"");
    assert_eq!(parsed.encoding, OtoEncoding::Utf8);
    assert!(parsed.entries.is_empty());
}

#[test]
fn parse_oto_shift_jis() {
    let text = "あ.wav=- あ,1,2,3,4,5\n";
    let (bytes, _, _) = encoding_rs::SHIFT_JIS.encode(text);
    let parsed = parse_oto(&bytes);
    assert_eq!(parsed.encoding, OtoEncoding::ShiftJis);
    assert_eq!(parsed.entries.len(), 1);
    assert_eq!(parsed.entries[0].filename, "あ.wav");
    assert_eq!(parsed.entries[0].alias, "- あ");
}

/// A CJK character whose GBK bytes are not valid Shift-JIS.
fn gbk_only_char() -> char {
    ('\u{4e00}'..='\u{9fff}')
        .find(|c| {
            let s = c.to_string();
            let (b, _, _) = encoding_rs::GBK.encode(&s);
            let (_, _, sjis_errors) = encoding_rs::SHIFT_JIS.decode(&b);
            sjis_errors
        })
        .unwrap()
}

#[test]
fn parse_oto_gbk_fallback() {
    let c = gbk_only_char();
    let text = format!("{}.wav={},1,2,3,4,5\n", c, c);
    let (bytes, _, _) = encoding_rs::GBK.encode(&text);
    let parsed = parse_oto(&bytes);
    assert_eq!(parsed.encoding, OtoEncoding::Gbk);
    assert_eq!(parsed.entries.len(), 1);
    assert_eq!(parsed.entries[0].filename, format!("{}.wav", c));
}

#[test]
fn save_oto_bytes_utf8() {
    let es = vec![entry("a.wav", "- a", [1_000, 2_000, -3_000, 4_000, 5_000]), entry("b.wav", "b", [0; 5])];
    let bytes = save_oto_bytes(&es, OtoEncoding::Utf8);
    assert_eq!(bytes, b"a.wav=- a,1,2,-3,4,5\nb.wav=b,0,0,0,0,0\n".to_vec());
}

#[test]
fn save_oto_bytes_shift_jis() {
    let es = vec![entry("あ.wav", "あ", [1_000; 5])];
    let bytes = save_oto_bytes(&es, OtoEncoding::ShiftJis);
    let (expected, _, _) = encoding_rs::SHIFT_JIS.encode("あ.wav=あ,1,1,1,1,1\n");
    assert_eq!(bytes, expected.into_owned());
    let (expected_gbk, _, _) = encoding_rs::GBK.encode("あ.wav=あ,1,1,1,1,1\n");
    assert_eq!(save_oto_bytes(&es, OtoEncoding::Gbk), expected_gbk.into_owned());
}

#[test]
fn save_then_parse_gives_entries_back() {
    let mut es = vec![
        entry("a.wav", "- a", [1_400, 2_600, -3_500, 4_000, -200]),
        entry("b.wav", "b c", [0, 10, 20, 30, 40_000]),
    ];
    es[1].done = true;
    es[1].notes = "note".to_string();
    let bytes = save_oto_bytes(&es, OtoEncoding::Utf8);
    let parsed = parse_oto(&bytes);
    assert_eq!(parsed.encoding, OtoEncoding::Utf8);
    let mut expected = vec![
        entry("a.wav", "- a", [1_000, 3_000, -4_000, 4_000, 0]),
        entry("b.wav", "b c", [0, 0, 0, 0, 40_000]),
    ];
    expected[1].line_index = 1;
    assert_eq!(parsed.entries, expected);
}

#[test]
fn clone_and_eq_of_entries() {
    let e = entry("a.wav", "a", [1, 2, 3, 4, 5]);
    let c = e.clone();
    assert_eq!(e, c);
    let mut d = e.clone();
    d.done = true;
    assert_ne!(e, d);
}

#[test]
fn to_line_then_parse_line() {
    let mut e = entry("か.wav", "a か", [12_345, -499, 500, -1_500, 999_999]);
    e.done = true;
    e.notes = "x".to_string();
    let back = parse_line(&e.to_line(), 7).unwrap();
    let mut expected = entry("か.wav", "a か", [12_000, 0, 1_000, -2_000, 1_000_000]);
    expected.line_index = 7;
    assert_eq!(back, expected);
}

#[test]
fn saving_what_was_read_writes_the_same_text() {
    let es = vec![entry("a.wav", "a", [1_499, -1_500, 0, 2_500, 123_456]), entry("b.wav", "b", [7, 8, 9, 10, 11])];
    let first = save_oto_bytes(&es, OtoEncoding::Utf8);
    let again = save_oto_bytes(&parse_oto(&first).entries, OtoEncoding::Utf8);
    assert_eq!(first, again);
}

#[test]
fn small_negative_values_lose_their_sign_on_reread() {
    let es = vec![entry("a.wav", "a", [-400, 0, 0, 0, 0])];
    let first = save_oto_bytes(&es, OtoEncoding::Utf8);
    assert_eq!(first, b"a.wav=a,-0,0,0,0,0\n".to_vec());
    let again = save_oto_bytes(&parse_oto(&first).entries, OtoEncoding::Utf8);
    assert_eq!(again, b"a.wav=a,0,0,0,0,0\n".to_vec());
}

#[test]
fn round_trip_near_the_i64_limits() {
    let e = entry("a.wav", "a", [9_223_372_036_854_775_499, -9_223_372_036_854_775_499, 0, 0, 0]);
    let back = parse_line(&e.to_line(), 0).unwrap();
    assert_eq!(back.offset, 9_223_372_036_854_775_000);
    assert_eq!(back.consonant, -9_223_372_036_854_775_000);
    let over = entry("a.wav", "a", [i64::MAX, i64::MIN, 0, 0, 0]);
    assert_eq!(over.to_line(), "a.wav=a,9223372036854776,-9223372036854776,0,0,0");
    let back = parse_line(&over.to_line(), 0).unwrap();
    assert_eq!(back.offset, 0);
    assert_eq!(back.consonant, 0);
}

#[test]
fn line_round_trip_with_unusual_filename_and_alias() {
    let e = entry(" #a\nb.wav", "x\ny", [1_000, 2_000, 3_000, 4_000, 5_000]);
    let back = parse_line(&e.to_line(), 2).unwrap();
    let mut expected = entry(" #a\nb.wav", "x\ny", [1_000, 2_000, 3_000, 4_000, 5_000]);
    expected.line_index = 2;
    assert_eq!(back, expected);
}
