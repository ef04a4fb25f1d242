//! What reading gives back of a write: an oto.ini file saved as UTF-8 reads
//! back as the entries that were saved, their timings rounded to whole
//! milliseconds.
use vstd::prelude::*;
use vstd::utf8::{encode_utf8_decode_utf8, encode_utf8_valid_utf8};
use crate::oto::{
    decode_oto, entries_of_lines, line_entry, line_text, oto_entries, oto_file_bytes, oto_text,
    parse_line_spec, strip_cr, text_lines, OtoEncoding, OtoEntryView,
};
use crate::text::{
    find_char, is_whitespace, lemma_find_char, lemma_split_on_absent, lemma_split_on_concat,
    lemma_trim_unchanged, split_on, trim,
};
use crate::timing::{
    field_micros, is_digit, lemma_rounded_text_reads_back, round_fits, rounded_micros,
    rounded_ms_text,
};

verus! {

/// An entry whose line `parse_line` reads back: no `=` in the filename, no
/// `,` in the alias, and timings whose rounding fits an `i64`.
pub open spec fn line_readable(e: OtoEntryView) -> bool {
    &&& forall|i: int| 0 <= i < e.filename.len() ==> #[trigger] e.filename[i] != '='
    &&& forall|i: int| 0 <= i < e.alias.len() ==> #[trigger] e.alias[i] != ','
    &&& round_fits(e.offset)
    &&& round_fits(e.consonant)
    &&& round_fits(e.cutoff)
    &&& round_fits(e.preutter)
    &&& round_fits(e.overlap)
}

/// An entry whose line also reads back as a line of a file: besides
/// `line_readable`, no newline in the filename or alias, and a filename
/// that does not start with whitespace or `#`.
pub open spec fn savable(e: OtoEntryView) -> bool {
    &&& line_readable(e)
    &&& forall|i: int| 0 <= i < e.filename.len() ==> #[trigger] e.filename[i] != '\n'
    &&& e.filename.len() > 0 ==> !is_whitespace(e.filename[0]) && e.filename[0] != '#'
    &&& forall|i: int| 0 <= i < e.alias.len() ==> #[trigger] e.alias[i] != '\n'
}

/// The entry that reading back the line of `e`, found on line `k`, gives.
pub open spec fn reread(e: OtoEntryView, k: int) -> OtoEntryView {
    OtoEntryView {
        filename: e.filename,
        alias: e.alias,
        offset: rounded_micros(e.offset),
        consonant: rounded_micros(e.consonant),
        cutoff: rounded_micros(e.cutoff),
        preutter: rounded_micros(e.preutter),
        overlap: rounded_micros(e.overlap),
        line_index: k,
        done: false,
        notes: Seq::<char>::empty(),
    }
}

/// The timing fields of a line, after the alias.
spec fn timing_tail(e: OtoEntryView) -> Seq<char> {
    rounded_ms_text(e.offset) + seq![','] + rounded_ms_text(e.consonant) + seq![',']
        + rounded_ms_text(e.cutoff) + seq![','] + rounded_ms_text(e.preutter) + seq![',']
        + rounded_ms_text(e.overlap)
}

proof fn lemma_no_sep(s: Seq<char>, sep: char)
    requires
        forall|i: int| 0 <= i < s.len() ==> #[trigger] s[i] != sep,
    ensures
        split_on(s, sep) == seq![s],
{
    lemma_split_on_absent(s, sep);
}

proof fn lemma_rounded_no(v: int, c: char)
    requires
        c != '-',
        !is_digit(c),
    ensures
        forall|i: int| 0 <= i < rounded_ms_text(v).len() ==> #[trigger] rounded_ms_text(v)[i] != c,
{
    lemma_rounded_text_reads_back(v);
}

/// The shape of a saved line.
proof fn lemma_line_shape(e: OtoEntryView)
    ensures
        line_text(e) == e.filename + seq!['='] + e.alias + seq![','] + timing_tail(e),
        line_text(e).len() > 0,
        savable(e) ==> forall|i: int|
            0 <= i < line_text(e).len() ==> #[trigger] line_text(e)[i] != '\n',
        savable(e) ==> !is_whitespace(line_text(e)[0]),
        savable(e) ==> line_text(e)[0] != '#',
        is_digit(line_text(e).last()),
{
    let l = line_text(e);
    let tail = timing_tail(e);
    assert(l =~= e.filename + seq!['='] + e.alias + seq![','] + tail);
    lemma_rounded_text_reads_back(e.offset);
    lemma_rounded_text_reads_back(e.consonant);
    lemma_rounded_text_reads_back(e.cutoff);
    lemma_rounded_text_reads_back(e.preutter);
    lemma_rounded_text_reads_back(e.overlap);
    lemma_rounded_no(e.offset, '\n');
    lemma_rounded_no(e.consonant, '\n');
    lemma_rounded_no(e.cutoff, '\n');
    lemma_rounded_no(e.preutter, '\n');
    lemma_rounded_no(e.overlap, '\n');
    assert forall|i: int| 0 <= i < tail.len() implies #[trigger] tail[i] != '\n' by {
        let a = rounded_ms_text(e.offset);
        let b = rounded_ms_text(e.consonant);
        let c = rounded_ms_text(e.cutoff);
        let d = rounded_ms_text(e.preutter);
        let f = rounded_ms_text(e.overlap);
        let p1 = a.len() + 1;
        let p2 = p1 + b.len() + 1;
        let p3 = p2 + c.len() + 1;
        let p4 = p3 + d.len() + 1;
        if i < a.len() {
            assert(tail[i] == a[i]);
        } else if i < p1 {
        } else if i < p1 + b.len() {
            assert(tail[i] == b[i - p1]);
        } else if i < p2 {
        } else if i < p2 + c.len() {
            assert(tail[i] == c[i - p2]);
        } else if i < p3 {
        } else if i < p3 + d.len() {
            assert(tail[i] == d[i - p3]);
        } else if i < p4 {
        } else {
            assert(tail[i] == f[i - p4]);
        }
    }
    assert forall|i: int| savable(e) && 0 <= i < l.len() implies #[trigger] l[i] != '\n' by {
        let n1 = e.filename.len();
        let n2 = n1 + 1 + e.alias.len() + 1;
        if i < n1 {
            assert(l[i] == e.filename[i]);
        } else if i == n1 {
        } else if i < n2 - 1 {
            assert(l[i] == e.alias[i - n1 - 1]);
        } else if i == n2 - 1 {
        } else {
            assert(l[i] == tail[i - n2]);
        }
    }
    assert(l.last() == rounded_ms_text(e.overlap).last());
    if e.filename.len() == 0 {
        assert(l[0] == '=');
    } else {
        assert(l[0] == e.filename[0]);
    }
}

/// The pieces of the timing tail between commas are the five timing texts.
proof fn lemma_split_tail(e: OtoEntryView)
    ensures
        split_on(timing_tail(e), ',') == seq![
            rounded_ms_text(e.offset),
            rounded_ms_text(e.consonant),
            rounded_ms_text(e.cutoff),
            rounded_ms_text(e.preutter),
            rounded_ms_text(e.overlap),
        ],
{
    let a = rounded_ms_text(e.offset);
    let b = rounded_ms_text(e.consonant);
    let c = rounded_ms_text(e.cutoff);
    let d = rounded_ms_text(e.preutter);
    let f = rounded_ms_text(e.overlap);
    lemma_rounded_no(e.offset, ',');
    lemma_rounded_no(e.consonant, ',');
    lemma_rounded_no(e.cutoff, ',');
    lemma_rounded_no(e.preutter, ',');
    lemma_rounded_no(e.overlap, ',');
    lemma_no_sep(a, ',');
    lemma_no_sep(b, ',');
    lemma_no_sep(c, ',');
    lemma_no_sep(d, ',');
    lemma_no_sep(f, ',');
    lemma_split_on_concat(d, f, ',');
    lemma_split_on_concat(c, d + seq![','] + f, ',');
    lemma_split_on_concat(b, c + seq![','] + d + seq![','] + f, ',');
    lemma_split_on_concat(a, b + seq![','] + c + seq![','] + d + seq![','] + f, ',');
    assert(timing_tail(e) =~= a + seq![','] + (b + seq![','] + c + seq![','] + d + seq![',']
        + f));
    assert(b + seq![','] + c + seq![','] + d + seq![','] + f =~= b + seq![','] + (c + seq![',']
        + d + seq![','] + f));
    assert(c + seq![','] + d + seq![','] + f =~= c + seq![','] + (d + seq![','] + f));
    assert(split_on(timing_tail(e), ',') =~= seq![a, b, c, d, f]);
}

/// The line `to_line` writes for an entry reads back, through
/// `parse_line`, as that entry with its timings rounded to whole
/// milliseconds, whenever the filename holds no `=`, the alias no `,` and
/// the rounded timings fit; as a line of a file (neither blank nor a
/// comment) it reads back so too when the entry is `savable`.
#[verifier::rlimit(30)]
pub proof fn law_line_round_trip(e: OtoEntryView, k: int)
    requires
        line_readable(e),
    ensures
        parse_line_spec(line_text(e), k) == Some(reread(e, k)),
        savable(e) ==> line_entry(line_text(e), k) == Some(reread(e, k)),
{
    let l = line_text(e);
    lemma_line_shape(e);
    if savable(e) {
        lemma_trim_unchanged(l);
        assert(trim(l) == l);
    }
    let n = e.filename.len() as int;
    assert(l[n] == '=');
    assert forall|i: int| 0 <= i < n implies l[i] != '=' by {
        assert(l[i] == e.filename[i]);
    }
    lemma_find_char(l, '=');
    match find_char(l, '=') {
        Some(j) => {
            if j < n {
                assert(l[j] == e.filename[j]);
            } else if j > n {
            }
        },
        None => {},
    }
    assert(find_char(l, '=') == Some(n));
    assert(l.take(n) =~= e.filename);
    let rest = l.skip(n + 1);
    assert(rest =~= e.alias + seq![','] + timing_tail(e));
    lemma_no_sep(e.alias, ',');
    lemma_split_on_concat(e.alias, timing_tail(e), ',');
    lemma_split_tail(e);
    let parts = split_on(rest, ',');
    assert(parts =~= seq![
        e.alias,
        rounded_ms_text(e.offset),
        rounded_ms_text(e.consonant),
        rounded_ms_text(e.cutoff),
        rounded_ms_text(e.preutter),
        rounded_ms_text(e.overlap),
    ]);
    lemma_rounded_text_reads_back(e.offset);
    lemma_rounded_text_reads_back(e.consonant);
    lemma_rounded_text_reads_back(e.cutoff);
    lemma_rounded_text_reads_back(e.preutter);
    lemma_rounded_text_reads_back(e.overlap);
    assert(parse_line_spec(l, k) == Some(reread(e, k)));
}

/// The lines of the saved text, with `tail` after the last newline.
proof fn lemma_split_saved(es: Seq<OtoEntryView>, tail: Seq<char>)
    requires
        forall|k: int| 0 <= k < es.len() ==> savable(#[trigger] es[k]),
        forall|i: int| 0 <= i < tail.len() ==> #[trigger] tail[i] != '\n',
    ensures
        split_on(oto_text(es) + tail, '\n') == Seq::new(es.len(), |k: int| line_text(es[k])).push(
            tail,
        ),
    decreases es.len(),
{
    if es.len() == 0 {
        assert(oto_text(es) + tail =~= tail);
        lemma_no_sep(tail, '\n');
        assert(Seq::new(es.len(), |k: int| line_text(es[k])).push(tail) =~= seq![tail]);
    } else {
        let init = es.drop_last();
        let last = es.last();
        assert(savable(es[es.len() - 1]));
        lemma_line_shape(last);
        assert forall|k: int| 0 <= k < init.len() implies savable(#[trigger] init[k]) by {
            assert(init[k] == es[k]);
        }
        lemma_split_saved(init, line_text(last));
        lemma_split_on_concat(oto_text(init) + line_text(last), tail, '\n');
        assert(oto_text(es) + tail =~= (oto_text(init) + line_text(last)) + seq!['\n'] + tail);
        lemma_no_sep(tail, '\n');
        assert(Seq::new(init.len(), |k: int| line_text(init[k])).push(line_text(last)).push(tail)
            =~= Seq::new(es.len(), |k: int| line_text(es[k])).push(tail));
    }
}

/// The lines of a saved text are the entries' lines.
proof fn lemma_saved_lines(es: Seq<OtoEntryView>)
    requires
        forall|k: int| 0 <= k < es.len() ==> savable(#[trigger] es[k]),
    ensures
        text_lines(oto_text(es)) == Seq::new(es.len(), |k: int| line_text(es[k])),
{
    lemma_split_saved(es, Seq::<char>::empty());
    assert(oto_text(es) + Seq::<char>::empty() =~= oto_text(es));
    let p = split_on(oto_text(es), '\n');
    assert forall|k: int| 0 <= k < es.len() implies strip_cr(#[trigger] p[k]) == line_text(
        es[k],
    ) by {
        lemma_line_shape(es[k]);
        assert(p[k] == line_text(es[k]));
    }
    assert(text_lines(oto_text(es)) =~= Seq::new(es.len(), |k: int| line_text(es[k])));
}

proof fn lemma_entries_read_back(es: Seq<OtoEntryView>, ls: Seq<Seq<char>>, j: int)
    requires
        forall|k: int| 0 <= k < es.len() ==> savable(#[trigger] es[k]),
        ls == Seq::new(es.len(), |k: int| line_text(es[k])),
        0 <= j <= es.len(),
    ensures
        entries_of_lines(ls, j) == Seq::new(j as nat, |k: int| reread(es[k], k)),
    decreases j,
{
    if j > 0 {
        lemma_entries_read_back(es, ls, j - 1);
        law_line_round_trip(es[j - 1], j - 1);
        assert(Seq::new((j - 1) as nat, |k: int| reread(es[k], k)).push(reread(es[j - 1], j - 1))
            =~= Seq::new(j as nat, |k: int| reread(es[k], k)));
    } else {
        assert(Seq::new(0, |k: int| reread(es[k], k)) =~= Seq::<OtoEntryView>::empty());
    }
}

/// Saving entries as UTF-8 and reading the file back gives the same
/// entries, in order, each with its line number, its timings rounded to
/// whole milliseconds, not done and without notes; and the file is found
/// to be UTF-8.
pub proof fn law_save_then_parse(es: Seq<OtoEntryView>)
    requires
        forall|k: int| 0 <= k < es.len() ==> savable(#[trigger] es[k]),
    ensures
        decode_oto(oto_file_bytes(es, OtoEncoding::Utf8)).1 == OtoEncoding::Utf8,
        oto_entries(decode_oto(oto_file_bytes(es, OtoEncoding::Utf8)).0) == Seq::new(
            es.len(),
            |k: int| reread(es[k], k),
        ),
{
    encode_utf8_valid_utf8(oto_text(es));
    encode_utf8_decode_utf8(oto_text(es));
    lemma_saved_lines(es);
    lemma_entries_read_back(es, text_lines(oto_text(es)), es.len() as int);
}

/// A timing value whose rounding keeps its sign: not strictly between
/// -0.5 ms and 0, which rounds to zero but is written `-0`.
pub open spec fn keeps_sign_when_rounded(v: int) -> bool {
    !(-500 < v < 0)
}

proof fn lemma_rounded_text_stable(v: int)
    requires
        keeps_sign_when_rounded(v),
    ensures
        rounded_ms_text(rounded_micros(v)) == rounded_ms_text(v),
{
    if v < 0 {
        let r = (-v + 500) / 1000;
        assert(r >= 1);
        assert((r * 1000 + 500) / 1000 == r);
    } else {
        let r = (v + 500) / 1000;
        assert((r * 1000 + 500) / 1000 == r);
    }
}

/// Saving what was read back writes the same text again, as long as no
/// timing value lies strictly between -0.5 ms and 0.
pub proof fn law_save_is_stable(es: Seq<OtoEntryView>)
    requires
        forall|k: int|
            0 <= k < es.len() ==> {
                &&& keeps_sign_when_rounded(#[trigger] es[k].offset)
                &&& keeps_sign_when_rounded(es[k].consonant)
                &&& keeps_sign_when_rounded(es[k].cutoff)
                &&& keeps_sign_when_rounded(es[k].preutter)
                &&& keeps_sign_when_rounded(es[k].overlap)
            },
    ensures
        oto_text(Seq::new(es.len(), |k: int| reread(es[k], k))) == oto_text(es),
    decreases es.len(),
{
    if es.len() > 0 {
        let init = es.drop_last();
        let e = es.last();
        law_save_is_stable(init);
        assert(keeps_sign_when_rounded(es[es.len() - 1].offset));
        lemma_rounded_text_stable(e.offset);
        lemma_rounded_text_stable(e.consonant);
        lemma_rounded_text_stable(e.cutoff);
        lemma_rounded_text_stable(e.preutter);
        lemma_rounded_text_stable(e.overlap);
        let back = Seq::new(es.len(), |k: int| reread(es[k], k));
        assert(back.drop_last() =~= Seq::new(init.len(), |k: int| reread(init[k], k)));
        assert(line_text(back.last()) == line_text(e));
    }
}

} // verus!
