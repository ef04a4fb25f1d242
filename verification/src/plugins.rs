//! The consistency checker: problems found in each entry of an oto.ini.
use vstd::prelude::*;
use crate::oto::{entry_views, OtoEntry, OtoEntryView};
use crate::text::{chars_of, string_from_chars, trim, trim_span};
use crate::timing::{push_time_text, time_text};

verus! {

// ---------------------------------------------------------------------
// Consistency checker
// ---------------------------------------------------------------------

/// A problem found in one entry.
#[derive(Debug)]
pub struct ValidationIssue {
    /// "error", "warning" or "info"
    pub severity: String,
    pub message: String,
    pub row: usize,
    pub alias: String,
    pub field: Option<String>,
    /// Value proposed for the field, in microseconds.
    pub suggested_fix: Option<i64>,
}

pub struct ValidationIssueView {
    pub severity: Seq<char>,
    pub message: Seq<char>,
    pub row: int,
    pub alias: Seq<char>,
    pub field: Option<Seq<char>>,
    pub suggested_fix: Option<int>,
}

impl View for ValidationIssue {
    type V = ValidationIssueView;

    open spec fn view(&self) -> ValidationIssueView {
        ValidationIssueView {
            severity: self.severity@,
            message: self.message@,
            row: self.row as int,
            alias: self.alias@,
            field: match self.field {
                Some(f) => Some(f@),
                None => None,
            },
            suggested_fix: match self.suggested_fix {
                Some(x) => Some(x as int),
                None => None,
            },
        }
    }
}

pub open spec fn issue_views(v: Seq<ValidationIssue>) -> Seq<ValidationIssueView> {
    v.map_values(|i: ValidationIssue| i@)
}

pub open spec fn issue(
    severity: Seq<char>,
    message: Seq<char>,
    row: int,
    alias: Seq<char>,
    field: Seq<char>,
    suggested_fix: Option<int>,
) -> ValidationIssueView {
    ValidationIssueView { severity, message, row, alias, field: Some(field), suggested_fix }
}

/// `seq![x]` when `cond` holds, else nothing.
pub open spec fn when(cond: bool, x: ValidationIssueView) -> Seq<ValidationIssueView> {
    if cond {
        seq![x]
    } else {
        Seq::<ValidationIssueView>::empty()
    }
}

/// A timing value followed by "ms".
pub open spec fn ms_text(v: int) -> Seq<char> {
    time_text(v) + "ms"@
}

/// A missing WAV file.
pub open spec fn missing_file_issues(e: OtoEntryView, row: int, present: Option<bool>) -> Seq<
    ValidationIssueView,
> {
    when(
        present == Some(false),
        issue("error"@, "Arquivo não encontrado: "@ + e.filename, row, e.alias, "filename"@, None),
    )
}

/// An alias that is blank once trimmed.
pub open spec fn empty_alias_issues(e: OtoEntryView, row: int) -> Seq<ValidationIssueView> {
    when(
        trim(e.alias).len() == 0,
        issue("warning"@, "Alias vazio"@, row, "(vazio)"@, "alias"@, None),
    )
}

/// A negative value `v` of the field `field`, reported as `label` and the
/// value, with 0 proposed.
pub open spec fn negative_issues(
    e: OtoEntryView,
    row: int,
    v: int,
    label: Seq<char>,
    field: Seq<char>,
) -> Seq<ValidationIssueView> {
    when(v < 0, issue("error"@, label + ms_text(v), row, e.alias, field, Some(0)))
}

/// An overlap past a positive preutterance, with half the preutterance
/// proposed.
pub open spec fn long_overlap_issues(e: OtoEntryView, row: int) -> Seq<ValidationIssueView> {
    when(
        e.overlap > e.preutter && e.preutter > 0,
        issue(
            "warning"@,
            "Overlap ("@ + ms_text(e.overlap) + ") maior que Preutter ("@ + ms_text(e.preutter)
                + ")"@,
            row,
            e.alias,
            "overlap"@,
            Some(e.preutter / 2),
        ),
    )
}

/// A positive consonant shorter than the preutterance.
pub open spec fn short_consonant_issues(e: OtoEntryView, row: int) -> Seq<ValidationIssueView> {
    when(
        e.consonant < e.preutter && e.consonant > 0,
        issue(
            "info"@,
            "Consonant ("@ + ms_text(e.consonant) + ") menor que Preutter ("@ + ms_text(
                e.preutter,
            ) + ")"@,
            row,
            e.alias,
            "consonant"@,
            None,
        ),
    )
}

/// The issues of entry `e` on `row`, in the order the checker reports them.
/// `present` tells whether the entry's WAV file exists in the voicebank
/// folder; `None` when no folder is known.
#[verifier::opaque]
pub open spec fn entry_issues(e: OtoEntryView, row: int, present: Option<bool>) -> Seq<
    ValidationIssueView,
> {
    missing_file_issues(e, row, present) + empty_alias_issues(e, row) + negative_issues(
        e,
        row,
        e.offset,
        "Offset negativo: "@,
        "offset"@,
    ) + negative_issues(e, row, e.preutter, "Preutter negativo: "@, "preutter"@)
        + negative_issues(e, row, e.consonant, "Consonant negativo: "@, "consonant"@)
        + long_overlap_issues(e, row) + short_consonant_issues(e, row)
}

/// Whether the file of row `k` is known to exist.
pub open spec fn presence(present: Option<Seq<bool>>, k: int) -> Option<bool> {
    match present {
        Some(p) => Some(p[k]),
        None => None,
    }
}

/// The issues of the first `n` entries.
pub open spec fn consistency_issues(
    es: Seq<OtoEntryView>,
    present: Option<Seq<bool>>,
    n: int,
) -> Seq<ValidationIssueView>
    decreases n,
{
    if n <= 0 {
        Seq::<ValidationIssueView>::empty()
    } else {
        consistency_issues(es, present, n - 1) + entry_issues(es[n - 1], n - 1, presence(present, n - 1))
    }
}

/// An entry the checker finds nothing wrong with.
pub open spec fn entry_is_clean(e: OtoEntryView, present: Option<bool>) -> bool {
    &&& present != Some(false)
    &&& trim(e.alias).len() > 0
    &&& e.offset >= 0
    &&& e.preutter >= 0
    &&& e.consonant >= 0
    &&& !(e.overlap > e.preutter && e.preutter > 0)
    &&& !(e.consonant < e.preutter && e.consonant > 0)
}

/// Each issue of a row carries that row.
proof fn lemma_entry_issue_rows(e: OtoEntryView, row: int, present: Option<bool>)
    ensures
        forall|k: int|
            0 <= k < entry_issues(e, row, present).len() ==> (#[trigger] entry_issues(
                e,
                row,
                present,
            )[k]).row == row,
        entry_issues(e, row, present).len() == 0 <==> entry_is_clean(e, present),
{
    reveal(entry_issues);
    let is = entry_issues(e, row, present);
    let w1 = missing_file_issues(e, row, present);
    let w2 = empty_alias_issues(e, row);
    let w3 = negative_issues(e, row, e.offset, "Offset negativo: "@, "offset"@);
    let w4 = negative_issues(e, row, e.preutter, "Preutter negativo: "@, "preutter"@);
    let w5 = negative_issues(e, row, e.consonant, "Consonant negativo: "@, "consonant"@);
    let w6 = long_overlap_issues(e, row);
    let w7 = short_consonant_issues(e, row);
    assert forall|k: int| 0 <= k < is.len() implies (#[trigger] is[k]).row == row by {
        let l1 = w1.len();
        let l2 = l1 + w2.len();
        let l3 = l2 + w3.len();
        let l4 = l3 + w4.len();
        let l5 = l4 + w5.len();
        let l6 = l5 + w6.len();
        if k < l1 {
            assert(is[k] == w1[k]);
        } else if k < l2 {
            assert(is[k] == w2[k - l1]);
        } else if k < l3 {
            assert(is[k] == w3[k - l2]);
        } else if k < l4 {
            assert(is[k] == w4[k - l3]);
        } else if k < l5 {
            assert(is[k] == w5[k - l4]);
        } else if k < l6 {
            assert(is[k] == w6[k - l5]);
        } else {
            assert(is[k] == w7[k - l6]);
        }
    }
}

/// The checker reports issues row by row, in row order, each carrying a row
/// of the file; and it reports nothing exactly when every entry is clean.
pub proof fn law_consistency_issues(es: Seq<OtoEntryView>, present: Option<Seq<bool>>, n: int)
    requires
        0 <= n <= es.len(),
    ensures
        forall|a: int|
            0 <= a < consistency_issues(es, present, n).len() ==> 0 <= (
            #[trigger] consistency_issues(es, present, n)[a]).row < n,
        forall|a: int, b: int|
            0 <= a < b < consistency_issues(es, present, n).len() ==> consistency_issues(
                es,
                present,
                n,
            )[a].row <= consistency_issues(es, present, n)[b].row,
        consistency_issues(es, present, n).len() == 0 <==> forall|k: int|
            0 <= k < n ==> entry_is_clean(#[trigger] es[k], presence(present, k)),
    decreases n,
{
    if n > 0 {
        law_consistency_issues(es, present, n - 1);
        lemma_entry_issue_rows(es[n - 1], n - 1, presence(present, n - 1));
        let prev = consistency_issues(es, present, n - 1);
        let last = entry_issues(es[n - 1], n - 1, presence(present, n - 1));
        let all = consistency_issues(es, present, n);
        assert(all == prev + last);
        assert forall|a: int| 0 <= a < all.len() implies 0 <= (#[trigger] all[a]).row < n by {
            if a < prev.len() {
                assert(all[a] == prev[a]);
            } else {
                assert(all[a] == last[a - prev.len()]);
            }
        }
        assert forall|a: int, b: int| 0 <= a < b < all.len() implies all[a].row <= all[b].row by {
            if b < prev.len() {
                assert(all[a] == prev[a]);
                assert(all[b] == prev[b]);
            } else if a < prev.len() {
                assert(all[a] == prev[a]);
                assert(all[b] == last[b - prev.len()]);
            } else {
                assert(all[a] == last[a - prev.len()]);
                assert(all[b] == last[b - prev.len()]);
            }
        }
        if all.len() == 0 {
            assert(prev.len() == 0 && last.len() == 0);
            assert forall|k: int| 0 <= k < n implies entry_is_clean(
                #[trigger] es[k],
                presence(present, k),
            ) by {
                if k < n - 1 {
                }
            }
        } else {
            if prev.len() == 0 {
                assert(last.len() > 0);
                assert(!entry_is_clean(es[n - 1], presence(present, n - 1)));
            } else {
                let k = choose|k: int|
                    0 <= k < n - 1 && !entry_is_clean(#[trigger] es[k], presence(present, k));
                assert(!entry_is_clean(es[k], presence(present, k)));
            }
        }
    }
}

/// An issue on the overlap field is reported exactly for an overlap past a
/// positive preutterance, and proposes half the preutterance.
proof fn lemma_entry_overlap_issue(e: OtoEntryView, row: int, present: Option<bool>)
    ensures
        forall|k: int|
            0 <= k < entry_issues(e, row, present).len() && (#[trigger] entry_issues(
                e,
                row,
                present,
            )[k]).field == Some("overlap"@) ==> {
                &&& e.overlap > e.preutter > 0
                &&& entry_issues(e, row, present)[k].severity == "warning"@
                &&& entry_issues(e, row, present)[k].suggested_fix matches Some(f) && 2 * f
                    <= e.preutter <= 2 * f + 1
            },
        e.overlap > e.preutter > 0 ==> exists|k: int|
            0 <= k < entry_issues(e, row, present).len() && (#[trigger] entry_issues(
                e,
                row,
                present,
            )[k]).field == Some("overlap"@) && entry_issues(e, row, present)[k].severity
                == "warning"@,
{
    reveal(entry_issues);
    reveal_strlit("filename");
    reveal_strlit("alias");
    reveal_strlit("offset");
    reveal_strlit("preutter");
    reveal_strlit("consonant");
    reveal_strlit("overlap");
    let is = entry_issues(e, row, present);
    let w1 = missing_file_issues(e, row, present);
    let w2 = empty_alias_issues(e, row);
    let w3 = negative_issues(e, row, e.offset, "Offset negativo: "@, "offset"@);
    let w4 = negative_issues(e, row, e.preutter, "Preutter negativo: "@, "preutter"@);
    let w5 = negative_issues(e, row, e.consonant, "Consonant negativo: "@, "consonant"@);
    let w6 = long_overlap_issues(e, row);
    let w7 = short_consonant_issues(e, row);
    let l1 = w1.len();
    let l2 = l1 + w2.len();
    let l3 = l2 + w3.len();
    let l4 = l3 + w4.len();
    let l5 = l4 + w5.len();
    let l6 = l5 + w6.len();
    assert(is == w1 + w2 + w3 + w4 + w5 + w6 + w7);
    assert("overlap"@.len() == 7 && "filename"@.len() == 8 && "alias"@.len() == 5);
    assert("offset"@.len() == 6 && "preutter"@.len() == 8 && "consonant"@.len() == 9);
    assert forall|k: int| 0 <= k < is.len() && (#[trigger] is[k]).field == Some("overlap"@) implies {
        &&& e.overlap > e.preutter > 0
        &&& is[k].severity == "warning"@
        &&& is[k].suggested_fix matches Some(f) && 2 * f <= e.preutter <= 2 * f + 1
    } by {
        if k < l1 {
            assert(is[k] == w1[k]);
        } else if k < l2 {
            assert(is[k] == w2[k - l1]);
        } else if k < l3 {
            assert(is[k] == w3[k - l2]);
        } else if k < l4 {
            assert(is[k] == w4[k - l3]);
        } else if k < l5 {
            assert(is[k] == w5[k - l4]);
        } else if k < l6 {
            assert(is[k] == w6[k - l5]);
        } else {
            assert(is[k] == w7[k - l6]);
        }
    }
    if e.overlap > e.preutter > 0 {
        assert(is[l5 as int] == w6[0]);
    }
}

/// The checker's overlap warnings: one is reported for every row whose
/// overlap lies past a positive preutterance, only for such rows, and each
/// proposes half of its row's preutterance, whatever the row's other
/// values.
pub proof fn law_overlap_fix(es: Seq<OtoEntryView>, present: Option<Seq<bool>>, n: int)
    requires
        0 <= n <= es.len(),
    ensures
        forall|k: int|
            0 <= k < consistency_issues(es, present, n).len() && (
            #[trigger] consistency_issues(es, present, n)[k]).field == Some("overlap"@) ==> {
                let r = consistency_issues(es, present, n)[k].row;
                &&& 0 <= r < n
                &&& es[r].overlap > es[r].preutter > 0
                &&& consistency_issues(es, present, n)[k].suggested_fix matches Some(f) && 2 * f
                    <= es[r].preutter <= 2 * f + 1
            },
        forall|r: int|
            0 <= r < n && (#[trigger] es[r]).overlap > es[r].preutter > 0 ==> exists|k: int|
                0 <= k < consistency_issues(es, present, n).len() && (
                #[trigger] consistency_issues(es, present, n)[k]).row == r && consistency_issues(
                    es,
                    present,
                    n,
                )[k].field == Some("overlap"@) && consistency_issues(es, present, n)[k].severity
                    == "warning"@,
    decreases n,
{
    if n > 0 {
        law_overlap_fix(es, present, n - 1);
        let m = n - 1;
        let prev = consistency_issues(es, present, m);
        let last = entry_issues(es[m], m, presence(present, m));
        let all = consistency_issues(es, present, n);
        assert(all == prev + last);
        lemma_entry_issue_rows(es[m], m, presence(present, m));
        lemma_entry_overlap_issue(es[m], m, presence(present, m));
        assert forall|k: int| 0 <= k < all.len() && (#[trigger] all[k]).field == Some("overlap"@) implies {
            let r = all[k].row;
            &&& 0 <= r < n
            &&& es[r].overlap > es[r].preutter > 0
            &&& all[k].suggested_fix matches Some(f) && 2 * f <= es[r].preutter <= 2 * f + 1
        } by {
            if k < prev.len() {
                assert(all[k] == prev[k]);
            } else {
                assert(all[k] == last[k - prev.len()]);
            }
        }
        assert forall|r: int| 0 <= r < n && (#[trigger] es[r]).overlap > es[r].preutter > 0 implies exists|k: int|
            0 <= k < all.len() && (#[trigger] all[k]).row == r && all[k].field == Some("overlap"@)
                && all[k].severity == "warning"@ by {
            if r < m {
                let k = choose|k: int|
                    0 <= k < prev.len() && (#[trigger] prev[k]).row == r && prev[k].field == Some(
                        "overlap"@,
                    ) && prev[k].severity == "warning"@;
                assert(all[k] == prev[k]);
            } else {
                let k = choose|k: int|
                    0 <= k < last.len() && (#[trigger] last[k]).field == Some("overlap"@)
                        && last[k].severity == "warning"@;
                assert(all[prev.len() + k] == last[k]);
            }
        }
    }
}

/// An issue on the offset or preutterance field is reported exactly for a
/// negative value of that field, as an error proposing 0.
proof fn lemma_entry_negative_issue(e: OtoEntryView, row: int, present: Option<bool>)
    ensures
        forall|k: int|
            0 <= k < entry_issues(e, row, present).len() && (#[trigger] entry_issues(
                e,
                row,
                present,
            )[k]).field == Some("offset"@) ==> e.offset < 0 && entry_issues(e, row, present)[k].severity
                == "error"@ && entry_issues(e, row, present)[k].suggested_fix == Some(0int),
        forall|k: int|
            0 <= k < entry_issues(e, row, present).len() && (#[trigger] entry_issues(
                e,
                row,
                present,
            )[k]).field == Some("preutter"@) ==> e.preutter < 0 && entry_issues(
                e,
                row,
                present,
            )[k].severity == "error"@ && entry_issues(e, row, present)[k].suggested_fix == Some(0int),
        e.offset < 0 ==> exists|k: int|
            0 <= k < entry_issues(e, row, present).len() && (#[trigger] entry_issues(
                e,
                row,
                present,
            )[k]).field == Some("offset"@),
        e.preutter < 0 ==> exists|k: int|
            0 <= k < entry_issues(e, row, present).len() && (#[trigger] entry_issues(
                e,
                row,
                present,
            )[k]).field == Some("preutter"@),
{
    reveal(entry_issues);
    reveal_strlit("filename");
    reveal_strlit("alias");
    reveal_strlit("offset");
    reveal_strlit("preutter");
    reveal_strlit("consonant");
    reveal_strlit("overlap");
    let is = entry_issues(e, row, present);
    let w1 = missing_file_issues(e, row, present);
    let w2 = empty_alias_issues(e, row);
    let w3 = negative_issues(e, row, e.offset, "Offset negativo: "@, "offset"@);
    let w4 = negative_issues(e, row, e.preutter, "Preutter negativo: "@, "preutter"@);
    let w5 = negative_issues(e, row, e.consonant, "Consonant negativo: "@, "consonant"@);
    let w6 = long_overlap_issues(e, row);
    let w7 = short_consonant_issues(e, row);
    let l1 = w1.len();
    let l2 = l1 + w2.len();
    let l3 = l2 + w3.len();
    let l4 = l3 + w4.len();
    let l5 = l4 + w5.len();
    let l6 = l5 + w6.len();
    assert(is == w1 + w2 + w3 + w4 + w5 + w6 + w7);
    assert("overlap"@.len() == 7 && "filename"@.len() == 8 && "alias"@.len() == 5);
    assert("offset"@.len() == 6 && "preutter"@.len() == 8 && "consonant"@.len() == 9);
    assert("filename"@[0] != "preutter"@[0]);
    assert forall|k: int| 0 <= k < is.len() implies {
        &&& (#[trigger] is[k]).field == Some("offset"@) ==> e.offset < 0 && is[k].severity == "error"@
            && is[k].suggested_fix == Some(0int)
        &&& is[k].field == Some("preutter"@) ==> e.preutter < 0 && is[k].severity == "error"@
            && is[k].suggested_fix == Some(0int)
    } by {
        if k < l1 {
            assert(is[k] == w1[k]);
        } else if k < l2 {
            assert(is[k] == w2[k - l1]);
        } else if k < l3 {
            assert(is[k] == w3[k - l2]);
        } else if k < l4 {
            assert(is[k] == w4[k - l3]);
        } else if k < l5 {
            assert(is[k] == w5[k - l4]);
        } else if k < l6 {
            assert(is[k] == w6[k - l5]);
        } else {
            assert(is[k] == w7[k - l6]);
        }
    }
    if e.offset < 0 {
        assert(is[l2 as int] == w3[0]);
    }
    if e.preutter < 0 {
        assert(is[l3 as int] == w4[0]);
    }
}

/// The checker's negative-value errors on offset and preutterance: one is
/// reported for every row where that value is negative, only for such
/// rows, and each proposes 0.
pub proof fn law_negative_fix(es: Seq<OtoEntryView>, present: Option<Seq<bool>>, n: int)
    requires
        0 <= n <= es.len(),
    ensures
        forall|k: int|
            0 <= k < consistency_issues(es, present, n).len() && (
            #[trigger] consistency_issues(es, present, n)[k]).field == Some("offset"@) ==> {
                let r = consistency_issues(es, present, n)[k].row;
                0 <= r < n && es[r].offset < 0 && consistency_issues(es, present, n)[k].suggested_fix
                    == Some(0int)
            },
        forall|k: int|
            0 <= k < consistency_issues(es, present, n).len() && (
            #[trigger] consistency_issues(es, present, n)[k]).field == Some("preutter"@) ==> {
                let r = consistency_issues(es, present, n)[k].row;
                0 <= r < n && es[r].preutter < 0 && consistency_issues(es, present, n)[k].suggested_fix
                    == Some(0int)
            },
        forall|r: int|
            0 <= r < n && (#[trigger] es[r]).offset < 0 ==> exists|k: int|
                0 <= k < consistency_issues(es, present, n).len() && (
                #[trigger] consistency_issues(es, present, n)[k]).row == r && consistency_issues(
                    es,
                    present,
                    n,
                )[k].field == Some("offset"@),
        forall|r: int|
            0 <= r < n && (#[trigger] es[r]).preutter < 0 ==> exists|k: int|
                0 <= k < consistency_issues(es, present, n).len() && (
                #[trigger] consistency_issues(es, present, n)[k]).row == r && consistency_issues(
                    es,
                    present,
                    n,
                )[k].field == Some("preutter"@),
    decreases n,
{
    if n > 0 {
        law_negative_fix(es, present, n - 1);
        let m = n - 1;
        let prev = consistency_issues(es, present, m);
        let last = entry_issues(es[m], m, presence(present, m));
        let all = consistency_issues(es, present, n);
        assert(all == prev + last);
        lemma_entry_issue_rows(es[m], m, presence(present, m));
        lemma_entry_negative_issue(es[m], m, presence(present, m));
        assert forall|k: int| 0 <= k < all.len() implies {
            let r = (#[trigger] all[k]).row;
            &&& all[k].field == Some("offset"@) ==> 0 <= r < n && es[r].offset < 0
                && all[k].suggested_fix == Some(0int)
            &&& all[k].field == Some("preutter"@) ==> 0 <= r < n && es[r].preutter < 0
                && all[k].suggested_fix == Some(0int)
        } by {
            if k < prev.len() {
                assert(all[k] == prev[k]);
            } else {
                assert(all[k] == last[k - prev.len()]);
            }
        }
        assert forall|r: int| 0 <= r < n && (#[trigger] es[r]).offset < 0 implies exists|k: int|
            0 <= k < all.len() && (#[trigger] all[k]).row == r && all[k].field == Some("offset"@) by {
            if r < m {
                let k = choose|k: int|
                    0 <= k < prev.len() && (#[trigger] prev[k]).row == r && prev[k].field == Some(
                        "offset"@,
                    );
                assert(all[k] == prev[k]);
            } else {
                let k = choose|k: int| 0 <= k < last.len() && (#[trigger] last[k]).field == Some("offset"@);
                assert(all[prev.len() + k] == last[k]);
            }
        }
        assert forall|r: int| 0 <= r < n && (#[trigger] es[r]).preutter < 0 implies exists|k: int|
            0 <= k < all.len() && (#[trigger] all[k]).row == r && all[k].field == Some("preutter"@) by {
            if r < m {
                let k = choose|k: int|
                    0 <= k < prev.len() && (#[trigger] prev[k]).row == r && prev[k].field == Some(
                        "preutter"@,
                    );
                assert(all[k] == prev[k]);
            } else {
                let k = choose|k: int|
                    0 <= k < last.len() && (#[trigger] last[k]).field == Some("preutter"@);
                assert(all[prev.len() + k] == last[k]);
            }
        }
    }
}

/// The issues `is` with every row moved on by `d`.
pub open spec fn shift_rows(is: Seq<ValidationIssueView>, d: int) -> Seq<ValidationIssueView> {
    is.map_values(|i: ValidationIssueView| ValidationIssueView { row: i.row + d, ..i })
}

/// The file presence of two lists of entries checked as one: known for
/// the joined list when it is known for both.
pub open spec fn joined_presence(pa: Option<Seq<bool>>, pb: Option<Seq<bool>>) -> Option<
    Seq<bool>,
> {
    match (pa, pb) {
        (Some(x), Some(y)) => Some(x + y),
        _ => None,
    }
}

proof fn lemma_shift_add(x: Seq<ValidationIssueView>, y: Seq<ValidationIssueView>, d: int)
    ensures
        shift_rows(x + y, d) == shift_rows(x, d) + shift_rows(y, d),
{
    assert(shift_rows(x + y, d) =~= shift_rows(x, d) + shift_rows(y, d));
}

/// The issues of an entry on row `row + d` are those on `row`, moved on by `d`.
proof fn lemma_entry_issues_shift(e: OtoEntryView, row: int, present: Option<bool>, d: int)
    ensures
        entry_issues(e, row + d, present) == shift_rows(entry_issues(e, row, present), d),
{
    reveal(entry_issues);
    let w1 = missing_file_issues(e, row, present);
    let w2 = empty_alias_issues(e, row);
    let w3 = negative_issues(e, row, e.offset, "Offset negativo: "@, "offset"@);
    let w4 = negative_issues(e, row, e.preutter, "Preutter negativo: "@, "preutter"@);
    let w5 = negative_issues(e, row, e.consonant, "Consonant negativo: "@, "consonant"@);
    let w6 = long_overlap_issues(e, row);
    let w7 = short_consonant_issues(e, row);
    let r = row + d;
    assert(shift_rows(w1, d) =~= missing_file_issues(e, r, present));
    assert(shift_rows(w2, d) =~= empty_alias_issues(e, r));
    assert(shift_rows(w3, d) =~= negative_issues(e, r, e.offset, "Offset negativo: "@, "offset"@));
    assert(shift_rows(w4, d) =~= negative_issues(
        e,
        r,
        e.preutter,
        "Preutter negativo: "@,
        "preutter"@,
    ));
    assert(shift_rows(w5, d) =~= negative_issues(
        e,
        r,
        e.consonant,
        "Consonant negativo: "@,
        "consonant"@,
    ));
    assert(shift_rows(w6, d) =~= long_overlap_issues(e, r));
    assert(shift_rows(w7, d) =~= short_consonant_issues(e, r));
    lemma_shift_add(w1 + w2 + w3 + w4 + w5 + w6, w7, d);
    lemma_shift_add(w1 + w2 + w3 + w4 + w5, w6, d);
    lemma_shift_add(w1 + w2 + w3 + w4, w5, d);
    lemma_shift_add(w1 + w2 + w3, w4, d);
    lemma_shift_add(w1 + w2, w3, d);
    lemma_shift_add(w1, w2, d);
}

/// Checking a list whose first rows are `a` gives, for those rows, what
/// checking `a` alone gives.
proof fn lemma_issues_prefix(
    a: Seq<OtoEntryView>,
    b: Seq<OtoEntryView>,
    pa: Option<Seq<bool>>,
    pb: Option<Seq<bool>>,
    m: int,
)
    requires
        0 <= m <= a.len(),
        pa is Some <==> pb is Some,
        pa matches Some(p) ==> p.len() == a.len(),
    ensures
        consistency_issues(a + b, joined_presence(pa, pb), m) == consistency_issues(a, pa, m),
    decreases m,
{
    if m > 0 {
        lemma_issues_prefix(a, b, pa, pb, m - 1);
        assert((a + b)[m - 1] == a[m - 1]);
        match (pa, pb) {
            (Some(x), Some(y)) => {
                assert((x + y)[m - 1] == x[m - 1]);
            },
            _ => {},
        }
    }
}

proof fn lemma_issues_concat(
    a: Seq<OtoEntryView>,
    b: Seq<OtoEntryView>,
    pa: Option<Seq<bool>>,
    pb: Option<Seq<bool>>,
    n: int,
)
    requires
        0 <= n <= b.len(),
        pa is Some <==> pb is Some,
        pa matches Some(p) ==> p.len() == a.len(),
        pb matches Some(p) ==> p.len() == b.len(),
    ensures
        consistency_issues(a + b, joined_presence(pa, pb), a.len() + n) == consistency_issues(
            a,
            pa,
            a.len() as int,
        ) + shift_rows(consistency_issues(b, pb, n), a.len() as int),
    decreases n,
{
    let j = joined_presence(pa, pb);
    if n == 0 {
        lemma_issues_prefix(a, b, pa, pb, a.len() as int);
        assert(shift_rows(Seq::<ValidationIssueView>::empty(), a.len() as int) =~= Seq::<
            ValidationIssueView,
        >::empty());
        assert(consistency_issues(a, pa, a.len() as int) + Seq::<ValidationIssueView>::empty()
            =~= consistency_issues(a, pa, a.len() as int));
    } else {
        lemma_issues_concat(a, b, pa, pb, n - 1);
        let k = a.len() + n - 1;
        assert((a + b)[k] == b[n - 1]);
        assert(presence(j, k) == presence(pb, n - 1)) by {
            match (pa, pb) {
                (Some(x), Some(y)) => {
                    assert((x + y)[k] == y[n - 1]);
                },
                _ => {},
            }
        }
        lemma_entry_issues_shift(b[n - 1], n - 1, presence(pb, n - 1), a.len() as int);
        lemma_shift_add(
            consistency_issues(b, pb, n - 1),
            entry_issues(b[n - 1], n - 1, presence(pb, n - 1)),
            a.len() as int,
        );
        assert(consistency_issues(a + b, j, a.len() + n) == consistency_issues(a + b, j, k)
            + entry_issues((a + b)[k], k, presence(j, k)));
        assert(consistency_issues(a, pa, a.len() as int) + shift_rows(
            consistency_issues(b, pb, n - 1),
            a.len() as int,
        ) + shift_rows(entry_issues(b[n - 1], n - 1, presence(pb, n - 1)), a.len() as int)
            =~= consistency_issues(a, pa, a.len() as int) + (shift_rows(
            consistency_issues(b, pb, n - 1),
            a.len() as int,
        ) + shift_rows(entry_issues(b[n - 1], n - 1, presence(pb, n - 1)), a.len() as int)));
    }
}

/// Checking two lists of entries one after the other as one list gives the
/// issues of the first, then those of the second with each row moved on by
/// the length of the first; the files' presence is known for both or for
/// neither.
pub proof fn law_consistency_concat(
    a: Seq<OtoEntryView>,
    b: Seq<OtoEntryView>,
    pa: Option<Seq<bool>>,
    pb: Option<Seq<bool>>,
)
    requires
        pa is Some <==> pb is Some,
        pa matches Some(p) ==> p.len() == a.len(),
        pb matches Some(p) ==> p.len() == b.len(),
    ensures
        consistency_issues(a + b, joined_presence(pa, pb), (a + b).len() as int)
            == consistency_issues(a, pa, a.len() as int) + shift_rows(
            consistency_issues(b, pb, b.len() as int),
            a.len() as int,
        ),
{
    lemma_issues_concat(a, b, pa, pb, b.len() as int);
}

/// Appends the time `v` followed by "ms" to `out`.
fn push_ms(out: &mut Vec<char>, v: i64)
    ensures
        final(out)@ == old(out)@ + ms_text(v as int),
{
    let ghost start = out@;
    push_time_text(out, v);
    let mut unit = chars_of("ms");
    out.append(&mut unit);
    assert(out@ =~= start + ms_text(v as int));
}

fn new_issue(
    severity: &str,
    message: Vec<char>,
    row: usize,
    alias: String,
    field: &str,
    suggested_fix: Option<i64>,
) -> (r: ValidationIssue)
    ensures
        r@ == issue(
            severity@,
            message@,
            row as int,
            alias@,
            field@,
            match suggested_fix {
                Some(x) => Some(x as int),
                None => None,
            },
        ),
{
    ValidationIssue {
        severity: severity.to_owned(),
        message: string_from_chars(message.as_slice()),
        row,
        alias,
        field: Some(field.to_owned()),
        suggested_fix,
    }
}

/// Appends `x` to `issues` when `cond` holds.
fn push_issue_when(issues: &mut Vec<ValidationIssue>, cond: bool, x: ValidationIssue)
    ensures
        issue_views(final(issues)@) == issue_views(old(issues)@) + when(cond, x@),
{
    let ghost start = issues@;
    if cond {
        issues.push(x);
        assert(issue_views(issues@) =~= issue_views(start) + seq![x@]);
    } else {
        assert(issue_views(issues@) =~= issue_views(start) + Seq::<ValidationIssueView>::empty());
    }
}

fn missing_file_issue(e: &OtoEntry, row: usize) -> (r: ValidationIssue)
    ensures
        r@ == issue(
            "error"@,
            "Arquivo não encontrado: "@ + e.filename@,
            row as int,
            e.alias@,
            "filename"@,
            None,
        ),
{
    let mut m = chars_of("Arquivo não encontrado: ");
    let mut f = chars_of(e.filename.as_str());
    m.append(&mut f);
    new_issue("error", m, row, e.alias.clone(), "filename", None)
}

fn negative_issue(e: &OtoEntry, row: usize, label: &str, v: i64, field: &str) -> (r:
    ValidationIssue)
    ensures
        r@ == issue("error"@, label@ + ms_text(v as int), row as int, e.alias@, field@, Some(0)),
{
    let mut m = chars_of(label);
    push_ms(&mut m, v);
    new_issue("error", m, row, e.alias.clone(), field, Some(0))
}

/// The text `"{first} ({a}ms) {middle} ({b}ms)"`.
fn comparison_text(first: &str, a: i64, middle: &str, b: i64) -> (r: Vec<char>)
    ensures
        r@ == first@ + ms_text(a as int) + middle@ + ms_text(b as int) + ")"@,
{
    let mut m = chars_of(first);
    push_ms(&mut m, a);
    let mut mid = chars_of(middle);
    m.append(&mut mid);
    push_ms(&mut m, b);
    let mut close = chars_of(")");
    m.append(&mut close);
    m
}

/// Whether `s` is blank once trimmed.
fn is_blank(s: &str) -> (r: bool)
    ensures
        r == (trim(s@).len() == 0),
{
    let v = chars_of(s);
    let (ta, tb) = trim_span(&v, 0, v.len());
    assert(v@.subrange(0, v@.len() as int) =~= v@);
    ta == tb
}

/// Appends the issues of entry `e` on `row` to `issues`.
#[verifier::rlimit(60)]
fn push_entry_issues(
    issues: &mut Vec<ValidationIssue>,
    e: &OtoEntry,
    row: usize,
    present: Option<bool>,
)
    ensures
        issue_views(final(issues)@) == issue_views(old(issues)@) + entry_issues(
            e@,
            row as int,
            present,
        ),
{
    let ghost start = issue_views(issues@);
    let ghost v = e@;
    let ghost r = row as int;
    let ghost w1 = missing_file_issues(v, r, present);
    let ghost w2 = empty_alias_issues(v, r);
    let ghost w3 = negative_issues(v, r, v.offset, "Offset negativo: "@, "offset"@);
    let ghost w4 = negative_issues(v, r, v.preutter, "Preutter negativo: "@, "preutter"@);
    let ghost w5 = negative_issues(v, r, v.consonant, "Consonant negativo: "@, "consonant"@);
    let ghost w6 = long_overlap_issues(v, r);
    let ghost w7 = short_consonant_issues(v, r);
    assert(entry_issues(v, r, present) == w1 + w2 + w3 + w4 + w5 + w6 + w7) by {
        reveal(entry_issues);
    }
    push_issue_when(issues, present == Some(false), missing_file_issue(e, row));
    assert(issue_views(issues@) == start + w1);
    push_issue_when(
        issues,
        is_blank(e.alias.as_str()),
        new_issue("warning", chars_of("Alias vazio"), row, "(vazio)".to_owned(), "alias", None),
    );
    assert(issue_views(issues@) == start + w1 + w2);
    push_issue_when(
        issues,
        e.offset < 0,
        negative_issue(e, row, "Offset negativo: ", e.offset, "offset"),
    );
    assert(issue_views(issues@) == start + w1 + w2 + w3);
    push_issue_when(
        issues,
        e.preutter < 0,
        negative_issue(e, row, "Preutter negativo: ", e.preutter, "preutter"),
    );
    assert(issue_views(issues@) == start + w1 + w2 + w3 + w4);
    push_issue_when(
        issues,
        e.consonant < 0,
        negative_issue(e, row, "Consonant negativo: ", e.consonant, "consonant"),
    );
    assert(issue_views(issues@) == start + w1 + w2 + w3 + w4 + w5);
    let half = e.preutter / 2;
    assert(e.preutter > 0 ==> half == v.preutter / 2);
    push_issue_when(
        issues,
        e.overlap > e.preutter && e.preutter > 0,
        new_issue(
            "warning",
            comparison_text("Overlap (", e.overlap, ") maior que Preutter (", e.preutter),
            row,
            e.alias.clone(),
            "overlap",
            Some(half),
        ),
    );
    assert(issue_views(issues@) == start + w1 + w2 + w3 + w4 + w5 + w6);
    push_issue_when(
        issues,
        e.consonant < e.preutter && e.consonant > 0,
        new_issue(
            "info",
            comparison_text("Consonant (", e.consonant, ") menor que Preutter (", e.preutter),
            row,
            e.alias.clone(),
            "consonant",
            None,
        ),
    );
    assert(issue_views(issues@) == start + w1 + w2 + w3 + w4 + w5 + w6 + w7);
    assert(start + w1 + w2 + w3 + w4 + w5 + w6 + w7 =~= start + (w1 + w2 + w3 + w4 + w5 + w6
        + w7));
}

/// Check every entry for a missing WAV file, an empty alias, negative
/// values, an overlap past the preutterance and a consonant shorter than
/// the preutterance. `files_present[k]` tells whether the WAV file of entry
/// `k` exists in the voicebank folder, when there is one.
pub fn check_consistency(entries: &[OtoEntry], files_present: Option<&[bool]>) -> (res: Vec<
    ValidationIssue,
>)
    requires
        files_present matches Some(p) ==> p@.len() == entries@.len(),
    ensures
        issue_views(res@) == consistency_issues(
            entry_views(entries@),
            match files_present {
                Some(p) => Some(p@),
                None => None,
            },
            entries@.len() as int,
        ),
{
    let ghost es = entry_views(entries@);
    let ghost present = match files_present {
        Some(p) => Some(p@),
        None => None,
    };
    let mut issues: Vec<ValidationIssue> = Vec::new();
    let mut row: usize = 0;
    while row < entries.len()
        invariant
            row <= entries@.len(),
            es == entry_views(entries@),
            present == match files_present {
                Some(p) => Some(p@),
                None => None,
            },
            files_present matches Some(p) ==> p@.len() == entries@.len(),
            issue_views(issues@) == consistency_issues(es, present, row as int),
        decreases entries@.len() - row,
    {
        let here = match files_present {
            Some(p) => Some(p[row]),
            None => None,
        };
        push_entry_issues(&mut issues, &entries[row], row, here);
        assert(es[row as int] == entries@[row as int]@);
        row = row + 1;
    }
    issues
}

} // verus!
