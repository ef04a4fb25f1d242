//! The duplicate detector: aliases written twice, aliases that differ only
//! in case, entries that cut the same part of the same file, and aliases
//! within two edits of each other.
use vstd::prelude::*;
use crate::levenshtein::{edit_distance, levenshtein_distance};
use crate::oto::{entry_views, OtoEntry, OtoEntryView};
use crate::text::{lowercase, to_lowercase};

verus! {

/// Two entries found to be duplicates of each other.
#[derive(Debug)]
pub struct Duplicate {
    pub row1: usize,
    pub row2: usize,
    pub alias1: String,
    pub alias2: String,
    /// "exact", "case", "functional" or "similar"
    pub match_type: String,
}

pub struct DuplicateView {
    pub row1: int,
    pub row2: int,
    pub alias1: Seq<char>,
    pub alias2: Seq<char>,
    pub match_type: Seq<char>,
}

impl View for Duplicate {
    type V = DuplicateView;

    open spec fn view(&self) -> DuplicateView {
        DuplicateView {
            row1: self.row1 as int,
            row2: self.row2 as int,
            alias1: self.alias1@,
            alias2: self.alias2@,
            match_type: self.match_type@,
        }
    }
}

pub open spec fn duplicate_views(v: Seq<Duplicate>) -> Seq<DuplicateView> {
    v.map_values(|d: Duplicate| d@)
}

/// The first index in `j..=i` whose key equals that of `i`.
pub open spec fn first_from<K>(keys: Seq<K>, i: int, j: int) -> int
    decreases i - j,
{
    if j >= i {
        i
    } else if keys[j] == keys[i] {
        j
    } else {
        first_from(keys, i, j + 1)
    }
}

/// The first row whose key equals that of row `i` (`i` itself when no
/// earlier row shares it).
pub open spec fn first_match<K>(keys: Seq<K>, i: int) -> int {
    first_from(keys, i, 0)
}

/// A millisecond value times ten, truncated toward zero, from microseconds.
pub open spec fn tenths(v: int) -> int {
    if v >= 0 {
        v / 100
    } else {
        -((-v) / 100)
    }
}

pub open spec fn alias_keys(es: Seq<OtoEntryView>) -> Seq<Seq<char>> {
    es.map_values(|e: OtoEntryView| e.alias)
}

pub open spec fn lowercase_keys(es: Seq<OtoEntryView>) -> Seq<Seq<char>> {
    es.map_values(|e: OtoEntryView| lowercase(e.alias))
}

/// File, offset and cutoff, in tenths of a millisecond.
pub open spec fn cut_keys(es: Seq<OtoEntryView>) -> Seq<(Seq<char>, int, int)> {
    es.map_values(|e: OtoEntryView| (e.filename, tenths(e.offset), tenths(e.cutoff)))
}

pub open spec fn dup(
    row1: int,
    row2: int,
    alias1: Seq<char>,
    alias2: Seq<char>,
    match_type: Seq<char>,
) -> DuplicateView {
    DuplicateView { row1, row2, alias1, alias2, match_type }
}

pub open spec fn exact_dups(es: Seq<OtoEntryView>, i: int, check_exact: bool) -> Seq<
    DuplicateView,
> {
    let f = first_match(alias_keys(es), i);
    if check_exact && f < i {
        seq![dup(f, i, es[i].alias, es[i].alias, "exact"@)]
    } else {
        Seq::<DuplicateView>::empty()
    }
}

pub open spec fn case_dups(
    es: Seq<OtoEntryView>,
    lowers: Seq<Seq<char>>,
    i: int,
    check_case: bool,
    check_exact: bool,
) -> Seq<DuplicateView> {
    let f = first_match(lowers, i);
    if check_case && !check_exact && f < i && es[f].alias != es[i].alias {
        seq![dup(f, i, es[f].alias, es[i].alias, "case"@)]
    } else {
        Seq::<DuplicateView>::empty()
    }
}

pub open spec fn functional_dups(es: Seq<OtoEntryView>, i: int, check_functional: bool) -> Seq<
    DuplicateView,
> {
    let f = first_match(cut_keys(es), i);
    if check_functional && f < i && es[f].alias != es[i].alias {
        seq![dup(f, i, es[f].alias, es[i].alias, "functional"@)]
    } else {
        Seq::<DuplicateView>::empty()
    }
}

/// Rows before `j` whose alias is one or two edits away from that of row `i`.
pub open spec fn similar_dups(es: Seq<OtoEntryView>, i: int, j: int) -> Seq<DuplicateView>
    decreases j,
{
    if j <= 0 {
        Seq::<DuplicateView>::empty()
    } else {
        let d = edit_distance(es[i].alias, es[j - 1].alias);
        similar_dups(es, i, j - 1) + if 0 < d <= 2 {
            seq![dup(j - 1, i, es[j - 1].alias, es[i].alias, "similar"@)]
        } else {
            Seq::<DuplicateView>::empty()
        }
    }
}

/// The duplicates reported for row `i`, given the lowercased aliases.
pub open spec fn row_dups(
    es: Seq<OtoEntryView>,
    lowers: Seq<Seq<char>>,
    i: int,
    check_exact: bool,
    check_case: bool,
    check_functional: bool,
    check_similar: bool,
) -> Seq<DuplicateView> {
    exact_dups(es, i, check_exact) + case_dups(es, lowers, i, check_case, check_exact) + functional_dups(
        es,
        i,
        check_functional,
    ) + if check_similar {
        similar_dups(es, i, i)
    } else {
        Seq::<DuplicateView>::empty()
    }
}

/// The duplicates reported for the first `n` rows, given the lowercased aliases.
pub open spec fn all_dups(
    es: Seq<OtoEntryView>,
    lowers: Seq<Seq<char>>,
    n: int,
    check_exact: bool,
    check_case: bool,
    check_functional: bool,
    check_similar: bool,
) -> Seq<DuplicateView>
    decreases n,
{
    if n <= 0 {
        Seq::<DuplicateView>::empty()
    } else {
        all_dups(es, lowers, n - 1, check_exact, check_case, check_functional, check_similar) + row_dups(
            es,
            lowers,
            n - 1,
            check_exact,
            check_case,
            check_functional,
            check_similar,
        )
    }
}

/// `first_from` stays within `j..=i`, and below `i` it finds an equal key.
pub proof fn lemma_first_from<K>(keys: Seq<K>, i: int, j: int)
    requires
        0 <= j,
    ensures
        j <= i ==> j <= first_from(keys, i, j) <= i,
        first_from(keys, i, j) < i ==> keys[first_from(keys, i, j)] == keys[i],
    decreases i - j,
{
    if j < i && keys[j] != keys[i] {
        lemma_first_from(keys, i, j + 1);
    }
}

/// A reported pair is well formed: earlier row first, both rows in range,
/// each alias the one of its row.
pub open spec fn points_back(es: Seq<OtoEntryView>, n: int, d: DuplicateView) -> bool {
    &&& 0 <= d.row1 < d.row2 < n
    &&& d.alias1 == es[d.row1].alias
    &&& d.alias2 == es[d.row2].alias
}

proof fn lemma_similar_points_back(es: Seq<OtoEntryView>, i: int, j: int)
    requires
        0 <= j <= i < es.len(),
    ensures
        forall|k: int|
            0 <= k < similar_dups(es, i, j).len() ==> points_back(
                es,
                i + 1,
                #[trigger] similar_dups(es, i, j)[k],
            ),
    decreases j,
{
    if j > 0 {
        lemma_similar_points_back(es, i, j - 1);
        let prev = similar_dups(es, i, j - 1);
        let all = similar_dups(es, i, j);
        assert forall|k: int| 0 <= k < all.len() implies points_back(es, i + 1, #[trigger] all[k]) by {
            if k < prev.len() {
                assert(all[k] == prev[k]);
            }
        }
    }
}

/// Every duplicate names the earlier row first, both rows exist, and each
/// alias is the one on its row; exact duplicates have equal aliases, and
/// case, functional and similar ones different aliases.
pub proof fn law_duplicates_point_back(
    es: Seq<OtoEntryView>,
    lowers: Seq<Seq<char>>,
    n: int,
    check_exact: bool,
    check_case: bool,
    check_functional: bool,
    check_similar: bool,
)
    requires
        0 <= n <= es.len(),
    ensures
        forall|k: int|
            0 <= k < all_dups(es, lowers, n, check_exact, check_case, check_functional, check_similar).len()
                ==> points_back(
                es,
                n,
                #[trigger] all_dups(es, lowers, n, check_exact, check_case, check_functional, check_similar)[k],
            ),
        forall|k: int|
            0 <= k < all_dups(es, lowers, n, check_exact, check_case, check_functional, check_similar).len()
                ==> ((#[trigger] all_dups(es, lowers, n, check_exact, check_case, check_functional, check_similar)[k]).match_type
                == "exact"@ <==> all_dups(es, lowers, n, check_exact, check_case, check_functional, check_similar)[k].alias1
                == all_dups(es, lowers, n, check_exact, check_case, check_functional, check_similar)[k].alias2),
    decreases n,
{
    if n > 0 {
        law_duplicates_point_back(es, lowers, n - 1, check_exact, check_case, check_functional, check_similar);
        let i = n - 1;
        let prev = all_dups(es, lowers, n - 1, check_exact, check_case, check_functional, check_similar);
        let row = row_dups(es, lowers, i, check_exact, check_case, check_functional, check_similar);
        let all = all_dups(es, lowers, n, check_exact, check_case, check_functional, check_similar);
        lemma_first_from(alias_keys(es), i, 0);
        lemma_first_from(lowers, i, 0);
        lemma_first_from(cut_keys(es), i, 0);
        lemma_similar_points_back(es, i, i);
        let ex = exact_dups(es, i, check_exact);
        let ca = case_dups(es, lowers, i, check_case, check_exact);
        let fu = functional_dups(es, i, check_functional);
        let si = if check_similar {
            similar_dups(es, i, i)
        } else {
            Seq::<DuplicateView>::empty()
        };
        assert(row == ex + ca + fu + si);
        reveal_strlit("exact");
        reveal_strlit("case");
        reveal_strlit("functional");
        reveal_strlit("similar");
        assert forall|k: int| 0 <= k < si.len() implies (#[trigger] si[k]).match_type == "similar"@
            && si[k].alias1 != si[k].alias2 by {
            lemma_similar_kind(es, i, i, k);
        }
        assert forall|k: int| 0 <= k < all.len() implies points_back(es, n, #[trigger] all[k])
            && (all[k].match_type == "exact"@ <==> all[k].alias1 == all[k].alias2) by {
            if k < prev.len() {
                assert(all[k] == prev[k]);
                assert(points_back(es, n - 1, prev[k]));
            } else {
                let r = k - prev.len();
                assert(all[k] == row[r]);
                if r < ex.len() {
                    assert(row[r] == ex[r]);
                    let f = first_match(alias_keys(es), i);
                    assert(alias_keys(es)[f] == es[f].alias);
                    assert(alias_keys(es)[i] == es[i].alias);
                    assert(points_back(es, n, ex[r]));
                    assert(ex[r].match_type == "exact"@);
                } else if r < ex.len() + ca.len() {
                    assert(row[r] == ca[r - ex.len()]);
                    assert(points_back(es, n, ca[r - ex.len()]));
                    assert(ca[r - ex.len()].match_type.len() != "exact"@.len());
                } else if r < ex.len() + ca.len() + fu.len() {
                    assert(row[r] == fu[r - ex.len() - ca.len()]);
                    assert(points_back(es, n, fu[r - ex.len() - ca.len()]));
                    assert(fu[r - ex.len() - ca.len()].match_type.len() != "exact"@.len());
                } else {
                    assert(row[r] == si[r - ex.len() - ca.len() - fu.len()]);
                    assert(points_back(es, n, si[r - ex.len() - ca.len() - fu.len()]));
                    assert(si[r - ex.len() - ca.len() - fu.len()].match_type.len() != "exact"@.len());
                }
            }
        }
    }
}

proof fn lemma_similar_kind(es: Seq<OtoEntryView>, i: int, j: int, k: int)
    requires
        0 <= j <= i < es.len(),
        0 <= k < similar_dups(es, i, j).len(),
    ensures
        similar_dups(es, i, j)[k].match_type == "similar"@,
        similar_dups(es, i, j)[k].alias1 != similar_dups(es, i, j)[k].alias2,
    decreases j,
{
    let prev = similar_dups(es, i, j - 1);
    if k < prev.len() {
        lemma_similar_kind(es, i, j - 1, k);
    } else {
        let d = edit_distance(es[i].alias, es[j - 1].alias);
        crate::levenshtein::law_edit_distance(es[i].alias, es[j - 1].alias);
    }
}

/// Two entries cut the same part of the same file: the same file name, and
/// the same offset and cutoff once truncated to tenths of a millisecond.
pub open spec fn same_cut(a: OtoEntryView, b: OtoEntryView) -> bool {
    &&& a.filename == b.filename
    &&& tenths(a.offset) == tenths(b.offset)
    &&& tenths(a.cutoff) == tenths(b.cutoff)
}

/// Two microsecond values with the same tenths of a millisecond lie less
/// than 0.2 ms apart, and less than 0.1 ms apart when they have the same
/// sign.
pub proof fn lemma_tenths_close(v: int, w: int)
    requires
        tenths(v) == tenths(w),
    ensures
        -200 < v - w < 200,
        (v >= 0 && w >= 0) || (v <= 0 && w <= 0) ==> -100 < v - w < 100,
{
}

/// `first_from` finds `f` when `f` holds the key of `i` and no row from `j`
/// up to `f` does.
proof fn lemma_first_from_is<K>(keys: Seq<K>, i: int, j: int, f: int)
    requires
        0 <= j <= f < i,
        keys[f] == keys[i],
        forall|x: int| j <= x < f ==> keys[x] != keys[i],
    ensures
        first_from(keys, i, j) == f,
    decreases f - j,
{
    if j < f {
        lemma_first_from_is(keys, i, j + 1, f);
    }
}

/// Every duplicate of `similar_dups(es, i, j)` pairs a row `m < j` with row
/// `i`, their aliases one or two edits apart.
proof fn lemma_similar_sound(es: Seq<OtoEntryView>, i: int, j: int, k: int)
    requires
        0 <= j <= i < es.len(),
        0 <= k < similar_dups(es, i, j).len(),
    ensures
        similar_dups(es, i, j)[k].row2 == i,
        0 <= similar_dups(es, i, j)[k].row1 < j,
        similar_dups(es, i, j)[k].match_type == "similar"@,
        0 < edit_distance(es[similar_dups(es, i, j)[k].row1].alias, es[i].alias) <= 2,
    decreases j,
{
    let prev = similar_dups(es, i, j - 1);
    if k < prev.len() {
        lemma_similar_sound(es, i, j - 1, k);
    } else {
        crate::levenshtein::law_edit_distance(es[i].alias, es[j - 1].alias);
    }
}

/// Every row `m < j` whose alias is one or two edits from that of row `i`
/// is paired with `i` in `similar_dups(es, i, j)`.
proof fn lemma_similar_complete(es: Seq<OtoEntryView>, i: int, j: int, m: int)
    requires
        0 <= m < j <= i < es.len(),
        0 < edit_distance(es[m].alias, es[i].alias) <= 2,
    ensures
        similar_dups(es, i, j).contains(dup(m, i, es[m].alias, es[i].alias, "similar"@)),
    decreases j,
{
    let prev = similar_dups(es, i, j - 1);
    let x = dup(m, i, es[m].alias, es[i].alias, "similar"@);
    if m < j - 1 {
        lemma_similar_complete(es, i, j - 1, m);
        let k = choose|k: int| 0 <= k < prev.len() && prev[k] == x;
        assert(similar_dups(es, i, j)[k] == x);
    } else {
        crate::levenshtein::law_edit_distance(es[i].alias, es[m].alias);
        assert(similar_dups(es, i, j)[prev.len() as int] == x);
    }
}

/// What a duplicate reported for row `i` says of its two rows.
pub open spec fn dup_is_sound(
    es: Seq<OtoEntryView>,
    lowers: Seq<Seq<char>>,
    d: DuplicateView,
    check_exact: bool,
    check_case: bool,
    check_functional: bool,
    check_similar: bool,
) -> bool {
    &&& d.match_type == "exact"@ ==> check_exact && es[d.row1].alias == es[d.row2].alias
    &&& d.match_type == "case"@ ==> {
        &&& check_case && !check_exact
        &&& lowers[d.row1] == lowers[d.row2]
        &&& es[d.row1].alias != es[d.row2].alias
    }
    &&& d.match_type == "functional"@ ==> {
        &&& check_functional
        &&& same_cut(es[d.row1], es[d.row2])
        &&& es[d.row1].alias != es[d.row2].alias
    }
    &&& d.match_type == "similar"@ ==> {
        &&& check_similar
        &&& 0 < edit_distance(es[d.row1].alias, es[d.row2].alias) <= 2
    }
}

proof fn lemma_row_dups_sound(
    es: Seq<OtoEntryView>,
    lowers: Seq<Seq<char>>,
    i: int,
    check_exact: bool,
    check_case: bool,
    check_functional: bool,
    check_similar: bool,
    k: int,
)
    requires
        0 <= i < es.len(),
        0 <= k < row_dups(es, lowers, i, check_exact, check_case, check_functional, check_similar).len(),
    ensures
        row_dups(es, lowers, i, check_exact, check_case, check_functional, check_similar)[k].row2 == i,
        0 <= row_dups(es, lowers, i, check_exact, check_case, check_functional, check_similar)[k].row1 < i,
        dup_is_sound(
            es,
            lowers,
            row_dups(es, lowers, i, check_exact, check_case, check_functional, check_similar)[k],
            check_exact,
            check_case,
            check_functional,
            check_similar,
        ),
{
    let ex = exact_dups(es, i, check_exact);
    let ca = case_dups(es, lowers, i, check_case, check_exact);
    let fu = functional_dups(es, i, check_functional);
    let si = if check_similar {
        similar_dups(es, i, i)
    } else {
        Seq::<DuplicateView>::empty()
    };
    let row = row_dups(es, lowers, i, check_exact, check_case, check_functional, check_similar);
    assert(row == ex + ca + fu + si);
    lemma_first_from(alias_keys(es), i, 0);
    lemma_first_from(lowers, i, 0);
    lemma_first_from(cut_keys(es), i, 0);
    reveal_strlit("exact");
    reveal_strlit("case");
    reveal_strlit("functional");
    reveal_strlit("similar");
    assert("exact"@.len() == 5 && "case"@.len() == 4);
    assert("functional"@.len() == 10 && "similar"@.len() == 7);
    if k < ex.len() {
        assert(row[k] == ex[k]);
        assert(ex[k].match_type == "exact"@);
        let f = first_match(alias_keys(es), i);
        assert(alias_keys(es)[f] == es[f].alias);
        assert(alias_keys(es)[i] == es[i].alias);
    } else if k < ex.len() + ca.len() {
        assert(row[k] == ca[k - ex.len()]);
        assert(ca[k - ex.len()].match_type == "case"@);
    } else if k < ex.len() + ca.len() + fu.len() {
        assert(row[k] == fu[k - ex.len() - ca.len()]);
        let f = first_match(cut_keys(es), i);
        assert(cut_keys(es)[f] == cut_keys(es)[i]);
        assert(cut_keys(es)[f] == (es[f].filename, tenths(es[f].offset), tenths(es[f].cutoff)));
        assert(cut_keys(es)[i] == (es[i].filename, tenths(es[i].offset), tenths(es[i].cutoff)));
        assert(same_cut(es[f], es[i]));
    } else {
        let r = k - ex.len() - ca.len() - fu.len();
        assert(row[k] == si[r]);
        lemma_similar_sound(es, i, i, r);
    }
}

/// A duplicate reported for row `i < n` is among those reported for the
/// first `n` rows.
proof fn lemma_all_dups_has_row(
    es: Seq<OtoEntryView>,
    lowers: Seq<Seq<char>>,
    n: int,
    i: int,
    check_exact: bool,
    check_case: bool,
    check_functional: bool,
    check_similar: bool,
    x: DuplicateView,
)
    requires
        0 <= i < n,
        row_dups(es, lowers, i, check_exact, check_case, check_functional, check_similar).contains(x),
    ensures
        all_dups(es, lowers, n, check_exact, check_case, check_functional, check_similar).contains(x),
    decreases n,
{
    let prev = all_dups(es, lowers, n - 1, check_exact, check_case, check_functional, check_similar);
    let all = all_dups(es, lowers, n, check_exact, check_case, check_functional, check_similar);
    if i < n - 1 {
        lemma_all_dups_has_row(es, lowers, n - 1, i, check_exact, check_case, check_functional, check_similar, x);
        let k = choose|k: int| 0 <= k < prev.len() && prev[k] == x;
        assert(all[k] == x);
    } else {
        let row = row_dups(es, lowers, i, check_exact, check_case, check_functional, check_similar);
        let k = choose|k: int| 0 <= k < row.len() && row[k] == x;
        assert(all[prev.len() + k] == x);
    }
}

/// What the detector reports is true of the rows it names: each duplicate
/// pairs an earlier row with a later one; a functional duplicate is only
/// reported, with functional checks on, for two entries of the same file
/// with the same offset and the same cutoff in tenths of a millisecond
/// (so less than 0.2 ms apart, and less than 0.1 ms apart for values of
/// one sign) and different aliases; a similar duplicate only, with similar
/// checks on, for aliases one or two edits apart.
pub proof fn law_duplicates_sound(
    es: Seq<OtoEntryView>,
    lowers: Seq<Seq<char>>,
    n: int,
    check_exact: bool,
    check_case: bool,
    check_functional: bool,
    check_similar: bool,
)
    requires
        0 <= n <= es.len(),
    ensures
        forall|k: int|
            0 <= k < all_dups(es, lowers, n, check_exact, check_case, check_functional, check_similar).len()
                ==> {
                let d = #[trigger] all_dups(
                    es,
                    lowers,
                    n,
                    check_exact,
                    check_case,
                    check_functional,
                    check_similar,
                )[k];
                &&& 0 <= d.row1 < d.row2 < n
                &&& dup_is_sound(es, lowers, d, check_exact, check_case, check_functional, check_similar)
                &&& d.match_type == "functional"@ ==> {
                    &&& es[d.row1].filename == es[d.row2].filename
                    &&& -200 < es[d.row1].offset - es[d.row2].offset < 200
                    &&& -200 < es[d.row1].cutoff - es[d.row2].cutoff < 200
                }
            },
    decreases n,
{
    if n > 0 {
        law_duplicates_sound(es, lowers, n - 1, check_exact, check_case, check_functional, check_similar);
        let prev = all_dups(es, lowers, n - 1, check_exact, check_case, check_functional, check_similar);
        let row = row_dups(es, lowers, n - 1, check_exact, check_case, check_functional, check_similar);
        let all = all_dups(es, lowers, n, check_exact, check_case, check_functional, check_similar);
        assert forall|k: int| 0 <= k < all.len() implies {
            let d = #[trigger] all[k];
            &&& 0 <= d.row1 < d.row2 < n
            &&& dup_is_sound(es, lowers, d, check_exact, check_case, check_functional, check_similar)
            &&& d.match_type == "functional"@ ==> {
                &&& es[d.row1].filename == es[d.row2].filename
                &&& -200 < es[d.row1].offset - es[d.row2].offset < 200
                &&& -200 < es[d.row1].cutoff - es[d.row2].cutoff < 200
            }
        } by {
            if k < prev.len() {
                assert(all[k] == prev[k]);
            } else {
                assert(all[k] == row[k - prev.len()]);
                lemma_row_dups_sound(
                    es,
                    lowers,
                    n - 1,
                    check_exact,
                    check_case,
                    check_functional,
                    check_similar,
                    k - prev.len(),
                );
                let d = all[k];
                if d.match_type == "functional"@ {
                    lemma_tenths_close(es[d.row1].offset, es[d.row2].offset);
                    lemma_tenths_close(es[d.row1].cutoff, es[d.row2].cutoff);
                }
            }
        }
    }
}

/// What the detector must report: with similar checks on, every pair of
/// rows `j < i` whose aliases are one or two edits apart; with functional
/// checks on, row `i` paired with the first earlier row `f` that cuts the
/// same part of the same file, when their aliases differ; with exact checks
/// on, row `i` paired with the first earlier row of the same alias; with
/// case checks on and exact checks off, row `i` paired with the first
/// earlier row of the same lowercased alias, when the aliases differ.
pub proof fn law_duplicates_complete(
    es: Seq<OtoEntryView>,
    lowers: Seq<Seq<char>>,
    n: int,
    check_exact: bool,
    check_case: bool,
    check_functional: bool,
    check_similar: bool,
)
    requires
        0 <= n <= es.len(),
    ensures
        forall|j: int, i: int|
            #![trigger es[j], es[i]]
            0 <= j < i < n && check_similar && 0 < edit_distance(es[j].alias, es[i].alias) <= 2
                ==> all_dups(
                es,
                lowers,
                n,
                check_exact,
                check_case,
                check_functional,
                check_similar,
            ).contains(dup(j, i, es[j].alias, es[i].alias, "similar"@)),
        forall|f: int, i: int|
            0 <= f < i < n && check_functional && same_cut(#[trigger] es[f], #[trigger] es[i])
                && es[f].alias != es[i].alias && (forall|x: int|
                0 <= x < f ==> !same_cut(#[trigger] es[x], es[i])) ==> all_dups(
                es,
                lowers,
                n,
                check_exact,
                check_case,
                check_functional,
                check_similar,
            ).contains(dup(f, i, es[f].alias, es[i].alias, "functional"@)),
        forall|f: int, i: int|
            #![trigger es[f], es[i]]
            0 <= f < i < n && check_exact && es[f].alias == es[i].alias && (forall|x: int|
                0 <= x < f ==> (#[trigger] es[x]).alias != es[i].alias) ==> all_dups(
                es,
                lowers,
                n,
                check_exact,
                check_case,
                check_functional,
                check_similar,
            ).contains(dup(f, i, es[i].alias, es[i].alias, "exact"@)),
        forall|f: int, i: int|
            #![trigger es[f], es[i]]
            0 <= f < i < n && check_case && !check_exact && lowers[f] == lowers[i] && es[f].alias
                != es[i].alias && (forall|x: int| 0 <= x < f ==> #[trigger] lowers[x] != lowers[i])
                ==> all_dups(
                es,
                lowers,
                n,
                check_exact,
                check_case,
                check_functional,
                check_similar,
            ).contains(dup(f, i, es[f].alias, es[i].alias, "case"@)),
{
    assert forall|j: int, i: int|
        0 <= j < i < n && check_similar && 0 < edit_distance(es[j].alias, es[i].alias) <= 2 implies all_dups(
        es,
        lowers,
        n,
        check_exact,
        check_case,
        check_functional,
        check_similar,
    ).contains(dup(j, i, es[j].alias, es[i].alias, "similar"@)) by {
        let x = dup(j, i, es[j].alias, es[i].alias, "similar"@);
        lemma_similar_complete(es, i, i, j);
        let ex = exact_dups(es, i, check_exact);
        let ca = case_dups(es, lowers, i, check_case, check_exact);
        let fu = functional_dups(es, i, check_functional);
        let si = similar_dups(es, i, i);
        let row = row_dups(es, lowers, i, check_exact, check_case, check_functional, check_similar);
        assert(row == ex + ca + fu + si);
        let k = choose|k: int| 0 <= k < si.len() && si[k] == x;
        assert(row[ex.len() + ca.len() + fu.len() + k] == x);
        lemma_all_dups_has_row(es, lowers, n, i, check_exact, check_case, check_functional, check_similar, x);
    }
    assert forall|f: int, i: int|
        0 <= f < i < n && check_functional && same_cut(es[f], es[i]) && es[f].alias != es[i].alias
            && (forall|x: int| 0 <= x < f ==> !same_cut(#[trigger] es[x], es[i])) implies all_dups(
        es,
        lowers,
        n,
        check_exact,
        check_case,
        check_functional,
        check_similar,
    ).contains(dup(f, i, es[f].alias, es[i].alias, "functional"@)) by {
        let x = dup(f, i, es[f].alias, es[i].alias, "functional"@);
        let keys = cut_keys(es);
        assert forall|y: int| 0 <= y < f implies keys[y] != keys[i] by {
            assert(!same_cut(es[y], es[i]));
        }
        lemma_first_from_is(keys, i, 0, f);
        let ex = exact_dups(es, i, check_exact);
        let ca = case_dups(es, lowers, i, check_case, check_exact);
        let fu = functional_dups(es, i, check_functional);
        let si = if check_similar {
            similar_dups(es, i, i)
        } else {
            Seq::<DuplicateView>::empty()
        };
        let row = row_dups(es, lowers, i, check_exact, check_case, check_functional, check_similar);
        assert(row == ex + ca + fu + si);
        assert(fu[0] == x);
        assert(row[(ex.len() + ca.len()) as int] == x);
        lemma_all_dups_has_row(es, lowers, n, i, check_exact, check_case, check_functional, check_similar, x);
    }
    assert forall|f: int, i: int|
        #![trigger es[f], es[i]]
        0 <= f < i < n && check_exact && es[f].alias == es[i].alias && (forall|x: int|
            0 <= x < f ==> (#[trigger] es[x]).alias != es[i].alias) implies all_dups(
        es,
        lowers,
        n,
        check_exact,
        check_case,
        check_functional,
        check_similar,
    ).contains(dup(f, i, es[i].alias, es[i].alias, "exact"@)) by {
        let x = dup(f, i, es[i].alias, es[i].alias, "exact"@);
        let keys = alias_keys(es);
        assert forall|y: int| 0 <= y < f implies keys[y] != keys[i] by {
            assert(es[y].alias != es[i].alias);
        }
        lemma_first_from_is(keys, i, 0, f);
        let ex = exact_dups(es, i, check_exact);
        let ca = case_dups(es, lowers, i, check_case, check_exact);
        let fu = functional_dups(es, i, check_functional);
        let si = if check_similar {
            similar_dups(es, i, i)
        } else {
            Seq::<DuplicateView>::empty()
        };
        let row = row_dups(es, lowers, i, check_exact, check_case, check_functional, check_similar);
        assert(row == ex + ca + fu + si);
        assert(row[0] == x);
        lemma_all_dups_has_row(es, lowers, n, i, check_exact, check_case, check_functional, check_similar, x);
    }
    assert forall|f: int, i: int|
        #![trigger es[f], es[i]]
        0 <= f < i < n && check_case && !check_exact && lowers[f] == lowers[i] && es[f].alias
            != es[i].alias && (forall|x: int| 0 <= x < f ==> #[trigger] lowers[x] != lowers[i])
            implies all_dups(
        es,
        lowers,
        n,
        check_exact,
        check_case,
        check_functional,
        check_similar,
    ).contains(dup(f, i, es[f].alias, es[i].alias, "case"@)) by {
        let x = dup(f, i, es[f].alias, es[i].alias, "case"@);
        lemma_first_from_is(lowers, i, 0, f);
        let ex = exact_dups(es, i, check_exact);
        let ca = case_dups(es, lowers, i, check_case, check_exact);
        let fu = functional_dups(es, i, check_functional);
        let si = if check_similar {
            similar_dups(es, i, i)
        } else {
            Seq::<DuplicateView>::empty()
        };
        let row = row_dups(es, lowers, i, check_exact, check_case, check_functional, check_similar);
        assert(row == ex + ca + fu + si);
        assert(row[0] == x);
        lemma_all_dups_has_row(es, lowers, n, i, check_exact, check_case, check_functional, check_similar, x);
    }
}

pub open spec fn string_views(v: Seq<String>) -> Seq<Seq<char>> {
    v.map_values(|s: String| s@)
}

/// `first_match` over string keys, by a scan of the earlier rows. A map
/// from text keys to their first row would give the same answer, but vstd
/// specifies `HashMap` lookups only for keys whose hashing it models, which
/// `String` keys are not, so the scan is what can be proved.
fn first_equal(keys: &Vec<String>, i: usize) -> (r: usize)
    requires
        i < keys@.len(),
    ensures
        r == first_match(string_views(keys@), i as int),
        r <= i,
{
    let ghost ks = string_views(keys@);
    let mut j: usize = 0;
    while j < i
        invariant
            i < keys@.len(),
            j <= i,
            ks == string_views(keys@),
            first_match(ks, i as int) == first_from(ks, i as int, j as int),
        decreases i - j,
    {
        if keys[j] == keys[i] {
            return j;
        }
        j = j + 1;
    }
    i
}

/// Key of the cut an entry makes: file, offset and cutoff in tenths.
struct CutKey {
    file: String,
    offset: i64,
    cutoff: i64,
}

spec fn cut_key_views(v: Seq<CutKey>) -> Seq<(Seq<char>, int, int)> {
    v.map_values(|k: CutKey| (k.file@, k.offset as int, k.cutoff as int))
}

/// `first_match` over cut keys.
fn first_equal_cut(keys: &Vec<CutKey>, i: usize) -> (r: usize)
    requires
        i < keys@.len(),
    ensures
        r == first_match(cut_key_views(keys@), i as int),
        r <= i,
{
    let ghost ks = cut_key_views(keys@);
    let mut j: usize = 0;
    while j < i
        invariant
            i < keys@.len(),
            j <= i,
            ks == cut_key_views(keys@),
            first_match(ks, i as int) == first_from(ks, i as int, j as int),
        decreases i - j,
    {
        if keys[j].file == keys[i].file && keys[j].offset == keys[i].offset && keys[j].cutoff
            == keys[i].cutoff {
            return j;
        }
        j = j + 1;
    }
    i
}

/// A value in tenths of a millisecond, truncated toward zero.
fn tenths_of(v: i64) -> (r: i64)
    ensures
        r == tenths(v as int),
{
    if v >= 0 {
        v / 100
    } else {
        let m: i128 = -(v as i128);
        -((m / 100) as i64)
    }
}

fn new_dup(row1: usize, row2: usize, alias1: &String, alias2: &String, kind: &str) -> (r:
    Duplicate)
    ensures
        r@ == dup(row1 as int, row2 as int, alias1@, alias2@, kind@),
{
    Duplicate {
        row1,
        row2,
        alias1: alias1.clone(),
        alias2: alias2.clone(),
        match_type: kind.to_owned(),
    }
}

/// Appends `similar_dups(es, i, i)` to `out`.
fn push_similar(out: &mut Vec<Duplicate>, entries: &[OtoEntry], i: usize)
    requires
        i < entries@.len(),
    ensures
        duplicate_views(final(out)@) == duplicate_views(old(out)@) + similar_dups(
            entry_views(entries@),
            i as int,
            i as int,
        ),
{
    let ghost es = entry_views(entries@);
    let ghost start = duplicate_views(out@);
    let mut j: usize = 0;
    while j < i
        invariant
            i < entries@.len(),
            j <= i,
            es == entry_views(entries@),
            duplicate_views(out@) == start + similar_dups(es, i as int, j as int),
        decreases i - j,
    {
        let d = levenshtein_distance(entries[i].alias.as_str(), entries[j].alias.as_str());
        let ghost before = duplicate_views(out@);
        if d > 0 && d <= 2 {
            out.push(new_dup(j, i, &entries[j].alias, &entries[i].alias, "similar"));
        }
        proof {
            assert(es[i as int] == entries@[i as int]@);
            assert(es[j as int] == entries@[j as int]@);
            if d > 0 && d <= 2 {
                assert(duplicate_views(out@) =~= before.push(out@.last()@));
            } else {
                assert(duplicate_views(out@) =~= before);
            }
            assert(similar_dups(es, i as int, j + 1) == similar_dups(es, i as int, j as int) + if 0
                < d <= 2 {
                seq![dup(j as int, i as int, es[j as int].alias, es[i as int].alias, "similar"@)]
            } else {
                Seq::<DuplicateView>::empty()
            });
            assert(duplicate_views(out@) =~= start + similar_dups(es, i as int, j + 1));
        }
        j = j + 1;
    }
}

/// The duplicate detector, given the lowercased alias of each entry; see
/// `detect_duplicates`.
#[verifier::rlimit(40)]
pub fn detect_duplicates_with_lowercase(
    entries: &[OtoEntry],
    lowercased: &Vec<String>,
    check_exact: bool,
    check_case: bool,
    check_functional: bool,
    check_similar: bool,
) -> (res: Vec<Duplicate>)
    requires
        lowercased@.len() == entries@.len(),
    ensures
        duplicate_views(res@) == all_dups(
            entry_views(entries@),
            string_views(lowercased@),
            entries@.len() as int,
            check_exact,
            check_case,
            check_functional,
            check_similar,
        ),
{
    let ghost es = entry_views(entries@);
    let ghost lows = string_views(lowercased@);
    let n = entries.len();
    let mut aliases: Vec<String> = Vec::new();
    let mut cuts: Vec<CutKey> = Vec::new();
    let mut k: usize = 0;
    while k < n
        invariant
            n == entries@.len(),
            k <= n,
            es == entry_views(entries@),
            aliases@.len() == k,
            cuts@.len() == k,
            forall|j: int| 0 <= j < k ==> #[trigger] aliases@[j]@ == es[j].alias,
            forall|j: int|
                0 <= j < k ==> (#[trigger] cuts@[j]).file@ == es[j].filename && cuts@[j].offset
                    == tenths(es[j].offset) && cuts@[j].cutoff == tenths(es[j].cutoff),
        decreases n - k,
    {
        let e = &entries[k];
        aliases.push(e.alias.clone());
        cuts.push(
            CutKey {
                file: e.filename.clone(),
                offset: tenths_of(e.offset),
                cutoff: tenths_of(e.cutoff),
            },
        );
        assert(es[k as int] == entries@[k as int]@);
        k = k + 1;
    }
    assert(string_views(aliases@) =~= alias_keys(es));
    assert(cut_key_views(cuts@) =~= cut_keys(es));
    let mut out: Vec<Duplicate> = Vec::new();
    let mut i: usize = 0;
    while i < n
        invariant
            n == entries@.len() == lowercased@.len(),
            i <= n,
            es == entry_views(entries@),
            lows == string_views(lowercased@),
            aliases@.len() == n,
            cuts@.len() == n,
            string_views(aliases@) == alias_keys(es),
            cut_key_views(cuts@) == cut_keys(es),
            duplicate_views(out@) == all_dups(
                es,
                lows,
                i as int,
                check_exact,
                check_case,
                check_functional,
                check_similar,
            ),
        decreases n - i,
    {
        let ghost before = duplicate_views(out@);
        let ghost ei = es[i as int];
        assert(ei == entries@[i as int]@);
        if check_exact {
            let f = first_equal(&aliases, i);
            if f < i {
                out.push(new_dup(f, i, &entries[i].alias, &entries[i].alias, "exact"));
            }
        }
        let ghost after_exact = duplicate_views(out@);
        assert(after_exact =~= before + exact_dups(es, i as int, check_exact));
        if check_case && !check_exact {
            let f = first_equal(lowercased, i);
            if f < i && entries[f].alias != entries[i].alias {
                assert(es[f as int] == entries@[f as int]@);
                out.push(new_dup(f, i, &entries[f].alias, &entries[i].alias, "case"));
            }
        }
        let ghost after_case = duplicate_views(out@);
        proof {
            if check_case && !check_exact {
                let f = first_match(lows, i as int);
                assert(es[f] == entries@[f]@);
            }
        }
        assert(after_case =~= after_exact + case_dups(es, lows, i as int, check_case, check_exact));
        if check_functional {
            let f = first_equal_cut(&cuts, i);
            if f < i && entries[f].alias != entries[i].alias {
                assert(es[f as int] == entries@[f as int]@);
                out.push(new_dup(f, i, &entries[f].alias, &entries[i].alias, "functional"));
            }
        }
        let ghost after_functional = duplicate_views(out@);
        proof {
            if check_functional {
                let f = first_match(cut_keys(es), i as int);
                assert(es[f] == entries@[f]@);
            }
        }
        assert(after_functional =~= after_case + functional_dups(es, i as int, check_functional));
        if check_similar {
            push_similar(&mut out, entries, i);
        }
        assert(duplicate_views(out@) =~= before + row_dups(
            es,
            lows,
            i as int,
            check_exact,
            check_case,
            check_functional,
            check_similar,
        ));
        i = i + 1;
    }
    out
}

/// Find duplicate entries: the same alias twice (`check_exact`), aliases
/// equal once lowercased (`check_case`, when `check_exact` is off), the
/// same file cut at the same offset and cutoff under another alias
/// (`check_functional`), and aliases one or two edits apart
/// (`check_similar`). Each duplicate names the earlier row first.
pub fn detect_duplicates(
    entries: &[OtoEntry],
    check_exact: bool,
    check_case: bool,
    check_functional: bool,
    check_similar: bool,
) -> (res: Vec<Duplicate>)
    ensures
        duplicate_views(res@) == all_dups(
            entry_views(entries@),
            lowercase_keys(entry_views(entries@)),
            entries@.len() as int,
            check_exact,
            check_case,
            check_functional,
            check_similar,
        ),
{
    let ghost es = entry_views(entries@);
    let mut lowers: Vec<String> = Vec::new();
    let mut k: usize = 0;
    while k < entries.len()
        invariant
            k <= entries@.len(),
            es == entry_views(entries@),
            lowers@.len() == k,
            forall|j: int| 0 <= j < k ==> #[trigger] lowers@[j]@ == lowercase(es[j].alias),
        decreases entries@.len() - k,
    {
        lowers.push(to_lowercase(entries[k].alias.as_str()));
        assert(es[k as int] == entries@[k as int]@);
        k = k + 1;
    }
    assert(string_views(lowers@) =~= lowercase_keys(es));
    detect_duplicates_with_lowercase(entries, &lowers, check_exact, check_case, check_functional, check_similar)
}

} // verus!
