//! The alias sorter: a stable sort of the entries by the chosen mode,
//! optionally with completed entries first and grouped by file.
use vstd::prelude::*;
use vstd::utf8::encode_utf8;
use crate::oto::{entry_views, OtoEntry, OtoEntryView};
use crate::text::{
    chars_of, compare_chars, is_whitespace, lemma_lex_order, lex_order, lowercase, to_lowercase,
};

verus! {

#[derive(Clone, Copy, Debug, PartialEq, Eq, Structural)]
pub enum SortMode {
    Alpha,
    AlphaRev,
    FileName,
    Type,
    Length,
    Offset,
}

#[derive(Clone, Copy, Debug, PartialEq, Eq, Structural)]
pub struct SortSettings {
    pub mode: SortMode,
    pub group_by_file: bool,
    pub completed_first: bool,
}

impl Default for SortSettings {
    fn default() -> (r: Self)
        ensures
            r == (SortSettings { mode: SortMode::Alpha, group_by_file: false, completed_first: false }),
    {
        SortSettings { mode: SortMode::Alpha, group_by_file: false, completed_first: false }
    }
}

// ---------------------------------------------------------------------
// Phoneme type
// ---------------------------------------------------------------------

/// A vowel, then whitespace, then anything: "a ka", "a あ".
pub open spec fn vcv_pattern() -> Seq<char> {
    "^[aiueoあいうえおアイウエオ]\\s+.+"@
}

/// A vowel, then whitespace, then consonants only: "a k".
pub open spec fn vc_pattern() -> Seq<char> {
    "^[aiueoあいうえおアイウエオ]\\s+[^aiueoあいうえおアイウエオ\\s]+$"@
}

/// The characters of the class `[aiueoあいうえおアイウエオ]`.
pub open spec fn is_vowel(c: char) -> bool {
    ||| c == 'a' || c == 'i' || c == 'u' || c == 'e' || c == 'o'
    ||| c == 'あ' || c == 'い' || c == 'う' || c == 'え' || c == 'お'
    ||| c == 'ア' || c == 'イ' || c == 'ウ' || c == 'エ' || c == 'オ'
}

/// Whether `h[lo..hi]` is all whitespace (`\s`, Unicode `White_Space`).
pub open spec fn blank_run(h: Seq<char>, lo: int, hi: int) -> bool {
    forall|i: int| lo <= i < hi ==> is_whitespace(#[trigger] h[i])
}

/// Whether `h[lo..hi]` holds neither vowels nor whitespace.
pub open spec fn consonant_run(h: Seq<char>, lo: int, hi: int) -> bool {
    forall|i: int| lo <= i < hi ==> !is_vowel(#[trigger] h[i]) && !is_whitespace(h[i])
}

/// The texts `vcv_pattern` finds a match in: a vowel first, then at least
/// one whitespace character, then a character other than a newline (what
/// `.` matches).
pub open spec fn vcv_shape(h: Seq<char>) -> bool {
    &&& h.len() > 0
    &&& is_vowel(h[0])
    &&& exists|j: int| 2 <= j < h.len() && h[j] != '\n' && #[trigger] blank_run(h, 1, j)
}

/// The texts `vc_pattern` matches: a vowel first, then at least one
/// whitespace character, then up to the end at least one character that is
/// neither a vowel nor whitespace.
pub open spec fn vc_shape(h: Seq<char>) -> bool {
    &&& h.len() > 0
    &&& is_vowel(h[0])
    &&& exists|j: int|
        2 <= j < h.len() && #[trigger] blank_run(h, 1, j) && consonant_run(h, j, h.len() as int)
}

/// Compiles `pattern` with `regex::Regex::new` and runs `Regex::is_match`
/// on `haystack`. For the two phoneme patterns, which compile, the result
/// is whether the text has the shape the pattern describes: `^` and `$`
/// anchor at the ends of the text, `\s` is Unicode `White_Space`, and `.`
/// is any character but a newline.
#[verifier::external_body]
fn regex_is_match(pattern: &str, haystack: &str) -> (res: bool)
    requires
        pattern@ == vcv_pattern() || pattern@ == vc_pattern(),
    ensures
        pattern@ == vcv_pattern() ==> res == vcv_shape(haystack@),
        pattern@ == vc_pattern() ==> res == vc_shape(haystack@),
{
    match regex::Regex::new(pattern) {
        Ok(re) => re.is_match(haystack),
        Err(_) => false,
    }
}

/// Phoneme type of a lowercased alias, given whether the VCV and VC
/// patterns matched it: 1 for VCV, 2 for VC, 4 for a start-of-phrase or
/// breath alias (`-` or `[` first), 0 for CV.
pub open spec fn phoneme_type_of(lower: Seq<char>, vcv: bool, vc: bool) -> int {
    if vcv {
        1
    } else if vc {
        2
    } else if lower.len() > 0 && (lower[0] == '-' || lower[0] == '[') {
        4
    } else {
        0
    }
}

/// Phoneme type of an alias.
pub open spec fn phoneme_type(alias: Seq<char>) -> int {
    let lower = lowercase(alias);
    phoneme_type_of(lower, vcv_shape(lower), vc_shape(lower))
}

/// `phoneme_type_of`, for an alias already lowercased and matched.
pub fn phoneme_type_from(lower: &str, vcv: bool, vc: bool) -> (r: i32)
    ensures
        r == phoneme_type_of(lower@, vcv, vc),
{
    if vcv {
        return 1;
    }
    if vc {
        return 2;
    }
    let chars = chars_of(lower);
    if chars.len() > 0 && (chars[0] == '-' || chars[0] == '[') {
        4
    } else {
        0
    }
}

/// Simplistic UTAU phoneme type detection (see `phoneme_type_of`).
pub fn detect_phoneme_type(alias: &str) -> (r: i32)
    ensures
        r == phoneme_type(alias@),
{
    let lower = to_lowercase(alias);
    let vcv = regex_is_match("^[aiueoあいうえおアイウエオ]\\s+.+", lower.as_str());
    let vc = regex_is_match("^[aiueoあいうえおアイウエオ]\\s+[^aiueoあいうえおアイウエオ\\s]+$", lower.as_str());
    phoneme_type_from(lower.as_str(), vcv, vc)
}

// ---------------------------------------------------------------------
// Sort keys and their order
// ---------------------------------------------------------------------

/// What the sorter compares of an entry.
pub struct SortKeyView {
    pub done: bool,
    pub file: Seq<char>,
    pub alias: Seq<char>,
    pub kind: int,
    pub len: int,
    pub offset: int,
}

/// The sort key of an entry; the phoneme type is only looked at when
/// sorting by type.
pub open spec fn sort_key(s: SortSettings, e: OtoEntryView) -> SortKeyView {
    SortKeyView {
        done: e.done,
        file: lowercase(e.filename),
        alias: lowercase(e.alias),
        kind: if s.mode == SortMode::Type {
            phoneme_type(e.alias)
        } else {
            0
        },
        len: (encode_utf8(e.alias).len() as usize) as int,
        offset: e.offset,
    }
}

pub open spec fn sort_keys(s: SortSettings, es: Seq<OtoEntryView>) -> Seq<SortKeyView> {
    es.map_values(|e: OtoEntryView| sort_key(s, e))
}

/// -1, 0 or 1 as `x` is below, equal to or above `y`.
pub open spec fn int_order(x: int, y: int) -> int {
    if x < y {
        -1
    } else if x > y {
        1
    } else {
        0
    }
}

/// Order of two keys under the sort mode alone.
pub open spec fn mode_order(m: SortMode, a: SortKeyView, b: SortKeyView) -> int {
    match m {
        SortMode::Alpha => lex_order(a.alias, b.alias),
        SortMode::AlphaRev => lex_order(b.alias, a.alias),
        SortMode::FileName => lex_order(a.file, b.file),
        SortMode::Type => if a.kind != b.kind {
            int_order(a.kind, b.kind)
        } else {
            lex_order(a.alias, b.alias)
        },
        SortMode::Length => if a.len != b.len {
            int_order(a.len, b.len)
        } else {
            lex_order(a.alias, b.alias)
        },
        SortMode::Offset => int_order(a.offset, b.offset),
    }
}

/// Order of two keys: completed entries first when asked, then by
/// lowercased file when grouping, then by the mode.
pub open spec fn key_order(s: SortSettings, a: SortKeyView, b: SortKeyView) -> int {
    if s.completed_first && a.done != b.done {
        if a.done {
            -1
        } else {
            1
        }
    } else if s.group_by_file && lex_order(a.file, b.file) != 0 {
        lex_order(a.file, b.file)
    } else {
        mode_order(s.mode, a, b)
    }
}

proof fn lemma_lex_le(a: Seq<char>, b: Seq<char>, c: Seq<char>)
    ensures
        lex_order(a, b) == -lex_order(b, a),
        -1 <= lex_order(a, b) <= 1,
        lex_order(a, b) <= 0 && lex_order(b, c) <= 0 ==> lex_order(a, c) <= 0,
        lex_order(a, b) == 0 ==> lex_order(a, c) == lex_order(b, c),
{
    lemma_lex_order(a, b, c);
    lemma_lex_order(b, c, a);
    lemma_lex_order(a, c, b);
    lemma_lex_order(c, a, b);
}

proof fn lemma_mode_order(m: SortMode, a: SortKeyView, b: SortKeyView, c: SortKeyView)
    ensures
        mode_order(m, a, b) == -mode_order(m, b, a),
        -1 <= mode_order(m, a, b) <= 1,
        mode_order(m, a, b) <= 0 && mode_order(m, b, c) <= 0 ==> mode_order(m, a, c) <= 0,
{
    lemma_lex_le(a.alias, b.alias, c.alias);
    lemma_lex_le(c.alias, b.alias, a.alias);
    lemma_lex_le(b.alias, a.alias, c.alias);
    lemma_lex_le(a.file, b.file, c.file);
    lemma_lex_le(b.file, c.file, a.file);
}

/// The key order is a total preorder.
pub proof fn lemma_key_order(s: SortSettings, a: SortKeyView, b: SortKeyView, c: SortKeyView)
    ensures
        key_order(s, a, b) == -key_order(s, b, a),
        -1 <= key_order(s, a, b) <= 1,
        key_order(s, a, b) <= 0 && key_order(s, b, c) <= 0 ==> key_order(s, a, c) <= 0,
{
    lemma_lex_le(a.file, b.file, c.file);
    lemma_lex_le(b.file, c.file, a.file);
    lemma_lex_le(a.file, c.file, b.file);
    lemma_lex_le(b.file, a.file, c.file);
    lemma_mode_order(s.mode, a, b, c);
}

/// Entry `i` comes before entry `j` in the sorted order: its key is
/// smaller, or the keys tie and it came first.
pub open spec fn precedes(s: SortSettings, keys: Seq<SortKeyView>, i: int, j: int) -> bool {
    key_order(s, keys[i], keys[j]) < 0 || (key_order(s, keys[i], keys[j]) == 0 && i < j)
}

pub proof fn lemma_precedes_transitive(
    s: SortSettings,
    keys: Seq<SortKeyView>,
    i: int,
    j: int,
    k: int,
)
    requires
        precedes(s, keys, i, j),
        precedes(s, keys, j, k),
    ensures
        precedes(s, keys, i, k),
{
    lemma_key_order(s, keys[i], keys[j], keys[k]);
    lemma_key_order(s, keys[k], keys[i], keys[j]);
    lemma_key_order(s, keys[j], keys[k], keys[i]);
    lemma_key_order(s, keys[i], keys[k], keys[j]);
}

/// `p` lists the indices `0..n` once each, in sorted order.
pub open spec fn is_sorted_permutation(s: SortSettings, keys: Seq<SortKeyView>, p: Seq<int>) -> bool {
    &&& p.len() == keys.len()
    &&& forall|a: int| 0 <= a < p.len() ==> 0 <= #[trigger] p[a] < keys.len()
    &&& forall|a: int, b: int| 0 <= a < p.len() && 0 <= b < p.len() && a != b ==> p[a] != p[b]
    &&& forall|a: int, b: int| 0 <= a < b < p.len() ==> precedes(s, keys, p[a], p[b])
}

/// A list of `n` distinct indices below `n` holds every index below `n`.
pub proof fn lemma_permutation_onto(s: SortSettings, keys: Seq<SortKeyView>, p: Seq<int>, x: int)
    requires
        is_sorted_permutation(s, keys, p),
        0 <= x < keys.len(),
    ensures
        exists|a: int| 0 <= a < p.len() && p[a] == x,
{
    broadcast use vstd::set::group_set_axioms;
    broadcast use vstd::seq_lib::seq_to_set_is_finite;

    let n = keys.len() as int;
    assert(p.no_duplicates());
    p.unique_seq_to_set();
    vstd::set_lib::lemma_int_range(0, n);
    let range = vstd::set_lib::set_int_range(0, n);
    assert forall|y: int| p.to_set().contains(y) implies range.contains(y) by {
        let a = choose|a: int| 0 <= a < p.len() && p[a] == y;
    }
    vstd::set_lib::lemma_subset_equality(p.to_set(), range);
    assert(range.contains(x));
    assert(p.to_set().contains(x));
}

/// No index precedes itself, and two indices never precede each other.
pub proof fn lemma_precedes_asymmetric(s: SortSettings, keys: Seq<SortKeyView>, i: int, j: int)
    ensures
        !(precedes(s, keys, i, j) && precedes(s, keys, j, i)),
{
    lemma_key_order(s, keys[i], keys[j], keys[i]);
}

proof fn lemma_sorted_prefix_unique(
    s: SortSettings,
    keys: Seq<SortKeyView>,
    p: Seq<int>,
    q: Seq<int>,
    a: int,
)
    requires
        is_sorted_permutation(s, keys, p),
        is_sorted_permutation(s, keys, q),
        0 <= a <= p.len(),
    ensures
        forall|c: int| 0 <= c < a ==> p[c] == q[c],
    decreases a,
{
    if a > 0 {
        lemma_sorted_prefix_unique(s, keys, p, q, a - 1);
        let i = a - 1;
        let x = p[i];
        let y = q[i];
        if x != y {
            lemma_permutation_onto(s, keys, q, x);
            lemma_permutation_onto(s, keys, p, y);
            let b = choose|b: int| 0 <= b < q.len() && q[b] == x;
            let c = choose|c: int| 0 <= c < p.len() && p[c] == y;
            if b < i {
                assert(p[b] == q[b]);
            }
            if c < i {
                assert(p[c] == q[c]);
            }
            assert(precedes(s, keys, q[i], q[b]));
            assert(precedes(s, keys, p[i], p[c]));
            lemma_precedes_asymmetric(s, keys, x, y);
        }
    }
}

/// The sorted order is determined: two sorted permutations of the same
/// keys are the same.
pub proof fn law_sorted_order_unique(
    s: SortSettings,
    keys: Seq<SortKeyView>,
    p: Seq<int>,
    q: Seq<int>,
)
    requires
        is_sorted_permutation(s, keys, p),
        is_sorted_permutation(s, keys, q),
    ensures
        p == q,
{
    lemma_sorted_prefix_unique(s, keys, p, q, p.len() as int);
    assert(p =~= q);
}

/// Sorting entries that were just sorted with the same settings leaves
/// them in place: the only sorted order of the sorted entries is the
/// identity.
pub proof fn law_sort_idempotent(s: SortSettings, es: Seq<OtoEntryView>, p: Seq<int>, q: Seq<int>)
    requires
        is_sorted_permutation(s, sort_keys(s, es), p),
        is_sorted_permutation(
            s,
            sort_keys(s, Seq::new(es.len(), |k: int| es[p[k]])),
            q,
        ),
    ensures
        forall|k: int| 0 <= k < q.len() ==> q[k] == k,
{
    let keys = sort_keys(s, es);
    let sorted = Seq::new(es.len(), |k: int| es[p[k]]);
    let keys2 = sort_keys(s, sorted);
    let id = Seq::new(es.len(), |k: int| k);
    assert forall|a: int, b: int| 0 <= a < b < id.len() implies precedes(s, keys2, id[a], id[b]) by {
        assert(precedes(s, keys, p[a], p[b]));
        assert(keys2[a] == keys[p[a]]);
        assert(keys2[b] == keys[p[b]]);
        lemma_key_order(s, keys[p[a]], keys[p[b]], keys[p[b]]);
    }
    assert(is_sorted_permutation(s, keys2, id));
    law_sorted_order_unique(s, keys2, q, id);
}

/// What the sorted order puts first: with `completed_first`, every done
/// entry comes before every entry that is not done, grouped by file or
/// not; when grouping by file, entries of the same completion state (or
/// all entries, without `completed_first`) come in order of their
/// lowercased file names; with neither option, sorting by offset puts
/// offsets in ascending order, keeping entries of equal offset in the
/// order they came in.
pub proof fn law_sorted_order_meaning(s: SortSettings, es: Seq<OtoEntryView>, p: Seq<int>)
    requires
        is_sorted_permutation(s, sort_keys(s, es), p),
    ensures
        forall|a: int, b: int|
            #![trigger p[a], p[b]]
            0 <= a < b < p.len() && s.completed_first ==> es[p[a]].done || !es[p[b]].done,
        forall|a: int, b: int|
            #![trigger p[a], p[b]]
            0 <= a < b < p.len() && s.group_by_file && (!s.completed_first || es[p[a]].done
                == es[p[b]].done) ==> lex_order(
                lowercase(es[p[a]].filename),
                lowercase(es[p[b]].filename),
            ) <= 0,
        forall|a: int, b: int|
            #![trigger p[a], p[b]]
            0 <= a < b < p.len() && !s.completed_first && !s.group_by_file && s.mode
                == SortMode::Offset ==> es[p[a]].offset < es[p[b]].offset || (es[p[a]].offset
                == es[p[b]].offset && p[a] < p[b]),
{
    let keys = sort_keys(s, es);
    assert forall|a: int, b: int|
        #![trigger p[a], p[b]]
        0 <= a < b < p.len() implies {
        &&& s.completed_first ==> es[p[a]].done || !es[p[b]].done
        &&& s.group_by_file && (!s.completed_first || es[p[a]].done == es[p[b]].done) ==> lex_order(
            lowercase(es[p[a]].filename),
            lowercase(es[p[b]].filename),
        ) <= 0
        &&& !s.completed_first && !s.group_by_file && s.mode == SortMode::Offset ==> es[p[a]].offset
            < es[p[b]].offset || (es[p[a]].offset == es[p[b]].offset && p[a] < p[b])
    } by {
        let x = p[a];
        let y = p[b];
        assert(precedes(s, keys, x, y));
        assert(keys[x] == sort_key(s, es[x]));
        assert(keys[y] == sort_key(s, es[y]));
        lemma_key_order(s, keys[x], keys[y], keys[y]);
        lemma_lex_le(keys[x].file, keys[y].file, keys[y].file);
        lemma_lex_le(keys[x].alias, keys[y].alias, keys[y].alias);
    }
}

// ---------------------------------------------------------------------
// Sorting
// ---------------------------------------------------------------------

/// What the sorter compares of an entry, computed once per entry.
pub struct SortKey {
    pub done: bool,
    /// Lowercased file name.
    pub file: Vec<char>,
    /// Lowercased alias.
    pub alias: Vec<char>,
    /// Phoneme type (only looked at when sorting by type).
    pub kind: i32,
    /// Length of the alias in UTF-8 bytes.
    pub len: usize,
    pub offset: i64,
}

pub open spec fn key_view(k: SortKey) -> SortKeyView {
    SortKeyView {
        done: k.done,
        file: k.file@,
        alias: k.alias@,
        kind: k.kind as int,
        len: k.len as int,
        offset: k.offset as int,
    }
}

pub open spec fn key_views(v: Seq<SortKey>) -> Seq<SortKeyView> {
    v.map_values(|k: SortKey| key_view(k))
}

fn key_of(s: &SortSettings, e: &OtoEntry) -> (k: SortKey)
    ensures
        key_view(k) == sort_key(*s, e@),
{
    let file_lower = to_lowercase(e.filename.as_str());
    let alias_lower = to_lowercase(e.alias.as_str());
    let kind = if s.mode == SortMode::Type {
        detect_phoneme_type(e.alias.as_str())
    } else {
        0
    };
    SortKey {
        done: e.done,
        file: chars_of(file_lower.as_str()),
        alias: chars_of(alias_lower.as_str()),
        kind,
        len: e.alias.as_str().len(),
        offset: e.offset,
    }
}

fn int_order_of(x: i64, y: i64) -> (r: i8)
    ensures
        r == int_order(x as int, y as int),
{
    if x < y {
        -1
    } else if x > y {
        1
    } else {
        0
    }
}

fn compare_keys(s: &SortSettings, a: &SortKey, b: &SortKey) -> (r: i8)
    ensures
        r == key_order(*s, key_view(*a), key_view(*b)),
{
    if s.completed_first && a.done != b.done {
        return if a.done {
            -1
        } else {
            1
        };
    }
    if s.group_by_file {
        let c = compare_chars(&a.file, &b.file);
        if c != 0 {
            return c;
        }
    }
    match s.mode {
        SortMode::Alpha => compare_chars(&a.alias, &b.alias),
        SortMode::AlphaRev => compare_chars(&b.alias, &a.alias),
        SortMode::FileName => compare_chars(&a.file, &b.file),
        SortMode::Type => if a.kind != b.kind {
            int_order_of(a.kind as i64, b.kind as i64)
        } else {
            compare_chars(&a.alias, &b.alias)
        },
        SortMode::Length => if a.len < b.len {
            -1
        } else if a.len > b.len {
            1
        } else {
            compare_chars(&a.alias, &b.alias)
        },
        SortMode::Offset => int_order_of(a.offset, b.offset),
    }
}

pub open spec fn index_views(v: Seq<usize>) -> Seq<int> {
    v.map_values(|x: usize| x as int)
}

/// The indices of `entries` in sorted order.
pub fn sorted_order(entries: &[OtoEntry], settings: &SortSettings) -> (order: Vec<usize>)
    ensures
        is_sorted_permutation(*settings, sort_keys(*settings, entry_views(entries@)), index_views(order@)),
{
    let ghost keys = sort_keys(*settings, entry_views(entries@));
    let n = entries.len();
    let mut ks: Vec<SortKey> = Vec::new();
    let mut k: usize = 0;
    while k < n
        invariant
            n == entries@.len(),
            k <= n,
            keys == sort_keys(*settings, entry_views(entries@)),
            ks@.len() == k,
            forall|j: int| 0 <= j < k ==> key_view(#[trigger] ks@[j]) == keys[j],
        decreases n - k,
    {
        ks.push(key_of(settings, &entries[k]));
        k = k + 1;
    }
    assert(key_views(ks@) =~= keys);
    sorted_order_by_keys(&ks, settings)
}

/// The indices `0..keys.len()` in sorted order: by `key_order`, ties kept
/// in the order they came in.
pub fn sorted_order_by_keys(ks: &Vec<SortKey>, settings: &SortSettings) -> (order: Vec<usize>)
    ensures
        is_sorted_permutation(*settings, key_views(ks@), index_views(order@)),
{
    let ghost keys = key_views(ks@);
    let n = ks.len();
    let mut order: Vec<usize> = Vec::new();
    let mut i: usize = 0;
    while i < n
        invariant
            n == keys.len() == ks@.len(),
            keys == key_views(ks@),
            i <= n,
            forall|j: int| 0 <= j < n ==> key_view(#[trigger] ks@[j]) == keys[j],
            order@.len() == i,
            forall|a: int| 0 <= a < i ==> #[trigger] order@[a] < i,
            forall|a: int, b: int| 0 <= a < i && 0 <= b < i && a != b ==> order@[a] != order@[b],
            forall|a: int, b: int|
                0 <= a < b < i ==> precedes(*settings, keys, order@[a] as int, order@[b] as int),
        decreases n - i,
    {
        let mut p = i;
        while p > 0 && compare_keys(settings, &ks[order[p - 1]], &ks[i]) > 0
            invariant
                n == keys.len() == ks@.len(),
                i < n,
                p <= i,
                order@.len() == i,
                forall|j: int| 0 <= j < n ==> key_view(#[trigger] ks@[j]) == keys[j],
                forall|a: int| 0 <= a < i ==> #[trigger] order@[a] < i,
                forall|a: int|
                    p <= a < i ==> key_order(*settings, keys[#[trigger] order@[a] as int], keys[i as int]) > 0,
            decreases p,
        {
            p = p - 1;
        }
        let ghost old_order = order@;
        proof {
            if p > 0 {
                assert(key_order(*settings, keys[old_order[p - 1] as int], keys[i as int]) <= 0);
                assert(precedes(*settings, keys, old_order[p - 1] as int, i as int));
            }
            assert forall|a: int| p <= a < i implies precedes(
                *settings,
                keys,
                i as int,
                #[trigger] old_order[a] as int,
            ) by {
                lemma_key_order(*settings, keys[old_order[a] as int], keys[i as int], keys[i as int]);
            }
            assert forall|a: int| 0 <= a < p implies precedes(
                *settings,
                keys,
                #[trigger] old_order[a] as int,
                i as int,
            ) by {
                if a < p - 1 {
                    lemma_precedes_transitive(
                        *settings,
                        keys,
                        old_order[a] as int,
                        old_order[p - 1] as int,
                        i as int,
                    );
                }
            }
        }
        order.insert(p, i);
        proof {
            assert forall|a: int, b: int| 0 <= a < b < i + 1 implies precedes(
                *settings,
                keys,
                order@[a] as int,
                order@[b] as int,
            ) by {
                if b < p {
                    assert(order@[a] == old_order[a] && order@[b] == old_order[b]);
                } else if b == p {
                    assert(order@[a] == old_order[a]);
                } else if a < p {
                    assert(order@[a] == old_order[a] && order@[b] == old_order[b - 1]);
                } else if a == p {
                    assert(order@[b] == old_order[b - 1]);
                } else {
                    assert(order@[a] == old_order[a - 1] && order@[b] == old_order[b - 1]);
                }
            }
            assert forall|a: int| 0 <= a < i + 1 implies #[trigger] order@[a] < i + 1 by {
                if a < p {
                    assert(order@[a] == old_order[a]);
                } else if a > p {
                    assert(order@[a] == old_order[a - 1]);
                }
            }
            assert forall|a: int, b: int|
                0 <= a < i + 1 && 0 <= b < i + 1 && a != b implies order@[a] != order@[b] by {
                if a != p && b != p {
                    let oa = if a < p { a } else { a - 1 };
                    let ob = if b < p { b } else { b - 1 };
                    assert(order@[a] == old_order[oa]);
                    assert(order@[b] == old_order[ob]);
                } else if a == p {
                    let ob = if b < p { b } else { b - 1 };
                    assert(order@[b] == old_order[ob]);
                } else {
                    let oa = if a < p { a } else { a - 1 };
                    assert(order@[a] == old_order[oa]);
                }
            }
        }
        i = i + 1;
    }
    order
}

/// Sort the entries in place: stable, by the settings' mode, with
/// completed entries first and grouped by lowercased file name when asked.
pub fn sort_entries(entries: &mut Vec<OtoEntry>, settings: &SortSettings)
    ensures
        final(entries)@.len() == old(entries)@.len(),
        exists|p: Seq<int>|
            is_sorted_permutation(*settings, sort_keys(*settings, entry_views(old(entries)@)), p)
                && forall|k: int|
                0 <= k < p.len() ==> #[trigger] final(entries)@[k] == old(entries)@[p[k]],
{
    let order = sorted_order(entries.as_slice(), settings);
    let ghost p = index_views(order@);
    let mut sorted: Vec<OtoEntry> = Vec::new();
    let mut k: usize = 0;
    while k < order.len()
        invariant
            k <= order@.len(),
            p == index_views(order@),
            is_sorted_permutation(*settings, sort_keys(*settings, entry_views(entries@)), p),
            sorted@.len() == k,
            forall|j: int| 0 <= j < k ==> #[trigger] sorted@[j] == entries@[p[j]],
        decreases order@.len() - k,
    {
        assert(p[k as int] < entries@.len());
        sorted.push(entries[order[k]].clone());
        k = k + 1;
    }
    let ghost before = entries@;
    *entries = sorted;
    assert(forall|j: int| 0 <= j < p.len() ==> #[trigger] entries@[j] == before[p[j]]);
}

} // verus!
