//! Character-level helpers shared by the parsers and checks: searching,
//! splitting, trimming, decimal text and ordering of character sequences.
use vstd::prelude::*;

verus! {

// ---------------------------------------------------------------------
// Searching and splitting
// ---------------------------------------------------------------------

/// Index of the first occurrence of `c` in `s`, if any.
pub open spec fn find_char(s: Seq<char>, c: char) -> Option<int>
    decreases s.len(),
{
    if s.len() == 0 {
        None
    } else if s[0] == c {
        Some(0)
    } else {
        match find_char(s.drop_first(), c) {
            Some(i) => Some(i + 1),
            None => None,
        }
    }
}

/// `find_char` gives the first position holding `c`, or `None` when there is none.
pub proof fn lemma_find_char(s: Seq<char>, c: char)
    ensures
        match find_char(s, c) {
            Some(i) => 0 <= i < s.len() && s[i] == c && forall|k: int| 0 <= k < i ==> s[k] != c,
            None => forall|k: int| 0 <= k < s.len() ==> s[k] != c,
        },
    decreases s.len(),
{
    if s.len() > 0 && s[0] != c {
        lemma_find_char(s.drop_first(), c);
        match find_char(s.drop_first(), c) {
            Some(i) => {
                assert forall|k: int| 0 <= k < i + 1 implies s[k] != c by {
                    if k > 0 {
                        assert(s[k] == s.drop_first()[k - 1]);
                    }
                }
            },
            None => {
                assert forall|k: int| 0 <= k < s.len() implies s[k] != c by {
                    if k > 0 {
                        assert(s[k] == s.drop_first()[k - 1]);
                    }
                }
            },
        }
    }
}

/// The pieces of `s` between occurrences of `sep`, as `str::split` yields them.
pub open spec fn split_on(s: Seq<char>, sep: char) -> Seq<Seq<char>>
    decreases s.len(),
{
    match find_char(s, sep) {
        Some(i) => {
            proof {
                lemma_find_char(s, sep);
            }
            if 0 <= i < s.len() {
                seq![s.take(i)] + split_on(s.skip(i + 1), sep)
            } else {
                seq![s]
            }
        },
        None => seq![s],
    }
}

/// Unfolds `split_on` at a known first separator.
pub proof fn lemma_split_on_found(s: Seq<char>, sep: char, i: int)
    requires
        0 <= i < s.len(),
        s[i] == sep,
        forall|k: int| 0 <= k < i ==> s[k] != sep,
    ensures
        split_on(s, sep) == seq![s.take(i)] + split_on(s.skip(i + 1), sep),
{
    lemma_find_char(s, sep);
    match find_char(s, sep) {
        Some(j) => {
            if j < i {
            } else if j > i {
                assert(s[i] != sep);
            }
        },
        None => {
            assert(s[i] != sep);
        },
    }
}

/// Unfolds `split_on` when no separator occurs.
pub proof fn lemma_split_on_absent(s: Seq<char>, sep: char)
    requires
        forall|k: int| 0 <= k < s.len() ==> s[k] != sep,
    ensures
        split_on(s, sep) == seq![s],
{
    lemma_find_char(s, sep);
    match find_char(s, sep) {
        Some(j) => {
            assert(s[j] != sep);
        },
        None => {},
    }
}

/// `split_on` always yields at least one piece.
pub proof fn lemma_split_on_nonempty(s: Seq<char>, sep: char)
    ensures
        split_on(s, sep).len() >= 1,
    decreases s.len(),
{
    lemma_find_char(s, sep);
    match find_char(s, sep) {
        Some(i) => {
            lemma_split_on_nonempty(s.skip(i + 1), sep);
        },
        None => {},
    }
}

/// Splitting at a separator splits the two sides independently.
pub proof fn lemma_split_on_concat(p: Seq<char>, q: Seq<char>, sep: char)
    ensures
        split_on(p + seq![sep] + q, sep) == split_on(p, sep) + split_on(q, sep),
    decreases p.len(),
{
    let s = p + seq![sep] + q;
    lemma_find_char(p, sep);
    match find_char(p, sep) {
        None => {
            assert(s[p.len() as int] == sep);
            assert forall|k: int| 0 <= k < p.len() implies s[k] != sep by {
                assert(s[k] == p[k]);
            }
            lemma_split_on_found(s, sep, p.len() as int);
            assert(s.take(p.len() as int) =~= p);
            assert(s.skip(p.len() + 1int) =~= q);
            lemma_split_on_absent(p, sep);
        },
        Some(i) => {
            assert(s[i] == p[i]);
            assert forall|k: int| 0 <= k < i implies s[k] != sep by {
                assert(s[k] == p[k]);
            }
            lemma_split_on_found(s, sep, i);
            lemma_split_on_found(p, sep, i);
            assert(s.take(i) =~= p.take(i));
            assert(s.skip(i + 1) =~= p.skip(i + 1) + seq![sep] + q);
            lemma_split_on_concat(p.skip(i + 1), q, sep);
            assert(seq![p.take(i)] + (split_on(p.skip(i + 1), sep) + split_on(q, sep)) =~= (seq![
                p.take(i),
            ] + split_on(p.skip(i + 1), sep)) + split_on(q, sep));
        },
    }
}

/// Trimming leaves text alone when it neither starts nor ends with whitespace.
pub proof fn lemma_trim_unchanged(s: Seq<char>)
    requires
        s.len() > 0,
        !is_whitespace(s[0]),
        !is_whitespace(s.last()),
    ensures
        trim(s) == s,
{
}

/// First position in `v[from..to]` that holds `c`.
pub fn index_of_in(v: &Vec<char>, from: usize, to: usize, c: char) -> (r: Option<usize>)
    requires
        from <= to <= v@.len(),
    ensures
        match find_char(v@.subrange(from as int, to as int), c) {
            Some(i) => r == Some((from + i) as usize),
            None => r is None,
        },
{
    let ghost s = v@.subrange(from as int, to as int);
    proof {
        lemma_find_char(s, c);
    }
    let mut q = from;
    while q < to
        invariant
            from <= q <= to <= v@.len(),
            s == v@.subrange(from as int, to as int),
            forall|k: int| from <= k < q ==> v@[k] != c,
        decreases to - q,
    {
        if v[q] == c {
            proof {
                lemma_find_char(s, c);
                assert(s[q - from] == c);
                match find_char(s, c) {
                    Some(i) => {
                        if i < q - from {
                            assert(s[i] == v@[from + i]);
                        }
                    },
                    None => {},
                }
            }
            return Some(q);
        }
        q = q + 1;
    }
    proof {
        lemma_find_char(s, c);
        match find_char(s, c) {
            Some(i) => {
                assert(s[i] == v@[from + i]);
            },
            None => {},
        }
    }
    None
}

/// The pieces of `v[lo..hi]` between occurrences of `sep`, as index pairs into `v`.
pub fn split_spans(v: &Vec<char>, lo: usize, hi: usize, sep: char) -> (spans: Vec<(usize, usize)>)
    requires
        lo <= hi <= v@.len(),
    ensures
        spans@.len() == split_on(v@.subrange(lo as int, hi as int), sep).len(),
        forall|k: int|
            0 <= k < spans@.len() ==> {
                &&& lo <= #[trigger] spans@[k].0 <= spans@[k].1 <= hi
                &&& v@.subrange(spans@[k].0 as int, spans@[k].1 as int) == split_on(
                    v@.subrange(lo as int, hi as int),
                    sep,
                )[k]
            },
{
    let ghost whole = v@.subrange(lo as int, hi as int);
    let mut spans: Vec<(usize, usize)> = Vec::new();
    let mut p = lo;
    loop
        invariant
            lo <= p <= hi <= v@.len(),
            whole == v@.subrange(lo as int, hi as int),
            split_on(whole, sep) == Seq::new(
                spans@.len(),
                |k: int| v@.subrange(spans@[k].0 as int, spans@[k].1 as int),
            ) + split_on(v@.subrange(p as int, hi as int), sep),
            forall|k: int|
                0 <= k < spans@.len() ==> lo <= #[trigger] spans@[k].0 <= spans@[k].1 <= hi,
        decreases hi - p,
    {
        let ghost rest = v@.subrange(p as int, hi as int);
        let ghost done = Seq::new(
            spans@.len(),
            |k: int| v@.subrange(spans@[k].0 as int, spans@[k].1 as int),
        );
        match index_of_in(v, p, hi, sep) {
            Some(q) => {
                proof {
                    lemma_find_char(rest, sep);
                    lemma_split_on_found(rest, sep, q - p);
                    assert(rest.take(q - p) =~= v@.subrange(p as int, q as int));
                    assert(rest.skip(q - p + 1) =~= v@.subrange(q + 1, hi as int));
                }
                spans.push((p, q));
                proof {
                    let now = Seq::new(
                        spans@.len(),
                        |k: int| v@.subrange(spans@[k].0 as int, spans@[k].1 as int),
                    );
                    assert(now =~= done.push(v@.subrange(p as int, q as int)));
                    assert(done + split_on(rest, sep) =~= now + split_on(
                        v@.subrange(q + 1, hi as int),
                        sep,
                    ));
                }
                p = q + 1;
            },
            None => {
                proof {
                    lemma_find_char(rest, sep);
                    lemma_split_on_absent(rest, sep);
                }
                spans.push((p, hi));
                proof {
                    let now = Seq::new(
                        spans@.len(),
                        |k: int| v@.subrange(spans@[k].0 as int, spans@[k].1 as int),
                    );
                    assert(now =~= done.push(rest));
                    assert(split_on(whole, sep) =~= now);
                }
                return spans;
            },
        }
    }
}

// ---------------------------------------------------------------------
// Whitespace and trimming
// ---------------------------------------------------------------------

/// Unicode `White_Space`, the set that `char::is_whitespace` and `str::trim` use.
pub open spec fn is_whitespace(c: char) -> bool {
    ||| ('\u{9}' <= c && c <= '\u{d}')
    ||| c == ' '
    ||| c == '\u{85}'
    ||| c == '\u{a0}'
    ||| c == '\u{1680}'
    ||| ('\u{2000}' <= c && c <= '\u{200a}')
    ||| c == '\u{2028}'
    ||| c == '\u{2029}'
    ||| c == '\u{202f}'
    ||| c == '\u{205f}'
    ||| c == '\u{3000}'
}

/// Executable `is_whitespace`.
pub fn whitespace(c: char) -> (r: bool)
    ensures
        r == is_whitespace(c),
{
    ('\u{9}' <= c && c <= '\u{d}') || c == ' ' || c == '\u{85}' || c == '\u{a0}' || c
        == '\u{1680}' || ('\u{2000}' <= c && c <= '\u{200a}') || c == '\u{2028}' || c
        == '\u{2029}' || c == '\u{202f}' || c == '\u{205f}' || c == '\u{3000}'
}

/// `s` without its leading whitespace.
pub open spec fn trim_start(s: Seq<char>) -> Seq<char>
    decreases s.len(),
{
    if s.len() > 0 && is_whitespace(s[0]) {
        trim_start(s.drop_first())
    } else {
        s
    }
}

/// `s` without its trailing whitespace.
pub open spec fn trim_end(s: Seq<char>) -> Seq<char>
    decreases s.len(),
{
    if s.len() > 0 && is_whitespace(s.last()) {
        trim_end(s.drop_last())
    } else {
        s
    }
}

/// `s` without leading and trailing whitespace, as `str::trim` gives it.
pub open spec fn trim(s: Seq<char>) -> Seq<char> {
    trim_end(trim_start(s))
}

/// Bounds of the trimmed part of `v[lo..hi]`.
pub fn trim_span(v: &Vec<char>, lo: usize, hi: usize) -> (r: (usize, usize))
    requires
        lo <= hi <= v@.len(),
    ensures
        lo <= r.0 <= r.1 <= hi,
        v@.subrange(r.0 as int, r.1 as int) == trim(v@.subrange(lo as int, hi as int)),
{
    let mut a = lo;
    while a < hi && whitespace(v[a])
        invariant
            lo <= a <= hi <= v@.len(),
            trim_start(v@.subrange(lo as int, hi as int)) == trim_start(
                v@.subrange(a as int, hi as int),
            ),
        decreases hi - a,
    {
        assert(v@.subrange(a as int, hi as int).drop_first() =~= v@.subrange(a + 1, hi as int));
        a = a + 1;
    }
    assert(trim_start(v@.subrange(a as int, hi as int)) == v@.subrange(a as int, hi as int));
    let mut b = hi;
    while b > a && whitespace(v[b - 1])
        invariant
            lo <= a <= b <= hi <= v@.len(),
            trim_end(v@.subrange(a as int, hi as int)) == trim_end(v@.subrange(a as int, b as int)),
        decreases b - a,
    {
        assert(v@.subrange(a as int, b as int).drop_last() =~= v@.subrange(a as int, b - 1));
        b = b - 1;
    }
    (a, b)
}

// ---------------------------------------------------------------------
// Decimal text
// ---------------------------------------------------------------------

/// The character of the decimal digit `d`.
pub open spec fn digit_char(d: int) -> char {
    (d + 48) as char
}

/// Decimal text of a natural number, without leading zeros.
pub open spec fn nat_text(n: nat) -> Seq<char>
    decreases n,
{
    if n < 10 {
        seq![digit_char(n as int)]
    } else {
        nat_text(n / 10).push(digit_char((n % 10) as int))
    }
}

/// Appends the decimal text of `n` to `out`.
pub fn push_nat_text(out: &mut Vec<char>, n: u64)
    ensures
        final(out)@ == old(out)@ + nat_text(n as nat),
    decreases n,
{
    if n >= 10 {
        push_nat_text(out, n / 10);
    }
    let d: u8 = (n % 10) as u8;
    out.push((48u8 + d) as char);
}

// ---------------------------------------------------------------------
// Ordering of character sequences
// ---------------------------------------------------------------------

/// Lexicographic comparison by code point: -1, 0 or 1.
/// Code point order is the byte order of the UTF-8 encodings, which is how
/// `str` and `String` compare.
pub open spec fn lex_order(a: Seq<char>, b: Seq<char>) -> int
    decreases a.len(),
{
    if a.len() == 0 {
        if b.len() == 0 {
            0
        } else {
            -1
        }
    } else if b.len() == 0 {
        1
    } else if a[0] < b[0] {
        -1
    } else if a[0] > b[0] {
        1
    } else {
        lex_order(a.drop_first(), b.drop_first())
    }
}

/// `lex_order` is a total order: antisymmetric, exact on equality and transitive.
pub proof fn lemma_lex_order(a: Seq<char>, b: Seq<char>, c: Seq<char>)
    ensures
        lex_order(a, b) == -lex_order(b, a),
        -1 <= lex_order(a, b) <= 1,
        lex_order(a, b) == 0 <==> a == b,
        lex_order(a, b) < 0 && lex_order(b, c) < 0 ==> lex_order(a, c) < 0,
    decreases a.len(),
{
    if a.len() > 0 && b.len() > 0 {
        if c.len() > 0 {
            lemma_lex_order(a.drop_first(), b.drop_first(), c.drop_first());
        } else {
            lemma_lex_order(a.drop_first(), b.drop_first(), c);
        }
        if a[0] == b[0] && a.drop_first() == b.drop_first() {
            assert(a =~= seq![a[0]] + a.drop_first());
            assert(b =~= seq![b[0]] + b.drop_first());
        }
    } else if a.len() == 0 && b.len() == 0 {
        assert(a =~= b);
    }
}

/// Executable `lex_order` over two character vectors.
pub fn compare_chars(a: &Vec<char>, b: &Vec<char>) -> (r: i8)
    ensures
        r == lex_order(a@, b@),
{
    let mut i: usize = 0;
    assert(a@.skip(0) =~= a@);
    assert(b@.skip(0) =~= b@);
    while i < a.len() && i < b.len()
        invariant
            i <= a@.len(),
            i <= b@.len(),
            lex_order(a@, b@) == lex_order(a@.skip(i as int), b@.skip(i as int)),
        decreases a@.len() - i,
    {
        if a[i] < b[i] {
            return -1;
        }
        if a[i] > b[i] {
            return 1;
        }
        assert(a@.skip(i as int).drop_first() =~= a@.skip(i + 1));
        assert(b@.skip(i as int).drop_first() =~= b@.skip(i + 1));
        i = i + 1;
    }
    if i < a.len() {
        1
    } else if i < b.len() {
        -1
    } else {
        0
    }
}

// ---------------------------------------------------------------------
// Conversions with std
// ---------------------------------------------------------------------

/// The characters of `s`, in order.
pub fn chars_of(s: &str) -> (res: Vec<char>)
    ensures
        res@ == s@,
{
    let mut res: Vec<char> = Vec::new();
    for c in it: s.chars()
        invariant
            res@ == it.seq().take(it.index() as int),
    {
        res.push(c);
    }
    res
}

/// Builds a `String` from characters: std's `FromIterator<&char> for String`
/// pushes each character in turn, so the string holds exactly `v`.
#[verifier::external_body]
pub(crate) fn string_from_chars(v: &[char]) -> (res: String)
    ensures
        res@ == v@,
{
    v.iter().collect()
}

/// What `str::to_lowercase` returns: the Unicode lowercase mapping of each
/// character, taken from std's tables.
pub uninterp spec fn lowercase(s: Seq<char>) -> Seq<char>;

/// `str::to_lowercase`; its result is named `lowercase` and depends on the
/// text alone.
#[verifier::external_body]
pub(crate) fn to_lowercase(s: &str) -> (res: String)
    ensures
        res@ == lowercase(s@),
{
    s.to_lowercase()
}

} // verus!
