//! Edit distance between two aliases, counted in characters.
use vstd::prelude::*;
use crate::text::chars_of;

verus! {

/// Smallest of three numbers.
pub open spec fn min3(x: int, y: int, z: int) -> int {
    if x <= y && x <= z {
        x
    } else if y <= z {
        y
    } else {
        z
    }
}

/// Edit distance between the first `i` characters of `a` and the first `j`
/// characters of `b`: the least number of single-character insertions,
/// deletions and substitutions that turn one into the other.
pub open spec fn edit_distance_prefix(a: Seq<char>, b: Seq<char>, i: nat, j: nat) -> nat
    decreases i + j,
{
    if i == 0 {
        j
    } else if j == 0 {
        i
    } else {
        let cost: int = if a[i - 1] == b[j - 1] { 0 } else { 1 };
        min3(
            edit_distance_prefix(a, b, (i - 1) as nat, j) + 1int,
            edit_distance_prefix(a, b, i, (j - 1) as nat) + 1int,
            edit_distance_prefix(a, b, (i - 1) as nat, (j - 1) as nat) + cost,
        ) as nat
    }
}

/// Levenshtein distance between two character sequences.
pub open spec fn edit_distance(a: Seq<char>, b: Seq<char>) -> nat {
    edit_distance_prefix(a, b, a.len(), b.len())
}

/// The distance between prefixes never exceeds the longer prefix.
pub proof fn lemma_edit_distance_bound(a: Seq<char>, b: Seq<char>, i: nat, j: nat)
    ensures
        edit_distance_prefix(a, b, i, j) <= if i <= j { j } else { i },
    decreases i + j,
{
    if i > 0 && j > 0 {
        lemma_edit_distance_bound(a, b, (i - 1) as nat, (j - 1) as nat);
    }
}

/// The distance does not depend on which side is which.
pub proof fn lemma_edit_distance_prefix_symmetric(a: Seq<char>, b: Seq<char>, i: nat, j: nat)
    ensures
        edit_distance_prefix(a, b, i, j) == edit_distance_prefix(b, a, j, i),
    decreases i + j,
{
    if i > 0 && j > 0 {
        lemma_edit_distance_prefix_symmetric(a, b, (i - 1) as nat, j);
        lemma_edit_distance_prefix_symmetric(a, b, i, (j - 1) as nat);
        lemma_edit_distance_prefix_symmetric(a, b, (i - 1) as nat, (j - 1) as nat);
    }
}

/// Prefixes are at distance zero exactly when they are equal.
pub proof fn lemma_edit_distance_prefix_zero(a: Seq<char>, b: Seq<char>, i: nat, j: nat)
    requires
        i <= a.len(),
        j <= b.len(),
    ensures
        edit_distance_prefix(a, b, i, j) == 0 <==> a.take(i as int) == b.take(j as int),
    decreases i + j,
{
    if i == 0 || j == 0 {
        if i != j {
            assert(a.take(i as int).len() != b.take(j as int).len());
        } else {
            assert(a.take(i as int) =~= b.take(j as int));
        }
    } else {
        lemma_edit_distance_prefix_zero(a, b, (i - 1) as nat, (j - 1) as nat);
        lemma_edit_distance_bound(a, b, (i - 1) as nat, j);
        if a.take(i as int) == b.take(j as int) {
            assert(a[i - 1] == a.take(i as int)[i - 1]);
            assert(b[j - 1] == b.take(j as int)[j - 1]);
            assert(a.take(i - 1) =~= a.take(i as int).drop_last());
            assert(b.take(j - 1) =~= b.take(j as int).drop_last());
        }
        if edit_distance_prefix(a, b, i, j) == 0 {
            assert(a.take(i as int) =~= a.take(i - 1).push(a[i - 1]));
            assert(b.take(j as int) =~= b.take(j - 1).push(b[j - 1]));
        }
    }
}

/// The distance between prefixes is at least the difference of their
/// lengths.
pub proof fn lemma_edit_distance_lower(a: Seq<char>, b: Seq<char>, i: nat, j: nat)
    ensures
        edit_distance_prefix(a, b, i, j) >= i - j,
        edit_distance_prefix(a, b, i, j) >= j - i,
    decreases i + j,
{
    if i > 0 && j > 0 {
        lemma_edit_distance_lower(a, b, (i - 1) as nat, j);
        lemma_edit_distance_lower(a, b, i, (j - 1) as nat);
        lemma_edit_distance_lower(a, b, (i - 1) as nat, (j - 1) as nat);
    }
}

/// Going from `a` to `c` through `b` never beats the direct distance, for
/// prefixes of lengths `i`, `j` and `k`.
pub proof fn lemma_edit_distance_prefix_triangle(
    a: Seq<char>,
    b: Seq<char>,
    c: Seq<char>,
    i: nat,
    j: nat,
    k: nat,
)
    ensures
        edit_distance_prefix(a, c, i, k) <= edit_distance_prefix(a, b, i, j)
            + edit_distance_prefix(b, c, j, k),
    decreases i + j + k,
{
    let x = edit_distance_prefix(a, b, i, j);
    let y = edit_distance_prefix(b, c, j, k);
    if i == 0 {
        lemma_edit_distance_lower(b, c, j, k);
    } else if k == 0 {
        lemma_edit_distance_lower(a, b, i, j);
    } else if j == 0 {
        lemma_edit_distance_bound(a, c, i, k);
    } else {
        let i1 = (i - 1) as nat;
        let j1 = (j - 1) as nat;
        let k1 = (k - 1) as nat;
        let cab: int = if a[i - 1] == b[j - 1] { 0 } else { 1 };
        let cbc: int = if b[j - 1] == c[k - 1] { 0 } else { 1 };
        if x == edit_distance_prefix(a, b, i1, j) + 1 {
            lemma_edit_distance_prefix_triangle(a, b, c, i1, j, k);
        } else if y == edit_distance_prefix(b, c, j, k1) + 1 {
            lemma_edit_distance_prefix_triangle(a, b, c, i, j, k1);
        } else if x == edit_distance_prefix(a, b, i, j1) + 1 {
            if y == edit_distance_prefix(b, c, j1, k) + 1 {
                lemma_edit_distance_prefix_triangle(a, b, c, i, j1, k);
            } else {
                assert(y == edit_distance_prefix(b, c, j1, k1) + cbc);
                lemma_edit_distance_prefix_triangle(a, b, c, i, j1, k1);
            }
        } else {
            assert(x == edit_distance_prefix(a, b, i1, j1) + cab);
            if y == edit_distance_prefix(b, c, j1, k) + 1 {
                lemma_edit_distance_prefix_triangle(a, b, c, i1, j1, k);
            } else {
                assert(y == edit_distance_prefix(b, c, j1, k1) + cbc);
                lemma_edit_distance_prefix_triangle(a, b, c, i1, j1, k1);
            }
        }
    }
}

/// The triangle inequality: the distance from `a` to `c` is at most the
/// distance from `a` to `b` plus the distance from `b` to `c`.
pub proof fn law_edit_distance_triangle(a: Seq<char>, b: Seq<char>, c: Seq<char>)
    ensures
        edit_distance(a, c) <= edit_distance(a, b) + edit_distance(b, c),
{
    lemma_edit_distance_prefix_triangle(a, b, c, a.len(), b.len(), c.len());
}

/// Levenshtein distance is symmetric, zero exactly between equal texts,
/// and never more than the longer text's length.
pub proof fn law_edit_distance(a: Seq<char>, b: Seq<char>)
    ensures
        edit_distance(a, b) == edit_distance(b, a),
        edit_distance(a, b) == 0 <==> a == b,
        edit_distance(a, b) <= if a.len() <= b.len() { b.len() } else { a.len() },
{
    lemma_edit_distance_prefix_symmetric(a, b, a.len(), b.len());
    lemma_edit_distance_prefix_zero(a, b, a.len(), b.len());
    lemma_edit_distance_bound(a, b, a.len(), b.len());
    assert(a.take(a.len() as int) =~= a);
    assert(b.take(b.len() as int) =~= b);
}

/// Levenshtein distance between `s1` and `s2`, over characters.
pub fn levenshtein_distance(s1: &str, s2: &str) -> (d: usize)
    ensures
        d == edit_distance(s1@, s2@),
{
    let v1 = chars_of(s1);
    let v2 = chars_of(s2);
    let n = v1.len();
    let m = v2.len();
    if n == 0 {
        return m;
    }
    if m == 0 {
        return n;
    }
    // prev[k] holds the distance between the first i characters of v1 and the first k of v2.
    let mut prev: Vec<usize> = Vec::new();
    prev.push(0);
    let mut j: usize = 0;
    while j < m
        invariant
            m == v2@.len(),
            j <= m,
            prev@.len() == j + 1,
            forall|k: int| 0 <= k <= j ==> prev@[k] == edit_distance_prefix(v1@, v2@, 0, k as nat),
        decreases m - j,
    {
        prev.push(j + 1);
        j = j + 1;
    }
    let mut i: usize = 0;
    while i < n
        invariant
            n == v1@.len(),
            m == v2@.len(),
            i <= n,
            prev@.len() == m + 1,
            forall|k: int|
                0 <= k <= m ==> prev@[k] == edit_distance_prefix(v1@, v2@, i as nat, k as nat),
        decreases n - i,
    {
        let mut cur: Vec<usize> = Vec::new();
        cur.push(i + 1);
        let mut j: usize = 0;
        while j < m
            invariant
                n == v1@.len(),
                m == v2@.len(),
                i < n,
                j <= m,
                prev@.len() == m + 1,
                cur@.len() == j + 1,
                forall|k: int|
                    0 <= k <= m ==> prev@[k] == edit_distance_prefix(v1@, v2@, i as nat, k as nat),
                forall|k: int|
                    0 <= k <= j ==> cur@[k] == edit_distance_prefix(v1@, v2@, (i + 1) as nat, k as nat),
            decreases m - j,
        {
            let cost: u128 = if v1[i] == v2[j] { 0 } else { 1 };
            let del: u128 = prev[j + 1] as u128 + 1;
            let ins: u128 = cur[j] as u128 + 1;
            let sub: u128 = prev[j] as u128 + cost;
            let mut best = del;
            if ins < best {
                best = ins;
            }
            if sub < best {
                best = sub;
            }
            proof {
                lemma_edit_distance_bound(v1@, v2@, (i + 1) as nat, (j + 1) as nat);
                assert(best == edit_distance_prefix(v1@, v2@, (i + 1) as nat, (j + 1) as nat));
            }
            cur.push(best as usize);
            j = j + 1;
        }
        prev = cur;
        i = i + 1;
    }
    prev[m]
}

} // verus!
