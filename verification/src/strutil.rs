//! Verified text utilities: whitespace trimming, first-occurrence search,
//! splitting on a separator character, and string equality.

use vstd::prelude::*;
use vstd::string::StrSliceExecFns;
use vstd::string::StringExecFns;

verus! {

/// The whitespace characters that trimming removes.
pub open spec fn is_ws(c: char) -> bool {
    c == ' ' || c == '\t' || c == '\r' || c == '\n'
}

/// `s` with leading whitespace removed.
pub open spec fn trim_start_spec(s: Seq<char>) -> Seq<char>
    decreases s.len(),
{
    if s.len() == 0 {
        s
    } else if is_ws(s[0]) {
        trim_start_spec(s.skip(1))
    } else {
        s
    }
}

/// `s` with trailing whitespace removed.
pub open spec fn trim_end_spec(s: Seq<char>) -> Seq<char>
    decreases s.len(),
{
    if s.len() == 0 {
        s
    } else if is_ws(s[s.len() - 1]) {
        trim_end_spec(s.take(s.len() - 1))
    } else {
        s
    }
}

/// `s` with leading and trailing whitespace removed.
pub open spec fn trim_spec(s: Seq<char>) -> Seq<char> {
    trim_end_spec(trim_start_spec(s))
}

proof fn lemma_trim_start_skip(s: Seq<char>, i: int)
    requires
        0 <= i <= s.len(),
        forall|k: int| 0 <= k < i ==> is_ws(s[k]),
        i == s.len() || !is_ws(s[i]),
    ensures
        trim_start_spec(s) == s.skip(i),
    decreases s.len(),
{
    if i == 0 {
        assert(s.skip(0) =~= s);
    } else {
        assert(is_ws(s[0]));
        lemma_trim_start_skip(s.skip(1), i - 1);
        assert(s.skip(1).skip(i - 1) =~= s.skip(i));
    }
}

proof fn lemma_trim_end_take(s: Seq<char>, j: int)
    requires
        0 <= j <= s.len(),
        forall|k: int| j <= k < s.len() ==> is_ws(s[k]),
        j == 0 || !is_ws(s[j - 1]),
    ensures
        trim_end_spec(s) == s.take(j),
    decreases s.len(),
{
    if j == s.len() {
        assert(s.take(j) =~= s);
    } else {
        assert(is_ws(s[s.len() - 1]));
        lemma_trim_end_take(s.take(s.len() - 1), j);
        assert(s.take(s.len() - 1).take(j) =~= s.take(j));
    }
}

/// Trimming a string without whitespace leaves it unchanged.
pub proof fn lemma_trim_no_ws(s: Seq<char>)
    requires
        forall|k: int| 0 <= k < s.len() ==> !is_ws(s[k]),
    ensures
        trim_spec(s) == s,
{
    lemma_trim_start_skip(s, 0);
    assert(s.skip(0) =~= s);
    lemma_trim_end_take(s, s.len() as int);
    assert(s.take(s.len() as int) =~= s);
}

/// Whether `c` is one of the characters trimming removes.
pub fn is_ws_char(c: char) -> (b: bool)
    ensures
        b == is_ws(c),
{
    c == ' ' || c == '\t' || c == '\r' || c == '\n'
}

/// `s` with leading and trailing whitespace removed.
pub fn trim_str(s: &str) -> (r: String)
    ensures
        r@ == trim_spec(s@),
{
    let n = s.unicode_len();
    let mut i: usize = 0;
    while i < n && is_ws_char(s.get_char(i))
        invariant
            0 <= i <= n,
            n == s@.len(),
            forall|k: int| 0 <= k < i ==> is_ws(s@[k]),
        decreases n - i,
    {
        i = i + 1;
    }
    let mut j: usize = n;
    while j > i && is_ws_char(s.get_char(j - 1))
        invariant
            i <= j <= n,
            n == s@.len(),
            forall|k: int| j <= k < n ==> is_ws(s@[k]),
        decreases j,
    {
        j = j - 1;
    }
    proof {
        if j == i {
            lemma_trim_start_skip(s@, j as int);
            lemma_trim_end_take(s@.skip(j as int), 0);
            assert(s@.skip(j as int).take(0) =~= s@.subrange(i as int, j as int));
        } else {
            assert(!is_ws(s@[i as int]));
            lemma_trim_start_skip(s@, i as int);
            lemma_trim_end_take(s@.skip(i as int), j - i);
            assert(s@.skip(i as int).take(j - i) =~= s@.subrange(i as int, j as int));
        }
    }
    let sub = s.substring_char(i, j);
    sub.to_owned()
}

/// Whether the character sequences of `a` and `b` are equal.
pub fn str_eq(a: &str, b: &str) -> (r: bool)
    ensures
        r == (a@ == b@),
{
    let na = a.unicode_len();
    let nb = b.unicode_len();
    if na != nb {
        proof {
            assert(a@.len() != b@.len());
        }
        return false;
    }
    let mut i: usize = 0;
    while i < na
        invariant
            0 <= i <= na,
            na == a@.len(),
            na == b@.len(),
            forall|k: int| 0 <= k < i ==> a@[k] == b@[k],
        decreases na - i,
    {
        if a.get_char(i) != b.get_char(i) {
            return false;
        }
        i = i + 1;
    }
    proof {
        assert(a@ =~= b@);
    }
    true
}

/// The index of the first occurrence of `c` in `s`, or `s.len()` when `s`
/// does not contain `c`.
pub open spec fn find_char(s: Seq<char>, c: char) -> int
    decreases s.len(),
{
    if s.len() == 0 {
        0
    } else if s[0] == c {
        0
    } else {
        1 + find_char(s.skip(1), c)
    }
}

/// What `find_char` returns: the first index holding `c`, or the length.
pub proof fn lemma_find_char(s: Seq<char>, c: char)
    ensures
        0 <= find_char(s, c) <= s.len(),
        find_char(s, c) < s.len() ==> s[find_char(s, c)] == c,
        forall|k: int| 0 <= k < find_char(s, c) ==> s[k] != c,
        find_char(s, c) == s.len() ==> forall|k: int| 0 <= k < s.len() ==> s[k] != c,
    decreases s.len(),
{
    if s.len() == 0 {
    } else if s[0] == c {
    } else {
        lemma_find_char(s.skip(1), c);
        assert forall|k: int| 0 <= k < find_char(s, c) implies s[k] != c by {
            if k > 0 {
                assert(s.skip(1)[k - 1] != c);
            }
        }
    }
}

/// The pieces of `s` between occurrences of the separator `c`, in order.
/// A string without the separator yields one piece; each separator ends a
/// piece, so a trailing separator yields a final empty piece.
pub open spec fn split_spec(s: Seq<char>, c: char) -> Seq<Seq<char>>
    decreases s.len(),
{
    let i = find_char(s, c);
    if i == s.len() {
        seq![s]
    } else if 0 <= i < s.len() {
        seq![s.take(i)] + split_spec(s.skip(i + 1), c)
    } else {
        seq![s]
    }
}

/// A split never yields an empty sequence of pieces.
pub proof fn lemma_split_len(s: Seq<char>, c: char)
    ensures
        split_spec(s, c).len() >= 1,
{
    lemma_find_char(s, c);
}

/// Splitting a string that starts with a separator-free piece followed by the
/// separator yields that piece and then the split of the remainder.
pub proof fn lemma_split_step(piece: Seq<char>, rest: Seq<char>, c: char)
    requires
        forall|k: int| 0 <= k < piece.len() ==> piece[k] != c,
    ensures
        split_spec(piece + seq![c] + rest, c) == seq![piece] + split_spec(rest, c),
{
    let s = piece + seq![c] + rest;
    lemma_find_char(s, c);
    let i = find_char(s, c);
    assert(s[piece.len() as int] == c);
    assert(i <= piece.len());
    assert(i >= piece.len()) by {
        if i < piece.len() {
            assert(s[i] == piece[i]);
        }
    }
    assert(s.take(i) =~= piece);
    assert(s.skip(i + 1) =~= rest);
}

/// The index of the first occurrence of `c` in `s`, or the length of `s`
/// when `s` does not contain `c`.
pub fn find_char_str(s: &str, c: char) -> (r: usize)
    ensures
        r == find_char(s@, c),
{
    let n = s.unicode_len();
    let mut i: usize = 0;
    while i < n
        invariant
            0 <= i <= n,
            n == s@.len(),
            forall|k: int| 0 <= k < i ==> s@[k] != c,
        decreases n - i,
    {
        if s.get_char(i) == c {
            proof {
                lemma_find_char(s@, c);
                assert(find_char(s@, c) <= i);
                assert(find_char(s@, c) >= i);
            }
            return i;
        }
        i = i + 1;
    }
    proof {
        lemma_find_char(s@, c);
        if find_char(s@, c) < s@.len() {
            assert(s@[find_char(s@, c)] != c);
        }
    }
    n
}

/// Whether `s` contains the character `c`.
pub fn contains_char(s: &str, c: char) -> (r: bool)
    ensures
        r == s@.contains(c),
{
    proof {
        lemma_find_char(s@, c);
    }
    let i = find_char_str(s, c);
    let r = i < s.unicode_len();
    proof {
        if r {
            assert(s@[find_char(s@, c)] == c);
        } else {
            assert(forall|k: int| 0 <= k < s@.len() ==> s@[k] != c);
        }
    }
    r
}

/// The pieces of `s` between occurrences of the separator `c`, in order.
pub fn split_str(s: &str, c: char) -> (r: Vec<String>)
    ensures
        r.deep_view() == split_spec(s@, c),
        r.len() >= 1,
{
    let mut parts: Vec<String> = Vec::new();
    let mut cur: String = s.to_owned();
    loop
        invariant
            split_spec(s@, c) == parts.deep_view() + split_spec(cur@, c),
        decreases cur@.len(),
    {
        let i = find_char_str(cur.as_str(), c);
        let n = cur.unicode_len();
        proof {
            lemma_find_char(cur@, c);
            lemma_split_len(cur@, c);
        }
        if i == n {
            let ghost old_parts = parts.deep_view();
            let ghost cur_v = cur@;
            parts.push(cur);
            proof {
                assert(split_spec(cur_v, c) == seq![cur_v]);
                assert(parts.deep_view() =~= old_parts.push(cur_v));
                assert(old_parts.push(cur_v) =~= old_parts + seq![cur_v]);
                lemma_split_len(s@, c);
            }
            return parts;
        } else {
            let piece = cur.as_str().substring_char(0, i).to_owned();
            let restlen = n - i - 1;
            let tail = cur.as_str().substring_char(i + 1, n).to_owned();
            let ghost old_parts = parts.deep_view();
            let ghost old_cur = cur@;
            parts.push(piece);
            cur = tail;
            proof {
                assert(old_cur.subrange(0, i as int) =~= old_cur.take(i as int));
                assert(parts.deep_view() =~= old_parts.push(old_cur.take(i as int)));
                assert(split_spec(old_cur, c) == seq![old_cur.take(i as int)] + split_spec(
                    old_cur.skip(i + 1),
                    c,
                ));
                assert(parts.deep_view() + split_spec(cur@, c) =~= old_parts + split_spec(
                    old_cur,
                    c,
                ));
            }
        }
    }
}

/// Whether `s` starts with the prefix `p`.
pub fn starts_with_str(s: &str, p: &str) -> (r: bool)
    ensures
        r == (s@.len() >= p@.len() && s@.take(p@.len() as int) == p@),
{
    let ns = s.unicode_len();
    let np = p.unicode_len();
    if ns < np {
        return false;
    }
    let sub = s.substring_char(0, np);
    proof {
        assert(s@.subrange(0, np as int) =~= s@.take(np as int));
    }
    str_eq(sub, p)
}

/// Whether `s` ends with the suffix `p`.
pub fn ends_with_str(s: &str, p: &str) -> (r: bool)
    ensures
        r == (s@.len() >= p@.len() && s@.skip(s@.len() - p@.len()) == p@),
{
    let ns = s.unicode_len();
    let np = p.unicode_len();
    if ns < np {
        return false;
    }
    let sub = s.substring_char(ns - np, ns);
    proof {
        assert(s@.subrange(ns - np, ns as int) =~= s@.skip(s@.len() - p@.len()));
    }
    str_eq(sub, p)
}

} // verus!
