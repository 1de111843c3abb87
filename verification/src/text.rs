//! Character-level helpers shared by the tree, selector and widget modules.
//!
//! Every function here works on the characters of a string (`s@`), and each
//! one is stated against a spec function over `Seq<char>`.

use vstd::prelude::*;
use vstd::string::*;

verus! {

broadcast use vstd::string::group_string_axioms;

// ───────────────────────── spec vocabulary ─────────────────────────

/// ASCII whitespace as `u8::is_ascii_whitespace` defines it.
pub open spec fn is_ascii_ws(c: char) -> bool {
    c == ' ' || c == '\t' || c == '\n' || c == '\x0C' || c == '\r'
}

/// Unicode `White_Space`, the property `char::is_whitespace` tests.
pub open spec fn is_unicode_ws(c: char) -> bool {
    ||| ('\t' <= c && c <= '\r')
    ||| c == ' '
    ||| c == '\u{85}'
    ||| c == '\u{A0}'
    ||| c == '\u{1680}'
    ||| ('\u{2000}' <= c && c <= '\u{200A}')
    ||| c == '\u{2028}'
    ||| c == '\u{2029}'
    ||| c == '\u{202F}'
    ||| c == '\u{205F}'
    ||| c == '\u{3000}'
}

/// ASCII lower-casing of one character; other characters are unchanged.
pub open spec fn ascii_lower(c: char) -> char {
    if 'A' <= c && c <= 'Z' {
        ((c as u32) + 32) as char
    } else {
        c
    }
}

/// Equality up to ASCII case, as `str::eq_ignore_ascii_case` defines it.
pub open spec fn eq_ignore_ascii_case_spec(a: Seq<char>, b: Seq<char>) -> bool {
    a.len() == b.len() && forall|i: int| 0 <= i < a.len() ==> ascii_lower(#[trigger] a[i]) == ascii_lower(b[i])
}

/// Index of the first character of `s` that is not Unicode whitespace
/// (`s.len()` when there is none).
pub open spec fn first_non_ws(s: Seq<char>) -> int
    decreases s.len(),
{
    if s.len() == 0 {
        0
    } else if is_unicode_ws(s[0]) {
        1 + first_non_ws(s.drop_first())
    } else {
        0
    }
}

/// One past the index of the last character of `s` that is not Unicode
/// whitespace (`0` when there is none).
pub open spec fn last_non_ws_end(s: Seq<char>) -> int
    decreases s.len(),
{
    if s.len() == 0 {
        0
    } else if is_unicode_ws(s.last()) {
        last_non_ws_end(s.drop_last())
    } else {
        s.len() as int
    }
}

/// `str::trim`: `s` without leading and trailing Unicode whitespace.
pub open spec fn trim_spec(s: Seq<char>) -> Seq<char> {
    if last_non_ws_end(s) <= first_non_ws(s) {
        Seq::empty()
    } else {
        s.subrange(first_non_ws(s), last_non_ws_end(s))
    }
}

/// `s[i..j]` is one of the maximal runs of non-separator characters of `s`
/// (a token of `split_ascii_whitespace` / `split_whitespace`, by `sep`).
pub open spec fn is_token_at(s: Seq<char>, i: int, j: int, sep: spec_fn(char) -> bool) -> bool {
    &&& 0 <= i < j <= s.len()
    &&& forall|k: int| i <= k < j ==> !sep(#[trigger] s[k])
    &&& (i == 0 || sep(s[i - 1]))
    &&& (j == s.len() || sep(s[j]))
}

/// `want` is one of the tokens of `s` split at ASCII whitespace.
pub open spec fn has_ascii_ws_token(s: Seq<char>, want: Seq<char>) -> bool {
    exists|i: int, j: int|
        is_token_at(s, i, j, |c: char| is_ascii_ws(c)) && #[trigger] s.subrange(i, j) == want
}

/// `s` holds a character that is not Unicode whitespace.
pub open spec fn has_non_ws(s: Seq<char>) -> bool {
    exists|k: int| 0 <= k < s.len() && !is_unicode_ws(#[trigger] s[k])
}

/// The first token of `s` split at Unicode whitespace
/// (`split_whitespace().next()`), when `s` has one.
pub open spec fn first_ws_token(s: Seq<char>) -> Option<Seq<char>> {
    if has_non_ws(s) {
        let i = first_non_ws(s);
        Some(s.subrange(i, i + first_ws_index(s.skip(i))))
    } else {
        None
    }
}

/// Index of the first Unicode whitespace character of `s` (`s.len()` when
/// there is none).
pub open spec fn first_ws_index(s: Seq<char>) -> int
    decreases s.len(),
{
    if s.len() == 0 {
        0
    } else if is_unicode_ws(s[0]) {
        0
    } else {
        1 + first_ws_index(s.drop_first())
    }
}

/// Lexicographic order on character sequences (the order of `str`'s `Ord`,
/// since UTF-8 preserves code point order).
pub open spec fn seq_lt(a: Seq<char>, b: Seq<char>) -> bool
    decreases a.len(),
{
    if a.len() == 0 {
        b.len() > 0
    } else if b.len() == 0 {
        false
    } else if a[0] != b[0] {
        a[0] < b[0]
    } else {
        seq_lt(a.drop_first(), b.drop_first())
    }
}

// ───────────────────────── lemmas ─────────────────────────

/// Lexicographic order is transitive.
pub proof fn lemma_seq_lt_transitive(a: Seq<char>, b: Seq<char>, c: Seq<char>)
    requires
        seq_lt(a, b),
        seq_lt(b, c),
    ensures
        seq_lt(a, c),
    decreases a.len(),
{
    if a.len() > 0 && b.len() > 0 && c.len() > 0 && a[0] == b[0] && b[0] == c[0] {
        lemma_seq_lt_transitive(a.drop_first(), b.drop_first(), c.drop_first());
    }
}

/// Lexicographic order is total.
pub proof fn lemma_seq_lt_total(a: Seq<char>, b: Seq<char>)
    ensures
        a == b || seq_lt(a, b) || seq_lt(b, a),
    decreases a.len(),
{
    if a.len() > 0 && b.len() > 0 && a[0] == b[0] {
        lemma_seq_lt_total(a.drop_first(), b.drop_first());
        if a.drop_first() == b.drop_first() {
            assert(a =~= seq![a[0]] + a.drop_first());
            assert(b =~= seq![b[0]] + b.drop_first());
        }
    } else if a.len() == 0 && b.len() == 0 {
        assert(a =~= b);
    }
}

/// Lexicographic order is irreflexive.
pub proof fn lemma_seq_lt_irreflexive(a: Seq<char>)
    ensures
        !seq_lt(a, a),
    decreases a.len(),
{
    if a.len() > 0 {
        lemma_seq_lt_irreflexive(a.drop_first());
    }
}

proof fn lemma_first_non_ws_bounds(s: Seq<char>)
    ensures
        0 <= first_non_ws(s) <= s.len(),
        forall|k: int| 0 <= k < first_non_ws(s) ==> is_unicode_ws(#[trigger] s[k]),
        first_non_ws(s) < s.len() ==> !is_unicode_ws(s[first_non_ws(s)]),
    decreases s.len(),
{
    if s.len() > 0 && is_unicode_ws(s[0]) {
        lemma_first_non_ws_bounds(s.drop_first());
        assert forall|k: int| 0 <= k < first_non_ws(s) implies is_unicode_ws(#[trigger] s[k]) by {
            if k > 0 {
                assert(s[k] == s.drop_first()[k - 1]);
            }
        }
    }
}

proof fn lemma_first_non_ws_char(s: Seq<char>, i: int)
    requires
        0 <= i <= s.len(),
        forall|k: int| 0 <= k < i ==> is_unicode_ws(#[trigger] s[k]),
        i == s.len() || !is_unicode_ws(s[i]),
    ensures
        first_non_ws(s) == i,
    decreases s.len(),
{
    if s.len() > 0 && i > 0 {
        assert(is_unicode_ws(s[0]));
        assert forall|k: int| 0 <= k < i - 1 implies is_unicode_ws(#[trigger] s.drop_first()[k]) by {
            assert(s.drop_first()[k] == s[k + 1]);
        }
        lemma_first_non_ws_char(s.drop_first(), i - 1);
    }
}

proof fn lemma_last_non_ws_char(s: Seq<char>, j: int)
    requires
        0 <= j <= s.len(),
        forall|k: int| j <= k < s.len() ==> is_unicode_ws(#[trigger] s[k]),
        j == 0 || !is_unicode_ws(s[j - 1]),
    ensures
        last_non_ws_end(s) == j,
    decreases s.len(),
{
    if s.len() > 0 && j < s.len() {
        assert(is_unicode_ws(s[s.len() - 1]));
        assert forall|k: int| j <= k < s.drop_last().len() implies is_unicode_ws(#[trigger] s.drop_last()[k]) by {
            assert(s.drop_last()[k] == s[k]);
        }
        lemma_last_non_ws_char(s.drop_last(), j);
    }
}

proof fn lemma_first_ws_index(s: Seq<char>, i: int)
    requires
        0 <= i <= s.len(),
        forall|k: int| 0 <= k < i ==> !is_unicode_ws(#[trigger] s[k]),
        i == s.len() || is_unicode_ws(s[i]),
    ensures
        first_ws_index(s) == i,
    decreases s.len(),
{
    if s.len() > 0 && i > 0 {
        assert(!is_unicode_ws(s[0]));
        assert forall|k: int| 0 <= k < i - 1 implies !is_unicode_ws(#[trigger] s.drop_first()[k]) by {
            assert(s.drop_first()[k] == s[k + 1]);
        }
        lemma_first_ws_index(s.drop_first(), i - 1);
    }
}

// ───────────────────────── exec helpers ─────────────────────────

/// The characters of `s`, in order.
pub fn chars_of(s: &str) -> (v: Vec<char>)
    ensures
        v@ == s@,
{
    let mut v: Vec<char> = Vec::new();
    for c in it: s.chars()
        invariant
            v@ == it.seq().take(it.index() as int),
    {
        v.push(c);
    }
    v
}

/// `String::push`: appends one character.
#[verifier::external_body]
pub(crate) fn push_char(s: &mut String, c: char)
    ensures
        final(s)@ == old(s)@.push(c),
{
    s.push(c)
}

/// A `String` holding `v[from..to]`.
pub fn string_from_range(v: &Vec<char>, from: usize, to: usize) -> (r: String)
    requires
        from <= to <= v.len(),
    ensures
        r@ == v@.subrange(from as int, to as int),
{
    let mut r = String::new();
    let mut i = from;
    while i < to
        invariant
            from <= i <= to <= v.len(),
            r@ == v@.subrange(from as int, i as int),
        decreases to - i,
    {
        push_char(&mut r, v[i]);
        proof {
            assert(v@.subrange(from as int, i + 1) =~= v@.subrange(from as int, i as int).push(v@[i as int]));
        }
        i += 1;
    }
    r
}

/// A `String` holding all of `v`.
pub fn string_from_chars(v: &Vec<char>) -> (r: String)
    ensures
        r@ == v@,
{
    let r = string_from_range(v, 0, v.len());
    assert(v@.subrange(0, v@.len() as int) =~= v@);
    r
}

/// A copy of `s`.
pub fn copy_str(s: &str) -> (r: String)
    ensures
        r@ == s@,
{
    s.to_owned()
}

/// `char::is_whitespace`.
pub fn is_whitespace(c: char) -> (b: bool)
    ensures
        b == is_unicode_ws(c),
{
    ('\t' <= c && c <= '\r') || c == ' ' || c == '\u{85}' || c == '\u{A0}' || c == '\u{1680}'
        || ('\u{2000}' <= c && c <= '\u{200A}') || c == '\u{2028}' || c == '\u{2029}'
        || c == '\u{202F}' || c == '\u{205F}' || c == '\u{3000}'
}

/// `u8::is_ascii_whitespace`, on a character.
pub fn is_ascii_whitespace(c: char) -> (b: bool)
    ensures
        b == is_ascii_ws(c),
{
    c == ' ' || c == '\t' || c == '\n' || c == '\x0C' || c == '\r'
}

/// `char::to_ascii_lowercase`.
pub fn to_ascii_lower(c: char) -> (r: char)
    ensures
        r == ascii_lower(c),
{
    if 'A' <= c && c <= 'Z' {
        let u: u8 = (c as u32 + 32) as u8;
        u as char
    } else {
        c
    }
}

/// Character-wise equality of two sequences.
pub fn chars_eq(a: &Vec<char>, b: &Vec<char>) -> (r: bool)
    ensures
        r == (a@ == b@),
{
    if a.len() != b.len() {
        return false;
    }
    let mut i: usize = 0;
    while i < a.len()
        invariant
            a.len() == b.len(),
            i <= a.len(),
            forall|k: int| 0 <= k < i ==> a@[k] == b@[k],
        decreases a.len() - i,
    {
        if a[i] != b[i] {
            return false;
        }
        i += 1;
    }
    assert(a@ =~= b@);
    true
}

/// String equality (`==` on `str`).
pub fn str_eq(a: &str, b: &str) -> (r: bool)
    ensures
        r == (a@ == b@),
{
    let av = chars_of(a);
    let bv = chars_of(b);
    chars_eq(&av, &bv)
}

/// `str::eq_ignore_ascii_case`.
pub fn eq_ignore_ascii_case(a: &str, b: &str) -> (r: bool)
    ensures
        r == eq_ignore_ascii_case_spec(a@, b@),
{
    let av = chars_of(a);
    let bv = chars_of(b);
    if av.len() != bv.len() {
        return false;
    }
    let mut i: usize = 0;
    while i < av.len()
        invariant
            av.len() == bv.len(),
            av@ == a@,
            bv@ == b@,
            i <= av.len(),
            forall|k: int| 0 <= k < i ==> ascii_lower(#[trigger] av@[k]) == ascii_lower(bv@[k]),
        decreases av.len() - i,
    {
        if to_ascii_lower(av[i]) != to_ascii_lower(bv[i]) {
            return false;
        }
        i += 1;
    }
    true
}

/// `s.starts_with(prefix)`.
pub fn starts_with(s: &str, prefix: &str) -> (r: bool)
    ensures
        r == (prefix@.len() <= s@.len() && s@.subrange(0, prefix@.len() as int) == prefix@),
{
    let sv = chars_of(s);
    let pv = chars_of(prefix);
    if pv.len() > sv.len() {
        return false;
    }
    let mut i: usize = 0;
    while i < pv.len()
        invariant
            pv.len() <= sv.len(),
            sv@ == s@,
            pv@ == prefix@,
            i <= pv.len(),
            forall|k: int| 0 <= k < i ==> sv@[k] == pv@[k],
        decreases pv.len() - i,
    {
        if sv[i] != pv[i] {
            assert(s@.subrange(0, prefix@.len() as int)[i as int] != prefix@[i as int]);
            return false;
        }
        i += 1;
    }
    assert(s@.subrange(0, prefix@.len() as int) =~= prefix@);
    true
}

/// `str::trim`.
pub fn trim(s: &str) -> (r: String)
    ensures
        r@ == trim_spec(s@),
{
    let v = chars_of(s);
    let mut i: usize = 0;
    while i < v.len() && is_whitespace(v[i])
        invariant
            v@ == s@,
            i <= v.len(),
            forall|k: int| 0 <= k < i ==> is_unicode_ws(#[trigger] v@[k]),
        decreases v.len() - i,
    {
        i += 1;
    }
    proof {
        lemma_first_non_ws_char(s@, i as int);
    }
    let mut j: usize = v.len();
    while j > i && is_whitespace(v[j - 1])
        invariant
            v@ == s@,
            i <= j <= v.len(),
            forall|k: int| j <= k < v.len() ==> is_unicode_ws(#[trigger] v@[k]),
        decreases j,
    {
        j -= 1;
    }
    proof {
        if j == i && i < v.len() {
            assert(!is_unicode_ws(v@[i as int]));
            assert(false);
        }
        if j > i {
            lemma_last_non_ws_char(s@, j as int);
        } else {
            // Only whitespace: the last non-whitespace end is 0.
            assert(forall|k: int| 0 <= k < v.len() ==> is_unicode_ws(#[trigger] v@[k]));
            lemma_last_non_ws_char(s@, 0);
        }
    }
    string_from_range(&v, i, j)
}

/// Whether `want` is one of the tokens of `s` split at ASCII whitespace
/// (`s.split_ascii_whitespace().any(|t| t == want)`).
pub fn contains_ascii_ws_token(s: &str, want: &str) -> (r: bool)
    ensures
        r == has_ascii_ws_token(s@, want@),
{
    let v = chars_of(s);
    let w = chars_of(want);
    let n = v.len();
    let mut i: usize = 0;
    while i < n
        invariant
            v@ == s@,
            w@ == want@,
            n == v.len(),
            i <= n,
            i == 0 || i == n || is_ascii_ws(v@[i - 1]) || is_ascii_ws(v@[i as int]),
            forall|a: int, b: int|
                #![trigger s@.subrange(a, b)]
                is_token_at(s@, a, b, |c: char| is_ascii_ws(c)) && a < i ==> s@.subrange(a, b) != want@,
        decreases n - i,
    {
        if is_ascii_whitespace(v[i]) {
            i += 1;
        } else {
            // v[i] starts a token: find its end.
            let start = i;
            let mut j = i;
            while j < n && !is_ascii_whitespace(v[j])
                invariant
                    v@ == s@,
                    n == v.len(),
                    start <= j <= n,
                    forall|k: int| start <= k < j ==> !is_ascii_ws(#[trigger] v@[k]),
                decreases n - j,
            {
                j += 1;
            }
            proof {
                if start > 0 {
                    assert(is_ascii_ws(v@[start - 1]));
                }
                assert(is_token_at(s@, start as int, j as int, |c: char| is_ascii_ws(c)));
            }
            if j - start == w.len() {
                let mut k: usize = 0;
                while k < w.len() && v[start + k] == w[k]
                    invariant
                        v@ == s@,
                        w@ == want@,
                        n == v.len(),
                        start <= j <= n,
                        j - start == w.len(),
                        k <= w.len(),
                        forall|m: int| 0 <= m < k ==> v@[start + m] == w@[m],
                    decreases w.len() - k,
                {
                    k += 1;
                }
                if k == w.len() {
                    proof {
                        assert(s@.subrange(start as int, j as int) =~= want@);
                    }
                    return true;
                }
                proof {
                    assert(s@.subrange(start as int, j as int)[k as int] != want@[k as int]);
                }
            }
            proof {
                assert(s@.subrange(start as int, j as int) != want@);
                assert forall|a: int, b: int|
                    is_token_at(s@, a, b, |c: char| is_ascii_ws(c)) && a < j implies #[trigger] s@.subrange(a, b) != want@ by {
                    if a >= start && a < j {
                        // The only token starting inside [start, j) is the one at `start`.
                        if a > start {
                            assert(!is_ascii_ws(v@[a - 1]));
                        }
                        if b < j {
                            assert(!is_ascii_ws(v@[b]));
                        }
                        if b > j {
                            assert(!is_ascii_ws(v@[j as int]));
                        }
                        assert(a == start && b == j);
                    }
                }
            }
            i = j;
        }
    }
    proof {
        assert forall|a: int, b: int| is_token_at(s@, a, b, |c: char| is_ascii_ws(c)) implies #[trigger] s@.subrange(a, b) != want@ by {
            assert(a < i);
        }
    }
    false
}

/// The first token of `s` split at Unicode whitespace, when there is one
/// (`s.split_whitespace().next()`).
pub fn first_whitespace_token(s: &str) -> (r: Option<String>)
    ensures
        match r {
            Some(t) => first_ws_token(s@) == Some(t@),
            None => first_ws_token(s@) is None,
        },
{
    let v = chars_of(s);
    let mut i: usize = 0;
    while i < v.len() && is_whitespace(v[i])
        invariant
            v@ == s@,
            i <= v.len(),
            forall|k: int| 0 <= k < i ==> is_unicode_ws(#[trigger] v@[k]),
        decreases v.len() - i,
    {
        i += 1;
    }
    proof {
        lemma_first_non_ws_char(s@, i as int);
    }
    if i == v.len() {
        proof {
            assert(!has_non_ws(s@));
        }
        return None;
    }
    let mut j: usize = i;
    while j < v.len() && !is_whitespace(v[j])
        invariant
            v@ == s@,
            i <= j <= v.len(),
            forall|k: int| i <= k < j ==> !is_unicode_ws(#[trigger] v@[k]),
        decreases v.len() - j,
    {
        j += 1;
    }
    proof {
        assert(has_non_ws(s@)) by {
            assert(!is_unicode_ws(s@[i as int]));
        }
        let rest = s@.skip(i as int);
        assert forall|k: int| 0 <= k < j - i implies !is_unicode_ws(#[trigger] rest[k]) by {
            assert(rest[k] == s@[i + k]);
        }
        if j < v.len() {
            assert(rest[j - i] == s@[j as int]);
        }
        lemma_first_ws_index(rest, j - i);
    }
    Some(string_from_range(&v, i, j))
}

/// Lexicographic comparison of two strings' characters.
pub fn str_lt(a: &str, b: &str) -> (r: bool)
    ensures
        r == seq_lt(a@, b@),
{
    let av = chars_of(a);
    let bv = chars_of(b);
    let mut i: usize = 0;
    proof {
        assert(a@.skip(0) =~= a@);
        assert(b@.skip(0) =~= b@);
    }
    while i < av.len() && i < bv.len() && av[i] == bv[i]
        invariant
            av@ == a@,
            bv@ == b@,
            i <= av.len(),
            i <= bv.len(),
            seq_lt(a@, b@) == seq_lt(a@.skip(i as int), b@.skip(i as int)),
        decreases av.len() - i,
    {
        proof {
            let sa = a@.skip(i as int);
            let sb = b@.skip(i as int);
            assert(sa.drop_first() =~= a@.skip(i + 1));
            assert(sb.drop_first() =~= b@.skip(i + 1));
        }
        i += 1;
    }
    proof {
        let sa = a@.skip(i as int);
        let sb = b@.skip(i as int);
        if i < av.len() && i < bv.len() {
            assert(sa[0] == a@[i as int]);
            assert(sb[0] == b@[i as int]);
        }
    }
    if i == av.len() {
        i < bv.len()
    } else if i == bv.len() {
        false
    } else {
        av[i] < bv[i]
    }
}

} // verus!
