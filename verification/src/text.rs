//! Character-level text primitives.
//!
//! Every tokenisation rule of the engine (line splitting, trimming,
//! substring search, whitespace tokens, decimal parsing and rendering)
//! is built from the verified helpers in this module.  Specifications are
//! stated over `Seq<char>`, the view of `&str` and `String`.

use vstd::prelude::*;
use vstd::string::StrSliceExecFns;
use vstd::string::StringExecFns;

verus! {

/// Narrow whitespace class used by every tokenisation rule in this crate.
pub open spec fn is_ws(c: char) -> bool {
    c == ' ' || c == '\t' || c == '\r' || c == '\n'
}

/// `pat` occurs in `s` starting exactly at position `i`.
pub open spec fn spec_match_at(s: Seq<char>, i: int, pat: Seq<char>) -> bool {
    0 <= i && i + pat.len() <= s.len() && s.subrange(i, i + pat.len()) == pat
}

/// `pat` occurs somewhere in `s`.
pub open spec fn spec_contains(s: Seq<char>, pat: Seq<char>) -> bool {
    exists|i: int| spec_match_at(s, i, pat)
}

/// `s` begins with `pat`.
pub open spec fn spec_starts_with(s: Seq<char>, pat: Seq<char>) -> bool {
    spec_match_at(s, 0, pat)
}

/// Equality of two string slices, decided character by character.
pub fn str_eq(a: &str, b: &str) -> (r: bool)
    ensures
        r == (a@ == b@),
{
    let n = a.unicode_len();
    if n != b.unicode_len() {
        return false;
    }
    let mut i: usize = 0;
    while i < n
        invariant
            n == a@.len(),
            n == b@.len(),
            0 <= i <= n,
            forall|k: int| 0 <= k < i ==> a@[k] == b@[k],
        decreases n - i,
    {
        if a.get_char(i) != b.get_char(i) {
            return false;
        }
        i += 1;
    }
    proof {
        assert(a@ =~= b@);
    }
    true
}

/// Does `pat` occur in `s` at exactly position `i`?
pub fn match_at(s: &str, i: usize, pat: &str) -> (r: bool)
    ensures
        r == spec_match_at(s@, i as int, pat@),
{
    let n = s.unicode_len();
    let m = pat.unicode_len();
    if i > n || m > n - i {
        return false;
    }
    let mut k: usize = 0;
    while k < m
        invariant
            n == s@.len(),
            m == pat@.len(),
            i + m <= n,
            0 <= k <= m,
            forall|t: int| 0 <= t < k ==> s@[i + t] == pat@[t],
        decreases m - k,
    {
        if s.get_char(i + k) != pat.get_char(k) {
            proof {
                if spec_match_at(s@, i as int, pat@) {
                    assert(s@.subrange(i as int, i + pat@.len())[k as int] == pat@[k as int]);
                }
            }
            return false;
        }
        k += 1;
    }
    proof {
        assert(s@.subrange(i as int, i + pat@.len()) =~= pat@);
    }
    true
}

/// First position `>= from` holding the character `c`; the length of `s`
/// when there is none.
pub fn find_char_from(s: &str, from: usize, c: char) -> (j: usize)
    requires
        from <= s@.len(),
    ensures
        from <= j <= s@.len(),
        forall|k: int| from <= k < j ==> s@[k] != c,
        j < s@.len() ==> s@[j as int] == c,
{
    let n = s.unicode_len();
    let mut j = from;
    while j < n
        invariant
            from <= j <= n,
            n == s@.len(),
            forall|k: int| from <= k < j ==> s@[k] != c,
        decreases n - j,
    {
        if s.get_char(j) == c {
            return j;
        }
        j += 1;
    }
    j
}

/// First position `>= from` where `pat` occurs, if any.
pub fn find_sub_from(s: &str, from: usize, pat: &str) -> (r: Option<usize>)
    requires
        from <= s@.len(),
    ensures
        match r {
            Some(j) => from <= j && spec_match_at(s@, j as int, pat@) && forall|k: int|
                from <= k < j ==> !spec_match_at(s@, k, pat@),
            None => forall|k: int| from <= k ==> !spec_match_at(s@, k, pat@),
        },
{
    let n = s.unicode_len();
    let mut j = from;
    while j < n
        invariant
            from <= j <= n,
            n == s@.len(),
            forall|k: int| from <= k < j ==> !spec_match_at(s@, k, pat@),
        decreases n - j,
    {
        if match_at(s, j, pat) {
            return Some(j);
        }
        j += 1;
    }
    if match_at(s, n, pat) {
        return Some(n);
    }
    None
}

/// Does `pat` occur anywhere in `s`?
pub fn contains_sub(s: &str, pat: &str) -> (r: bool)
    ensures
        r == spec_contains(s@, pat@),
{
    match find_sub_from(s, 0, pat) {
        Some(_) => true,
        None => false,
    }
}

/// Does `s` begin with `pat`?
pub fn starts_with(s: &str, pat: &str) -> (r: bool)
    ensures
        r == spec_starts_with(s@, pat@),
{
    match_at(s, 0, pat)
}

/// The characters of `s` between positions `from` and `to`, as an owned
/// string.
pub fn substr_string(s: &str, from: usize, to: usize) -> (r: String)
    requires
        from <= to <= s@.len(),
    ensures
        r@ == s@.subrange(from as int, to as int),
{
    let sub = s.substring_char(from, to);
    String::from_str(sub)
}

/// Position of the first occurrence of `c` in `s`, or `-1` when absent.
pub open spec fn spec_find_char(s: Seq<char>, c: char) -> int
    decreases s.len(),
{
    if s.len() == 0 {
        -1
    } else if s[0] == c {
        0
    } else {
        let r = spec_find_char(s.drop_first(), c);
        if r == -1 {
            -1
        } else {
            r + 1
        }
    }
}

/// A scan that saw no `c` before `j`, and `c` at `j` unless `j` is the
/// length, determines `spec_find_char`.
pub proof fn lemma_find_char_witness(s: Seq<char>, c: char, j: int)
    requires
        0 <= j <= s.len(),
        forall|k: int| 0 <= k < j ==> s[k] != c,
        j < s.len() ==> s[j] == c,
    ensures
        spec_find_char(s, c) == if j == s.len() {
            -1
        } else {
            j
        },
    decreases s.len(),
{
    if s.len() == 0 {
    } else if s[0] == c {
        assert(j == 0);
    } else {
        assert(j >= 1);
        lemma_find_char_witness(s.drop_first(), c, j - 1);
    }
}

/// A line with a trailing carriage return loses it.
pub open spec fn spec_strip_cr(l: Seq<char>) -> Seq<char> {
    if l.len() > 0 && l[l.len() - 1] == '\r' {
        l.drop_last()
    } else {
        l
    }
}

/// Splits `s` at `'\n'`, accumulating the current line in `cur`; each
/// finished line loses a trailing `'\r'`, and a final newline does not
/// open an empty last line.
pub open spec fn spec_lines_go(s: Seq<char>, cur: Seq<char>) -> Seq<Seq<char>>
    decreases s.len(),
{
    if s.len() == 0 {
        if cur.len() == 0 {
            Seq::empty()
        } else {
            seq![spec_strip_cr(cur)]
        }
    } else if s[0] == '\n' {
        seq![spec_strip_cr(cur)] + spec_lines_go(s.drop_first(), Seq::empty())
    } else {
        spec_lines_go(s.drop_first(), cur.push(s[0]))
    }
}

/// The lines of `s`, in order.
pub open spec fn spec_lines(s: Seq<char>) -> Seq<Seq<char>> {
    spec_lines_go(s, Seq::empty())
}

/// Splitting can consume a whole newline-free segment at once.
proof fn lemma_lines_go_advance(s: Seq<char>, cur: Seq<char>, j: int)
    requires
        0 <= j <= s.len(),
        forall|k: int| 0 <= k < j ==> s[k] != '\n',
        j < s.len() ==> s[j] == '\n',
    ensures
        spec_lines_go(s, cur) == if j == s.len() {
            if cur.len() + s.len() == 0 {
                Seq::<Seq<char>>::empty()
            } else {
                seq![spec_strip_cr(cur + s)]
            }
        } else {
            seq![spec_strip_cr(cur + s.take(j))] + spec_lines_go(s.skip(j + 1), Seq::empty())
        },
    decreases s.len(),
{
    if s.len() == 0 {
        assert(cur + s =~= cur);
    } else if j == 0 {
        assert(s[0] == '\n');
        assert(cur + s.take(0) =~= cur);
        assert(s.skip(1) =~= s.drop_first());
    } else {
        assert(s[0] != '\n');
        lemma_lines_go_advance(s.drop_first(), cur.push(s[0]), j - 1);
        assert(cur.push(s[0]) + s.drop_first() =~= cur + s);
        assert(cur.push(s[0]) + s.drop_first().take(j - 1) =~= cur + s.take(j));
        if j < s.len() {
            assert(s.drop_first().skip(j) =~= s.skip(j + 1));
        }
    }
}

/// The lines of `s`, each as an owned string.
#[verifier::rlimit(30)]
pub fn split_lines(s: &str) -> (r: Vec<String>)
    ensures
        r.deep_view() == spec_lines(s@),
{
    let n = s.unicode_len();
    let mut out: Vec<String> = Vec::new();
    let mut i: usize = 0;
    proof {
        assert(s@.skip(0) =~= s@);
    }
    while i < n
        invariant
            0 <= i <= n,
            n == s@.len(),
            out.deep_view() + spec_lines_go(s@.skip(i as int), Seq::empty()) == spec_lines(s@),
        decreases n - i,
    {
        let ghost prev = out.deep_view();
        let j = find_char_from(s, i, '\n');
        let end = if j > i && s.get_char(j - 1) == '\r' {
            j - 1
        } else {
            j
        };
        let piece = substr_string(s, i, end);
        proof {
            let rest = s@.skip(i as int);
            lemma_lines_go_advance(rest, Seq::empty(), j - i);
            if j == n {
                assert(Seq::<char>::empty() + rest =~= s@.subrange(i as int, n as int));
                assert(spec_strip_cr(s@.subrange(i as int, n as int)) =~= s@.subrange(
                    i as int,
                    end as int,
                ));
            } else {
                assert(Seq::<char>::empty() + rest.take(j - i) =~= s@.subrange(i as int, j as int));
                assert(spec_strip_cr(s@.subrange(i as int, j as int)) =~= s@.subrange(
                    i as int,
                    end as int,
                ));
                assert(rest.skip(j - i + 1) =~= s@.skip(j + 1));
            }
        }
        out.push(piece);
        proof {
            assert(out.deep_view() =~= prev.push(s@.subrange(i as int, end as int)));
        }
        if j < n {
            i = j + 1;
        } else {
            i = n;
            proof {
                assert(s@.skip(n as int).len() == 0);
            }
        }
    }
    proof {
        assert(spec_lines_go(s@.skip(n as int), Seq::empty()) =~= Seq::<Seq<char>>::empty());
        assert(out.deep_view() =~= spec_lines(s@));
    }
    out
}

/// `s` without leading and trailing whitespace.
pub open spec fn spec_trim(s: Seq<char>) -> Seq<char>
    decreases s.len(),
{
    if s.len() == 0 {
        s
    } else if is_ws(s[0]) {
        spec_trim(s.drop_first())
    } else if is_ws(s[s.len() - 1]) {
        spec_trim(s.drop_last())
    } else {
        s
    }
}

/// Bounds that skip exactly the whitespace at both ends determine the
/// trimmed string.
proof fn lemma_trim_bounds(s: Seq<char>, a: int, b: int)
    requires
        0 <= a <= b <= s.len(),
        forall|k: int| 0 <= k < a ==> is_ws(s[k]),
        forall|k: int| b <= k < s.len() ==> is_ws(s[k]),
        a < b ==> !is_ws(s[a]) && !is_ws(s[b - 1]),
    ensures
        spec_trim(s) == s.subrange(a, b),
    decreases s.len(),
{
    if s.len() == 0 {
        assert(s.subrange(0, 0) =~= s);
    } else if is_ws(s[0]) {
        if a == 0 {
            assert(b == 0);
            lemma_trim_bounds(s.drop_first(), 0, 0);
            assert(s.drop_first().subrange(0, 0) =~= s.subrange(0, 0));
        } else {
            lemma_trim_bounds(s.drop_first(), a - 1, b - 1);
            assert(s.drop_first().subrange(a - 1, b - 1) =~= s.subrange(a, b));
        }
    } else if is_ws(s[s.len() - 1]) {
        assert(b < s.len());
        lemma_trim_bounds(s.drop_last(), a, b);
        assert(s.drop_last().subrange(a, b) =~= s.subrange(a, b));
    } else {
        assert(a == 0);
        assert(b == s.len());
        assert(s.subrange(0, s.len() as int) =~= s);
    }
}

/// Is `c` in the narrow whitespace class?
pub fn is_ws_char(c: char) -> (r: bool)
    ensures
        r == is_ws(c),
{
    c == ' ' || c == '\t' || c == '\r' || c == '\n'
}

/// `s` without leading and trailing whitespace, as an owned string.
pub fn trim_str(s: &str) -> (r: String)
    ensures
        r@ == spec_trim(s@),
{
    let n = s.unicode_len();
    let mut a: usize = 0;
    while a < n && is_ws_char(s.get_char(a))
        invariant
            0 <= a <= n,
            n == s@.len(),
            forall|k: int| 0 <= k < a ==> is_ws(s@[k]),
        decreases n - a,
    {
        a += 1;
    }
    let mut b = n;
    while b > a && is_ws_char(s.get_char(b - 1))
        invariant
            a <= b <= n,
            n == s@.len(),
            forall|k: int| b <= k < n ==> is_ws(s@[k]),
        decreases b,
    {
        b -= 1;
    }
    proof {
        lemma_trim_bounds(s@, a as int, b as int);
    }
    substr_string(s, a, b)
}

/// Length of the leading whitespace-free run of `s`.
pub open spec fn spec_nonws_len(s: Seq<char>) -> nat
    decreases s.len(),
{
    if s.len() > 0 && !is_ws(s[0]) {
        1 + spec_nonws_len(s.drop_first())
    } else {
        0
    }
}

/// The first whitespace-delimited token of `s`; empty when there is none.
pub open spec fn spec_first_token(s: Seq<char>) -> Seq<char>
    decreases s.len(),
{
    if s.len() == 0 {
        s
    } else if is_ws(s[0]) {
        spec_first_token(s.drop_first())
    } else {
        s.take(spec_nonws_len(s) as int)
    }
}

pub proof fn lemma_nonws_len_le(s: Seq<char>)
    ensures
        spec_nonws_len(s) <= s.len(),
        forall|k: int| 0 <= k < spec_nonws_len(s) ==> !is_ws(s[k]),
        spec_nonws_len(s) < s.len() ==> is_ws(s[spec_nonws_len(s) as int]),
    decreases s.len(),
{
    if s.len() > 0 && !is_ws(s[0]) {
        lemma_nonws_len_le(s.drop_first());
        assert forall|k: int| 0 <= k < spec_nonws_len(s) implies !is_ws(s[k]) by {
            if k > 0 {
                assert(!is_ws(s.drop_first()[k - 1]));
            }
        }
    }
}

/// All whitespace-delimited tokens of `s`, in order.
pub open spec fn spec_tokens(s: Seq<char>) -> Seq<Seq<char>>
    decreases s.len(),
    via spec_tokens_decreases
{
    if s.len() == 0 {
        Seq::empty()
    } else if is_ws(s[0]) {
        spec_tokens(s.drop_first())
    } else {
        seq![s.take(spec_nonws_len(s) as int)] + spec_tokens(s.skip(spec_nonws_len(s) as int))
    }
}

#[via_fn]
proof fn spec_tokens_decreases(s: Seq<char>) {
    lemma_nonws_len_le(s);
}

/// Tokenisation ignores a leading run of whitespace.
proof fn lemma_ws_prefix(s: Seq<char>, a: int)
    requires
        0 <= a <= s.len(),
        forall|k: int| 0 <= k < a ==> is_ws(s[k]),
    ensures
        spec_tokens(s) == spec_tokens(s.skip(a)),
        spec_first_token(s) == spec_first_token(s.skip(a)),
    decreases a,
{
    if a == 0 {
        assert(s.skip(0) =~= s);
    } else {
        assert(is_ws(s[0]));
        lemma_ws_prefix(s.drop_first(), a - 1);
        assert(s.drop_first().skip(a - 1) =~= s.skip(a));
    }
}

/// A scan that saw no whitespace before `m`, and whitespace at `m` unless
/// `m` is the length, determines the leading run.
proof fn lemma_nonws_witness(s: Seq<char>, m: int)
    requires
        0 <= m <= s.len(),
        forall|k: int| 0 <= k < m ==> !is_ws(s[k]),
        m < s.len() ==> is_ws(s[m]),
    ensures
        spec_nonws_len(s) == m,
    decreases s.len(),
{
    if m == 0 {
    } else {
        assert(!is_ws(s[0]));
        lemma_nonws_witness(s.drop_first(), m - 1);
    }
}

/// The first whitespace-delimited token of `s`, as an owned string.
pub fn first_token(s: &str) -> (r: String)
    ensures
        r@ == spec_first_token(s@),
{
    let n = s.unicode_len();
    let mut a: usize = 0;
    while a < n && is_ws_char(s.get_char(a))
        invariant
            0 <= a <= n,
            n == s@.len(),
            forall|k: int| 0 <= k < a ==> is_ws(s@[k]),
        decreases n - a,
    {
        a += 1;
    }
    let mut b = a;
    while b < n && !is_ws_char(s.get_char(b))
        invariant
            a <= b <= n,
            n == s@.len(),
            forall|k: int| a <= k < b ==> !is_ws(s@[k]),
        decreases n - b,
    {
        b += 1;
    }
    proof {
        lemma_ws_prefix(s@, a as int);
        let rest = s@.skip(a as int);
        lemma_nonws_witness(rest, b - a);
        assert(rest.take(b - a) =~= s@.subrange(a as int, b as int));
    }
    substr_string(s, a, b)
}

/// All whitespace-delimited tokens of `s`, each as an owned string.
pub fn tokens(s: &str) -> (r: Vec<String>)
    ensures
        r.deep_view() == spec_tokens(s@),
{
    let n = s.unicode_len();
    let mut out: Vec<String> = Vec::new();
    let mut i: usize = 0;
    proof {
        assert(s@.skip(0) =~= s@);
    }
    while i < n
        invariant
            0 <= i <= n,
            n == s@.len(),
            out.deep_view() + spec_tokens(s@.skip(i as int)) == spec_tokens(s@),
        decreases n - i,
    {
        let ghost prev = out.deep_view();
        let mut a = i;
        while a < n && is_ws_char(s.get_char(a))
            invariant
                i <= a <= n,
                n == s@.len(),
                forall|k: int| i <= k < a ==> is_ws(s@[k]),
            decreases n - a,
        {
            a += 1;
        }
        if a == n {
            proof {
                lemma_ws_prefix(s@.skip(i as int), a - i);
                assert(s@.skip(i as int).skip(a - i) =~= s@.skip(n as int));
                assert(spec_tokens(s@.skip(n as int)) =~= Seq::<Seq<char>>::empty());
            }
            i = n;
        } else {
            let mut b = a;
            while b < n && !is_ws_char(s.get_char(b))
                invariant
                    a <= b <= n,
                    n == s@.len(),
                    forall|k: int| a <= k < b ==> !is_ws(s@[k]),
                decreases n - b,
            {
                b += 1;
            }
            let piece = substr_string(s, a, b);
            proof {
                lemma_ws_prefix(s@.skip(i as int), a - i);
                assert(s@.skip(i as int).skip(a - i) =~= s@.skip(a as int));
                let rest = s@.skip(a as int);
                lemma_nonws_witness(rest, b - a);
                assert(rest.take(b - a) =~= s@.subrange(a as int, b as int));
                assert(rest.skip(b - a) =~= s@.skip(b as int));
            }
            out.push(piece);
            proof {
                assert(out.deep_view() =~= prev.push(s@.subrange(a as int, b as int)));
                assert(prev.push(s@.subrange(a as int, b as int)) + spec_tokens(s@.skip(b as int))
                    =~= prev + (seq![s@.subrange(a as int, b as int)] + spec_tokens(
                    s@.skip(b as int),
                )));
            }
            i = b;
        }
    }
    proof {
        assert(spec_tokens(s@.skip(n as int)) =~= Seq::<Seq<char>>::empty());
        assert(out.deep_view() =~= spec_tokens(s@));
    }
    out
}

/// Strict lexicographic order on character sequences, by code point.
pub open spec fn spec_lex_lt(a: Seq<char>, b: Seq<char>) -> bool
    decreases a.len(),
{
    if b.len() == 0 {
        false
    } else if a.len() == 0 {
        true
    } else if a[0] != b[0] {
        (a[0] as int) < (b[0] as int)
    } else {
        spec_lex_lt(a.drop_first(), b.drop_first())
    }
}

/// Any two character sequences are ordered or equal.
pub proof fn lemma_lex_trichotomy(a: Seq<char>, b: Seq<char>)
    ensures
        spec_lex_lt(a, b) || spec_lex_lt(b, a) || a == b,
    decreases a.len(),
{
    if b.len() == 0 || a.len() == 0 || a[0] != b[0] {
        if a.len() == 0 && b.len() == 0 {
            assert(a =~= b);
        }
    } else {
        lemma_lex_trichotomy(a.drop_first(), b.drop_first());
        if a.drop_first() == b.drop_first() {
            assert(a.len() == b.len()) by {
                assert(a.drop_first().len() == b.drop_first().len());
            }
            assert forall|k: int| 0 <= k < a.len() implies a[k] == b[k] by {
                if k >= 1 {
                    assert(a[k] == a.drop_first()[k - 1]);
                    assert(b[k] == b.drop_first()[k - 1]);
                }
            }
            assert(a =~= b);
        }
    }
}

/// The order is asymmetric, hence irreflexive.
pub proof fn lemma_lex_asym(a: Seq<char>, b: Seq<char>)
    requires
        spec_lex_lt(a, b),
    ensures
        !spec_lex_lt(b, a),
        a != b,
    decreases a.len(),
{
    if b.len() == 0 || a.len() == 0 || a[0] != b[0] {
    } else {
        lemma_lex_asym(a.drop_first(), b.drop_first());
        assert(a != b) by {
            if a == b {
                assert(a.drop_first() =~= b.drop_first());
            }
        }
    }
}

/// The order is transitive.
pub proof fn lemma_lex_trans(a: Seq<char>, b: Seq<char>, c: Seq<char>)
    requires
        spec_lex_lt(a, b),
        spec_lex_lt(b, c),
    ensures
        spec_lex_lt(a, c),
    decreases a.len(),
{
    if a.len() == 0 || b.len() == 0 || c.len() == 0 {
    } else if a[0] == b[0] && b[0] == c[0] {
        lemma_lex_trans(a.drop_first(), b.drop_first(), c.drop_first());
    }
}

/// A shared prefix does not affect the order of the remainders.
proof fn lemma_lex_skip(a: Seq<char>, b: Seq<char>, i: int)
    requires
        0 <= i <= a.len(),
        i <= b.len(),
        forall|k: int| 0 <= k < i ==> a[k] == b[k],
    ensures
        spec_lex_lt(a, b) == spec_lex_lt(a.skip(i), b.skip(i)),
    decreases i,
{
    if i > 0 {
        assert(a.len() > 0 && b.len() > 0 && a[0] == b[0]);
        lemma_lex_skip(a.drop_first(), b.drop_first(), i - 1);
        assert(a.drop_first().skip(i - 1) =~= a.skip(i));
        assert(b.drop_first().skip(i - 1) =~= b.skip(i));
    } else {
        assert(a.skip(0) =~= a);
        assert(b.skip(0) =~= b);
    }
}

/// Is `a` strictly before `b` in lexicographic (code point) order?
pub fn str_lt(a: &str, b: &str) -> (r: bool)
    ensures
        r == spec_lex_lt(a@, b@),
{
    let n = a.unicode_len();
    let m = b.unicode_len();
    let mut i: usize = 0;
    while i < n && i < m
        invariant
            n == a@.len(),
            m == b@.len(),
            0 <= i <= n,
            i <= m,
            forall|k: int| 0 <= k < i ==> a@[k] == b@[k],
        decreases n - i,
    {
        let ca = a.get_char(i);
        let cb = b.get_char(i);
        if ca != cb {
            proof {
                lemma_lex_skip(a@, b@, i as int);
            }
            return (ca as u32) < (cb as u32);
        }
        i += 1;
    }
    proof {
        lemma_lex_skip(a@, b@, i as int);
    }
    n < m
}

/// The elements of `l` joined by `sep`.
pub open spec fn spec_join(l: Seq<Seq<char>>, sep: Seq<char>) -> Seq<char>
    decreases l.len(),
{
    if l.len() == 0 {
        Seq::empty()
    } else if l.len() == 1 {
        l[0]
    } else {
        l[0] + sep + spec_join(l.drop_first(), sep)
    }
}

/// Joining grows one trailing element at a time.
proof fn lemma_join_push(l: Seq<Seq<char>>, sep: Seq<char>, x: Seq<char>)
    ensures
        spec_join(l.push(x), sep) == if l.len() == 0 {
            x
        } else {
            spec_join(l, sep) + sep + x
        },
    decreases l.len(),
{
    if l.len() == 0 {
        assert(l.push(x)[0] == x);
    } else if l.len() == 1 {
        assert(l.push(x).drop_first() =~= seq![x]);
        assert(spec_join(seq![x], sep) == x);
    } else {
        lemma_join_push(l.drop_first(), sep, x);
        assert(l.push(x).drop_first() =~= l.drop_first().push(x));
        assert(l.push(x)[0] == l[0]);
        assert(l[0] + sep + (spec_join(l.drop_first(), sep) + sep + x) =~= (l[0] + sep
            + spec_join(l.drop_first(), sep)) + sep + x);
    }
}

/// The elements of `list` joined by `sep`, as an owned string.
pub fn join_with(list: &Vec<String>, sep: &str) -> (r: String)
    ensures
        r@ == spec_join(list.deep_view(), sep@),
{
    let mut out = String::new();
    let mut i: usize = 0;
    proof {
        assert(list.deep_view().take(0) =~= Seq::<Seq<char>>::empty());
    }
    while i < list.len()
        invariant
            0 <= i <= list.len(),
            out@ == spec_join(list.deep_view().take(i as int), sep@),
        decreases list.len() - i,
    {
        if i > 0 {
            out.append(sep);
        }
        out.append(list[i].as_str());
        proof {
            lemma_join_push(list.deep_view().take(i as int), sep@, list.deep_view()[i as int]);
            assert(list.deep_view().take(i + 1) =~= list.deep_view().take(i as int).push(
                list.deep_view()[i as int],
            ));
        }
        i += 1;
    }
    proof {
        assert(list.deep_view().take(list.len() as int) =~= list.deep_view());
    }
    out
}

/// The character of a single decimal digit.
pub open spec fn spec_digit_char(d: int) -> char {
    if d == 0 {
        '0'
    } else if d == 1 {
        '1'
    } else if d == 2 {
        '2'
    } else if d == 3 {
        '3'
    } else if d == 4 {
        '4'
    } else if d == 5 {
        '5'
    } else if d == 6 {
        '6'
    } else if d == 7 {
        '7'
    } else if d == 8 {
        '8'
    } else {
        '9'
    }
}

/// The decimal digits of a non-negative number, most significant first.
pub open spec fn spec_dec_digits(n: int) -> Seq<char>
    decreases n,
{
    if n < 10 {
        seq![spec_digit_char(n)]
    } else {
        spec_dec_digits(n / 10).push(spec_digit_char(n % 10))
    }
}

/// One decimal digit as a string slice.
fn digit_str(d: u64) -> (r: &'static str)
    requires
        d < 10,
    ensures
        r@ == seq![spec_digit_char(d as int)],
{
    let r = if d == 0 {
        "0"
    } else if d == 1 {
        "1"
    } else if d == 2 {
        "2"
    } else if d == 3 {
        "3"
    } else if d == 4 {
        "4"
    } else if d == 5 {
        "5"
    } else if d == 6 {
        "6"
    } else if d == 7 {
        "7"
    } else if d == 8 {
        "8"
    } else {
        "9"
    };
    proof {
        reveal_strlit("0");
        reveal_strlit("1");
        reveal_strlit("2");
        reveal_strlit("3");
        reveal_strlit("4");
        reveal_strlit("5");
        reveal_strlit("6");
        reveal_strlit("7");
        reveal_strlit("8");
        reveal_strlit("9");
        assert(r@ =~= seq![spec_digit_char(d as int)]);
    }
    r
}

/// The decimal rendering of `n`.
pub fn dec_string(n: u64) -> (r: String)
    ensures
        r@ == spec_dec_digits(n as int),
    decreases n,
{
    if n < 10 {
        String::from_str(digit_str(n))
    } else {
        let mut s = dec_string(n / 10);
        s.append(digit_str(n % 10));
        proof {
            assert(s@ =~= spec_dec_digits(n as int / 10).push(spec_digit_char(n as int % 10)));
        }
        s
    }
}

/// An element-wise copy of a vector of strings.
pub fn dup_str_vec(v: &Vec<String>) -> (r: Vec<String>)
    ensures
        r.deep_view() == v.deep_view(),
{
    let mut out: Vec<String> = Vec::new();
    let mut i: usize = 0;
    proof {
        assert(out.deep_view() =~= v.deep_view().take(0));
    }
    while i < v.len()
        invariant
            0 <= i <= v.len(),
            out.deep_view() == v.deep_view().take(i as int),
        decreases v.len() - i,
    {
        let ghost prev = out.deep_view();
        let c = v[i].clone();
        proof {
            assert(c@ == v.deep_view()[i as int]);
        }
        out.push(c);
        proof {
            assert(out.deep_view() =~= prev.push(v.deep_view()[i as int]));
            assert(prev.push(v.deep_view()[i as int]) =~= v.deep_view().take(i + 1));
        }
        i += 1;
    }
    proof {
        assert(v.deep_view().take(v.len() as int) =~= v.deep_view());
    }
    out
}

/// Does the vector hold a string whose view is `s@`?
pub fn vec_contains_str(v: &Vec<String>, s: &str) -> (r: bool)
    ensures
        r == v.deep_view().contains(s@),
{
    let mut i: usize = 0;
    while i < v.len()
        invariant
            0 <= i <= v.len(),
            forall|k: int| 0 <= k < i ==> v.deep_view()[k] != s@,
        decreases v.len() - i,
    {
        if str_eq(v[i].as_str(), s) {
            proof {
                assert(v.deep_view()[i as int] == s@);
            }
            return true;
        }
        i += 1;
    }
    proof {
        if v.deep_view().contains(s@) {
            let k = choose|k: int| 0 <= k < v.deep_view().len() && v.deep_view()[k] == s@;
            assert(v.deep_view()[k] != s@);
        }
    }
    false
}

/// Is `c` a decimal digit?
pub open spec fn spec_is_digit(c: char) -> bool {
    48 <= c as int <= 57
}

pub open spec fn spec_all_digits(s: Seq<char>) -> bool {
    forall|k: int| 0 <= k < s.len() ==> spec_is_digit(s[k])
}

/// The value of a string of decimal digits, most significant first.
pub open spec fn spec_digits_val(s: Seq<char>) -> int
    decreases s.len(),
{
    if s.len() == 0 {
        0
    } else {
        spec_digits_val(s.drop_last()) * 10 + (s[s.len() - 1] as int - 48)
    }
}

proof fn lemma_digits_val_nonneg(s: Seq<char>)
    requires
        spec_all_digits(s),
    ensures
        spec_digits_val(s) >= 0,
    decreases s.len(),
{
    if s.len() > 0 {
        assert(spec_all_digits(s.drop_last()));
        lemma_digits_val_nonneg(s.drop_last());
    }
}

/// Reading further digits can only increase the value.
proof fn lemma_digits_val_prefix(s: Seq<char>, m: int)
    requires
        spec_all_digits(s),
        0 <= m <= s.len(),
    ensures
        spec_digits_val(s) >= spec_digits_val(s.take(m)),
    decreases s.len(),
{
    if m == s.len() {
        assert(s.take(m) =~= s);
    } else {
        assert(spec_all_digits(s.drop_last()));
        lemma_digits_val_prefix(s.drop_last(), m);
        assert(s.drop_last().take(m) =~= s.take(m));
        assert(spec_all_digits(s.drop_last()));
        lemma_digits_val_nonneg(s.drop_last());
    }
}

/// The value parsed from `s` as a signed 64-bit decimal: an optional
/// leading sign, then one or more digits, rejected when out of range.
pub open spec fn spec_parse_i64(s: Seq<char>) -> Option<int> {
    let neg = s.len() > 0 && s[0] == '-';
    let ds = if s.len() > 0 && (s[0] == '-' || s[0] == '+') {
        s.drop_first()
    } else {
        s
    };
    if ds.len() == 0 || !spec_all_digits(ds) {
        None
    } else {
        let v = if neg {
            -spec_digits_val(ds)
        } else {
            spec_digits_val(ds)
        };
        if i64::MIN as int <= v <= i64::MAX as int {
            Some(v)
        } else {
            None
        }
    }
}

/// Parses `s` as a signed 64-bit decimal number.
pub fn parse_i64_str(s: &str) -> (r: Option<i64>)
    ensures
        match spec_parse_i64(s@) {
            Some(v) => r == Some(v as i64),
            None => r is None,
        },
{
    let n = s.unicode_len();
    let mut i: usize = 0;
    let mut neg = false;
    if n > 0 {
        let c0 = s.get_char(0);
        if c0 == '-' {
            neg = true;
            i = 1;
        } else if c0 == '+' {
            i = 1;
        }
    }
    if i >= n {
        return None;
    }
    let ghost ds = s@.skip(i as int);
    proof {
        if i == 1 {
            assert(ds =~= s@.drop_first());
        } else {
            assert(ds =~= s@);
        }
    }
    let bound: u64 = if neg {
        9223372036854775808
    } else {
        9223372036854775807
    };
    let mut acc: u64 = 0;
    let mut j = i;
    proof {
        assert(s@.subrange(i as int, i as int) =~= Seq::<char>::empty());
    }
    while j < n
        invariant
            i <= j <= n,
            i <= 1,
            n == s@.len(),
            i < n,
            ds == s@.skip(i as int),
            neg == (s@.len() > 0 && s@[0] == '-'),
            i == 1 <==> s@.len() > 0 && (s@[0] == '-' || s@[0] == '+'),
            bound == if neg {
                9223372036854775808u64
            } else {
                9223372036854775807u64
            },
            forall|k: int| i <= k < j ==> spec_is_digit(s@[k]),
            acc == spec_digits_val(s@.subrange(i as int, j as int)),
            acc <= bound,
        decreases n - j,
    {
        let c = s.get_char(j);
        let cu = c as u32;
        proof {
            assert(cu as int == c as int);
        }
        if cu < 48 || cu > 57 {
            proof {
                if i == 1 {
                    assert(ds =~= s@.drop_first());
                } else {
                    assert(ds =~= s@);
                }
                assert(ds[j - i] == s@[j as int]);
                assert(!spec_is_digit(ds[j - i]));
            }
            return None;
        }
        let d = (cu - 48) as u64;
        let wide: u128 = (acc as u128) * 10 + (d as u128);
        proof {
            assert(s@.subrange(i as int, j + 1) =~= s@.subrange(i as int, j as int).push(
                s@[j as int],
            ));
            assert(s@.subrange(i as int, j + 1).drop_last() =~= s@.subrange(i as int, j as int));
        }
        proof {
            assert(d as int == c as int - 48);
            assert(s@.subrange(i as int, j + 1)[j - i] == s@[j as int]);
            assert(spec_digits_val(s@.subrange(i as int, j + 1)) == acc * 10 + (d as int));
        }
        if wide > bound as u128 {
            proof {
                if i == 1 {
                    assert(ds =~= s@.drop_first());
                } else {
                    assert(ds =~= s@);
                }
                assert(wide as int == acc * 10 + (d as int));
                if spec_all_digits(ds) {
                    lemma_digits_val_prefix(ds, j + 1 - i);
                    assert(ds.take(j + 1 - i) =~= s@.subrange(i as int, j + 1));
                    assert(spec_digits_val(ds) >= wide as int);
                }
            }
            return None;
        }
        acc = wide as u64;
        j += 1;
    }
    proof {
        if i == 1 {
            assert(ds =~= s@.drop_first());
        } else {
            assert(ds =~= s@);
        }
        assert(ds =~= s@.subrange(i as int, n as int));
        assert forall|k: int| 0 <= k < ds.len() implies spec_is_digit(ds[k]) by {
            assert(ds[k] == s@[k + i]);
        }
    }
    if neg {
        if acc == 9223372036854775808u64 {
            Some(i64::MIN)
        } else {
            Some(-(acc as i64))
        }
    } else {
        Some(acc as i64)
    }
}

/// Position of the first occurrence of `pat` in `s`, or `-1` when
/// absent.
pub open spec fn spec_find_sub(s: Seq<char>, pat: Seq<char>) -> int
    decreases s.len(),
{
    if spec_match_at(s, 0, pat) {
        0
    } else if s.len() == 0 {
        -1
    } else {
        let r = spec_find_sub(s.drop_first(), pat);
        if r == -1 {
            -1
        } else {
            r + 1
        }
    }
}

/// A scan that saw no match before `j`, and a match at `j` unless `j` is
/// the length, determines `spec_find_sub`.
pub proof fn lemma_find_sub_witness(s: Seq<char>, pat: Seq<char>, j: int)
    requires
        pat.len() > 0,
        0 <= j <= s.len(),
        forall|k: int| 0 <= k < j ==> !spec_match_at(s, k, pat),
        j < s.len() ==> spec_match_at(s, j, pat),
    ensures
        spec_find_sub(s, pat) == if j == s.len() {
            -1
        } else {
            j
        },
    decreases s.len(),
{
    if spec_match_at(s, 0, pat) {
        assert(j == 0);
    } else if s.len() == 0 {
    } else {
        let t = s.drop_first();
        assert forall|k: int| 0 <= k < j - 1 implies !spec_match_at(t, k, pat) by {
            lemma_match_shift(s, 1, k, pat);
        }
        if j == s.len() {
            lemma_find_sub_witness(t, pat, j - 1);
        } else if j == 0 {
            assert(spec_match_at(s, 0, pat));
        } else {
            lemma_match_shift(s, 1, j - 1, pat);
            lemma_find_sub_witness(t, pat, j - 1);
        }
    }
}

/// A match of `pat` in a suffix of `s` is a match in `s`, shifted.
pub proof fn lemma_match_shift(s: Seq<char>, i: int, k: int, pat: Seq<char>)
    requires
        0 <= i <= s.len(),
        0 <= k,
    ensures
        spec_match_at(s.skip(i), k, pat) == spec_match_at(s, i + k, pat),
{
    if k + pat.len() <= s.len() - i {
        assert(s.skip(i).subrange(k, k + pat.len()) =~= s.subrange(i + k, i + k + pat.len()));
    }
}

/// Splits `s` at each non-overlapping occurrence of `pat`, accumulating
/// the current piece in `cur`.
pub open spec fn spec_split_go(s: Seq<char>, pat: Seq<char>, cur: Seq<char>) -> Seq<Seq<char>>
    decreases s.len(),
{
    if s.len() == 0 {
        seq![cur]
    } else if pat.len() > 0 && spec_match_at(s, 0, pat) {
        seq![cur] + spec_split_go(s.skip(pat.len() as int), pat, Seq::empty())
    } else {
        spec_split_go(s.drop_first(), pat, cur.push(s[0]))
    }
}

/// The pieces of `s` between non-overlapping occurrences of `pat`.
pub open spec fn spec_split(s: Seq<char>, pat: Seq<char>) -> Seq<Seq<char>> {
    spec_split_go(s, pat, Seq::empty())
}

/// Splitting can consume a whole match-free segment at once.
proof fn lemma_split_go_advance(s: Seq<char>, pat: Seq<char>, cur: Seq<char>, j: int)
    requires
        pat.len() > 0,
        0 <= j <= s.len(),
        forall|k: int| 0 <= k < j ==> !spec_match_at(s, k, pat),
        j < s.len() ==> spec_match_at(s, j, pat),
        j == s.len() ==> forall|k: int| 0 <= k ==> !spec_match_at(s, k, pat),
    ensures
        spec_split_go(s, pat, cur) == if j == s.len() {
            seq![cur + s]
        } else {
            seq![cur + s.take(j)] + spec_split_go(s.skip(j + pat.len()), pat, Seq::empty())
        },
    decreases s.len(),
{
    if s.len() == 0 {
        assert(cur + s =~= cur);
    } else if j == 0 {
        assert(spec_match_at(s, 0, pat));
        assert(cur + s.take(0) =~= cur);
    } else {
        assert(!spec_match_at(s, 0, pat));
        let t = s.drop_first();
        assert forall|k: int| 0 <= k < j - 1 implies !spec_match_at(t, k, pat) by {
            lemma_match_shift(s, 1, k, pat);
        }
        if j - 1 < t.len() {
            lemma_match_shift(s, 1, j - 1, pat);
        } else {
            assert forall|k: int| 0 <= k implies !spec_match_at(t, k, pat) by {
                lemma_match_shift(s, 1, k, pat);
            }
        }
        lemma_split_go_advance(t, pat, cur.push(s[0]), j - 1);
        assert(cur.push(s[0]) + t =~= cur + s);
        assert(cur.push(s[0]) + t.take(j - 1) =~= cur + s.take(j));
        if j < s.len() {
            assert(t.skip(j - 1 + pat.len()) =~= s.skip(j + pat.len()));
        }
    }
}

/// The pieces of `s` between occurrences of `pat`, each as an owned
/// string.
pub fn split_on(s: &str, pat: &str) -> (r: Vec<String>)
    requires
        pat@.len() > 0,
    ensures
        r.deep_view() == spec_split(s@, pat@),
{
    let n = s.unicode_len();
    let m = pat.unicode_len();
    let mut out: Vec<String> = Vec::new();
    let mut i: usize = 0;
    let mut nxt = find_sub_from(s, 0, pat);
    proof {
        assert(s@.skip(0) =~= s@);
    }
    while nxt.is_some()
        invariant
            0 <= i <= n,
            n == s@.len(),
            m == pat@.len(),
            m > 0,
            out.deep_view() + spec_split_go(s@.skip(i as int), pat@, Seq::empty()) == spec_split(
                s@,
                pat@,
            ),
            match nxt {
                Some(j) => i <= j && spec_match_at(s@, j as int, pat@) && forall|k: int|
                    i <= k < j ==> !spec_match_at(s@, k, pat@),
                None => forall|k: int| i <= k ==> !spec_match_at(s@, k, pat@),
            },
        decreases n - i,
    {
        let ghost prev = out.deep_view();
        let j = nxt.unwrap();
        out.push(substr_string(s, i, j));
        proof {
            let rest = s@.skip(i as int);
            assert forall|k: int| 0 <= k < j - i implies !spec_match_at(rest, k, pat@) by {
                lemma_match_shift(s@, i as int, k, pat@);
            }
            lemma_match_shift(s@, i as int, j - i, pat@);
            lemma_split_go_advance(rest, pat@, Seq::empty(), j - i);
            assert(Seq::<char>::empty() + rest.take(j - i) =~= s@.subrange(i as int, j as int));
            assert(rest.skip(j - i + m) =~= s@.skip(j + m));
            assert(out.deep_view() =~= prev.push(s@.subrange(i as int, j as int)));
        }
        i = j + m;
        nxt = find_sub_from(s, i, pat);
    }
    let ghost prev = out.deep_view();
    out.push(substr_string(s, i, n));
    proof {
        let rest = s@.skip(i as int);
        assert forall|k: int| 0 <= k implies !spec_match_at(rest, k, pat@) by {
            lemma_match_shift(s@, i as int, k, pat@);
        }
        lemma_split_go_advance(rest, pat@, Seq::empty(), rest.len() as int);
        assert(Seq::<char>::empty() + rest =~= s@.subrange(i as int, n as int));
        assert(out.deep_view() =~= prev.push(s@.subrange(i as int, n as int)));
        assert(out.deep_view() =~= spec_split(s@, pat@));
    }
    out
}

} // verus!
