//! Character-level helpers over strings, with their mathematical models.

use vstd::prelude::*;

verus! {

/// Unicode `White_Space`, as `char::is_whitespace` defines it.
pub open spec fn is_ws(c: char) -> bool {
    c == '\t' || c == '\n' || c == '\u{0B}' || c == '\u{0C}' || c == '\r' || c == ' '
        || c == '\u{85}' || c == '\u{A0}' || c == '\u{1680}' || ('\u{2000}' <= c && c
        <= '\u{200A}') || c == '\u{2028}' || c == '\u{2029}' || c == '\u{202F}' || c
        == '\u{205F}' || c == '\u{3000}'
}

/// Number of leading whitespace characters.
pub open spec fn lead_ws(s: Seq<char>) -> nat
    decreases s.len(),
{
    if s.len() > 0 && is_ws(s[0]) {
        1 + lead_ws(s.drop_first())
    } else {
        0
    }
}

/// Number of trailing whitespace characters.
pub open spec fn trail_ws(s: Seq<char>) -> nat
    decreases s.len(),
{
    if s.len() > 0 && is_ws(s.last()) {
        1 + trail_ws(s.drop_last())
    } else {
        0
    }
}

/// `s` with leading and trailing whitespace removed.
pub open spec fn trim(s: Seq<char>) -> Seq<char> {
    let a = lead_ws(s);
    if a == s.len() {
        Seq::empty()
    } else {
        s.subrange(a as int, s.len() - trail_ws(s))
    }
}

pub fn is_whitespace_char(c: char) -> (r: bool)
    ensures
        r == is_ws(c),
{
    c == '\t' || c == '\n' || c == '\u{0B}' || c == '\u{0C}' || c == '\r' || c == ' ' || c
        == '\u{85}' || c == '\u{A0}' || c == '\u{1680}' || ('\u{2000}' <= c && c <= '\u{200A}')
        || c == '\u{2028}' || c == '\u{2029}' || c == '\u{202F}' || c == '\u{205F}' || c
        == '\u{3000}'
}


proof fn lemma_lead_ws(s: Seq<char>, a: nat)
    requires
        a <= s.len(),
        forall|k: int| 0 <= k < a ==> is_ws(#[trigger] s[k]),
        a == s.len() || !is_ws(s[a as int]),
    ensures
        lead_ws(s) == a,
    decreases a,
{
    if a > 0 {
        let t = s.drop_first();
        assert forall|k: int| 0 <= k < a - 1 implies is_ws(#[trigger] t[k]) by {
            assert(t[k] == s[k + 1]);
        }
        if a - 1 < t.len() {
            assert(t[a - 1] == s[a as int]);
        }
        lemma_lead_ws(t, (a - 1) as nat);
    }
}

proof fn lemma_trail_ws(s: Seq<char>, b: nat)
    requires
        b <= s.len(),
        forall|k: int| s.len() - b <= k < s.len() ==> is_ws(#[trigger] s[k]),
        b == s.len() || !is_ws(s[s.len() - b - 1]),
    ensures
        trail_ws(s) == b,
    decreases b,
{
    if b > 0 {
        let t = s.drop_last();
        assert forall|k: int| t.len() - (b - 1) <= k < t.len() implies is_ws(#[trigger] t[k]) by {
            assert(t[k] == s[k]);
        }
        if b - 1 < t.len() {
            assert(t[t.len() - (b - 1) - 1] == s[s.len() - b - 1]);
        }
        assert(is_ws(s[s.len() - 1]));
        lemma_trail_ws(t, (b - 1) as nat);
    }
}

/// A copy of the characters `from..to` of `s`.
pub fn substring(s: &str, from: usize, to: usize) -> (r: String)
    requires
        from <= to <= s@.len(),
    ensures
        r@ == s@.subrange(from as int, to as int),
{
    let piece = s.substring_char(from, to);
    piece.to_owned()
}

/// `s` with leading and trailing whitespace removed.
pub fn trim_str(s: &str) -> (r: String)
    ensures
        r@ == trim(s@),
{
    let n = s.unicode_len();
    let mut a: usize = 0;
    while a < n && is_whitespace_char(s.get_char(a))
        invariant
            a <= n,
            n == s@.len(),
            forall|k: int| 0 <= k < a ==> is_ws(#[trigger] s@[k]),
        decreases n - a,
    {
        a = a + 1;
    }
    proof {
        lemma_lead_ws(s@, a as nat);
    }
    if a == n {
        return String::new();
    }
    let mut b: usize = 0;
    while b < n - a && is_whitespace_char(s.get_char(n - 1 - b))
        invariant
            a < n,
            b <= n - a,
            n == s@.len(),
            forall|k: int| n - b <= k < n ==> is_ws(#[trigger] s@[k]),
        decreases n - a - b,
    {
        b = b + 1;
    }
    if b == n - a {
        assert(!is_ws(s@[a as int]));
        assert(false);
    }
    proof {
        lemma_trail_ws(s@, b as nat);
    }
    substring(s, a, n - b)
}

/// Whether two strings hold the same characters.
pub fn str_eq(a: &str, b: &str) -> (r: bool)
    ensures
        r == (a@ == b@),
{
    let n = a.unicode_len();
    if n != b.unicode_len() {
        return false;
    }
    let mut i: usize = 0;
    while i < n
        invariant
            n == a@.len() == b@.len(),
            i <= n,
            a@.subrange(0, i as int) == b@.subrange(0, i as int),
        decreases n - i,
    {
        if a.get_char(i) != b.get_char(i) {
            return false;
        }
        assert(a@.subrange(0, i + 1) == a@.subrange(0, i as int).push(a@[i as int]));
        assert(b@.subrange(0, i + 1) == b@.subrange(0, i as int).push(b@[i as int]));
        i = i + 1;
    }
    assert(a@ == a@.subrange(0, n as int));
    assert(b@ == b@.subrange(0, n as int));
    true
}

/// Whether `n` occurs in `h` starting at position `i`.
pub open spec fn occurs_at(h: Seq<char>, n: Seq<char>, i: int) -> bool {
    0 <= i && i + n.len() <= h.len() && h.subrange(i, i + n.len()) == n
}

/// Whether `n` occurs in `h` starting at position `i` (executable form).
pub fn matches_at(h: &str, n: &str, i: usize) -> (r: bool)
    requires
        i <= h@.len(),
    ensures
        r == occurs_at(h@, n@, i as int),
{
    let hl = h.unicode_len();
    let nl = n.unicode_len();
    if nl > hl - i {
        return false;
    }
    let mut k: usize = 0;
    while k < nl
        invariant
            hl == h@.len(),
            nl == n@.len(),
            i + nl <= hl,
            k <= nl,
            h@.subrange(i as int, i + k) == n@.subrange(0, k as int),
        decreases nl - k,
    {
        if h.get_char(i + k) != n.get_char(k) {
            assert(h@.subrange(i as int, i + nl)[k as int] == h@[i + k]);
            return false;
        }
        assert(h@.subrange(i as int, i + k + 1) == h@.subrange(i as int, i + k).push(h@[i + k]));
        assert(n@.subrange(0, k + 1) == n@.subrange(0, k as int).push(n@[k as int]));
        k = k + 1;
    }
    assert(n@ == n@.subrange(0, nl as int));
    true
}

/// The first position at or after `from` where `n` occurs in `h`.
pub fn find_from(h: &str, n: &str, from: usize) -> (r: Option<usize>)
    requires
        from <= h@.len(),
    ensures
        match r {
            Some(i) => from <= i && occurs_at(h@, n@, i as int) && forall|j: int|
                from <= j < i ==> !occurs_at(h@, n@, j),
            None => forall|j: int| from <= j <= h@.len() ==> !occurs_at(h@, n@, j),
        },
{
    let hl = h.unicode_len();
    let mut i: usize = from;
    while i < hl
        invariant
            hl == h@.len(),
            from <= i <= hl,
            forall|j: int| from <= j < i ==> !occurs_at(h@, n@, j),
        decreases hl - i,
    {
        if matches_at(h, n, i) {
            return Some(i);
        }
        i = i + 1;
    }
    if matches_at(h, n, hl) {
        return Some(hl);
    }
    None
}

/// Whether `n` occurs anywhere in `h`.
pub open spec fn contains(h: Seq<char>, n: Seq<char>) -> bool {
    exists|i: int| occurs_at(h, n, i)
}

pub fn contains_str(h: &str, n: &str) -> (r: bool)
    ensures
        r == contains(h@, n@),
{
    match find_from(h, n, 0) {
        Some(i) => true,
        None => {
            assert forall|j: int| !occurs_at(h@, n@, j) by {
                if 0 <= j <= h@.len() {
                } else {
                }
            }
            false
        },
    }
}

/// Position of the first `'\n'` in `s`, or its length.
pub open spec fn line_end(s: Seq<char>) -> nat
    decreases s.len(),
{
    if s.len() == 0 {
        0
    } else if s[0] == '\n' {
        0
    } else {
        1 + line_end(s.drop_first())
    }
}

pub proof fn lemma_line_end(s: Seq<char>, e: nat)
    requires
        e <= s.len(),
        forall|k: int| 0 <= k < e ==> #[trigger] s[k] != '\n',
        e == s.len() || s[e as int] == '\n',
    ensures
        line_end(s) == e,
    decreases e,
{
    if e > 0 {
        let t = s.drop_first();
        assert forall|k: int| 0 <= k < e - 1 implies #[trigger] t[k] != '\n' by {
            assert(t[k] == s[k + 1]);
        }
        if e - 1 < t.len() {
            assert(t[e - 1] == s[e as int]);
        }
        assert(s[0] != '\n');
        lemma_line_end(t, (e - 1) as nat);
    }
}

/// The first line of `s`: up to the first `'\n'`, without a `'\r'` that
/// stands right before that `'\n'`.
pub open spec fn first_line(s: Seq<char>) -> Seq<char> {
    let e = line_end(s);
    if e < s.len() && e > 0 && s[e - 1] == '\r' {
        s.subrange(0, e - 1)
    } else {
        s.subrange(0, e as int)
    }
}

/// What follows the first line ending of `s` (empty when there is none).
pub open spec fn after_first_line(s: Seq<char>) -> Seq<char> {
    let e = line_end(s);
    if e < s.len() {
        s.subrange(e + 1int, s.len() as int)
    } else {
        Seq::empty()
    }
}

/// Computes `line_end(s@)`.
pub fn line_end_of(s: &str) -> (r: usize)
    ensures
        r == line_end(s@),
        r <= s@.len(),
{
    let n = s.unicode_len();
    let mut e: usize = 0;
    while e < n && s.get_char(e) != '\n'
        invariant
            e <= n,
            n == s@.len(),
            forall|k: int| 0 <= k < e ==> #[trigger] s@[k] != '\n',
        decreases n - e,
    {
        e = e + 1;
    }
    proof {
        lemma_line_end(s@, e as nat);
    }
    e
}

/// The first line of `s`.
pub fn first_line_of(s: &str) -> (r: String)
    ensures
        r@ == first_line(s@),
{
    let e = line_end_of(s);
    if e < s.unicode_len() && e > 0 && s.get_char(e - 1) == '\r' {
        substring(s, 0, e - 1)
    } else {
        substring(s, 0, e)
    }
}

/// What follows the first line ending of `s`.
pub fn after_first_line_of(s: &str) -> (r: String)
    ensures
        r@ == after_first_line(s@),
{
    let e = line_end_of(s);
    let n = s.unicode_len();
    if e < n {
        substring(s, e + 1, n)
    } else {
        String::new()
    }
}

/// `s` with each `'\r'` that stands right before a `'\n'` removed.
pub open spec fn crlf_to_lf(s: Seq<char>) -> Seq<char>
    decreases s.len(),
{
    if s.len() == 0 {
        s
    } else {
        let rest = crlf_to_lf(s.drop_first());
        if s[0] == '\r' && s.len() > 1 && s[1] == '\n' {
            rest
        } else {
            seq![s[0]] + rest
        }
    }
}

proof fn lemma_crlf_split(s: Seq<char>, i: int)
    requires
        0 <= i < s.len(),
    ensures
        crlf_to_lf(s.subrange(i, s.len() as int)) == (if s[i] == '\r' && i + 1 < s.len() && s[i
            + 1] == '\n' {
            Seq::empty()
        } else {
            seq![s[i]]
        }) + crlf_to_lf(s.subrange(i + 1, s.len() as int)),
{
    let t = s.subrange(i, s.len() as int);
    assert(t.drop_first() == s.subrange(i + 1, s.len() as int));
    assert(t[0] == s[i]);
    if t.len() > 1 {
        assert(t[1] == s[i + 1]);
    }
}

/// Computes `crlf_to_lf(s@)`.
pub fn crlf_to_lf_of(s: &str) -> (r: String)
    ensures
        r@ == crlf_to_lf(s@),
{
    let n = s.unicode_len();
    let mut out = String::new();
    let mut i: usize = 0;
    assert(s@.subrange(0, n as int) == s@);
    while i < n
        invariant
            n == s@.len(),
            i <= n,
            out@ + crlf_to_lf(s@.subrange(i as int, n as int)) == crlf_to_lf(s@),
        decreases n - i,
    {
        proof {
            lemma_crlf_split(s@, i as int);
        }
        let c = s.get_char(i);
        if c == '\r' && i + 1 < n && s.get_char(i + 1) == '\n' {
        } else {
            let piece = s.substring_char(i, i + 1);
            out.append(piece);
            assert(piece@ == seq![c]);
        }
        i = i + 1;
    }
    assert(s@.subrange(0, n as int) == s@);
    assert(s@.subrange(n as int, n as int) == Seq::<char>::empty());
    out
}

/// Lexicographic order on characters by code point, which is the order of
/// `String`'s `Ord` (UTF-8 keeps code point order).
pub open spec fn str_lt(a: Seq<char>, b: Seq<char>) -> bool
    decreases a.len(),
{
    if a.len() == 0 {
        b.len() > 0
    } else if b.len() == 0 {
        false
    } else if a[0] != b[0] {
        a[0] < b[0]
    } else {
        str_lt(a.drop_first(), b.drop_first())
    }
}

pub proof fn lemma_str_lt_total(a: Seq<char>, b: Seq<char>)
    ensures
        a == b || str_lt(a, b) || str_lt(b, a),
        !(str_lt(a, b) && str_lt(b, a)),
        !str_lt(a, a),
    decreases a.len(),
{
    if a.len() > 0 && b.len() > 0 {
        if a[0] == b[0] {
            lemma_str_lt_total(a.drop_first(), b.drop_first());
            if a.drop_first() == b.drop_first() {
                assert(a == seq![a[0]] + a.drop_first());
                assert(b == seq![b[0]] + b.drop_first());
            }
        } else {
        }
        lemma_str_lt_total(a.drop_first(), a.drop_first());
    }
    if a.len() > 0 {
        lemma_str_lt_total(a.drop_first(), a.drop_first());
    }
}

pub proof fn lemma_str_lt_trans(a: Seq<char>, b: Seq<char>, c: Seq<char>)
    requires
        str_lt(a, b),
        str_lt(b, c),
    ensures
        str_lt(a, c),
    decreases a.len(),
{
    if a.len() > 0 && b.len() > 0 && c.len() > 0 && a[0] == b[0] && b[0] == c[0] {
        lemma_str_lt_trans(a.drop_first(), b.drop_first(), c.drop_first());
    }
}

/// Computes `str_lt(a@, b@)`.
pub fn str_less(a: &str, b: &str) -> (r: bool)
    ensures
        r == str_lt(a@, b@),
{
    let an = a.unicode_len();
    let bn = b.unicode_len();
    let mut i: usize = 0;
    assert(a@.subrange(0, an as int) == a@);
    assert(b@.subrange(0, bn as int) == b@);
    while i < an && i < bn
        invariant
            an == a@.len(),
            bn == b@.len(),
            i <= an,
            i <= bn,
            str_lt(a@, b@) == str_lt(a@.subrange(i as int, an as int), b@.subrange(i as int, bn as int)),
        decreases an - i,
    {
        let x = a.get_char(i);
        let y = b.get_char(i);
        let ghost sa = a@.subrange(i as int, an as int);
        let ghost sb = b@.subrange(i as int, bn as int);
        assert(sa[0] == x && sb[0] == y);
        if x != y {
            return x < y;
        }
        assert(sa.drop_first() == a@.subrange(i + 1, an as int));
        assert(sb.drop_first() == b@.subrange(i + 1, bn as int));
        i = i + 1;
    }
    i == an && i < bn
}


/// `parts` joined with `sep` between consecutive parts.
pub open spec fn join(parts: Seq<Seq<char>>, sep: Seq<char>) -> Seq<char>
    decreases parts.len(),
{
    if parts.len() == 0 {
        Seq::empty()
    } else if parts.len() == 1 {
        parts[0]
    } else {
        join(parts.drop_last(), sep) + sep + parts.last()
    }
}

} // verus!
