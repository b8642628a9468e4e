//! The status comment kept on each pull request of a stack: its body, the
//! marker on its first line that carries the stack as base64 of JSON, and
//! finding and reading that marker again.

use vstd::prelude::*;
use base64::Engine;
use crate::text::{
    occurs_at, contains, first_line, first_line_of, find_from, contains_str, substring, lemma_line_end,
};
use crate::forge::Comment;

verus! {

/// One entry of the stack recorded in a status comment.
#[derive(Debug, Clone, PartialEq, Eq)]
pub struct StackEntry {
    pub bookmark_name: String,
    pub pr_url: String,
    pub pr_number: u64,
}

/// The stack recorded in a status comment.
#[derive(Debug, Clone, PartialEq, Eq)]
pub struct StackCommentData {
    pub version: u32,
    pub stack: Vec<StackEntry>,
}

/// Model of a stack entry: bookmark name, pull request URL and number.
pub type EntryModel = (Seq<char>, Seq<char>, u64);

impl View for StackEntry {
    type V = EntryModel;

    open spec fn view(&self) -> EntryModel {
        (self.bookmark_name@, self.pr_url@, self.pr_number)
    }
}

pub open spec fn entry_views(v: Seq<StackEntry>) -> Seq<EntryModel> {
    v.map_values(|e: StackEntry| e@)
}

/// A lower-case hexadecimal digit.
pub open spec fn hex_digit(d: int) -> char {
    if d == 0 { '0' } else if d == 1 { '1' } else if d == 2 { '2' } else if d == 3 { '3' }
    else if d == 4 { '4' } else if d == 5 { '5' } else if d == 6 { '6' } else if d == 7 { '7' }
    else if d == 8 { '8' } else if d == 9 { '9' } else if d == 10 { 'a' } else if d == 11 { 'b' }
    else if d == 12 { 'c' } else if d == 13 { 'd' } else if d == 14 { 'e' } else { 'f' }
}

/// How serde_json writes one character inside a string literal: quote and
/// backslash are escaped, the control characters with a short form use it,
/// the other control characters become `\u00XX`, and every other character
/// stands as it is.
pub open spec fn json_char(c: char) -> Seq<char> {
    if c == '"' {
        seq!['\\', '"']
    } else if c == '\\' {
        seq!['\\', '\\']
    } else if c == '\u{08}' {
        seq!['\\', 'b']
    } else if c == '\t' {
        seq!['\\', 't']
    } else if c == '\n' {
        seq!['\\', 'n']
    } else if c == '\u{0C}' {
        seq!['\\', 'f']
    } else if c == '\r' {
        seq!['\\', 'r']
    } else if (c as int) <= 31 {
        let code = c as int;
        let high = hex_digit(code / 16);
        let low = hex_digit(code % 16);
        seq!['\\', 'u', '0', '0'] + seq![high, low]
    } else {
        seq![c]
    }
}

/// The escaped characters of a JSON string literal for `s`.
pub open spec fn json_escaped(s: Seq<char>) -> Seq<char>
    decreases s.len(),
{
    if s.len() == 0 {
        Seq::empty()
    } else {
        json_escaped(s.drop_last()) + json_char(s.last())
    }
}

/// What JSON makes of a string: the escaped characters between quotes.
pub open spec fn json_quoted(s: Seq<char>) -> Seq<char> {
    seq!['"'] + json_escaped(s) + seq!['"']
}

/// The standard base64 text of the UTF-8 bytes of `s`.
pub uninterp spec fn base64_text(s: Seq<char>) -> Seq<char>;

/// The bytes that the standard base64 text `s` stands for, if it is valid.
pub uninterp spec fn base64_bytes(s: Seq<char>) -> Option<Seq<u8>>;

/// A character of the standard base64 alphabet, or its padding.
pub open spec fn is_base64_char(c: char) -> bool {
    ('A' <= c && c <= 'Z') || ('a' <= c && c <= 'z') || ('0' <= c && c <= '9') || c == '+' || c
        == '/' || c == '='
}

/// Relies on `serde_json::to_string` for a `str`: the JSON string literal
/// of `s`, which serialising a string cannot fail to produce.
#[verifier::external_body]
fn json_string(s: &str) -> (r: String)
    ensures
        r@ == json_quoted(s@),
{
    match serde_json::to_string(s) {
        Ok(t) => t,
        Err(_) => String::new(),
    }
}

/// Relies on base64's `STANDARD` engine `encode` of the bytes of `s`: its
/// output uses the standard alphabet with `=` padding, and the same
/// engine's `decode` gives those bytes back. The engine panics
/// only when the output length overflows `usize`; at most four bytes per
/// character, `requires` rules that out.
#[verifier::external_body]
fn base64_encode(s: &str) -> (r: String)
    requires
        s@.len() <= usize::MAX / 8,
    ensures
        r@ == base64_text(s@),
        forall|i: int| 0 <= i < r@.len() ==> is_base64_char(#[trigger] r@[i]),
        base64_bytes(r@) == Some(vstd::utf8::encode_utf8(s@)),
{
    base64::engine::general_purpose::STANDARD.encode(s.as_bytes())
}

/// Relies on base64's `STANDARD` engine `decode`: the bytes that `s`
/// stands for, or `None` where it is not valid base64.
#[verifier::external_body]
fn base64_decode(s: &str) -> (r: Option<Vec<u8>>)
    ensures
        match r {
            Some(v) => base64_bytes(s@) == Some(v@),
            None => base64_bytes(s@) is None,
        },
{
    base64::engine::general_purpose::STANDARD.decode(s.as_bytes()).ok()
}

/// The decimal digits of `n`.
pub open spec fn decimal(n: nat) -> Seq<char>
    decreases n,
{
    if n < 10 {
        seq![digit(n)]
    } else {
        decimal(n / 10) + seq![digit(n % 10)]
    }
}

/// The digit character of `d < 10`.
pub open spec fn digit(d: nat) -> char {
    if d == 0 { '0' } else if d == 1 { '1' } else if d == 2 { '2' } else if d == 3 { '3' }
    else if d == 4 { '4' } else if d == 5 { '5' } else if d == 6 { '6' } else if d == 7 { '7' }
    else if d == 8 { '8' } else { '9' }
}

/// The decimal form of `n`.
pub fn decimal_string(n: u64) -> (r: String)
    ensures
        r@ == decimal(n as nat),
    decreases n,
{
    let digits = "0123456789";
    proof {
        reveal_strlit("0123456789");
    }
    if n < 10 {
        let d = n as usize;
        let piece = digits.substring_char(d, d + 1);
        assert(piece@ =~= seq![digit(n as nat)]);
        piece.to_owned()
    } else {
        let mut s = decimal_string(n / 10);
        let d = (n % 10) as usize;
        let piece = digits.substring_char(d, d + 1);
        assert(piece@ =~= seq![digit((n % 10) as nat)]);
        s.append(piece);
        s
    }
}

/// Text before the marker's token. Comments are found again by this exact
/// text, so it must stay the same across versions: it is `STAKK_STACK`, the
/// marker the submission pipeline has always looked for; comments that carry
/// another marker are not recognised.
pub open spec fn marker_prefix() -> Seq<char> {
    "<!--- STAKK_STACK: "@
}

/// Text after the marker's token.
pub open spec fn marker_suffix() -> Seq<char> {
    " --->"@
}

/// The JSON of one stack entry.
pub open spec fn entry_json(e: EntryModel) -> Seq<char> {
    "{\"bookmark_name\":"@ + json_quoted(e.0) + ",\"pr_url\":"@ + json_quoted(e.1)
        + ",\"pr_number\":"@ + decimal(e.2 as nat) + "}"@
}

/// The JSON of the first `n` entries, comma separated.
pub open spec fn entries_json(es: Seq<EntryModel>, n: nat) -> Seq<char>
    decreases n,
{
    if n == 0 {
        Seq::empty()
    } else if n == 1 {
        entry_json(es[0])
    } else {
        entries_json(es, (n - 1) as nat) + ","@ + entry_json(es[n - 1])
    }
}

/// The JSON of a stack comment's data.
pub open spec fn data_json(version: u32, es: Seq<EntryModel>) -> Seq<char> {
    "{\"version\":"@ + decimal(version as nat) + ",\"stack\":["@ + entries_json(es, es.len())
        + "]}"@
}

/// The JSON text of `data`.
pub fn comment_json(data: &StackCommentData) -> (r: String)
    ensures
        r@ == data_json(data.version, entry_views(data.stack@)),
{
    let ghost es = entry_views(data.stack@);
    let mut out = String::from_str("{\"version\":");
    out.append(decimal_string(data.version as u64).as_str());
    out.append(",\"stack\":[");
    let ghost head = "{\"version\":"@ + decimal(data.version as nat) + ",\"stack\":["@;
    assert(out@ == head);
    let mut i: usize = 0;
    while i < data.stack.len()
        invariant
            i <= data.stack.len(),
            es == entry_views(data.stack@),
            out@ == head + entries_json(es, i as nat),
        decreases data.stack.len() - i,
    {
        let e = &data.stack[i];
        if i > 0 {
            out.append(",");
        }
        out.append("{\"bookmark_name\":");
        out.append(json_string(e.bookmark_name.as_str()).as_str());
        out.append(",\"pr_url\":");
        out.append(json_string(e.pr_url.as_str()).as_str());
        out.append(",\"pr_number\":");
        out.append(decimal_string(e.pr_number).as_str());
        out.append("}");
        proof {
            assert(es[i as int] == e@);
            if i == 0 {
                assert(entries_json(es, 0) =~= Seq::<char>::empty());
            }
            assert(out@ =~= head + entries_json(es, (i + 1) as nat));
        }
        i = i + 1;
    }
    out.append("]}");
    assert(out@ =~= data_json(data.version, es));
    out
}

/// Footer line of a status comment.
pub open spec fn footer() -> Seq<char> {
    "*Created with [stakk](https://github.com/glennib/stakk)*"@
}

/// The line of the `k`-th entry; the entry at `current` is bold and
/// marked as this pull request.
pub open spec fn entry_line(es: Seq<EntryModel>, current: int, k: int) -> Seq<char> {
    if k == current {
        "1. **"@ + es[k].1 + " \u{2190} this PR**\n"@
    } else {
        "1. "@ + es[k].1 + "\n"@
    }
}

/// The lines of the first `n` entries.
pub open spec fn entry_lines(es: Seq<EntryModel>, current: int, n: nat) -> Seq<char>
    decreases n,
{
    if n == 0 {
        Seq::empty()
    } else {
        entry_lines(es, current, (n - 1) as nat) + entry_line(es, current, n - 1)
    }
}

/// The body of the status comment for the pull request at `current`, with
/// `token` in its marker.
pub open spec fn comment_text(token: Seq<char>, es: Seq<EntryModel>, current: int) -> Seq<char> {
    marker_prefix() + token + marker_suffix() + "\nThis PR is part of a stack of "@ + decimal(
        es.len(),
    ) + " bookmark"@ + (if es.len() == 1 {
        Seq::<char>::empty()
    } else {
        "s"@
    }) + ":\n\n1. `trunk()`\n"@ + entry_lines(es, current, es.len()) + "\n---\n"@ + footer()
}

/// The marker's prefix first occurs in `line` at `i`, and the suffix first
/// occurs after it at `j`.
pub open spec fn token_span(line: Seq<char>, i: int, j: int) -> bool {
    &&& occurs_at(line, marker_prefix(), i)
    &&& forall|k: int| 0 <= k < i ==> !occurs_at(line, marker_prefix(), k)
    &&& i + marker_prefix().len() <= j
    &&& occurs_at(line, marker_suffix(), j)
    &&& forall|k: int| i + marker_prefix().len() <= k < j ==> !occurs_at(line, marker_suffix(), k)
}

/// `t` is the token of the marker on the first line of `body`.
pub open spec fn marker_token(body: Seq<char>, t: Seq<char>) -> bool {
    exists|i: int, j: int|
        token_span(first_line(body), i, j) && t == first_line(body).subrange(
            i + marker_prefix().len(),
            j,
        )
}

/// A body carries at most one marker token.
pub proof fn lemma_marker_token_unique(body: Seq<char>, t1: Seq<char>, t2: Seq<char>)
    requires
        marker_token(body, t1),
        marker_token(body, t2),
    ensures
        t1 == t2,
{
    let line = first_line(body);
    let (i1, j1) = choose|i: int, j: int|
        token_span(line, i, j) && t1 == line.subrange(i + marker_prefix().len(), j);
    let (i2, j2) = choose|i: int, j: int|
        token_span(line, i, j) && t2 == line.subrange(i + marker_prefix().len(), j);
    if i1 < i2 {
        assert(!occurs_at(line, marker_prefix(), i1));
    }
    if i2 < i1 {
        assert(!occurs_at(line, marker_prefix(), i2));
    }
    if j1 < j2 {
        assert(!occurs_at(line, marker_suffix(), j1));
    }
    if j2 < j1 {
        assert(!occurs_at(line, marker_suffix(), j2));
    }
}

/// A formatted comment yields, as its payload, the UTF-8 bytes of the JSON
/// of the data it was formatted from: `stack_comment_payload` returns the
/// decoding of the one marker token a body carries, and
/// `format_stack_comment` puts there a token that decodes to those bytes.
pub proof fn lemma_payload_of_formatted(body: Seq<char>, token: Seq<char>, json: Seq<char>, t: Seq<char>)
    requires
        marker_token(body, token),
        base64_bytes(token) == Some(vstd::utf8::encode_utf8(json)),
        marker_token(body, t),
    ensures
        base64_bytes(t) == Some(vstd::utf8::encode_utf8(json)),
{
    lemma_marker_token_unique(body, token, t);
}

/// The status comment body for the pull request at `current_index` of the
/// stack in `data`. Its first line is the marker, whose token is the
/// base64 of the data's JSON (for JSON of at most `usize::MAX / 8`
/// characters, which any string in memory is).
pub fn format_stack_comment(data: &StackCommentData, current_index: usize) -> (r: String)
    ensures
        data_json(data.version, entry_views(data.stack@)).len() <= usize::MAX / 8 ==> {
            let token = base64_text(data_json(data.version, entry_views(data.stack@)));
            &&& r@ == comment_text(token, entry_views(data.stack@), current_index as int)
            &&& marker_token(r@, token)
            &&& base64_bytes(token) == Some(
                vstd::utf8::encode_utf8(data_json(data.version, entry_views(data.stack@))),
            )
        },
{
    let ghost es = entry_views(data.stack@);
    let json = comment_json(data);
    let token = if json.unicode_len() <= usize::MAX / 8 {
        base64_encode(json.as_str())
    } else {
        String::new()
    };
    let mut body = String::from_str("<!--- STAKK_STACK: ");
    body.append(token.as_str());
    body.append(" --->");
    let ghost line = body@;
    body.append("\nThis PR is part of a stack of ");
    body.append(decimal_string(data.stack.len() as u64).as_str());
    body.append(" bookmark");
    if data.stack.len() != 1 {
        body.append("s");
    }
    body.append(":\n\n1. `trunk()`\n");
    let ghost head = body@;
    let mut i: usize = 0;
    while i < data.stack.len()
        invariant
            i <= data.stack.len(),
            es == entry_views(data.stack@),
            body@ == head + entry_lines(es, current_index as int, i as nat),
        decreases data.stack.len() - i,
    {
        let url = data.stack[i].pr_url.as_str();
        if i == current_index {
            body.append("1. **");
            body.append(url);
            body.append(" \u{2190} this PR**\n");
        } else {
            body.append("1. ");
            body.append(url);
            body.append("\n");
        }
        proof {
            assert(es[i as int].1 == url@);
            assert(body@ =~= head + entry_lines(es, current_index as int, (i + 1) as nat));
        }
        i = i + 1;
    }
    body.append("\n---\n");
    body.append("*Created with [stakk](https://github.com/glennib/stakk)*");
    proof {
        if json@.len() <= usize::MAX / 8 {
            let tv = token@;
            assert(body@ =~= comment_text(tv, es, current_index as int));
            let rest = body@.subrange(line.len() as int, body@.len() as int);
            assert(line == marker_prefix() + tv + marker_suffix());
            assert(body@ =~= line + rest);
            reveal_strlit("\nThis PR is part of a stack of ");
            assert(rest[0] == '\n');
            lemma_marker_line(tv, rest);
        }
    }
    body
}

/// A body whose first line is the marker around a base64 token carries that
/// token.
proof fn lemma_marker_line(token: Seq<char>, rest: Seq<char>)
    requires
        forall|i: int| 0 <= i < token.len() ==> is_base64_char(#[trigger] token[i]),
        rest.len() > 0 && rest[0] == '\n',
    ensures
        marker_token(marker_prefix() + token + marker_suffix() + rest, token),
{
    reveal_strlit("<!--- STAKK_STACK: ");
    reveal_strlit(" --->");
    let p = marker_prefix();
    let x = marker_suffix();
    let line = p + token + x;
    let body = line + rest;
    let e = line.len() as int;
    assert forall|k: int| 0 <= k < e implies #[trigger] body[k] != '\n' by {
        assert(body[k] == line[k]);
        if k < p.len() {
            assert(line[k] == p[k]);
        } else if k < p.len() + token.len() {
            assert(line[k] == token[k - p.len()]);
        } else {
            assert(line[k] == x[k - p.len() - token.len()]);
        }
    }
    assert(body[e] == '\n');
    lemma_line_end(body, line.len());
    assert(body[e - 1] == '>');
    assert(first_line(body) =~= line);
    let i = 0int;
    let j = (p.len() + token.len()) as int;
    assert(line.subrange(0, p.len() as int) =~= p);
    assert(line.subrange(j, j + x.len()) =~= x);
    assert forall|k: int| p.len() <= k < j implies !occurs_at(line, x, k) by {
        assert(line[k] == token[k - p.len()]);
        if occurs_at(line, x, k) {
            assert(line.subrange(k, k + x.len())[0] == x[0]);
        }
    }
    assert(token_span(line, i, j));
    assert(line.subrange(p.len() as int, j) =~= token);
}

/// Whether a comment's first line carries the marker's prefix.
pub open spec fn is_managed(c: Comment) -> bool {
    contains(first_line(c.body@), marker_prefix())
}

/// The first comment whose first line carries the marker.
pub fn find_stack_comment(comments: &Vec<Comment>) -> (r: Option<&Comment>)
    ensures
        match r {
            Some(c) => exists|i: int|
                0 <= i < comments@.len() && *c == comments@[i] && is_managed(comments@[i])
                    && forall|k: int| 0 <= k < i ==> !is_managed(#[trigger] comments@[k]),
            None => forall|k: int| 0 <= k < comments@.len() ==> !is_managed(#[trigger] comments@[k]),
        },
{
    let mut i: usize = 0;
    while i < comments.len()
        invariant
            i <= comments.len(),
            forall|k: int| 0 <= k < i ==> !is_managed(#[trigger] comments@[k]),
        decreases comments.len() - i,
    {
        let line = first_line_of(comments[i].body.as_str());
        if contains_str(line.as_str(), "<!--- STAKK_STACK: ") {
            return Some(&comments[i]);
        }
        i = i + 1;
    }
    None
}

/// The bytes carried by the marker on the first line of `body`: `None`
/// when there is no marker or its token is not valid base64.
pub fn stack_comment_payload(body: &str) -> (r: Option<Vec<u8>>)
    ensures
        match r {
            Some(v) => exists|t: Seq<char>| marker_token(body@, t) && base64_bytes(t) == Some(v@),
            None => forall|t: Seq<char>| marker_token(body@, t) ==> base64_bytes(t) is None,
        },
{
    let line = first_line_of(body);
    let prefix = "<!--- STAKK_STACK: ";
    let suffix = " --->";
    proof {
        reveal_strlit("<!--- STAKK_STACK: ");
    }
    let start = match find_from(line.as_str(), prefix, 0) {
        Some(i) => i,
        None => {
            proof {
                assert forall|t: Seq<char>| marker_token(body@, t) implies base64_bytes(t) is None by {
                    let (i, j) = choose|i: int, j: int|
                        token_span(first_line(body@), i, j) && t == first_line(body@).subrange(
                            i + marker_prefix().len(),
                            j,
                        );
                    assert(i <= line@.len());
                }
            }
            return None;
        },
    };
    let n = line.unicode_len();
    let plen = prefix.unicode_len();
    assert(start + plen <= n);
    let from = start + plen;
    let end = match find_from(line.as_str(), suffix, from) {
        Some(j) => j,
        None => {
            proof {
                assert forall|t: Seq<char>| marker_token(body@, t) implies base64_bytes(t) is None by {
                    let (i, j) = choose|i: int, j: int|
                        token_span(first_line(body@), i, j) && t == first_line(body@).subrange(
                            i + marker_prefix().len(),
                            j,
                        );
                    if i > start {
                        assert(!occurs_at(line@, prefix@, start as int));
                    }
                    if i < start {
                        assert(!occurs_at(line@, prefix@, i));
                    }
                    assert(j <= line@.len());
                }
            }
            return None;
        },
    };
    let token = substring(line.as_str(), from, end);
    proof {
        assert(token_span(line@, start as int, end as int));
        assert(marker_token(body@, token@));
        assert forall|t: Seq<char>| marker_token(body@, t) implies t == token@ by {
            let (i, j) = choose|i: int, j: int|
                token_span(first_line(body@), i, j) && t == first_line(body@).subrange(
                    i + marker_prefix().len(),
                    j,
                );
            if i > start {
                assert(!occurs_at(line@, prefix@, start as int));
            }
            if i < start {
                assert(!occurs_at(line@, prefix@, i));
            }
            if j > end {
                assert(!occurs_at(line@, suffix@, end as int));
            }
            if j < end {
                assert(!occurs_at(line@, suffix@, j));
            }
        }
    }
    base64_decode(token.as_str())
}

} // verus!
