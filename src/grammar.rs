//! The grammar: turns markup into a tree of tagged spans.
//!
//! Every function here tries one rule at a position of the input and either
//! fails, leaving nothing behind, or succeeds with the position after the
//! matched text and the spans that the rule produces. Alternatives are tried
//! in order and the first that succeeds wins, so a failed element may still
//! be read as text.
use crate::chars::{alpha, is_alpha, is_wsp, lower, name_char, wsp};
use vstd::prelude::*;
use vstd::string::StrSliceExecFns;

verus! {

/// The tag of a span.
#[derive(Debug, Clone, Copy, PartialEq, Eq, Structural)]
pub enum Rule {
    Doctype,
    NodeText,
    NodeComment,
    NodeElement,
    ElName,
    ElVoidName,
    ElRawTextName,
    ElRawTextContent,
    ElNormalEnd,
    ElRawTextEnd,
    ElDangling,
    ElProcessInstruct,
    Attr,
    AttrKey,
    AttrQuoted,
    AttrValue,
    AttrNonQuoted,
    CommentBody,
    Eoi,
}

/// A tagged span `[start, end)` of the input, counted in characters, with the
/// spans nested in it.
#[derive(Debug)]
pub struct Pair {
    pub rule: Rule,
    pub start: usize,
    pub end: usize,
    pub inner: Vec<Pair>,
}

/// A rule that matched: the position after it and its span.
pub struct Found {
    pub end: usize,
    pub pair: Pair,
}

/// `p` lies in `[lo, hi)`, and each span nested in it lies in `p`.
pub open spec fn pair_wf(p: Pair, lo: int, hi: int) -> bool
    decreases p,
{
    &&& lo <= p.start <= p.end <= hi
    &&& forall|k: int|
        0 <= k < p.inner@.len() ==> pair_wf(#[trigger] p.inner@[k], p.start as int, p.end as int)
}

/// Every span of `ps` lies in `[lo, hi)`.
pub open spec fn pairs_wf(ps: Seq<Pair>, lo: int, hi: int) -> bool {
    forall|k: int| 0 <= k < ps.len() ==> pair_wf(#[trigger] ps[k], lo, hi)
}

/// A span that lies in `[lo, hi)` lies in any range around that one.
pub proof fn lemma_pair_wf_widen(p: Pair, lo: int, hi: int, lo2: int, hi2: int)
    requires
        pair_wf(p, lo, hi),
        lo2 <= lo,
        hi <= hi2,
    ensures
        pair_wf(p, lo2, hi2),
{
}

/// Spans that lie in `[lo, hi)` lie in any range around that one.
pub proof fn lemma_pairs_wf_widen(ps: Seq<Pair>, lo: int, hi: int, lo2: int, hi2: int)
    requires
        pairs_wf(ps, lo, hi),
        lo2 <= lo,
        hi <= hi2,
    ensures
        pairs_wf(ps, lo2, hi2),
{
    assert forall|k: int| 0 <= k < ps.len() implies pair_wf(#[trigger] ps[k], lo2, hi2) by {
        lemma_pair_wf_widen(ps[k], lo, hi, lo2, hi2);
    }
}

/// Two runs of spans that lie in a range make one run that does.
pub proof fn lemma_pairs_wf_concat(a: Seq<Pair>, b: Seq<Pair>, lo: int, hi: int)
    requires
        pairs_wf(a, lo, hi),
        pairs_wf(b, lo, hi),
    ensures
        pairs_wf(a + b, lo, hi),
{
    assert forall|k: int| 0 <= k < (a + b).len() implies pair_wf(#[trigger] (a + b)[k], lo, hi) by {
        if k < a.len() {
            assert((a + b)[k] == a[k]);
        } else {
            assert((a + b)[k] == b[k - a.len()]);
        }
    }
}

/// The first position from `i` on that does not hold the grammar's white
/// space.
pub open spec fn wsp_end(s: Seq<char>, i: int) -> int
    decreases s.len() - i,
{
    if 0 <= i < s.len() && is_wsp(s[i]) {
        wsp_end(s, i + 1)
    } else {
        i
    }
}

/// Where a `-->` at `q` ends, white space allowed before each part.
pub open spec fn comment_end(s: Seq<char>, q: int) -> Option<int> {
    let c = wsp_end(s, q);
    if 0 <= c && c + 1 < s.len() && s[c] == '-' && s[c + 1] == '-' {
        let d = wsp_end(s, c + 2);
        if d < s.len() && s[d] == '>' {
            Some(d + 1)
        } else {
            None
        }
    } else {
        None
    }
}

/// The first place from `q` on where a comment can end, and where it ends.
pub open spec fn comment_close(s: Seq<char>, q: int) -> Option<(int, int)>
    decreases s.len() - q,
{
    if q < 0 || q >= s.len() {
        None
    } else {
        match comment_end(s, q) {
            Some(e) => Some((q, e)),
            None => comment_close(s, q + 1),
        }
    }
}

/// A comment at `pos`, white space around it: where it ends, and where its
/// body starts and ends.
pub open spec fn comment_at(s: Seq<char>, pos: int) -> Option<(int, int, int)> {
    let a = wsp_end(s, pos);
    if 0 <= a && a + 3 < s.len() && s[a] == '<' && s[a + 1] == '!' && s[a + 2] == '-' && s[a + 3]
        == '-' {
        let b = wsp_end(s, a + 4);
        match comment_close(s, b) {
            Some((q, e)) => Some((wsp_end(s, e), b, q)),
            None => None,
        }
    } else {
        None
    }
}

/// Where the comment at `pos` ends.
pub open spec fn comment_end_of(s: Seq<char>, pos: int) -> int {
    match comment_at(s, pos) {
        Some((e, _, _)) => e,
        None => pos,
    }
}

/// The body of the comment at `pos`.
pub open spec fn comment_body_of(s: Seq<char>, pos: int) -> Seq<char> {
    match comment_at(s, pos) {
        Some((_, b, q)) => s.subrange(b, q),
        None => Seq::empty(),
    }
}

/// From `pos` on, the input is one comment or more and nothing else.
pub open spec fn comments_to_end(s: Seq<char>, pos: int) -> bool
    decreases s.len() - pos,
{
    match comment_at(s, pos) {
        Some((e, _, _)) => if e <= pos || e > s.len() {
            false
        } else if e == s.len() {
            true
        } else {
            comments_to_end(s, e)
        },
        None => false,
    }
}

/// The bodies of the comments from `pos` on, in order.
pub open spec fn comment_bodies(s: Seq<char>, pos: int) -> Seq<Seq<char>>
    decreases s.len() - pos,
{
    match comment_at(s, pos) {
        Some((e, b, q)) => if e <= pos || e >= s.len() {
            seq![s.subrange(b, q)]
        } else {
            seq![s.subrange(b, q)] + comment_bodies(s, e)
        },
        None => Seq::empty(),
    }
}

/// The text of a comment span: that of its first inner span, if it lies in
/// the input; else nothing.
pub open spec fn comment_text(s: Seq<char>, p: Pair) -> Seq<char> {
    if p.inner@.len() > 0 && p.inner@[0].start <= p.inner@[0].end <= s.len() {
        s.subrange(p.inner@[0].start as int, p.inner@[0].end as int)
    } else {
        Seq::empty()
    }
}

/// The texts of the comment spans of `ps`, in order.
pub open spec fn comment_texts(s: Seq<char>, ps: Seq<Pair>) -> Seq<Seq<char>>
    decreases ps.len(),
{
    if ps.len() == 0 {
        Seq::empty()
    } else if ps.last().rule == Rule::NodeComment {
        comment_texts(s, ps.drop_last()).push(comment_text(s, ps.last()))
    } else {
        comment_texts(s, ps.drop_last())
    }
}

/// The bodies of the comments from `pos` on, or none at the end of the
/// input.
pub open spec fn bodies_from(s: Seq<char>, pos: int) -> Seq<Seq<char>> {
    if pos < s.len() {
        comment_bodies(s, pos)
    } else {
        Seq::empty()
    }
}

/// Every span of `ps` is a comment span.
pub open spec fn all_comment_spans(ps: Seq<Pair>) -> bool {
    forall|i: int| 0 <= i < ps.len() ==> (#[trigger] ps[i]).rule == Rule::NodeComment
}

/// A comment span, or the end of the input.
pub open spec fn is_comment_span(p: Pair) -> bool {
    p.rule == Rule::NodeComment || p.rule == Rule::Eoi
}

/// `<!--` stands at `i`.
pub open spec fn comment_start(s: Seq<char>, i: int) -> bool {
    0 <= i && i + 3 < s.len() && s[i] == '<' && s[i + 1] == '!' && s[i + 2] == '-' && s[i + 3]
        == '-'
}

/// Every `<!--` of `s` is closed by a `-->` after it.
pub open spec fn comments_closed(s: Seq<char>) -> bool {
    forall|i: int| #[trigger] comment_start(s, i) ==> comment_close(s, wsp_end(s, i + 4)) is Some
}

/// No `<` stands in `s` from `lo` on.
pub open spec fn no_lt(s: Seq<char>, lo: int) -> bool {
    forall|k: int| lo <= k < s.len() ==> #[trigger] s[k] != '<'
}

fn leaf(rule: Rule, start: usize, end: usize) -> (r: Pair)
    ensures
        r.rule == rule,
        r.start == start,
        r.end == end,
        r.inner@.len() == 0,
        start <= end ==> pair_wf(r, start as int, end as int),
{
    Pair { rule, start, end, inner: Vec::new() }
}

fn at(s: &Vec<char>, pos: usize, c: char) -> (r: bool)
    ensures
        r == (pos < s@.len() && s@[pos as int] == c),
        s@.len() <= usize::MAX,
{
    pos < s.len() && s[pos] == c
}

/// Skips the grammar's white space.
fn skip_wsp(s: &Vec<char>, pos: usize) -> (r: usize)
    requires
        pos <= s@.len(),
    ensures
        pos <= r <= s@.len(),
        forall|k: int| pos <= k < r ==> is_wsp(#[trigger] s@[k]),
        r < s@.len() ==> !is_wsp(s@[r as int]),
        r == wsp_end(s@, pos as int),
        s@.len() <= usize::MAX,
{
    let mut i = pos;
    while i < s.len() && wsp(s[i])
        invariant
            pos <= i <= s@.len(),
            forall|k: int| pos <= k < i ==> is_wsp(#[trigger] s@[k]),
            wsp_end(s@, pos as int) == wsp_end(s@, i as int),
        decreases s@.len() - i,
    {
        i = i + 1;
    }
    i
}

/// A name: a letter, then letters, digits, `_`, `-` or `:`.
fn name_at(s: &Vec<char>, pos: usize) -> (r: Option<usize>)
    requires
        pos <= s@.len(),
    ensures
        r is Some ==> pos < r->0 <= s@.len() && is_alpha(s@[pos as int]),
{
    if pos < s.len() && alpha(s[pos]) {
        let mut i = pos + 1;
        while i < s.len() && name_char(s[i])
            invariant
                pos < i <= s@.len(),
            decreases s@.len() - i,
        {
            i = i + 1;
        }
        Some(i)
    } else {
        None
    }
}

/// Whether `s[a..b]` is the lower-case ASCII word `w`, ignoring ASCII case.
fn name_is(s: &Vec<char>, a: usize, b: usize, w: &str) -> (r: bool)
    requires
        a <= b <= s@.len(),
{
    let n = w.unicode_len();
    if b - a != n {
        return false;
    }
    let mut i: usize = 0;
    while i < n
        invariant
            a <= b <= s@.len(),
            b - a == n,
            n == w@.len(),
        decreases n - i,
    {
        if lower(s[a + i]) != w.get_char(i) {
            return false;
        }
        i = i + 1;
    }
    true
}

/// Whether a case-insensitive ASCII word `w` stands at `pos`.
fn word_at(s: &Vec<char>, pos: usize, w: &str) -> (r: bool)
    requires
        pos <= s@.len(),
    ensures
        r ==> pos + w@.len() <= s@.len(),
{
    let n = w.unicode_len();
    if s.len() - pos < n {
        return false;
    }
    name_is(s, pos, pos + n, w)
}

/// The names of the elements that never take children.
fn is_void_name(s: &Vec<char>, a: usize, b: usize) -> bool
    requires
        a <= b <= s@.len(),
{
    name_is(s, a, b, "area") || name_is(s, a, b, "base") || name_is(s, a, b, "br")
        || name_is(s, a, b, "col") || name_is(s, a, b, "command") || name_is(s, a, b, "embed")
        || name_is(s, a, b, "hr") || name_is(s, a, b, "img") || name_is(s, a, b, "input")
        || name_is(s, a, b, "keygen") || name_is(s, a, b, "link") || name_is(s, a, b, "meta")
        || name_is(s, a, b, "param") || name_is(s, a, b, "source") || name_is(s, a, b, "track")
        || name_is(s, a, b, "wbr") || name_is(s, a, b, "path") || name_is(s, a, b, "polygon")
        || name_is(s, a, b, "rect") || name_is(s, a, b, "circle")
}

/// The names of the elements whose content is raw text.
fn is_raw_text_name(s: &Vec<char>, a: usize, b: usize) -> bool
    requires
        a <= b <= s@.len(),
{
    name_is(s, a, b, "style") || name_is(s, a, b, "script") || name_is(s, a, b, "title")
        || name_is(s, a, b, "textarea")
}

/// A closing tag for the name `s[a..b]`, matched exactly: `</name>`, with
/// white space allowed before the `>`.
fn end_tag_at(s: &Vec<char>, pos: usize, a: usize, b: usize) -> (r: Option<usize>)
    requires
        pos <= s@.len(),
        a <= b <= s@.len(),
    ensures
        r is Some ==> pos < r->0 <= s@.len() && s@[pos as int] == '<',
{
    if !(at(s, pos, '<') && at(s, pos + 1, '/')) {
        return None;
    }
    let n = b - a;
    if s.len() - (pos + 2) < n {
        return None;
    }
    let mut i: usize = 0;
    while i < n
        invariant
            pos + 2 + n <= s@.len() <= usize::MAX,
            n == b - a,
            a <= b <= s@.len(),
        decreases n - i,
    {
        if s[pos + 2 + i] != s[a + i] {
            return None;
        }
        i = i + 1;
    }
    let c = skip_wsp(s, pos + 2 + n);
    if at(s, c, '>') {
        Some(c + 1)
    } else {
        None
    }
}

/// `key`, `key=value`, `key='value'` or `key="value"`, with white space
/// around the key and around `=`.
fn parse_attr(s: &Vec<char>, pos: usize) -> (r: Option<Found>)
    requires
        pos <= s@.len(),
    ensures
        r is Some ==> pos < r->0.end <= s@.len(),
        r is Some ==> pair_wf(r->0.pair, pos as int, r->0.end as int),
{
    let a = skip_wsp(s, pos);
    let ne = match name_at(s, a) {
        Some(ne) => ne,
        None => return None,
    };
    let ke = skip_wsp(s, ne);
    let mut inner: Vec<Pair> = Vec::new();
    inner.push(leaf(Rule::AttrKey, pos, ke));
    let e = skip_wsp(s, ke);
    if at(s, e, '=') {
        let v = skip_wsp(s, e + 1);
        if !(at(s, v, '"') || at(s, v, '\'')) {
            let mut i = v;
            while i < s.len() && !wsp(s[i]) && s[i] != '>' && !(s[i] == '/' && at(s, i + 1, '>'))
                invariant
                    v <= i <= s@.len(),
                decreases s@.len() - i,
            {
                i = i + 1;
            }
            inner.push(leaf(Rule::AttrNonQuoted, v, i));
            assert(pair_wf(inner@[0], pos as int, i as int));
            assert(pair_wf(inner@[1], pos as int, i as int));
            return Some(Found { end: i, pair: Pair { rule: Rule::Attr, start: pos, end: i, inner } });
        } else {
            let q = s[v];
            let mut i = v + 1;
            while i < s.len() && s[i] != q
                invariant
                    v < i <= s@.len(),
                decreases s@.len() - i,
            {
                i = i + 1;
            }
            if i < s.len() {
                let mut quoted: Vec<Pair> = Vec::new();
                quoted.push(leaf(Rule::AttrValue, v + 1, i));
                let qp = Pair { rule: Rule::AttrQuoted, start: v, end: i + 1, inner: quoted };
                assert(pair_wf(qp.inner@[0], v as int, i + 1));
                assert(pair_wf(qp, pos as int, i + 1));
                inner.push(qp);
                assert(pair_wf(inner@[0], pos as int, i + 1));
                assert(pair_wf(inner@[1], pos as int, i + 1));
                return Some(
                    Found { end: i + 1, pair: Pair { rule: Rule::Attr, start: pos, end: i + 1, inner } },
                );
            }
        }
    }
    assert(pair_wf(inner@[0], pos as int, ke as int));
    Some(Found { end: ke, pair: Pair { rule: Rule::Attr, start: pos, end: ke, inner } })
}

/// Zero or more attributes.
fn parse_attrs(s: &Vec<char>, pos: usize) -> (r: (usize, Vec<Pair>))
    requires
        pos <= s@.len(),
    ensures
        pos <= r.0 <= s@.len(),
        pairs_wf(r.1@, pos as int, r.0 as int),
{
    let mut cur = pos;
    let mut attrs: Vec<Pair> = Vec::new();
    loop
        invariant
            pos <= cur <= s@.len(),
            pairs_wf(attrs@, pos as int, cur as int),
        decreases s@.len() - cur,
    {
        match parse_attr(s, cur) {
            Some(f) => {
                proof {
                    lemma_pairs_wf_widen(attrs@, pos as int, cur as int, pos as int, f.end as int);
                    lemma_pair_wf_widen(f.pair, cur as int, f.end as int, pos as int, f.end as int);
                }
                cur = f.end;
                attrs.push(f.pair);
            },
            None => return (cur, attrs),
        }
    }
}

/// The end of a comment, `-->`, with white space allowed before each part.
fn comment_end_at(s: &Vec<char>, pos: usize) -> (r: Option<usize>)
    requires
        pos <= s@.len(),
    ensures
        r is Some ==> pos < r->0 <= s@.len(),
        r is Some <==> comment_end(s@, pos as int) is Some,
        r is Some ==> r->0 == comment_end(s@, pos as int)->0,
{
    let c = skip_wsp(s, pos);
    if at(s, c, '-') && at(s, c + 1, '-') {
        let d = skip_wsp(s, c + 2);
        if at(s, d, '>') {
            return Some(d + 1);
        }
    }
    None
}

/// `<!-- body -->`, with the white space around it; the body is the text
/// between the first `<!--` and the first `-->`, without the white space
/// at either end.
fn parse_comment(s: &Vec<char>, pos: usize) -> (r: Option<Found>)
    requires
        pos <= s@.len(),
    ensures
        r is Some ==> pos < r->0.end <= s@.len(),
        r is Some ==> pair_wf(r->0.pair, pos as int, r->0.end as int),
        no_lt(s@, pos as int) ==> r is None,
        r is Some <==> comment_at(s@, pos as int) is Some,
        r is Some ==> {
            &&& r->0.end == comment_end_of(s@, pos as int)
            &&& r->0.pair.rule == Rule::NodeComment
            &&& comment_text(s@, r->0.pair) == comment_body_of(s@, pos as int)
        },
{
    let a = skip_wsp(s, pos);
    if !(at(s, a, '<') && at(s, a + 1, '!') && at(s, a + 2, '-') && at(s, a + 3, '-')) {
        return None;
    }
    let b = skip_wsp(s, a + 4);
    let mut q = b;
    while q < s.len()
        invariant
            b <= q <= s@.len(),
            a < b,
            pos <= a,
            s@[a as int] == '<',
            a == wsp_end(s@, pos as int),
            b == wsp_end(s@, a + 4),
            a + 3 < s@.len() && s@[a + 1] == '!' && s@[a + 2] == '-' && s@[a + 3] == '-',
            comment_close(s@, b as int) == comment_close(s@, q as int),
        decreases s@.len() - q,
    {
        if let Some(e) = comment_end_at(s, q) {
            let e2 = skip_wsp(s, e);
            let mut inner: Vec<Pair> = Vec::new();
            inner.push(leaf(Rule::CommentBody, b, q));
            assert(pair_wf(inner@[0], pos as int, e2 as int));
            return Some(Found { end: e2, pair: Pair { rule: Rule::NodeComment, start: pos, end: e2, inner } });
        }
        q = q + 1;
    }
    None
}

/// Whether a comment begins at `pos`.
fn comment_start_at(s: &Vec<char>, pos: usize) -> (r: bool)
    ensures
        r == comment_start(s@, pos as int),
{
    at(s, pos, '<') && at(s, pos + 1, '!') && at(s, pos + 2, '-') && at(s, pos + 3, '-')
}

/// `<!doctype ...>`, with white space before it.
fn parse_doctype(s: &Vec<char>, pos: usize) -> (r: Option<Found>)
    requires
        pos <= s@.len(),
    ensures
        r is Some ==> pos < r->0.end <= s@.len(),
        r is Some ==> pair_wf(r->0.pair, pos as int, r->0.end as int),
        no_lt(s@, pos as int) ==> r is None,
{
    let a = skip_wsp(s, pos);
    if !(at(s, a, '<') && at(s, a + 1, '!') && word_at(s, a + 2, "doctype")) {
        return None;
    }
    proof {
        reveal_strlit("doctype");
    }
    let c = skip_wsp(s, a + 9);
    let (ae, attrs) = parse_attrs(s, c);
    let d = skip_wsp(s, ae);
    if at(s, d, '>') {
        proof {
            lemma_pairs_wf_widen(attrs@, c as int, ae as int, pos as int, d + 1);
        }
        Some(Found { end: d + 1, pair: Pair { rule: Rule::Doctype, start: pos, end: d + 1, inner: attrs } })
    } else {
        None
    }
}

/// The end of a text run, and the element found there where one was parsed
/// to find the end.
pub struct TextRun {
    pub end: usize,
    pub ahead: Option<Found>,
}

/// A node that was read, and the element at its end where reading a text run
/// parsed that element while looking ahead.
pub struct Step {
    pub found: Found,
    pub ahead: Option<Found>,
}

fn element_pair(start: usize, end: usize, inner: Vec<Pair>) -> (r: Pair)
    ensures
        r.rule == Rule::NodeElement,
        r.start == start,
        r.end == end,
        r.inner@ == inner@,
        start <= end && pairs_wf(inner@, start as int, end as int) ==> pair_wf(
            r,
            start as int,
            end as int,
        ),
{
    Pair { rule: Rule::NodeElement, start, end, inner }
}

/// An element: a void element (`<br>`, `<img/>`), a self-closing element
/// (`<div/>`), a processing instruction (`<?xml ... ?>`), a raw text element
/// (`<script>...</script>`), a normal element with its children and its
/// closing tag, or a dangling closing tag (`</div>`), tried in this order.
fn parse_element(s: &Vec<char>, pos: usize, strict: bool, failed: &mut Vec<bool>) -> (r: Option<
    Found,
>)
    requires
        pos <= s@.len(),
        old(failed)@.len() == s@.len() + 1,
    ensures
        final(failed)@.len() == s@.len() + 1,
        r is Some ==> pos < r->0.end <= s@.len() && pos < s@.len() && s@[pos as int] == '<',
        r is Some ==> pair_wf(r->0.pair, pos as int, r->0.end as int),
        old(failed)@[pos as int] ==> r is None,
        r is None ==> final(failed)@[pos as int],
    decreases s@.len() - pos, 1int,
{
    if failed[pos] {
        return None;
    }
    let r = parse_element_at(s, pos, strict, failed);
    if r.is_none() {
        failed.set(pos, true);
    }
    r
}

/// The alternatives of `parse_element`, tried without looking at what
/// earlier attempts found; `failed` marks the positions where an element
/// was already tried and could not be read, so that it is not tried again.
fn parse_element_at(s: &Vec<char>, pos: usize, strict: bool, failed: &mut Vec<bool>) -> (r: Option<
    Found,
>)
    requires
        pos <= s@.len(),
        old(failed)@.len() == s@.len() + 1,
    ensures
        final(failed)@.len() == s@.len() + 1,
        r is Some ==> pos < r->0.end <= s@.len() && pos < s@.len() && s@[pos as int] == '<',
        r is Some ==> pair_wf(r->0.pair, pos as int, r->0.end as int),
    decreases s@.len() - pos, 0int,
{
    if !at(s, pos, '<') {
        return None;
    }
    let p1 = pos + 1;
    if let Some(ne) = name_at(s, p1) {
        let void = is_void_name(s, p1, ne);
        let (ae, mut attrs) = parse_attrs(s, ne);
        let c = skip_wsp(s, ae);
        let closes = at(s, c, '/') && at(s, c + 1, '>');
        if void && (at(s, c, '>') || closes) {
            let end = if closes {
                c + 2
            } else {
                c + 1
            };
            let mut inner: Vec<Pair> = Vec::new();
            inner.push(leaf(Rule::ElVoidName, p1, ne));
            let ghost head = inner@;
            let ghost tail = attrs@;
            inner.append(&mut attrs);
            proof {
                assert(pair_wf(head[0], pos as int, end as int));
                lemma_pairs_wf_widen(tail, ne as int, ae as int, pos as int, end as int);
                lemma_pairs_wf_concat(head, tail, pos as int, end as int);
            }
            return Some(Found { end, pair: element_pair(pos, end, inner) });
        }
        if closes {
            let mut inner: Vec<Pair> = Vec::new();
            inner.push(leaf(Rule::ElName, p1, ne));
            let ghost head = inner@;
            let ghost tail = attrs@;
            inner.append(&mut attrs);
            proof {
                assert(pair_wf(head[0], pos as int, c + 2));
                lemma_pairs_wf_widen(tail, ne as int, ae as int, pos as int, c + 2);
                lemma_pairs_wf_concat(head, tail, pos as int, c + 2);
            }
            return Some(Found { end: c + 2, pair: element_pair(pos, c + 2, inner) });
        }
        if !at(s, c, '>') {
            return None;
        }
        let body = c + 1;
        if is_raw_text_name(s, p1, ne) {
            let mut q = body;
            while q < s.len()
                invariant
                    pos < body <= q <= s@.len(),
                    p1 < ne <= ae < body,
                    pos < p1,
                    s@[pos as int] == '<',
                    pairs_wf(attrs@, ne as int, ae as int),
                    failed@.len() == s@.len() + 1,
                decreases s@.len() - q,
            {
                if let Some(e) = end_tag_at(s, q, p1, ne) {
                    let mut inner: Vec<Pair> = Vec::new();
                    inner.push(leaf(Rule::ElRawTextName, p1, ne));
                    let ghost head = inner@;
                    let ghost tail = attrs@;
                    inner.append(&mut attrs);
                    proof {
                        assert(pair_wf(head[0], pos as int, e as int));
                        lemma_pairs_wf_widen(tail, ne as int, ae as int, pos as int, e as int);
                        lemma_pairs_wf_concat(head, tail, pos as int, e as int);
                    }
                    let ghost mid = inner@;
                    inner.push(leaf(Rule::ElRawTextContent, body, q));
                    inner.push(leaf(Rule::ElRawTextEnd, q, e));
                    proof {
                        assert forall|k: int| 0 <= k < inner@.len() implies pair_wf(
                            #[trigger] inner@[k],
                            pos as int,
                            e as int,
                        ) by {
                            if k < mid.len() {
                                assert(inner@[k] == mid[k]);
                            }
                        }
                    }
                    return Some(Found { end: e, pair: element_pair(pos, e, inner) });
                }
                q = q + 1;
            }
            return None;
        }
        let mut inner: Vec<Pair> = Vec::new();
        inner.push(leaf(Rule::ElName, p1, ne));
        let ghost head = inner@;
        let ghost tail = attrs@;
        inner.append(&mut attrs);
        proof {
            assert(pair_wf(head[0], pos as int, body as int));
            lemma_pairs_wf_widen(tail, ne as int, ae as int, pos as int, body as int);
            lemma_pairs_wf_concat(head, tail, pos as int, body as int);
        }
        let mut cur = body;
        let mut ahead: Option<Found> = None;
        loop
            invariant
                pos < body <= cur <= s@.len(),
                p1 < ne <= s@.len(),
                s@[pos as int] == '<',
                ahead is Some ==> cur < ahead->0.end <= s@.len(),
                ahead is Some ==> pair_wf(ahead->0.pair, cur as int, ahead->0.end as int),
                pairs_wf(inner@, pos as int, cur as int),
                failed@.len() == s@.len() + 1,
            decreases s@.len() - cur,
        {
            if let Some(e) = end_tag_at(s, cur, p1, ne) {
                proof {
                    lemma_pairs_wf_widen(inner@, pos as int, cur as int, pos as int, e as int);
                }
                let ghost before = inner@;
                inner.push(leaf(Rule::ElNormalEnd, cur, e));
                proof {
                    assert forall|k: int| 0 <= k < inner@.len() implies pair_wf(
                        #[trigger] inner@[k],
                        pos as int,
                        e as int,
                    ) by {
                        if k < before.len() {
                            assert(inner@[k] == before[k]);
                        }
                    }
                }
                return Some(Found { end: e, pair: element_pair(pos, e, inner) });
            }
            let step = match ahead {
                Some(f) => Step { found: f, ahead: None },
                None => match parse_node(s, cur, strict, failed) {
                    Some(st) => st,
                    None => return None,
                },
            };
            proof {
                lemma_pairs_wf_widen(inner@, pos as int, cur as int, pos as int, step.found.end as int);
                lemma_pair_wf_widen(
                    step.found.pair,
                    cur as int,
                    step.found.end as int,
                    pos as int,
                    step.found.end as int,
                );
            }
            let ghost before = inner@;
            cur = step.found.end;
            inner.push(step.found.pair);
            ahead = step.ahead;
            proof {
                assert forall|k: int| 0 <= k < inner@.len() implies pair_wf(
                    #[trigger] inner@[k],
                    pos as int,
                    cur as int,
                ) by {
                    if k < before.len() {
                        assert(inner@[k] == before[k]);
                    }
                }
            }
        }
    }
    if at(s, p1, '?') {
        let n0 = p1 + 1;
        let mut inner: Vec<Pair> = Vec::new();
        let ne = match name_at(s, n0) {
            Some(ne) => {
                inner.push(leaf(Rule::ElName, n0, ne));
                ne
            },
            None => n0,
        };
        let (ae, mut attrs) = parse_attrs(s, ne);
        let ghost head = inner@;
        let ghost tail = attrs@;
        inner.append(&mut attrs);
        let c = skip_wsp(s, ae);
        if at(s, c, '?') && at(s, c + 1, '>') {
            let e = c + 2;
            proof {
                if head.len() > 0 {
                    assert(pair_wf(head[0], pos as int, e as int));
                }
                assert(pairs_wf(head, pos as int, e as int));
                lemma_pairs_wf_widen(tail, ne as int, ae as int, pos as int, e as int);
                lemma_pairs_wf_concat(head, tail, pos as int, e as int);
            }
            let pi = Pair { rule: Rule::ElProcessInstruct, start: pos, end: e, inner };
            assert(pair_wf(pi, pos as int, e as int));
            let mut outer: Vec<Pair> = Vec::new();
            outer.push(pi);
            return Some(Found { end: e, pair: element_pair(pos, e, outer) });
        }
        return None;
    }
    if at(s, p1, '/') {
        let n0 = p1 + 1;
        if let Some(ne) = name_at(s, n0) {
            let c = skip_wsp(s, ne);
            if at(s, c, '>') {
                let e = c + 1;
                let mut inner: Vec<Pair> = Vec::new();
                inner.push(leaf(Rule::ElName, n0, ne));
                let dp = Pair { rule: Rule::ElDangling, start: pos, end: e, inner };
                assert(pair_wf(dp.inner@[0], pos as int, e as int));
                assert(pair_wf(dp, pos as int, e as int));
                let mut outer: Vec<Pair> = Vec::new();
                outer.push(dp);
                return Some(Found { end: e, pair: element_pair(pos, e, outer) });
            }
        }
    }
    None
}

/// A run of text: one character or more, up to the first place where an
/// element or a comment begins. In strict mode the run also stops at every
/// `<`. Returns the end of the run and the element found there, if one was
/// parsed to find the end.
fn parse_text(s: &Vec<char>, pos: usize, strict: bool, failed: &mut Vec<bool>) -> (r: Option<
    TextRun,
>)
    requires
        pos <= s@.len(),
        old(failed)@.len() == s@.len() + 1,
    ensures
        final(failed)@.len() == s@.len() + 1,
        r is Some ==> pos < r->0.end <= s@.len(),
        r is Some && r->0.ahead is Some ==> r->0.end < r->0.ahead->0.end <= s@.len(),
        r is Some && r->0.ahead is Some ==> pair_wf(
            r->0.ahead->0.pair,
            r->0.end as int,
            r->0.ahead->0.end as int,
        ),
        no_lt(s@, pos as int) && pos < s@.len() ==> r is Some && r->0.end == s@.len()
            && r->0.ahead is None,
        !strict && pos < s@.len() && !comment_start(s@, pos as int) && old(failed)@[pos as int]
            ==> r is Some,
    decreases s@.len() - pos, 2int,
{
    let mut i = pos;
    while i < s.len()
        invariant
            pos <= i <= s@.len(),
            no_lt(s@, pos as int) ==> no_lt(s@, i as int),
            failed@.len() == s@.len() + 1,
            !strict && pos < s@.len() && !comment_start(s@, pos as int) && old(failed)@[pos as int]
                ==> (i > pos || failed@ == old(failed)@),
        ensures
            !strict && pos < s@.len() && !comment_start(s@, pos as int) && old(failed)@[pos as int]
                ==> i > pos,
            failed@.len() == s@.len() + 1,
            pos <= i <= s@.len(),
            no_lt(s@, pos as int) ==> i == s@.len(),
        decreases s@.len() - i,
    {
        if s[i] == '<' {
            if comment_start_at(s, i) || strict {
                break;
            }
            if let Some(f) = parse_element(s, i, strict, failed) {
                if i > pos {
                    return Some(TextRun { end: i, ahead: Some(f) });
                } else {
                    return None;
                }
            }
        }
        i = i + 1;
    }
    if i > pos {
        Some(TextRun { end: i, ahead: None })
    } else {
        None
    }
}

/// A node: a comment, an element or a run of text, tried in this order.
fn parse_node(s: &Vec<char>, pos: usize, strict: bool, failed: &mut Vec<bool>) -> (r: Option<Step>)
    requires
        pos <= s@.len(),
        old(failed)@.len() == s@.len() + 1,
    ensures
        final(failed)@.len() == s@.len() + 1,
        r is Some ==> pos < r->0.found.end <= s@.len(),
        r is Some && r->0.ahead is Some ==> r->0.found.end < r->0.ahead->0.end <= s@.len(),
        r is Some ==> pair_wf(r->0.found.pair, pos as int, r->0.found.end as int),
        r is Some && r->0.ahead is Some ==> pair_wf(
            r->0.ahead->0.pair,
            r->0.found.end as int,
            r->0.ahead->0.end as int,
        ),
        no_lt(s@, pos as int) && pos < s@.len() ==> r is Some && r->0.found.end == s@.len()
            && r->0.found.pair.rule == Rule::NodeText && r->0.found.pair.start == pos
            && r->0.found.pair.end == s@.len()
            && r->0.ahead is None,
        no_lt(s@, pos as int) && pos == s@.len() ==> r is None,
        !strict && pos < s@.len() && r is None ==> comment_start(s@, pos as int) && comment_at(
            s@,
            pos as int,
        ) is None,
    decreases s@.len() - pos, 3int,
{
    if let Some(f) = parse_comment(s, pos) {
        return Some(Step { found: f, ahead: None });
    }
    if let Some(f) = parse_element(s, pos, strict, failed) {
        return Some(Step { found: f, ahead: None });
    }
    match parse_text(s, pos, strict, failed) {
        Some(t) => Some(
            Step { found: Found { end: t.end, pair: leaf(Rule::NodeText, pos, t.end) }, ahead: t.ahead },
        ),
        None => None,
    }
}

/// Why markup could not be read: the position where the grammar stopped.
pub struct GrammarError {
    pub pos: usize,
}

/// Reads markup into its top-level spans: comments, an optional doctype, then
/// nodes, and a last span for the end of the input. In strict mode a `<` that
/// begins no element or comment is an error; otherwise it is text.
pub fn tokenize(s: &Vec<char>, strict: bool) -> (r: Result<Vec<Pair>, GrammarError>)
    ensures
        r is Err ==> r->Err_0.pos < s@.len(),
        r is Ok ==> pairs_wf(r->Ok_0@, 0, s@.len() as int),
        !strict && comments_closed(s@) ==> r is Ok,
        comments_to_end(s@, 0) ==> {
            &&& r is Ok
            &&& forall|i: int| 0 <= i < r->Ok_0@.len() ==> is_comment_span(#[trigger] r->Ok_0@[i])
            &&& comment_texts(s@, r->Ok_0@) == comment_bodies(s@, 0)
        },
        r is Ok ==> r->Ok_0@.len() > 0 && r->Ok_0@.last().rule == Rule::Eoi && r->Ok_0@.last().start
            == s@.len() && r->Ok_0@.last().end == s@.len(),
        no_lt(s@, 0) ==> r is Ok,
        no_lt(s@, 0) && s@.len() == 0 ==> r->Ok_0@.len() == 1 && r->Ok_0@[0].rule
            == Rule::Eoi,
        no_lt(s@, 0) && s@.len() > 0 ==> r->Ok_0@.len() == 2 && r->Ok_0@[0].rule
            == Rule::NodeText && r->Ok_0@[0].start == 0 && r->Ok_0@[0].end == s@.len()
            && r->Ok_0@[1].rule == Rule::Eoi,
{
    let mut failed: Vec<bool> = Vec::new();
    while failed.len() <= s.len()
        invariant
            failed@.len() <= s@.len() + 1,
        decreases s@.len() + 1 - failed@.len(),
    {
        failed.push(false);
    }
    let mut out: Vec<Pair> = Vec::new();
    let mut cur: usize = 0;
    loop
        invariant
            cur <= s@.len(),
            no_lt(s@, 0) ==> cur == 0 && out@.len() == 0,
            pairs_wf(out@, 0, cur as int),
            comments_to_end(s@, 0) ==> all_comment_spans(out@) && (cur == s@.len() || (cur
                < s@.len() && comments_to_end(s@, cur as int))) && comment_texts(s@, out@)
                + bodies_from(s@, cur as int) == comment_bodies(s@, 0),
        ensures
            cur <= s@.len(),
            no_lt(s@, 0) ==> cur == 0 && out@.len() == 0,
            pairs_wf(out@, 0, cur as int),
            comments_to_end(s@, 0) ==> all_comment_spans(out@) && cur == s@.len() && comment_texts(
                s@,
                out@,
            ) == comment_bodies(s@, 0),
        decreases s@.len() - cur,
    {
        match parse_comment(s, cur) {
            Some(f) => {
                proof {
                    lemma_pairs_wf_widen(out@, 0, cur as int, 0, f.end as int);
                    lemma_pair_wf_widen(f.pair, cur as int, f.end as int, 0, f.end as int);
                }
                let ghost before = out@;
                let ghost old_cur = cur;
                cur = f.end;
                out.push(f.pair);
                assert(forall|k: int| 0 <= k < before.len() ==> out@[k] == before[k]);
                proof {
                    assert(out@.drop_last() == before);
                    if comments_to_end(s@, 0) {
                        assert(out@[before.len() as int] == f.pair);
                        assert(comment_texts(s@, out@) == comment_texts(s@, before).push(
                            comment_text(s@, f.pair),
                        ));
                        assert(comment_bodies(s@, old_cur as int) == seq![
                            comment_body_of(s@, old_cur as int),
                        ] + bodies_from(s@, cur as int));
                        assert(comment_texts(s@, out@) + bodies_from(s@, cur as int) =~= comment_texts(
                            s@,
                            before,
                        ) + bodies_from(s@, old_cur as int));
                    }
                }
            },
            None => {
                proof {
                    if comments_to_end(s@, 0) && cur < s@.len() {
                        assert(comment_at(s@, cur as int) is Some);
                    }
                    if comments_to_end(s@, 0) {
                        assert(comment_texts(s@, out@) + bodies_from(s@, cur as int) =~= comment_texts(
                            s@,
                            out@,
                        ));
                    }
                }
                break;
            },
        }
    }
    proof {
        if comments_to_end(s@, 0) {
            assert(no_lt(s@, cur as int));
        }
    }
    if let Some(f) = parse_doctype(s, cur) {
        proof {
            lemma_pairs_wf_widen(out@, 0, cur as int, 0, f.end as int);
            lemma_pair_wf_widen(f.pair, cur as int, f.end as int, 0, f.end as int);
        }
        let ghost before = out@;
        cur = f.end;
        out.push(f.pair);
        assert(forall|k: int| 0 <= k < before.len() ==> out@[k] == before[k]);
    }
    let ghost first = cur;
    let mut ahead: Option<Found> = None;
    loop
        invariant
            cur <= s@.len(),
            ahead is Some ==> cur < ahead->0.end <= s@.len(),
            ahead is Some ==> pair_wf(ahead->0.pair, cur as int, ahead->0.end as int),
            pairs_wf(out@, 0, cur as int),
            failed@.len() == s@.len() + 1,
            comments_to_end(s@, 0) ==> all_comment_spans(out@) && cur == s@.len() && ahead is None
                && comment_texts(s@, out@) == comment_bodies(s@, 0),
            no_lt(s@, 0) ==> first == 0,
            no_lt(s@, 0) ==> ahead is None,
            no_lt(s@, 0) && cur == 0 ==> out@.len() == 0,
            no_lt(s@, 0) && cur > 0 ==> cur == s@.len() && out@.len() == 1,
            no_lt(s@, 0) && cur > 0 ==> out@[0].rule == Rule::NodeText && out@[0].start == 0 && out@[0].end == s@.len(),
        ensures
            cur <= s@.len(),
            pairs_wf(out@, 0, cur as int),
            !strict && comments_closed(s@) ==> cur == s@.len(),
            comments_to_end(s@, 0) ==> all_comment_spans(out@) && cur == s@.len()
                && comment_texts(s@, out@) == comment_bodies(s@, 0),
            no_lt(s@, 0) ==> cur == s@.len() && (cur == 0 ==> out@.len() == 0) && (cur > 0 ==> out@.len() == 1
                && out@[0].rule == Rule::NodeText && out@[0].start == 0 && out@[0].end == s@.len()),
        decreases s@.len() - cur,
    {
        let step = match ahead {
            Some(f) => Step { found: f, ahead: None },
            None => match parse_node(s, cur, strict, &mut failed) {
                Some(st) => st,
                None => {
                    proof {
                        if !strict && comments_closed(s@) && cur < s@.len() {
                            assert(comment_start(s@, cur as int));
                            assert(wsp_end(s@, cur as int) == cur);
                            assert(comment_close(s@, wsp_end(s@, cur + 4)) is Some);
                        }
                    }
                    break;
                },
            },
        };
        proof {
            lemma_pairs_wf_widen(out@, 0, cur as int, 0, step.found.end as int);
            lemma_pair_wf_widen(step.found.pair, cur as int, step.found.end as int, 0, step.found.end as int);
        }
        let ghost before = out@;
        cur = step.found.end;
        out.push(step.found.pair);
        ahead = step.ahead;
        assert(forall|k: int| 0 <= k < before.len() ==> out@[k] == before[k]);
    }
    if cur < s.len() {
        return Err(GrammarError { pos: cur });
    }
    let ghost before = out@;
    out.push(leaf(Rule::Eoi, cur, cur));
    assert(forall|k: int| 0 <= k < before.len() ==> out@[k] == before[k]);
    proof {
        assert(out@.drop_last() == before);
        if comments_to_end(s@, 0) {
            assert(is_comment_span(out@[before.len() as int]));
        }
    }
    Ok(out)
}

} // verus!
