//! Builds nodes out of the spans that the grammar produced.
use crate::chars::{blank, is_blank, is_space, same, slice, space, split_words, strs_view, words};
use crate::error::{Error, Result};
use crate::grammar::{Pair, Rule};
use crate::grammar::comment_text;
use crate::node::{
    attr_keys_unique, attr_views, element_view, has_key, node_view, opt_view, Element, ElementV,
    ElementVariant, Node, NodeV,
};
use crate::span::SourceSpan;
use vstd::prelude::*;
use vstd::string::StringExecFns;

verus! {

/// Every element in `n` has a name, its attribute keys stand once each, and
/// neither `id` nor `class` is among them.
pub open spec fn node_wf(n: Node) -> bool
    decreases n,
{
    match n {
        Node::Element(e) => {
            &&& e.name@.len() > 0
            &&& attrs_wf(e.attributes@)
            &&& forall|i: int| 0 <= i < e.children@.len() ==> node_wf(#[trigger] e.children@[i])
        },
        Node::Text(t) => !is_blank(t@),
        _ => true,
    }
}

/// The attributes of an element: keys unique, and neither `id` nor `class`.
pub open spec fn attrs_wf(attrs: Seq<(String, Option<String>)>) -> bool {
    &&& attr_keys_unique(attrs)
    &&& forall|i: int|
        0 <= i < attrs.len() ==> #[trigger] attrs[i].0@ != "id"@ && attrs[i].0@ != "class"@
}

/// Every node of `nodes` is well formed.
pub open spec fn nodes_wf(nodes: Seq<Node>) -> bool {
    forall|i: int| 0 <= i < nodes.len() ==> node_wf(#[trigger] nodes[i])
}

/// The line and column, both from 1, of position `i` in `s`.
pub open spec fn line_col(s: Seq<char>, i: int) -> (int, int)
    decreases i,
{
    if i <= 0 {
        (1, 1)
    } else if s[i - 1] == '\n' {
        (line_col(s, i - 1).0 + 1, 1)
    } else {
        (line_col(s, i - 1).0, line_col(s, i - 1).1 + 1)
    }
}

/// The line and column of position `pos`, counted in characters.
pub fn position(s: &Vec<char>, pos: usize) -> (r: (usize, usize))
    requires
        pos <= s@.len(),
        pos < usize::MAX,
    ensures
        r.0 == line_col(s@, pos as int).0,
        r.1 == line_col(s@, pos as int).1,
{
    let mut line: usize = 1;
    let mut col: usize = 1;
    let mut k: usize = 0;
    while k < pos
        invariant
            k <= pos <= s@.len(),
            pos < usize::MAX,
            1 <= line <= k + 1,
            1 <= col <= k + 1,
            line == line_col(s@, k as int).0,
            col == line_col(s@, k as int).1,
        decreases pos - k,
    {
        if s[k] == '\n' {
            line = line + 1;
            col = 1;
        } else {
            col = col + 1;
        }
        k = k + 1;
    }
    (line, col)
}

/// Where `s[a..b]` starts once white space is cut from its front.
pub open spec fn trim_lo(s: Seq<char>, a: int, b: int) -> int
    decreases b - a,
{
    if a < b && is_space(s[a]) {
        trim_lo(s, a + 1, b)
    } else {
        a
    }
}

/// Where `s[lo..b]` ends once white space is cut from its back.
pub open spec fn trim_hi(s: Seq<char>, lo: int, b: int) -> int
    decreases b - lo,
{
    if lo < b && is_space(s[b - 1]) {
        trim_hi(s, lo, b - 1)
    } else {
        b
    }
}

/// `s[a..b]` with white space cut from both ends, as `str::trim` does.
pub open spec fn trimmed(s: Seq<char>, a: int, b: int) -> Seq<char> {
    s.subrange(trim_lo(s, a, b), trim_hi(s, trim_lo(s, a, b), b))
}

/// The part of `s[a..b]` left when white space is cut from both ends, as
/// `str::trim` does.
pub fn trim_range(s: &Vec<char>, a: usize, b: usize) -> (r: (usize, usize))
    requires
        a <= b <= s@.len(),
    ensures
        r.0 == trim_lo(s@, a as int, b as int),
        r.1 == trim_hi(s@, r.0 as int, b as int),
        a <= r.0 <= r.1 <= b,
        forall|k: int| a <= k < r.0 ==> is_space(#[trigger] s@[k]),
        forall|k: int| r.1 <= k < b ==> is_space(#[trigger] s@[k]),
        r.0 < r.1 ==> !is_space(s@[r.0 as int]) && !is_space(s@[r.1 - 1]),
{
    let mut i = a;
    while i < b && space(s[i])
        invariant
            a <= i <= b <= s@.len(),
            forall|k: int| a <= k < i ==> is_space(#[trigger] s@[k]),
            trim_lo(s@, a as int, b as int) == trim_lo(s@, i as int, b as int),
        decreases b - i,
    {
        i = i + 1;
    }
    let mut j = b;
    while j > i && space(s[j - 1])
        invariant
            a <= i <= j <= b <= s@.len(),
            forall|k: int| j <= k < b ==> is_space(#[trigger] s@[k]),
            i == trim_lo(s@, a as int, b as int),
            trim_hi(s@, i as int, b as int) == trim_hi(s@, i as int, j as int),
        decreases j - i,
    {
        j = j - 1;
    }
    (i, j)
}

/// A span nested in an attribute that can be read: a key or an unquoted
/// value that lies in the input, or a quoted value whose first nested span is
/// its text and lies in the input.
pub open spec fn attr_part_ok(s: Seq<char>, p: Pair) -> bool {
    &&& p.start <= p.end <= s.len()
    &&& match p.rule {
        Rule::AttrKey | Rule::AttrNonQuoted => true,
        Rule::AttrQuoted => p.inner@.len() > 0 && p.inner@[0].rule == Rule::AttrValue
            && p.inner@[0].start <= p.inner@[0].end <= s.len(),
        _ => false,
    }
}

/// The key that the spans of an attribute give: the trimmed text of the
/// last key span, or nothing.
pub open spec fn attr_key_of(s: Seq<char>, ps: Seq<Pair>) -> Seq<char>
    decreases ps.len(),
{
    if ps.len() == 0 {
        Seq::empty()
    } else if ps.last().rule == Rule::AttrKey {
        trimmed(s, ps.last().start as int, ps.last().end as int)
    } else {
        attr_key_of(s, ps.drop_last())
    }
}

/// The value that the spans of an attribute give: that of the last value
/// span, trimmed where it has no quotes and as written where it has; none
/// where there is no value span.
pub open spec fn attr_value_of(s: Seq<char>, ps: Seq<Pair>) -> Option<Seq<char>>
    decreases ps.len(),
{
    if ps.len() == 0 {
        None
    } else if ps.last().rule == Rule::AttrNonQuoted {
        Some(trimmed(s, ps.last().start as int, ps.last().end as int))
    } else if ps.last().rule == Rule::AttrQuoted {
        Some(s.subrange(ps.last().inner@[0].start as int, ps.last().inner@[0].end as int))
    } else {
        attr_value_of(s, ps.drop_last())
    }
}

/// The message for a nested span of an attribute that cannot be read.
pub open spec fn part_msg(s: Seq<char>, p: Pair) -> Seq<char> {
    if !(p.start <= p.end <= s.len()) {
        "Failed to parse attr: span outside the input"@
    } else if p.rule == Rule::AttrQuoted {
        if p.inner@.len() == 0 {
            "Failed to parse attr value: none"@
        } else if p.inner@[0].rule != Rule::AttrValue {
            "Failed to parse attr value: "@ + rule_str(p.inner@[0].rule)
        } else {
            "Failed to parse attr value: span outside the input"@
        }
    } else {
        "Failed to parse attr: "@ + rule_str(p.rule)
    }
}

/// The message for the first nested span of an attribute that cannot be
/// read.
pub open spec fn attr_error(s: Seq<char>, ps: Seq<Pair>) -> Seq<char>
    decreases ps.len(),
{
    if ps.len() == 0 {
        Seq::empty()
    } else if !attr_part_ok(s, ps[0]) {
        part_msg(s, ps[0])
    } else {
        attr_error(s, ps.drop_first())
    }
}

/// Every nested span of an attribute can be read.
pub open spec fn attr_all_ok(s: Seq<char>, ps: Seq<Pair>) -> bool {
    forall|k: int| 0 <= k < ps.len() ==> attr_part_ok(s, #[trigger] ps[k])
}

/// The key of an attribute and its value, if it has one: the key is trimmed,
/// as is a value without quotes; a quoted value is kept as written. Fails
/// where a nested span cannot be read.
pub fn build_attribute(input: &str, s: &Vec<char>, pair: &Pair) -> (r: Result<
    (String, Option<String>),
>)
    requires
        s@ == input@,
    ensures
        r is Ok <==> forall|k: int|
            0 <= k < pair.inner@.len() ==> attr_part_ok(s@, #[trigger] pair.inner@[k]),
        r is Ok ==> r->Ok_0.0@ == attr_key_of(s@, pair.inner@) && opt_view(r->Ok_0.1)
            == attr_value_of(s@, pair.inner@),
        r is Err ==> r->Err_0->Parsing_0@ == attr_error(s@, pair.inner@),
{
    let mut key = String::new();
    let mut value: Option<String> = None;
    let mut i: usize = 0;
    assert(pair.inner@.skip(0) =~= pair.inner@);
    while i < pair.inner.len()
        invariant
            s@ == input@,
            i <= pair.inner@.len(),
            forall|k: int| 0 <= k < i ==> attr_part_ok(s@, #[trigger] pair.inner@[k]),
            key@ == attr_key_of(s@, pair.inner@.take(i as int)),
            opt_view(value) == attr_value_of(s@, pair.inner@.take(i as int)),
            attr_error(s@, pair.inner@) == attr_error(s@, pair.inner@.skip(i as int)),
        decreases pair.inner@.len() - i,
    {
        let p = &pair.inner[i];
        proof {
            assert(pair.inner@.skip(i as int)[0] == pair.inner@[i as int]);
            assert(pair.inner@.skip(i as int).drop_first() =~= pair.inner@.skip(i + 1));
            let t = pair.inner@.take(i + 1);
            assert(t.drop_last() == pair.inner@.take(i as int));
            assert(t.last() == pair.inner@[i as int]);
        }
        if !(p.start <= p.end && p.end <= s.len()) {
            assert(!attr_part_ok(s@, pair.inner@[i as int]));
            return Err(Error::Parsing(String::from_str("Failed to parse attr: span outside the input")));
        }
        match p.rule {
            Rule::AttrKey => {
                let (a, b) = trim_range(s, p.start, p.end);
                key = slice(input, a, b);
            },
            Rule::AttrNonQuoted => {
                let (a, b) = trim_range(s, p.start, p.end);
                value = Some(slice(input, a, b));
            },
            Rule::AttrQuoted => {
                if p.inner.len() == 0 {
                    assert(!attr_part_ok(s@, pair.inner@[i as int]));
                    return Err(Error::Parsing(String::from_str("Failed to parse attr value: none")));
                }
                let v = &p.inner[0];
                if v.rule != Rule::AttrValue {
                    let mut m = String::from_str("Failed to parse attr value: ");
                    m.append(rule_name(v.rule));
                    assert(!attr_part_ok(s@, pair.inner@[i as int]));
                    return Err(Error::Parsing(m));
                }
                if !(v.start <= v.end && v.end <= s.len()) {
                    assert(!attr_part_ok(s@, pair.inner@[i as int]));
                    return Err(Error::Parsing(String::from_str("Failed to parse attr value: span outside the input")));
                }
                value = Some(slice(input, v.start, v.end));
            },
            _ => {
                let mut m = String::from_str("Failed to parse attr: ");
                m.append(rule_name(p.rule));
                assert(!attr_part_ok(s@, pair.inner@[i as int]));
                return Err(Error::Parsing(m));
            },
        }
        i = i + 1;
    }
    assert(pair.inner@.take(pair.inner@.len() as int) == pair.inner@);
    Ok((key, value))
}

/// The name of a rule, as error messages give it.
pub open spec fn rule_str(rule: Rule) -> Seq<char> {
    match rule {
        Rule::Doctype => "doctype"@,
        Rule::NodeText => "node_text"@,
        Rule::NodeComment => "node_comment"@,
        Rule::NodeElement => "node_element"@,
        Rule::ElName => "el_name"@,
        Rule::ElVoidName => "el_void_name"@,
        Rule::ElRawTextName => "el_raw_text_name"@,
        Rule::ElRawTextContent => "el_raw_text_content"@,
        Rule::ElNormalEnd => "el_normal_end"@,
        Rule::ElRawTextEnd => "el_raw_text_end"@,
        Rule::ElDangling => "el_dangling"@,
        Rule::ElProcessInstruct => "el_process_instruct"@,
        Rule::Attr => "attr"@,
        Rule::AttrKey => "attr_key"@,
        Rule::AttrQuoted => "attr_quoted"@,
        Rule::AttrValue => "attr_value"@,
        Rule::AttrNonQuoted => "attr_non_quoted"@,
        Rule::CommentBody => "comment_body"@,
        Rule::Eoi => "EOI"@,
    }
}

/// The name of a rule, as error messages give it.
pub fn rule_name(rule: Rule) -> (r: &'static str)
    ensures
        r@ == rule_str(rule),
{
    match rule {
        Rule::Doctype => "doctype",
        Rule::NodeText => "node_text",
        Rule::NodeComment => "node_comment",
        Rule::NodeElement => "node_element",
        Rule::ElName => "el_name",
        Rule::ElVoidName => "el_void_name",
        Rule::ElRawTextName => "el_raw_text_name",
        Rule::ElRawTextContent => "el_raw_text_content",
        Rule::ElNormalEnd => "el_normal_end",
        Rule::ElRawTextEnd => "el_raw_text_end",
        Rule::ElDangling => "el_dangling",
        Rule::ElProcessInstruct => "el_process_instruct",
        Rule::Attr => "attr",
        Rule::AttrKey => "attr_key",
        Rule::AttrQuoted => "attr_quoted",
        Rule::AttrValue => "attr_value",
        Rule::AttrNonQuoted => "attr_non_quoted",
        Rule::CommentBody => "comment_body",
        Rule::Eoi => "EOI",
    }
}

/// The first place from `i` on where key `k` stands, or -1.
pub open spec fn key_index_from(a: Seq<(Seq<char>, Option<Seq<char>>)>, k: Seq<char>, i: int) -> int
    decreases a.len() - i,
{
    if i < 0 || i >= a.len() {
        -1
    } else if a[i].0 == k {
        i
    } else {
        key_index_from(a, k, i + 1)
    }
}

/// `a` with key `k` set to `v`: in place where `k` stands, else at the end.
pub open spec fn attr_set(
    a: Seq<(Seq<char>, Option<Seq<char>>)>,
    k: Seq<char>,
    v: Option<Seq<char>>,
) -> Seq<(Seq<char>, Option<Seq<char>>)> {
    if key_index_from(a, k, 0) >= 0 {
        a.update(key_index_from(a, k, 0), (k, v))
    } else {
        a.push((k, v))
    }
}

/// The words of an optional value, as characters.
pub open spec fn opt_words_v(v: Option<Seq<char>>) -> Seq<Seq<char>> {
    match v {
        Some(x) => words(x),
        None => Seq::empty(),
    }
}

/// What one attribute does to an element: `id` sets the id, `class` adds
/// the words of its value to the classes, any other key is set among the
/// attributes.
pub open spec fn apply_attr_v(e: ElementV, k: Seq<char>, v: Option<Seq<char>>) -> ElementV {
    if k == "id"@ {
        ElementV { id: v, ..e }
    } else if k == "class"@ {
        ElementV { classes: e.classes + opt_words_v(v), ..e }
    } else {
        ElementV { attributes: attr_set(e.attributes, k, v), ..e }
    }
}

/// Sets `key` to `value` in an attribute list: in place where the key is
/// there already, at the end where it is not.
pub fn insert_attribute(attrs: &mut Vec<(String, Option<String>)>, key: String, value: Option<String>)
    requires
        attr_keys_unique(old(attrs)@),
    ensures
        attr_views(final(attrs)@) == attr_set(attr_views(old(attrs)@), key@, opt_view(value)),
        attr_keys_unique(final(attrs)@),
        exists|i: int|
            0 <= i < final(attrs)@.len() && #[trigger] final(attrs)@[i].0@ == key@ && opt_view(
                final(attrs)@[i].1,
            ) == opt_view(value),
        forall|i: int|
            0 <= i < old(attrs)@.len() && old(attrs)@[i].0@ != key@ ==> #[trigger] final(attrs)@[i]
                == old(attrs)@[i],
        forall|k: Seq<char>|
            #[trigger] has_key(final(attrs)@, k) <==> (k == key@ || has_key(old(attrs)@, k)),
{
    let mut i: usize = 0;
    while i < attrs.len()
        invariant
            attrs@ == old(attrs)@,
            attr_keys_unique(attrs@),
            i <= attrs@.len(),
            key_index_from(attr_views(attrs@), key@, 0) == key_index_from(
                attr_views(attrs@),
                key@,
                i as int,
            ),
            forall|k: int| 0 <= k < i ==> #[trigger] attrs@[k].0@ != key@,
        decreases attrs@.len() - i,
    {
        assert(attr_views(attrs@)[i as int].0 == attrs@[i as int].0@);
        if attrs[i].0 == key {
            let ghost before = attrs@;
            let ghost kv = (key, value);
            assert(attr_views(before)[i as int].0 == key@);
            attrs.set(i, (key, value));
            assert(attr_views(attrs@) =~= attr_views(before).update(i as int, (key@, opt_view(value))));
            assert(attrs@ == before.update(i as int, kv));
            assert(attrs@[i as int].0@ == before[i as int].0@);
            assert(attrs@[i as int].0@ == key@);
            assert(forall|j: int| 0 <= j < attrs@.len() ==> #[trigger] attrs@[j].0@ == before[j].0@);
            assert forall|a: int, b: int| 0 <= a < b < attrs@.len() implies #[trigger] attrs@[a].0@
                != #[trigger] attrs@[b].0@ by {
                assert(before[a].0@ != before[b].0@);
            }
            assert forall|k: Seq<char>|
                #[trigger] has_key(attrs@, k) <==> (k == attrs@[i as int].0@ || has_key(before, k)) by {
                if has_key(before, k) {
                    let j = choose|j: int| 0 <= j < before.len() && #[trigger] before[j].0@ == k;
                    if j == i {
                        assert(attrs@[i as int].0@ == k);
                    } else {
                        assert(attrs@[j].0@ == k);
                    }
                }
            }
            return;
        }
        i = i + 1;
    }
    let ghost before = attrs@;
    let ghost kv = (key, value);
    attrs.push((key, value));
    assert(attrs@ == before.push(kv));
    assert(attr_views(attrs@) =~= attr_views(before).push((key@, opt_view(value))));
    assert(attrs@[before.len() as int].0@ == key@);
    assert forall|k: Seq<char>| #[trigger] has_key(attrs@, k) <==> (k == key@ || has_key(before, k)) by {
        if has_key(before, k) {
            let j = choose|j: int| 0 <= j < before.len() && #[trigger] before[j].0@ == k;
            assert(attrs@[j].0@ == k);
        }
    }
}

/// The words of an optional value; none where there is no value.
pub open spec fn opt_words(v: Option<String>) -> Seq<Seq<char>> {
    match v {
        Some(s) => words(s@),
        None => Seq::empty(),
    }
}

/// Applies one attribute to an element: `id` sets the id, `class` adds the
/// words of its value to the classes, and any other key is set among the
/// attributes, where a later value of a key replaces an earlier one.
pub fn apply_attribute(element: &mut Element, key: String, value: Option<String>)
    requires
        attrs_wf(old(element).attributes@),
    ensures
        element_view(*final(element)) == apply_attr_v(element_view(*old(element)), key@, opt_view(value)),
        attrs_wf(final(element).attributes@),
        final(element).name == old(element).name,
        final(element).variant == old(element).variant,
        final(element).children == old(element).children,
        final(element).source_span == old(element).source_span,
        key@ == "id"@ ==> opt_view(final(element).id) == opt_view(value) && final(element).classes
            == old(element).classes && final(element).attributes == old(element).attributes,
        key@ == "class"@ ==> final(element).id == old(element).id && strs_view(
            final(element).classes@,
        ) == strs_view(old(element).classes@) + opt_words(value) && final(element).attributes
            == old(element).attributes,
        key@ != "id"@ && key@ != "class"@ ==> {
            &&& final(element).id == old(element).id
            &&& final(element).classes == old(element).classes
            &&& exists|i: int|
                0 <= i < final(element).attributes@.len() && #[trigger] final(element).attributes@[i].0@ == key@ && opt_view(final(element).attributes@[i].1)
                    == opt_view(value)
            &&& forall|i: int|
                0 <= i < old(element).attributes@.len() && old(element).attributes@[i].0@ != key@
                    ==> #[trigger] final(element).attributes@[i] == old(element).attributes@[i]
            &&& forall|k: Seq<char>|
                #[trigger] has_key(final(element).attributes@, k) <==> (k == key@ || has_key(
                    old(element).attributes@,
                    k,
                ))
        },
{
    proof {
        reveal_strlit("id");
        reveal_strlit("class");
        assert("id"@.len() == 2 && "class"@.len() == 5);
    }
    if same(key.as_str(), "id") {
        element.id = value;
    } else if same(key.as_str(), "class") {
        assert(strs_view(element.classes@) + Seq::<Seq<char>>::empty() == strs_view(element.classes@));
        if let Some(v) = value {
            let parts = split_words(v.as_str());
            let mut i: usize = 0;
            let ghost start = element.classes@;
            while i < parts.len()
                invariant
                    i <= parts@.len(),
                    strs_view(element.classes@) == strs_view(start) + strs_view(parts@).take(
                        i as int,
                    ),
                    element.name == old(element).name,
                    element.variant == old(element).variant,
                    element.children == old(element).children,
                    element.source_span == old(element).source_span,
                    element.id == old(element).id,
                    element.attributes == old(element).attributes,
                    start == old(element).classes@,
                    strs_view(parts@) == words(v@),
                decreases parts@.len() - i,
            {
                let w = parts[i].clone();
                proof {
                    assert(strs_view(parts@).take(i + 1) == strs_view(parts@).take(i as int).push(
                        w@,
                    ));
                    assert(strs_view(element.classes@.push(w)) == strs_view(element.classes@).push(
                        w@,
                    ));
                }
                element.classes.push(w);
                i = i + 1;
            }
            assert(strs_view(parts@).take(parts@.len() as int) == strs_view(parts@));
        }
    } else {
        let ghost k = key@;
        insert_attribute(&mut element.attributes, key, value);
        assert forall|i: int| 0 <= i < element.attributes@.len() implies #[trigger] element.attributes@[i].0@
            != "id"@ && element.attributes@[i].0@ != "class"@ by {
            assert(has_key(element.attributes@, element.attributes@[i].0@));
            if element.attributes@[i].0@ != k {
                let j = choose|j: int|
                    0 <= j < old(element).attributes@.len() && #[trigger] old(element).attributes@[j].0@ == element.attributes@[i].0@;
            }
        }
    }
}

/// A closing tag among the spans nested in an element.
pub open spec fn is_end_rule(r: Rule) -> bool {
    r == Rule::ElNormalEnd || r == Rule::ElRawTextEnd
}

/// A span that names an element.
pub open spec fn is_name_rule(r: Rule) -> bool {
    r == Rule::ElName || r == Rule::ElVoidName || r == Rule::ElRawTextName
}

/// The name that a run of spans gives an element: the text of the last name
/// span, or nothing.
pub open spec fn name_of(s: Seq<char>, ps: Seq<Pair>) -> Seq<char>
    decreases ps.len(),
{
    if ps.len() == 0 {
        Seq::empty()
    } else if is_name_rule(ps.last().rule) {
        s.subrange(ps.last().start as int, ps.last().end as int)
    } else {
        name_of(s, ps.drop_last())
    }
}

/// How many of the spans nested in an element are read: up to and with the
/// first closing tag, or all of them.
pub open spec fn read_len(ps: Seq<Pair>, i: int) -> int
    decreases ps.len() - i,
{
    if i < 0 || i >= ps.len() {
        ps.len() as int
    } else if is_end_rule(ps[i].rule) {
        i + 1
    } else {
        read_len(ps, i + 1)
    }
}

/// Where building an element stands: whether it still succeeds, the
/// element so far, the messages added for children and attributes that
/// were left out, and the message of the failure if it failed.
pub struct ElBuild {
    pub ok: bool,
    pub el: ElementV,
    pub errs: Seq<Seq<char>>,
    pub msg: Seq<char>,
}

/// An element with no name, no attributes and no children, void.
pub open spec fn empty_element() -> ElementV {
    ElementV {
        name: Seq::empty(),
        variant: ElementVariant::Void,
        id: None,
        classes: Seq::empty(),
        attributes: Seq::empty(),
        children: Seq::empty(),
    }
}

/// A failed build with message `msg`.
pub open spec fn el_fail(st: ElBuild, msg: Seq<char>) -> ElBuild {
    ElBuild { ok: false, msg, ..st }
}

/// `st` with one more child.
pub open spec fn el_push(st: ElBuild, n: NodeV) -> ElBuild {
    ElBuild { el: ElementV { children: st.el.children.push(n), ..st.el }, ..st }
}

/// The text of a span.
pub open spec fn text_of(s: Seq<char>, p: Pair) -> Seq<char> {
    s.subrange(p.start as int, p.end as int)
}

/// The node that a child element build gives, if any.
pub open spec fn built_node(c: ElBuild) -> Option<NodeV> {
    if c.ok && c.el.name.len() > 0 {
        Some(NodeV::Element(c.el))
    } else {
        None
    }
}

/// One nested span read into an element: a child element (built as
/// `child` says; its messages are kept, and where it fails its message is
/// added and it is left out), non-blank text, a comment, a name, an
/// attribute (left out with its message where it cannot be read), a
/// closing tag; a span of any other kind fails the element.
pub open spec fn el_step(s: Seq<char>, st: ElBuild, q: Pair, child: ElBuild) -> ElBuild {
    if !(q.start <= q.end <= s.len()) {
        el_fail(st, "Failed to create element: span outside the input"@)
    } else {
        match q.rule {
            Rule::NodeElement => {
                let errs = if child.ok {
                    st.errs + child.errs
                } else {
                    st.errs + child.errs + seq![child.msg]
                };
                let st2 = ElBuild { errs, ..st };
                match built_node(child) {
                    Some(n) => el_push(st2, n),
                    None => st2,
                }
            },
            Rule::NodeText | Rule::ElRawTextContent => if is_blank(text_of(s, q)) {
                st
            } else {
                el_push(st, NodeV::Text(text_of(s, q)))
            },
            Rule::NodeComment => el_push(st, NodeV::Comment(comment_text(s, q))),
            Rule::ElName | Rule::ElVoidName | Rule::ElRawTextName => ElBuild {
                el: ElementV { name: text_of(s, q), ..st.el },
                ..st
            },
            Rule::Attr => if attr_all_ok(s, q.inner@) {
                ElBuild {
                    el: apply_attr_v(st.el, attr_key_of(s, q.inner@), attr_value_of(s, q.inner@)),
                    ..st
                }
            } else {
                ElBuild { errs: st.errs.push(attr_error(s, q.inner@)), ..st }
            },
            Rule::ElNormalEnd | Rule::ElRawTextEnd => ElBuild {
                el: ElementV { variant: ElementVariant::Normal, ..st.el },
                ..st
            },
            Rule::ElDangling | Rule::Eoi => st,
            _ => el_fail(st, "Failed to create element at rule: "@ + rule_str(q.rule)),
        }
    }
}

/// The build after the first `i` nested spans of `p`.
pub open spec fn el_fold(s: Seq<char>, p: Pair, i: int) -> ElBuild
    decreases p, 0int, i,
{
    if i <= 0 || i > p.inner@.len() {
        ElBuild { ok: true, el: empty_element(), errs: Seq::empty(), msg: Seq::empty() }
    } else {
        let st = el_fold(s, p, i - 1);
        if !st.ok {
            st
        } else {
            el_step(s, st, p.inner@[i - 1], el_result(s, p.inner@[i - 1]))
        }
    }
}

/// What building the element of span `p` gives: it fails where `p` does not
/// lie in the input, else it reads the nested spans up to the first closing
/// tag.
pub open spec fn el_result(s: Seq<char>, p: Pair) -> ElBuild
    decreases p, 1int, 0int,
{
    if !(p.start <= p.end <= s.len() && p.end < usize::MAX) {
        ElBuild {
            ok: false,
            el: empty_element(),
            errs: Seq::empty(),
            msg: "Failed to create element: span outside the input"@,
        }
    } else {
        el_fold(s, p, read_len(p.inner@, 0))
    }
}

/// Bounds of `read_len`.
pub proof fn lemma_read_len_bounds(ps: Seq<Pair>, i: int)
    requires
        0 <= i <= ps.len(),
    ensures
        i <= read_len(ps, i) <= ps.len(),
        i < ps.len() ==> i < read_len(ps, i),
    decreases ps.len() - i,
{
    if i < ps.len() && !is_end_rule(ps[i].rule) {
        lemma_read_len_bounds(ps, i + 1);
    }
}

/// A build that failed stays as it is.
pub proof fn lemma_fold_stays_failed(s: Seq<char>, p: Pair, i: int, j: int)
    requires
        0 <= i <= j <= p.inner@.len(),
        !el_fold(s, p, i).ok,
    ensures
        el_fold(s, p, j) == el_fold(s, p, i),
    decreases j - i,
{
    if j > i {
        lemma_fold_stays_failed(s, p, i, j - 1);
    }
}

/// Builds the element of an element span, and its children, recursively.
/// A child element or an attribute that cannot be built is left out, with
/// its message added to `errors`; a span of a kind that an element cannot
/// hold fails the whole element. An element without a name (a dangling
/// closing tag) gives no node. What comes out is `el_result`.
pub fn build_node_element(input: &str, s: &Vec<char>, pair: &Pair, errors: &mut Vec<String>) -> (r:
    Result<Option<Node>>)
    requires
        s@ == input@,
    ensures
        r is Ok <==> el_result(input@, *pair).ok,
        r is Err ==> r->Err_0->Parsing_0@ == el_result(input@, *pair).msg,
        r is Ok ==> (r->Ok_0 is Some <==> el_result(input@, *pair).el.name.len() > 0),
        r matches Ok(Some(n)) ==> node_view(n) == NodeV::Element(el_result(input@, *pair).el),
        strs_view(final(errors)@) == strs_view(old(errors)@) + el_result(input@, *pair).errs,
        r matches Ok(Some(n)) ==> n is Element && node_wf(n),
        r matches Ok(Some(Node::Element(e))) ==> {
            &&& e.source_span.text@ == input@.subrange(pair.start as int, pair.end as int)
            &&& e.source_span.start_line == line_col(input@, pair.start as int).0
            &&& e.source_span.start_column == line_col(input@, pair.start as int).1
            &&& e.source_span.end_line == line_col(input@, pair.end as int).0
            &&& e.source_span.end_column == line_col(input@, pair.end as int).1
        },
    decreases pair,
{
    if !(pair.start <= pair.end && pair.end <= s.len() && pair.end < usize::MAX) {
        assert(strs_view(errors@) =~= strs_view(errors@) + Seq::<Seq<char>>::empty());
        return Err(Error::Parsing(String::from_str("Failed to create element: span outside the input")));
    }
    let (start_line, start_column) = position(s, pair.start);
    let (end_line, end_column) = position(s, pair.end);
    let source_span = SourceSpan::new(
        slice(input, pair.start, pair.end),
        start_line,
        end_line,
        start_column,
        end_column,
    );
    let mut element = Element {
        id: None,
        name: String::new(),
        variant: ElementVariant::Void,
        attributes: Vec::new(),
        classes: Vec::new(),
        children: Vec::new(),
        source_span,
    };
    let ghost inner = pair.inner@;
    let ghost e0 = strs_view(old(errors)@);
    proof {
        let ev0 = element_view(element);
        assert(ev0.classes =~= Seq::<Seq<char>>::empty());
        assert(ev0.attributes =~= Seq::<(Seq<char>, Option<Seq<char>>)>::empty());
        assert(ev0.children =~= Seq::<NodeV>::empty());
        assert(ev0.name =~= Seq::<char>::empty());
        assert(ev0 == empty_element());
        assert(strs_view(errors@) =~= e0 + Seq::<Seq<char>>::empty());
        lemma_read_len_bounds(inner, 0);
    }
    let mut i: usize = 0;
    while i < pair.inner.len()
        invariant_except_break
            i <= pair.inner@.len(),
            read_len(inner, 0) == read_len(inner, i as int),
            el_fold(input@, *pair, i as int).ok,
            el_fold(input@, *pair, i as int).el == element_view(element),
            strs_view(errors@) == e0 + el_fold(input@, *pair, i as int).errs,
        invariant
            s@ == input@,
            inner == pair.inner@,
            e0 == strs_view(old(errors)@),
            pair.start <= pair.end <= s@.len(),
            pair.end < usize::MAX,
            element.source_span.text@ == input@.subrange(pair.start as int, pair.end as int),
            element.source_span.start_line == line_col(input@, pair.start as int).0,
            element.source_span.start_column == line_col(input@, pair.start as int).1,
            element.source_span.end_line == line_col(input@, pair.end as int).0,
            element.source_span.end_column == line_col(input@, pair.end as int).1,
            attrs_wf(element.attributes@),
            nodes_wf(element.children@),
        ensures
            el_result(input@, *pair).ok,
            el_result(input@, *pair).el == element_view(element),
            strs_view(errors@) == e0 + el_result(input@, *pair).errs,
        decreases pair.inner@.len() - i,
    {
        let p = &pair.inner[i];
        let ghost st = el_fold(input@, *pair, i as int);
        let ghost ev = element_view(element);
        let ghost before = strs_view(errors@);
        proof {
            lemma_read_len_bounds(inner, i as int);
            lemma_read_len_bounds(inner, i + 1);
            assert(el_fold(input@, *pair, i + 1) == el_step(input@, st, *p, el_result(input@, *p)));
        }
        if !(p.start <= p.end && p.end <= s.len()) {
            proof {
                lemma_fold_stays_failed(input@, *pair, i + 1, read_len(inner, i as int));
            }
            return Err(Error::Parsing(String::from_str("Failed to create element: span outside the input")));
        }
        match p.rule {
            Rule::NodeElement => {
                proof {
                    assert(decreases_to!(pair => pair.inner));
                    assert(decreases_to!(pair.inner => pair.inner@[i as int]));
                }
                let ghost c = el_result(input@, *p);
                match build_node_element(input, s, p, errors) {
                    Ok(Some(n)) => {
                        element.children.push(n);
                        assert(element_view(element).children =~= ev.children.push(node_view(n)));
                    },
                    Ok(None) => {},
                    Err(e) => {
                        let m = e.message();
                        let ghost mid = errors@;
                        errors.push(m);
                        assert(strs_view(errors@) =~= strs_view(mid).push(m@));
                    },
                }
                assert(strs_view(errors@) =~= e0 + el_fold(input@, *pair, i + 1).errs);
            },
            Rule::NodeText | Rule::ElRawTextContent => {
                if !blank(s, p.start, p.end) {
                    let t = slice(input, p.start, p.end);
                    element.children.push(Node::Text(t));
                    assert(element_view(element).children =~= ev.children.push(NodeV::Text(t@)));
                }
            },
            Rule::NodeComment => {
                let body = if p.inner.len() > 0 && p.inner[0].start <= p.inner[0].end
                    && p.inner[0].end <= s.len() {
                    slice(input, p.inner[0].start, p.inner[0].end)
                } else {
                    String::new()
                };
                element.children.push(Node::Comment(body));
                assert(element_view(element).children =~= ev.children.push(NodeV::Comment(body@)));
            },
            Rule::ElName | Rule::ElVoidName | Rule::ElRawTextName => {
                element.name = slice(input, p.start, p.end);
            },
            Rule::Attr => {
                match build_attribute(input, s, p) {
                    Ok((k, v)) => apply_attribute(&mut element, k, v),
                    Err(e) => {
                        let m = e.message();
                        errors.push(m);
                        assert(strs_view(errors@) =~= before.push(m@));
                    },
                }
            },
            Rule::ElNormalEnd | Rule::ElRawTextEnd => {
                element.variant = ElementVariant::Normal;
                assert(is_end_rule(pair.inner@[i as int].rule));
                assert(read_len(inner, i as int) == i + 1);
                break ;
            },
            Rule::ElDangling | Rule::Eoi => {},
            _ => {
                let mut m = String::from_str("Failed to create element at rule: ");
                m.append(rule_name(p.rule));
                proof {
                    lemma_fold_stays_failed(input@, *pair, i + 1, read_len(inner, i as int));
                }
                return Err(Error::Parsing(m));
            },
        }
        i = i + 1;
    }
    if element.name.as_str().unicode_len() > 0 {
        Ok(Some(Node::Element(element)))
    } else {
        Ok(None)
    }
}

} // verus!
