//! The parse result: a classified tree of root nodes and the errors that
//! building it recovered from.
use crate::builder::{
    build_node_element, built_node, el_result, line_col, nodes_wf, position, rule_name, rule_str,
    text_of,
};
use crate::chars::strs_view;
use crate::chars::{blank, decimal, is_blank, is_space, lower_seq, push_decimal, same_ci, slice, to_chars};
use crate::error::{Error, Result};
use crate::grammar::{
    comment_bodies, comment_text, comment_texts, comments_closed, comments_to_end, pairs_wf, is_comment_span, no_lt, tokenize,
    Pair, Rule,
};
use crate::node::{node_view, nodes_view, Node, NodeV};
use vstd::prelude::*;
use vstd::string::{StrSliceExecFns, StringExecFns};

verus! {

/// Document, DocumentFragment or Empty.
#[derive(Debug, Clone, Copy, PartialEq, Eq, Structural)]
pub enum DomVariant {
    /// A document: at most one root element named `html`, which may follow a
    /// doctype.
    Document,
    /// A fragment: root nodes of any kind, but no root element named `html`,
    /// `head` or `body`.
    DocumentFragment,
    /// Nothing but white space.
    Empty,
}

/// **The main struct** & the result of the parsed html.
#[derive(Debug, Clone, PartialEq)]
pub struct Dom {
    /// The type of the tree that was parsed
    pub tree_type: DomVariant,
    /// All of the root children in the tree
    pub children: Vec<Node>,
    /// A collection of all errors during parsing
    pub errors: Vec<String>,
}

pub open spec fn html_word() -> Seq<char> {
    seq!['h', 't', 'm', 'l']
}

pub open spec fn head_word() -> Seq<char> {
    seq!['h', 'e', 'a', 'd']
}

pub open spec fn body_word() -> Seq<char> {
    seq!['b', 'o', 'd', 'y']
}

/// `n` is an element whose name is `w` when ASCII case is ignored.
pub open spec fn named(n: NodeV, w: Seq<char>) -> bool {
    match n {
        NodeV::Element(e) => lower_seq(e.name) == w,
        _ => false,
    }
}

/// Two root elements are named `html`.
pub open spec fn two_html(roots: Seq<NodeV>) -> bool {
    exists|i: int, j: int|
        0 <= i < j < roots.len() && named(#[trigger] roots[i], html_word()) && named(
            #[trigger] roots[j],
            html_word(),
        )
}

/// Some root element is named `html`.
pub open spec fn has_html(roots: Seq<NodeV>) -> bool {
    exists|i: int| 0 <= i < roots.len() && named(#[trigger] roots[i], html_word())
}

/// A root breaks the rules of a fragment: it is named `head` or `body`, or
/// it is named `html` and another element comes before it.
pub open spec fn fragment_error(roots: Seq<NodeV>) -> bool {
    exists|i: int|
        0 <= i < roots.len() && (named(#[trigger] roots[i], head_word()) || named(
            roots[i],
            body_word(),
        ) || (named(roots[i], html_word()) && exists|j: int|
            0 <= j < i && #[trigger] roots[j] is Element))
}

/// What the roots are, given what the first pass decided: `None` where they
/// break the rules of that kind. A fragment whose one `html` element comes
/// before any other element is a document.
pub open spec fn classified(provisional: DomVariant, roots: Seq<NodeV>) -> Option<DomVariant> {
    match provisional {
        DomVariant::Empty => Some(
            if roots.len() == 0 {
                DomVariant::Empty
            } else {
                DomVariant::DocumentFragment
            },
        ),
        DomVariant::Document => if two_html(roots) {
            None
        } else {
            Some(DomVariant::Document)
        },
        DomVariant::DocumentFragment => if fragment_error(roots) {
            None
        } else if has_html(roots) {
            Some(DomVariant::Document)
        } else {
            Some(DomVariant::DocumentFragment)
        },
    }
}

/// Every root is a comment.
pub open spec fn all_comments(roots: Seq<NodeV>) -> bool {
    forall|i: int| 0 <= i < roots.len() ==> #[trigger] roots[i] is Comment
}

/// The rules that a parse result keeps: every element is well formed, a
/// document has at most one `html` root, a fragment has no `html`, `head`
/// or `body` root, and an empty tree has no roots.
pub open spec fn dom_wf(d: Dom) -> bool {
    &&& nodes_wf(d.children@)
    &&& match d.tree_type {
        DomVariant::Document => !two_html(nodes_view(d.children@)),
        DomVariant::DocumentFragment => !fragment_error(nodes_view(d.children@)) && !has_html(
            nodes_view(d.children@),
        ),
        DomVariant::Empty => d.children@.len() == 0,
    }
}

/// Decides what the roots are, given what the first pass decided.
pub fn classify(provisional: DomVariant, roots: &Vec<Node>) -> (r: Result<DomVariant>)
    requires
        provisional == DomVariant::Empty ==> all_comments(nodes_view(roots@)),
    ensures
        r is Ok <==> classified(provisional, nodes_view(roots@)) is Some,
        r is Ok ==> r->Ok_0 == classified(provisional, nodes_view(roots@))->0,
{
    let ghost v = nodes_view(roots@);
    assert(v.len() == roots@.len());
    proof {
        reveal_strlit("html");
        reveal_strlit("head");
        reveal_strlit("body");
        assert("html"@ =~= html_word());
        assert("head"@ =~= head_word());
        assert("body"@ =~= body_word());
    }
    match provisional {
        DomVariant::Empty => {
            if roots.len() == 0 {
                Ok(DomVariant::Empty)
            } else {
                Ok(DomVariant::DocumentFragment)
            }
        },
        DomVariant::Document => {
            let mut seen = false;
            let mut i: usize = 0;
            while i < roots.len()
                invariant
                    v == nodes_view(roots@),
                    v.len() == roots@.len(),
                    i <= roots@.len(),
                    provisional == DomVariant::Document,
                    "html"@ =~= html_word(),
                    seen <==> has_html(v.take(i as int)),
                    !two_html(v.take(i as int)),
                decreases roots@.len() - i,
            {
                assert(v[i as int] == node_view(roots@[i as int]));
                if let Node::Element(e) = &roots[i] {
                    if same_ci(e.name.as_str(), "html") {
                        if seen {
                            proof {
                                let k = choose|k: int|
                                    0 <= k < i && named(#[trigger] v.take(i as int)[k], html_word());
                                assert(named(v[k], html_word()) && named(v[i as int], html_word()));
                                assert(two_html(v));
                            }
                            return Err(Error::Parsing(String::from_str("Document with multiple HTML tags")));
                        }
                        seen = true;
                        assert(named(v.take(i + 1)[i as int], html_word()));
                    }
                }
                proof {
                    let t = v.take(i + 1);
                    assert(t.take(i as int) == v.take(i as int));
                    if has_html(v.take(i as int)) {
                        let k = choose|k: int|
                            0 <= k < i && named(#[trigger] v.take(i as int)[k], html_word());
                        assert(named(t[k], html_word()));
                    }
                    if has_html(t) {
                        let k = choose|k: int| 0 <= k < i + 1 && named(#[trigger] t[k], html_word());
                        if k < i {
                            assert(named(v.take(i as int)[k], html_word()));
                        }
                    }
                    if two_html(t) {
                        let (a, b) = choose|a: int, b: int|
                            0 <= a < b < t.len() && named(#[trigger] t[a], html_word()) && named(
                                #[trigger] t[b],
                                html_word(),
                            );
                        if b < i {
                            assert(named(v.take(i as int)[a], html_word()));
                            assert(named(v.take(i as int)[b], html_word()));
                        } else {
                            assert(named(v.take(i as int)[a], html_word()));
                        }
                    }
                }
                i = i + 1;
            }
            assert(v.take(roots@.len() as int) == v);
            Ok(DomVariant::Document)
        },
        DomVariant::DocumentFragment => {
            let mut seen_html = false;
            let mut seen_elements = false;
            let mut i: usize = 0;
            while i < roots.len()
                invariant
                    v == nodes_view(roots@),
                    v.len() == roots@.len(),
                    i <= roots@.len(),
                    provisional == DomVariant::DocumentFragment,
                    "html"@ =~= html_word(),
                    "head"@ =~= head_word(),
                    "body"@ =~= body_word(),
                    seen_html <==> has_html(v.take(i as int)),
                    (seen_html || seen_elements) <==> exists|j: int|
                        0 <= j < i && #[trigger] v[j] is Element,
                    !fragment_error(v.take(i as int)),
                decreases roots@.len() - i,
            {
                let ghost t = v.take(i + 1);
                assert(v[i as int] == node_view(roots@[i as int]));
                if let Node::Element(e) = &roots[i] {
                    if same_ci(e.name.as_str(), "html") {
                        if seen_html || seen_elements {
                            let mut m = String::from_str("A document fragment should not include ");
                            m.append(e.name.as_str());
                            assert(named(v[i as int], html_word()));
                            assert(fragment_error(v));
                            return Err(Error::Parsing(m));
                        }
                        seen_html = true;
                        assert(named(t[i as int], html_word()));
                    } else {
                        if same_ci(e.name.as_str(), "head") || same_ci(e.name.as_str(), "body") {
                            let mut m = String::from_str("A document fragment should not include ");
                            m.append(e.name.as_str());
                            assert(named(v[i as int], head_word()) || named(v[i as int], body_word()));
                            assert(fragment_error(v));
                            return Err(Error::Parsing(m));
                        }
                        seen_elements = true;
                    }
                }
                proof {
                    assert(t.take(i as int) == v.take(i as int));
                    if has_html(v.take(i as int)) {
                        let k = choose|k: int|
                            0 <= k < i && named(#[trigger] v.take(i as int)[k], html_word());
                        assert(named(t[k], html_word()));
                    }
                    if has_html(t) {
                        let k = choose|k: int| 0 <= k < i + 1 && named(#[trigger] t[k], html_word());
                        if k < i {
                            assert(named(v.take(i as int)[k], html_word()));
                        }
                    }
                    if fragment_error(t) {
                        let k = choose|k: int|
                            0 <= k < t.len() && (named(#[trigger] t[k], head_word()) || named(
                                t[k],
                                body_word(),
                            ) || (named(t[k], html_word()) && exists|j: int|
                                0 <= j < k && #[trigger] t[j] is Element));
                        if k < i {
                            let u = v.take(i as int);
                            assert(u[k] == t[k]);
                            if named(t[k], html_word()) && !named(t[k], head_word()) && !named(
                                t[k],
                                body_word(),
                            ) {
                                let j = choose|j: int| 0 <= j < k && #[trigger] t[j] is Element;
                                assert(u[j] is Element);
                            }
                        }
                    }
                }
                i = i + 1;
            }
            assert(v.take(roots@.len() as int) == v);
            if seen_html {
                Ok(DomVariant::Document)
            } else {
                Ok(DomVariant::DocumentFragment)
            }
        },
    }
}

/// What the classification rules give a parse result.
pub proof fn lemma_classified_wf(provisional: DomVariant, roots: Seq<NodeV>)
    requires
        classified(provisional, roots) is Some,
        provisional == DomVariant::Empty ==> all_comments(roots),
    ensures
        match classified(provisional, roots)->0 {
            DomVariant::Document => !two_html(roots),
            DomVariant::DocumentFragment => !fragment_error(roots) && !has_html(roots),
            DomVariant::Empty => roots.len() == 0,
        },
{
    if provisional == DomVariant::Empty {
        assert forall|i: int| 0 <= i < roots.len() implies !named(#[trigger] roots[i], head_word())
            && !named(roots[i], body_word()) && !named(roots[i], html_word()) by {
            assert(roots[i] is Comment);
        }
    }
    if provisional == DomVariant::DocumentFragment && two_html(roots) {
        let (a, b) = choose|a: int, b: int|
            0 <= a < b < roots.len() && named(#[trigger] roots[a], html_word()) && named(
                #[trigger] roots[b],
                html_word(),
            );
        assert(roots[a] is Element);
        assert(fragment_error(roots));
    }
}

/// The texts of the comments among `nodes`, in order.
pub open spec fn node_comments(nodes: Seq<Node>) -> Seq<Seq<char>> {
    nodes.map_values(
        |n: Node|
            match n {
                Node::Comment(c) => c@,
                _ => Seq::empty(),
            },
    )
}

/// A span that leaves no trace in the tree: blank text, or the end of the
/// input.
pub open spec fn is_blank_span(s: Seq<char>, p: Pair) -> bool {
    p.rule == Rule::Eoi || (p.rule == Rule::NodeText && p.start <= p.end <= s.len() && is_blank(
        s.subrange(p.start as int, p.end as int),
    ))
}

/// A text span that lies in the input and is not blank.
pub open spec fn is_text_span(s: Seq<char>, p: Pair) -> bool {
    p.rule == Rule::NodeText && p.start <= p.end <= s.len() && !is_blank(
        s.subrange(p.start as int, p.end as int),
    )
}

/// Where building the roots stands: the kind decided so far, the roots and
/// the messages of what was left out.
pub struct DomBuild {
    pub prov: DomVariant,
    pub children: Seq<NodeV>,
    pub errs: Seq<Seq<char>>,
}

/// The kind after a root that is an element or non-blank text.
pub open spec fn after_content(prov: DomVariant) -> DomVariant {
    if prov == DomVariant::Empty {
        DomVariant::DocumentFragment
    } else {
        prov
    }
}

/// One top-level span read: a doctype makes an undecided tree a document;
/// an element is built (its messages kept, its own message added where it
/// fails) and, where it gives a node, kept and makes an undecided tree a
/// fragment, as non-blank text does; blank text is dropped; a comment is
/// kept and decides nothing.
pub open spec fn dom_step(s: Seq<char>, st: DomBuild, q: Pair) -> DomBuild {
    match q.rule {
        Rule::Doctype => DomBuild {
            prov: if st.prov == DomVariant::Empty {
                DomVariant::Document
            } else {
                st.prov
            },
            ..st
        },
        Rule::NodeElement => {
            let c = el_result(s, q);
            let errs = if c.ok {
                st.errs + c.errs
            } else {
                st.errs + c.errs + seq![c.msg]
            };
            match built_node(c) {
                Some(n) => DomBuild {
                    prov: after_content(st.prov),
                    children: st.children.push(n),
                    errs,
                },
                None => DomBuild { errs, ..st },
            }
        },
        Rule::NodeText => if !(q.start <= q.end <= s.len()) {
            DomBuild { errs: st.errs.push("Failed to create text: span outside the input"@), ..st }
        } else if is_blank(text_of(s, q)) {
            st
        } else {
            DomBuild {
                prov: after_content(st.prov),
                children: st.children.push(NodeV::Text(text_of(s, q))),
                ..st
            }
        },
        Rule::NodeComment => DomBuild {
            children: st.children.push(NodeV::Comment(comment_text(s, q))),
            ..st
        },
        Rule::Eoi => st,
        _ => DomBuild {
            errs: st.errs.push("Unexpected span at the root: "@ + rule_str(q.rule)),
            ..st
        },
    }
}

/// The roots after the first `i` top-level spans.
pub open spec fn dom_fold(s: Seq<char>, ps: Seq<Pair>, i: int) -> DomBuild
    decreases i,
{
    if i <= 0 || i > ps.len() {
        DomBuild { prov: DomVariant::Empty, children: Seq::empty(), errs: Seq::empty() }
    } else {
        dom_step(s, dom_fold(s, ps, i - 1), ps[i - 1])
    }
}

/// `r` is what building the top-level spans `ps` of `s` gives: success
/// exactly when the roots keep the rules of their kind, and then those
/// roots, their kind and the messages of what was left out.
pub open spec fn built_from(s: Seq<char>, ps: Seq<Pair>, r: Result<Dom>) -> bool {
    let d = dom_fold(s, ps, ps.len() as int);
    &&& (r is Ok <==> classified(d.prov, d.children) is Some)
    &&& r is Ok ==> {
        &&& nodes_view(r->Ok_0.children@) == d.children
        &&& Some(r->Ok_0.tree_type) == classified(d.prov, d.children)
        &&& strs_view(r->Ok_0.errors@) == d.errs
    }
}

impl Default for Dom {
    fn default() -> (r: Self)
        ensures
            r.tree_type == DomVariant::Empty,
            r.children@.len() == 0,
            r.errors@.len() == 0,
    {
        Dom { tree_type: DomVariant::Empty, children: Vec::new(), errors: Vec::new() }
    }
}

impl Dom {
    /// Builds and classifies the tree of the top-level spans of `input`.
    /// An element that cannot be built is left out and its message kept in
    /// `errors`; a tree that breaks the rules of its kind is an error.
    pub fn build_dom(input: &str, s: &Vec<char>, pairs: &Vec<Pair>) -> (r: Result<Dom>)
        requires
            s@ == input@,
        ensures
            r is Ok <==> classified(
                dom_fold(s@, pairs@, pairs@.len() as int).prov,
                dom_fold(s@, pairs@, pairs@.len() as int).children,
            ) is Some,
            r is Ok ==> {
                &&& nodes_view(r->Ok_0.children@) == dom_fold(s@, pairs@, pairs@.len() as int).children
                &&& Some(r->Ok_0.tree_type) == classified(
                    dom_fold(s@, pairs@, pairs@.len() as int).prov,
                    dom_fold(s@, pairs@, pairs@.len() as int).children,
                )
                &&& strs_view(r->Ok_0.errors@) == dom_fold(s@, pairs@, pairs@.len() as int).errs
            },
            r is Ok ==> dom_wf(r->Ok_0),
            (forall|i: int| 0 <= i < pairs@.len() ==> is_blank_span(s@, #[trigger] pairs@[i]))
                ==> r is Ok && r->Ok_0.tree_type == DomVariant::Empty && r->Ok_0.children@.len()
                == 0 && r->Ok_0.errors@.len() == 0,
            pairs@.len() == 2 && is_text_span(s@, pairs@[0]) && pairs@[1].rule == Rule::Eoi ==> {
                &&& r is Ok
                &&& r->Ok_0.tree_type == DomVariant::DocumentFragment
                &&& r->Ok_0.errors@.len() == 0
                &&& r->Ok_0.children@.len() == 1
                &&& r->Ok_0.children@[0] is Text
                &&& r->Ok_0.children@[0]->Text_0@ == s@.subrange(
                    pairs@[0].start as int,
                    pairs@[0].end as int,
                )
            },
            (forall|i: int| 0 <= i < pairs@.len() ==> is_comment_span(#[trigger] pairs@[i])) ==> {
                &&& r is Ok
                &&& r->Ok_0.errors@.len() == 0
                &&& all_comments(nodes_view(r->Ok_0.children@))
                &&& node_comments(r->Ok_0.children@) == comment_texts(s@, pairs@)
                &&& r->Ok_0.tree_type == if r->Ok_0.children@.len() == 0 {
                    DomVariant::Empty
                } else {
                    DomVariant::DocumentFragment
                }
            },
    {
        let mut tree_type = DomVariant::Empty;
        let mut children: Vec<Node> = Vec::new();
        let mut errors: Vec<String> = Vec::new();
        let mut i: usize = 0;
        while i < pairs.len()
            invariant
                s@ == input@,
                i <= pairs@.len(),
                dom_fold(s@, pairs@, i as int).prov == tree_type,
                dom_fold(s@, pairs@, i as int).children == nodes_view(children@),
                dom_fold(s@, pairs@, i as int).errs == strs_view(errors@),
                nodes_wf(children@),
                tree_type == DomVariant::Empty ==> all_comments(nodes_view(children@)),
                (forall|k: int| 0 <= k < i ==> is_blank_span(s@, #[trigger] pairs@[k])) ==> tree_type
                    == DomVariant::Empty && children@.len() == 0 && errors@.len() == 0,
                pairs@.len() == 2 && is_text_span(s@, pairs@[0]) && pairs@[1].rule == Rule::Eoi && i
                    >= 1 ==> tree_type == DomVariant::DocumentFragment && errors@.len() == 0
                    && children@.len() == 1 && children@[0] is Text && children@[0]->Text_0@
                    == s@.subrange(pairs@[0].start as int, pairs@[0].end as int),
                (forall|k: int| 0 <= k < i ==> is_comment_span(#[trigger] pairs@[k])) ==> tree_type
                    == DomVariant::Empty && errors@.len() == 0 && node_comments(children@)
                    == comment_texts(s@, pairs@.take(i as int)),
            decreases pairs@.len() - i,
        {
            let p = &pairs[i];
            let ghost before = children@;
            let ghost ebefore = strs_view(errors@);
            proof {
                assert(dom_fold(s@, pairs@, i + 1) == dom_step(s@, dom_fold(s@, pairs@, i as int), *p));
                let t = pairs@.take(i + 1);
                assert(t.drop_last() == pairs@.take(i as int));
                assert(t.last() == pairs@[i as int]);
            }
            match p.rule {
                Rule::Doctype => {
                    if tree_type == DomVariant::Empty {
                        tree_type = DomVariant::Document;
                    }
                },
                Rule::NodeElement => {
                    match build_node_element(input, s, p, &mut errors) {
                        Ok(Some(node)) => {
                            if tree_type == DomVariant::Empty {
                                tree_type = DomVariant::DocumentFragment;
                            }
                            children.push(node);
                            assert(nodes_view(children@) =~= nodes_view(before).push(node_view(node)));
                        },
                        Ok(None) => {},
                        Err(e) => {
                            let m = e.message();
                            let ghost mid = errors@;
                            errors.push(m);
                            assert(strs_view(errors@) =~= strs_view(mid).push(m@));
                        },
                    }
                    assert(strs_view(errors@) =~= dom_fold(s@, pairs@, i + 1).errs);
                },
                Rule::NodeText => {
                    if p.start <= p.end && p.end <= s.len() {
                        if !blank(s, p.start, p.end) {
                            if tree_type == DomVariant::Empty {
                                tree_type = DomVariant::DocumentFragment;
                            }
                            let t = slice(input, p.start, p.end);
                            children.push(Node::Text(t));
                            assert(nodes_view(children@) =~= nodes_view(before).push(NodeV::Text(t@)));
                        }
                    } else {
                        let m = String::from_str("Failed to create text: span outside the input");
                        errors.push(m);
                        assert(strs_view(errors@) =~= ebefore.push(m@));
                    }
                },
                Rule::NodeComment => {
                    let body = if p.inner.len() > 0 && p.inner[0].start <= p.inner[0].end
                        && p.inner[0].end <= s.len() {
                        slice(input, p.inner[0].start, p.inner[0].end)
                    } else {
                        String::new()
                    };
                    let ghost b = body@;
                    children.push(Node::Comment(body));
                    assert(node_comments(children@) == node_comments(before).push(b));
                    assert(nodes_view(children@) =~= nodes_view(before).push(NodeV::Comment(b)));
                },
                Rule::Eoi => {},
                _ => {
                    let mut m = String::from_str("Unexpected span at the root: ");
                    m.append(rule_name(p.rule));
                    errors.push(m);
                    assert(strs_view(errors@) =~= ebefore.push(m@));
                },
            }
            proof {
                if forall|k: int| 0 <= k < i + 1 ==> is_comment_span(#[trigger] pairs@[k]) {
                    assert(is_comment_span(pairs@[i as int]));
                    if p.rule == Rule::Eoi {
                        assert(children@ == before);
                    }
                }
                if forall|k: int| 0 <= k < i + 1 ==> is_blank_span(s@, #[trigger] pairs@[k]) {
                    assert(is_blank_span(s@, pairs@[i as int]));
                    if p.rule == Rule::NodeText {
                        assert(p.start <= p.end <= s@.len());
                    }
                }
            }
            i = i + 1;
        }
        assert(pairs@.take(pairs@.len() as int) == pairs@);
        match classify(tree_type, &children) {
            Ok(t) => {
                proof {
                    lemma_classified_wf(tree_type, nodes_view(children@));
                }
                Ok(Dom { tree_type: t, children, errors })
            },
            Err(e) => Err(e),
        }
    }

    /// Parses markup: a document, a fragment, or nothing at all.
    pub fn parse(input: &str) -> (r: Result<Dom>)
        ensures
            comments_closed(input@) ==> exists|ps: Seq<Pair>|
                pairs_wf(ps, 0, input@.len() as int) && #[trigger] built_from(input@, ps, r),
            r is Ok ==> exists|ps: Seq<Pair>|
                pairs_wf(ps, 0, input@.len() as int) && #[trigger] built_from(input@, ps, r),
            r is Ok ==> dom_wf(r->Ok_0),
            r is Err ==> (exists|pos: int|
                0 <= pos < input@.len() && r->Err_0->Parsing_0@ == #[trigger] grammar_msg(input@, pos))
                || (exists|ps: Seq<Pair>|
                pairs_wf(ps, 0, input@.len() as int) && #[trigger] built_from(input@, ps, r)),
            is_blank(input@) ==> r is Ok && r->Ok_0.tree_type == DomVariant::Empty
                && r->Ok_0.children@.len() == 0 && r->Ok_0.errors@.len() == 0,
            comments_to_end(input@, 0) ==> {
                &&& r is Ok
                &&& r->Ok_0.tree_type == DomVariant::DocumentFragment
                &&& r->Ok_0.errors@.len() == 0
                &&& all_comments(nodes_view(r->Ok_0.children@))
                &&& node_comments(r->Ok_0.children@) == comment_bodies(input@, 0)
            },
            no_lt(input@, 0) && !is_blank(input@) ==> {
                &&& r is Ok
                &&& r->Ok_0.tree_type == DomVariant::DocumentFragment
                &&& r->Ok_0.errors@.len() == 0
                &&& r->Ok_0.children@.len() == 1
                &&& r->Ok_0.children@[0] is Text
                &&& r->Ok_0.children@[0]->Text_0@ == input@
            },
    {
        let s = to_chars(input);
        proof {
            if is_blank(s@) {
                assert forall|k: int| 0 <= k < s@.len() implies #[trigger] s@[k] != '<' by {
                    assert(is_space(s@[k]));
                }
                assert(no_lt(s@, 0));
            }
            assert(s@.subrange(0, s@.len() as int) == s@);
            if !is_blank(s@) {
                assert(s@.len() > 0);
            }
            if comments_to_end(s@, 0) {
                assert(comment_bodies(s@, 0).len() > 0);
            }
        }
        match tokenize(&s, false) {
            Ok(pairs) => {
                let r = Self::build_dom(input, &s, &pairs);
                assert(built_from(input@, pairs@, r));
                r
            },
            Err(e) => {
                let r = Err(Error::Parsing(grammar_message(&s, e.pos)));
                assert(r->Err_0->Parsing_0@ == grammar_msg(input@, e.pos as int));
                r
            },
        }
    }
}

/// The message for markup that the grammar stopped reading at `pos`.
pub open spec fn grammar_msg(s: Seq<char>, pos: int) -> Seq<char> {
    "Failed to parse the markup at line "@ + decimal(line_col(s, pos).0 as nat) + ", column "@
        + decimal(line_col(s, pos).1 as nat)
}

/// The message for markup that the grammar could not read.
pub fn grammar_message(s: &Vec<char>, pos: usize) -> (r: String)
    requires
        pos < s@.len(),
    ensures
        r@ == grammar_msg(s@, pos as int),
{
    let len = s.len();
    assert(pos < len);
    let (line, column) = position(s, pos);
    let mut m = String::from_str("Failed to parse the markup at line ");
    push_decimal(&mut m, line);
    m.append(", column ");
    push_decimal(&mut m, column);
    m
}

} // verus!
