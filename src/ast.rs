//! A second, simpler tree: root nodes classified by their count alone.
use crate::builder::{build_node_element, built_node, el_result, text_of};
use crate::chars::strs_view;
use crate::chars::{same_ci, slice, to_chars};
use crate::dom::{body_word, grammar_message, head_word, html_word, named};
use crate::error::{Error, Result};
use crate::grammar::{comment_text, comments_closed, pairs_wf, tokenize, Pair, Rule};
use crate::node::{node_view, nodes_view, Node, NodeV};
use vstd::prelude::*;
use vstd::string::{StrSliceExecFns, StringExecFns};

verus! {

/// These are all of the types that the parsed html tree can have.
#[derive(Debug, Clone, Copy, PartialEq, Eq, Structural)]
pub enum AstVariant {
    /// A single root element named `html`.
    Document,
    /// Any other roots, none of them named `html`, `body` or `head` where
    /// there are several.
    DocumentFragment,
    /// No root at all.
    Empty,
}

/// A tree of root nodes and what they are.
#[derive(Debug, Clone, PartialEq)]
pub struct Ast {
    /// The type of the tree that was parsed
    pub tree_type: AstVariant,
    /// All of the root nodes in the tree
    pub nodes: Vec<Node>,
}

/// What the roots are: nothing, one `html` element (a document), one other
/// node, or several nodes of which none is named `html`, `body` or `head`
/// (a fragment). `None` where several roots include one of those names.
pub open spec fn ast_classified(nodes: Seq<NodeV>) -> Option<AstVariant> {
    if nodes.len() == 0 {
        Some(AstVariant::Empty)
    } else if nodes.len() == 1 {
        if named(nodes[0], html_word()) {
            Some(AstVariant::Document)
        } else {
            Some(AstVariant::DocumentFragment)
        }
    } else if exists|i: int|
        0 <= i < nodes.len() && (named(#[trigger] nodes[i], html_word()) || named(
            nodes[i],
            body_word(),
        ) || named(nodes[i], head_word())) {
        None
    } else {
        Some(AstVariant::DocumentFragment)
    }
}

/// Where building the roots of an `Ast` stands: whether it still succeeds,
/// and the roots so far.
pub struct AstBuild {
    pub ok: bool,
    pub nodes: Seq<NodeV>,
}

/// One top-level span read: an element that fails, or whose children or
/// attributes could not all be built, fails the whole; text is kept as it
/// stands, blank or not; a comment is kept; a doctype and the end of the
/// input add nothing; any other span fails the whole.
pub open spec fn ast_step(s: Seq<char>, st: AstBuild, q: Pair) -> AstBuild {
    match q.rule {
        Rule::Doctype | Rule::Eoi => st,
        Rule::NodeElement => {
            let c = el_result(s, q);
            if !c.ok || c.errs.len() > 0 {
                AstBuild { ok: false, ..st }
            } else {
                match built_node(c) {
                    Some(n) => AstBuild { nodes: st.nodes.push(n), ..st },
                    None => st,
                }
            }
        },
        Rule::NodeText => if q.start <= q.end <= s.len() {
            AstBuild { nodes: st.nodes.push(NodeV::Text(text_of(s, q))), ..st }
        } else {
            AstBuild { ok: false, ..st }
        },
        Rule::NodeComment => AstBuild { nodes: st.nodes.push(NodeV::Comment(comment_text(s, q))), ..st },
        _ => AstBuild { ok: false, ..st },
    }
}

/// The roots after the first `i` top-level spans; a failure stays.
pub open spec fn ast_fold(s: Seq<char>, ps: Seq<Pair>, i: int) -> AstBuild
    decreases i,
{
    if i <= 0 || i > ps.len() {
        AstBuild { ok: true, nodes: Seq::empty() }
    } else {
        let st = ast_fold(s, ps, i - 1);
        if !st.ok {
            st
        } else {
            ast_step(s, st, ps[i - 1])
        }
    }
}

pub proof fn lemma_ast_fold_stays_failed(s: Seq<char>, ps: Seq<Pair>, i: int, j: int)
    requires
        0 <= i <= j <= ps.len(),
        !ast_fold(s, ps, i).ok,
    ensures
        !ast_fold(s, ps, j).ok,
    decreases j - i,
{
    if j > i {
        lemma_ast_fold_stays_failed(s, ps, i, j - 1);
    }
}


/// `r` is what building the top-level spans `ps` of `s` gives an `Ast`.
pub open spec fn ast_built_from(s: Seq<char>, ps: Seq<Pair>, r: Result<Ast>) -> bool {
    let b = ast_fold(s, ps, ps.len() as int);
    &&& (r is Ok <==> b.ok && ast_classified(b.nodes) is Some)
    &&& r is Ok ==> nodes_view(r->Ok_0.nodes@) == b.nodes && ast_classified(b.nodes) == Some(
        r->Ok_0.tree_type,
    )
}

impl Default for Ast {
    fn default() -> (r: Self)
        ensures
            r.tree_type == AstVariant::Empty,
            r.nodes@.len() == 0,
    {
        Ast { tree_type: AstVariant::Empty, nodes: Vec::new() }
    }
}

impl Ast {
    /// Parses markup into root nodes and classifies them. Any element or
    /// attribute that cannot be built fails the parse.
    pub fn parse(input: &str) -> (r: Result<Ast>)
        ensures
            comments_closed(input@) ==> exists|ps: Seq<Pair>|
                pairs_wf(ps, 0, input@.len() as int) && #[trigger] ast_built_from(input@, ps, r),
            r is Ok ==> exists|ps: Seq<Pair>|
                pairs_wf(ps, 0, input@.len() as int) && #[trigger] ast_built_from(input@, ps, r),
            r is Ok ==> ast_classified(nodes_view(r->Ok_0.nodes@)) == Some(r->Ok_0.tree_type),
    {
        let s = to_chars(input);
        match tokenize(&s, false) {
            Ok(pairs) => {
                let r = Self::build_ast(input, &s, &pairs);
                assert(ast_built_from(input@, pairs@, r));
                r
            },
            Err(e) => Err(Error::Parsing(grammar_message(&s, e.pos))),
        }
    }

    /// Builds the root nodes of the top-level spans and classifies them.
    pub fn build_ast(input: &str, s: &Vec<char>, pairs: &Vec<Pair>) -> (r: Result<Ast>)
        requires
            s@ == input@,
        ensures
            r is Ok <==> ast_fold(s@, pairs@, pairs@.len() as int).ok && ast_classified(
                ast_fold(s@, pairs@, pairs@.len() as int).nodes,
            ) is Some,
            r is Ok ==> nodes_view(r->Ok_0.nodes@) == ast_fold(s@, pairs@, pairs@.len() as int).nodes,
            r is Ok ==> ast_classified(nodes_view(r->Ok_0.nodes@)) == Some(r->Ok_0.tree_type),
    {
        let mut nodes: Vec<Node> = Vec::new();
        let mut i: usize = 0;
        while i < pairs.len()
            invariant
                s@ == input@,
                i <= pairs@.len(),
                ast_fold(s@, pairs@, i as int).ok,
                ast_fold(s@, pairs@, i as int).nodes == nodes_view(nodes@),
            decreases pairs@.len() - i,
        {
            let p = &pairs[i];
            let ghost before = nodes@;
            proof {
                assert(ast_fold(s@, pairs@, i + 1) == ast_step(s@, ast_fold(s@, pairs@, i as int), *p));
            }
            match p.rule {
                Rule::Doctype => {},
                Rule::NodeElement => {
                    let mut errors: Vec<String> = Vec::new();
                    let ghost c = el_result(s@, *p);
                    match build_node_element(input, s, p, &mut errors) {
                        Err(e) => {
                            proof {
                                lemma_ast_fold_stays_failed(s@, pairs@, i + 1, pairs@.len() as int);
                            }
                            return Err(e);
                        },
                        Ok(n) => {
                            if errors.len() > 0 {
                                proof {
                                    assert(strs_view(errors@) =~= c.errs);
                                    lemma_ast_fold_stays_failed(s@, pairs@, i + 1, pairs@.len() as int);
                                }
                                return Err(Error::Parsing(errors[0].clone()));
                            }
                            proof {
                                assert(strs_view(errors@) =~= c.errs);
                            }
                            if let Some(node) = n {
                                nodes.push(node);
                                assert(nodes_view(nodes@) =~= nodes_view(before).push(node_view(node)));
                            }
                        },
                    }
                },
                Rule::NodeText => {
                    if !(p.start <= p.end && p.end <= s.len()) {
                        proof {
                            lemma_ast_fold_stays_failed(s@, pairs@, i + 1, pairs@.len() as int);
                        }
                        return Err(Error::Parsing(String::from_str("Failed to create text: span outside the input")));
                    }
                    let t = slice(input, p.start, p.end);
                    nodes.push(Node::Text(t));
                    assert(nodes_view(nodes@) =~= nodes_view(before).push(NodeV::Text(t@)));
                },
                Rule::NodeComment => {
                    let body = if p.inner.len() > 0 && p.inner[0].start <= p.inner[0].end
                        && p.inner[0].end <= s.len() {
                        slice(input, p.inner[0].start, p.inner[0].end)
                    } else {
                        String::new()
                    };
                    let ghost b = body@;
                    nodes.push(Node::Comment(body));
                    assert(nodes_view(nodes@) =~= nodes_view(before).push(NodeV::Comment(b)));
                },
                Rule::Eoi => {},
                _ => {
                    proof {
                        lemma_ast_fold_stays_failed(s@, pairs@, i + 1, pairs@.len() as int);
                    }
                    return Err(Error::Parsing(String::from_str("Unexpected span at the root")));
                },
            }
            i = i + 1;
        }
        let tree_type = Self::classify(&nodes)?;
        Ok(Ast { tree_type, nodes })
    }

    /// Classifies the root nodes by their count and names.
    pub fn classify(nodes: &Vec<Node>) -> (r: Result<AstVariant>)
        ensures
            r is Ok <==> ast_classified(nodes_view(nodes@)) is Some,
            r is Ok ==> Some(r->Ok_0) == ast_classified(nodes_view(nodes@)),
    {
        let ghost v = nodes_view(nodes@);
        proof {
            reveal_strlit("html");
            reveal_strlit("head");
            reveal_strlit("body");
            assert("html"@ =~= html_word());
            assert("head"@ =~= head_word());
            assert("body"@ =~= body_word());
        }
        if nodes.len() == 0 {
            return Ok(AstVariant::Empty);
        }
        if nodes.len() == 1 {
            assert(v[0] == node_view(nodes@[0]));
            if let Node::Element(e) = &nodes[0] {
                if same_ci(e.name.as_str(), "html") {
                    return Ok(AstVariant::Document);
                }
            }
            return Ok(AstVariant::DocumentFragment);
        }
        let mut i: usize = 0;
        while i < nodes.len()
            invariant
                v == nodes_view(nodes@),
                i <= nodes@.len(),
                nodes@.len() > 1,
                "html"@ =~= html_word(),
                "head"@ =~= head_word(),
                "body"@ =~= body_word(),
                forall|k: int|
                    0 <= k < i ==> !named(#[trigger] v[k], html_word()) && !named(
                        v[k],
                        body_word(),
                    ) && !named(v[k], head_word()),
            decreases nodes@.len() - i,
        {
            assert(v[i as int] == node_view(nodes@[i as int]));
            if let Node::Element(e) = &nodes[i] {
                if same_ci(e.name.as_str(), "html") || same_ci(e.name.as_str(), "body") || same_ci(
                    e.name.as_str(),
                    "head",
                ) {
                    let mut m = String::from_str("A document fragment should not include ");
                    m.append(e.name.as_str());
                    assert(named(v[i as int], html_word()) || named(v[i as int], body_word())
                        || named(v[i as int], head_word()));
                    return Err(Error::Parsing(m));
                }
            }
            i = i + 1;
        }
        Ok(AstVariant::DocumentFragment)
    }
}

} // verus!
