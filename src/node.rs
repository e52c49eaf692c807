use crate::chars::strs_view;
use crate::span::SourceSpan;
use vstd::prelude::*;

verus! {

/// Normal: `<div></div>` or Void: `<meta/>` and `<meta>`.
#[derive(Debug, Clone, Copy, PartialEq, Eq, Structural)]
pub enum ElementVariant {
    /// A normal element can have children, ex: `<div></div>`.
    Normal,
    /// A void element can't have children, ex: `<meta />` and `<meta>`.
    Void,
}

/// The attributes of an element other than `id` and `class`, as key and
/// optional value; a key stands at most once.
pub type Attributes = Vec<(String, Option<String>)>;

/// A tag of the parsed markup.
#[derive(Debug, PartialEq)]
pub struct Element {
    /// The id of the element
    pub id: Option<String>,
    /// The name / tag of the element
    pub name: String,
    /// The element variant, if it is of type void or not
    pub variant: ElementVariant,
    /// All of the elements attributes, except id and class
    pub attributes: Attributes,
    /// All of the elements classes
    pub classes: Vec<String>,
    /// All of the elements child nodes
    pub children: Vec<Node>,
    /// Span of the element in the parsed source
    pub source_span: SourceSpan,
}

/// A node of the tree: text, an element or a comment.
#[derive(Debug, PartialEq)]
pub enum Node {
    Text(String),
    Element(Element),
    Comment(String),
}

/// What an element holds, as characters: everything but its source span.
pub struct ElementV {
    pub name: Seq<char>,
    pub variant: ElementVariant,
    pub id: Option<Seq<char>>,
    pub classes: Seq<Seq<char>>,
    pub attributes: Seq<(Seq<char>, Option<Seq<char>>)>,
    pub children: Seq<NodeV>,
}

/// What a node holds, as characters.
pub enum NodeV {
    Text(Seq<char>),
    Element(ElementV),
    Comment(Seq<char>),
}

/// The keys and values of an attribute list, as characters.
pub open spec fn attr_views(attrs: Seq<(String, Option<String>)>) -> Seq<
    (Seq<char>, Option<Seq<char>>),
> {
    attrs.map_values(|a: (String, Option<String>)| (a.0@, opt_view(a.1)))
}

/// The view of an element.
pub open spec fn element_view(e: Element) -> ElementV
    decreases e, 0int,
{
    ElementV {
        name: e.name@,
        variant: e.variant,
        id: opt_view(e.id),
        classes: strs_view(e.classes@),
        attributes: attr_views(e.attributes@),
        children: Seq::new(
            e.children@.len(),
            |i: int|
                if 0 <= i < e.children@.len() {
                    node_view(e.children@[i])
                } else {
                    NodeV::Text(Seq::empty())
                },
        ),
    }
}

/// The view of a node.
pub open spec fn node_view(n: Node) -> NodeV
    decreases n, 1int,
{
    match n {
        Node::Text(t) => NodeV::Text(t@),
        Node::Element(e) => NodeV::Element(element_view(e)),
        Node::Comment(c) => NodeV::Comment(c@),
    }
}

/// The views of a run of nodes.
pub open spec fn nodes_view(ns: Seq<Node>) -> Seq<NodeV> {
    ns.map_values(|n: Node| node_view(n))
}

/// No key of an attribute list stands twice.
pub open spec fn attr_keys_unique(attrs: Seq<(String, Option<String>)>) -> bool {
    forall|i: int, j: int|
        0 <= i < j < attrs.len() ==> #[trigger] attrs[i].0@ != #[trigger] attrs[j].0@
}

/// Whether `k` is a key of an attribute list.
pub open spec fn has_key(attrs: Seq<(String, Option<String>)>, k: Seq<char>) -> bool {
    exists|i: int| 0 <= i < attrs.len() && #[trigger] attrs[i].0@ == k
}

/// The optional value of an attribute, as characters.
pub open spec fn opt_view(v: Option<String>) -> Option<Seq<char>> {
    match v {
        Some(s) => Some(s@),
        None => None,
    }
}

impl Default for Element {
    fn default() -> (r: Self)
        ensures
            r.id is None,
            r.name@ == Seq::<char>::empty(),
            r.variant == ElementVariant::Void,
            r.attributes@.len() == 0,
            r.classes@.len() == 0,
            r.children@.len() == 0,
            r.source_span.text@ == Seq::<char>::empty(),
            r.source_span.start_line == 0,
            r.source_span.end_line == 0,
            r.source_span.start_column == 0,
            r.source_span.end_column == 0,
    {
        Element {
            id: None,
            name: String::new(),
            variant: ElementVariant::Void,
            attributes: Vec::new(),
            classes: Vec::new(),
            children: Vec::new(),
            source_span: SourceSpan::default(),
        }
    }
}

impl Node {
    pub fn text(&self) -> (r: Option<&str>)
        ensures
            match self {
                Node::Text(t) => r is Some && r->0@ == t@,
                _ => r is None,
            },
    {
        match self {
            Node::Text(t) => Some(t.as_str()),
            _ => None,
        }
    }

    pub fn element(&self) -> (r: Option<&Element>)
        ensures
            match self {
                Node::Element(e) => r == Some(e),
                _ => r is None,
            },
    {
        match self {
            Node::Element(e) => Some(e),
            _ => None,
        }
    }

    pub fn comment(&self) -> (r: Option<&str>)
        ensures
            match self {
                Node::Comment(t) => r is Some && r->0@ == t@,
                _ => r is None,
            },
    {
        match self {
            Node::Comment(t) => Some(t.as_str()),
            _ => None,
        }
    }
}

pub(crate) fn clone_opt(v: &Option<String>) -> (r: Option<String>)
    ensures
        opt_view(r) == opt_view(*v),
{
    match v {
        Some(s) => Some(s.clone()),
        None => None,
    }
}

fn clone_element(e: &Element) -> (r: Element)
    ensures
        r.name@ == e.name@,
        r.variant == e.variant,
        r.children@.len() == e.children@.len(),
    decreases e, 0int,
{
    let mut attributes: Vec<(String, Option<String>)> = Vec::new();
    let mut i: usize = 0;
    while i < e.attributes.len()
        decreases e.attributes@.len() - i,
    {
        let a = &e.attributes[i];
        attributes.push((a.0.clone(), clone_opt(&a.1)));
        i = i + 1;
    }
    let mut children: Vec<Node> = Vec::new();
    let mut j: usize = 0;
    while j < e.children.len()
        invariant
            j <= e.children@.len(),
            children@.len() == j,
        decreases e.children@.len() - j,
    {
        proof {
            assert(decreases_to!(*e => e.children));
            assert(decreases_to!(e.children => e.children@[j as int]));
        }
        children.push(clone_node(&e.children[j]));
        j = j + 1;
    }
    Element {
        id: clone_opt(&e.id),
        name: e.name.clone(),
        variant: e.variant,
        attributes,
        classes: e.classes.clone(),
        children,
        source_span: e.source_span.clone(),
    }
}

fn clone_node(n: &Node) -> (r: Node)
    decreases n, 1int,
{
    match n {
        Node::Text(t) => Node::Text(t.clone()),
        Node::Element(e) => Node::Element(clone_element(e)),
        Node::Comment(c) => Node::Comment(c.clone()),
    }
}

impl Clone for Element {
    fn clone(&self) -> Self {
        clone_element(self)
    }
}

impl Clone for Node {
    fn clone(&self) -> Self {
        clone_node(self)
    }
}

} // verus!
