//! Markup written back out of a tree. Whitespace, quoting and the order of
//! attributes in the source are not kept: attributes come out in the order
//! in which they were first set.
use crate::dom::Dom;
use crate::node::{Element, ElementVariant, Node};
use crate::iter::children_of;
use vstd::prelude::*;
use vstd::string::{StrSliceExecFns, StringExecFns};

verus! {

/// The words of `cs` with one space between each two.
pub open spec fn joined(cs: Seq<Seq<char>>) -> Seq<char>
    decreases cs.len(),
{
    if cs.len() == 0 {
        Seq::empty()
    } else if cs.len() == 1 {
        cs[0]
    } else {
        joined(cs.drop_last()) + seq![' '] + cs.last()
    }
}

/// ` class="a b c"`, or nothing where there are no classes.
pub open spec fn classes_html(cs: Seq<String>) -> Seq<char> {
    if cs.len() == 0 {
        Seq::empty()
    } else {
        seq![' ', 'c', 'l', 'a', 's', 's', '=', '"'] + joined(cs.map_values(|c: String| c@))
            + seq!['"']
    }
}

/// ` key="value"`, or ` key` for an attribute without a value.
pub open spec fn attr_html(a: (String, Option<String>)) -> Seq<char> {
    match a.1 {
        Some(v) => seq![' '] + a.0@ + seq!['=', '"'] + v@ + seq!['"'],
        None => seq![' '] + a.0@,
    }
}

/// The attributes, each as `attr_html` writes it, in order.
pub open spec fn attrs_html(attrs: Seq<(String, Option<String>)>) -> Seq<char>
    decreases attrs.len(),
{
    if attrs.len() == 0 {
        Seq::empty()
    } else {
        attrs_html(attrs.drop_last()) + attr_html(attrs.last())
    }
}

/// The markup of a node: text as it is, a comment in `<!--` and `-->`, a
/// normal element with its children between its tags, and a void element
/// as one self-closing tag.
pub open spec fn node_html(n: Node) -> Seq<char>
    decreases n, 1int, 0int,
{
    match n {
        Node::Text(t) => t@,
        Node::Comment(c) => seq!['<', '!', '-', '-'] + c@ + seq!['-', '-', '>'],
        Node::Element(e) => {
            let open = seq!['<'] + e.name@ + classes_html(e.classes@) + attrs_html(e.attributes@);
            match e.variant {
                ElementVariant::Normal => open + seq!['>'] + kids_html(n, e.children@.len() as int)
                    + seq!['<', '/'] + e.name@ + seq!['>'],
                ElementVariant::Void => open + seq!['/', '>'],
            }
        },
    }
}

/// The markup of the first `i` children of `n`.
pub open spec fn kids_html(n: Node, i: int) -> Seq<char>
    decreases n, 0int, i,
{
    if 0 < i <= children_of(n).len() {
        kids_html(n, i - 1) + node_html(children_of(n)[i - 1])
    } else {
        Seq::empty()
    }
}

/// The markup of a sequence of nodes, one after another.
pub open spec fn nodes_html(ns: Seq<Node>) -> Seq<char>
    decreases ns.len(),
{
    if ns.len() == 0 {
        Seq::empty()
    } else {
        nodes_html(ns.drop_last()) + node_html(ns.last())
    }
}

impl Element {
    /// ` class="a b c"`, or an empty string where there are no classes.
    pub fn class_to_html(classes: &Vec<String>) -> (r: String)
        ensures
            r@ == classes_html(classes@),
    {
        let mut html = String::new();
        let n = classes.len();
        let mut i: usize = 0;
        proof {
            reveal_strlit(" class=\"");
            reveal_strlit(" ");
            reveal_strlit("\"");
            assert(" class=\""@ =~= seq![' ', 'c', 'l', 'a', 's', 's', '=', '"']);
            assert(" "@ =~= seq![' ']);
            assert("\""@ =~= seq!['"']);
        }
        let ghost cs = classes@.map_values(|c: String| c@);
        while i < n
            invariant
                n == classes@.len(),
                cs == classes@.map_values(|c: String| c@),
                " class=\""@ =~= seq![' ', 'c', 'l', 'a', 's', 's', '=', '"'],
                " "@ =~= seq![' '],
                i <= n,
                i == 0 ==> html@.len() == 0,
                0 < i ==> html@ == seq![' ', 'c', 'l', 'a', 's', 's', '=', '"'] + joined(
                    cs.take(i as int),
                ),
            decreases n - i,
        {
            assert(cs.take(i + 1).drop_last() == cs.take(i as int));
            assert(cs.take(i + 1).last() == classes@[i as int]@);
            assert(cs.take(i + 1).len() == i + 1);
            if i == 0 {
                html.append(" class=\"");
            } else {
                html.append(" ");
            }
            html.append(classes[i].as_str());
            i = i + 1;
            assert(html@ =~= seq![' ', 'c', 'l', 'a', 's', 's', '=', '"'] + joined(cs.take(i as int)));
        }
        if n > 0 {
            html.append("\"");
            assert(cs.take(n as int) == cs);
        }
        assert(html@ =~= classes_html(classes@));
        html
    }

    /// Each attribute as ` key="value"`, or ` key` where it has no value.
    pub fn attr_to_html(attributes: &Vec<(String, Option<String>)>) -> (r: String)
        ensures
            r@ == attrs_html(attributes@),
    {
        let mut html = String::new();
        let mut i: usize = 0;
        proof {
            reveal_strlit(" ");
            reveal_strlit("=\"");
            reveal_strlit("\"");
            assert(" "@ =~= seq![' ']);
            assert("=\""@ =~= seq!['=', '"']);
            assert("\""@ =~= seq!['"']);
        }
        while i < attributes.len()
            invariant
                i <= attributes@.len(),
                html@ == attrs_html(attributes@.take(i as int)),
                " "@ =~= seq![' '],
                "=\""@ =~= seq!['=', '"'],
                "\""@ =~= seq!['"'],
            decreases attributes@.len() - i,
        {
            assert(attributes@.take(i + 1).drop_last() == attributes@.take(i as int));
            assert(attributes@.take(i + 1).last() == attributes@[i as int]);
            let a = &attributes[i];
            html.append(" ");
            html.append(a.0.as_str());
            if let Some(v) = &a.1 {
                html.append("=\"");
                html.append(v.as_str());
                html.append("\"");
            }
            i = i + 1;
            assert(html@ =~= attrs_html(attributes@.take(i as int)));
        }
        assert(attributes@.take(attributes@.len() as int) == attributes@);
        html
    }

    /// The markup of the element and everything below it.
    pub fn to_html(&self) -> (r: String)
        ensures
            r@ == node_html(Node::Element(*self)),
        decreases self, 0int,
    {
        let mut html = String::new();
        proof {
            reveal_strlit("<");
            reveal_strlit(">");
            reveal_strlit("</");
            reveal_strlit("/>");
        }
        html.append("<");
        html.append(self.name.as_str());
        let classes = Self::class_to_html(&self.classes);
        html.append(classes.as_str());
        let attrs = Self::attr_to_html(&self.attributes);
        html.append(attrs.as_str());
        let ghost open = html@;
        match self.variant {
            ElementVariant::Normal => {
                html.append(">");
                let ghost n = Node::Element(*self);
                let mut i: usize = 0;
                while i < self.children.len()
                    invariant
                        i <= self.children@.len(),
                        n == Node::Element(*self),
                        html@ == open + seq!['>'] + kids_html(n, i as int),
                    decreases self.children@.len() - i,
                {
                    proof {
                        assert(decreases_to!(*self => self.children));
                        assert(decreases_to!(self.children => self.children@[i as int]));
                    }
                    let child = self.children[i].to_html();
                    html.append(child.as_str());
                    i = i + 1;
                    assert(html@ =~= open + seq!['>'] + kids_html(n, i as int));
                }
                html.append("</");
                html.append(self.name.as_str());
                html.append(">");
                assert(html@ =~= node_html(n));
            },
            ElementVariant::Void => {
                html.append("/>");
                assert(html@ =~= node_html(Node::Element(*self)));
            },
        }
        html
    }
}

impl Node {
    /// The markup of the node and everything below it.
    pub fn to_html(&self) -> (r: String)
        ensures
            r@ == node_html(*self),
        decreases self, 1int,
    {
        proof {
            reveal_strlit("<!--");
            reveal_strlit("-->");
        }
        match self {
            Node::Text(t) => t.clone(),
            Node::Comment(c) => {
                let mut html = String::from_str("<!--");
                html.append(c.as_str());
                html.append("-->");
                assert(html@ =~= node_html(*self));
                html
            },
            Node::Element(e) => e.to_html(),
        }
    }
}

impl Dom {
    /// The markup of the root nodes, one after another.
    pub fn to_html(&self) -> (r: String)
        ensures
            r@ == nodes_html(self.children@),
    {
        let mut html = String::new();
        let mut i: usize = 0;
        while i < self.children.len()
            invariant
                i <= self.children@.len(),
                html@ == nodes_html(self.children@.take(i as int)),
            decreases self.children@.len() - i,
        {
            assert(self.children@.take(i + 1).drop_last() == self.children@.take(i as int));
            let child = self.children[i].to_html();
            html.append(child.as_str());
            i = i + 1;
            assert(html@ =~= nodes_html(self.children@.take(i as int)));
        }
        assert(self.children@.take(self.children@.len() as int) == self.children@);
        html
    }
}

} // verus!
