use html_parser::order::{sorted_attributes, str_lt};
use html_parser::{Ast, AstVariant, Dom, DomVariant, Element, ElementVariant, Node};

fn el(n: &Node) -> &Element {
    n.element().unwrap()
}

#[test]
fn blank_input_is_empty() {
    for input in ["", " ", "\n\t  \r\n", "\u{a0}\u{3000} "] {
        let dom = Dom::parse(input).unwrap();
        assert_eq!(dom.tree_type, DomVariant::Empty);
        assert!(dom.children.is_empty());
        assert!(dom.errors.is_empty());
    }
}
#[test]
fn comments_only_is_a_fragment_in_order() {
    let dom = Dom::parse("<!--x--><!--y--><!--z-->").unwrap();
    assert_eq!(dom.tree_type, DomVariant::DocumentFragment);
    assert_eq!(
        dom.children,
        vec![
            Node::Comment("x".to_string()),
            Node::Comment("y".to_string()),
            Node::Comment("z".to_string())
        ]
    );
}
#[test]
fn doctype_and_html_is_a_document() {
    let dom = Dom::parse("<!DOCTYPE html><html></html>").unwrap();
    assert_eq!(dom.tree_type, DomVariant::Document);
    assert_eq!(dom.children.len(), 1);
    assert_eq!(el(&dom.children[0]).name, "html");
    assert_eq!(el(&dom.children[0]).variant, ElementVariant::Normal);
}
#[test]
fn classification_errors() {
    let e = Dom::parse("<!DOCTYPE html><html></html><html></html>").unwrap_err();
    assert_eq!(e.message(), "Document with multiple HTML tags");
    let e = Dom::parse("<div></div><body></body>").unwrap_err();
    assert_eq!(e.message(), "A document fragment should not include body");
    let e = Dom::parse("<div></div><HEAD></HEAD>").unwrap_err();
    assert_eq!(e.message(), "A document fragment should not include HEAD");
    let e = Dom::parse("<div></div><html></html>").unwrap_err();
    assert_eq!(e.message(), "A document fragment should not include html");
    assert!(Dom::parse("<html></html><html></html>").is_err());
}
#[test]
fn html_root_promotes_a_fragment() {
    let dom = Dom::parse("hi<!--c--><html></html>").unwrap();
    assert_eq!(dom.tree_type, DomVariant::Document);
}
#[test]
fn boolean_attribute_has_no_value() {
    let dom = Dom::parse("<img hidden/>").unwrap();
    let e = el(&dom.children[0]);
    assert_eq!(e.variant, ElementVariant::Void);
    assert_eq!(e.attributes, vec![("hidden".to_string(), None)]);
}
#[test]
fn dangling_close_tag_is_dropped() {
    let dom = Dom::parse("<div id='123'></div></div><div id='321'></div>").unwrap();
    assert_eq!(dom.children.len(), 2);
    assert_eq!(el(&dom.children[0]).id, Some("123".to_string()));
    assert_eq!(el(&dom.children[1]).id, Some("321".to_string()));
    assert!(dom.errors.is_empty());
}
#[test]
fn serialization_is_stable() {
    let dom = Dom::parse("<div b='2' a='1' class='x y'><p>t</p><!--c--></div>").unwrap();
    let first = dom.to_html();
    assert_eq!(first, dom.to_html());
    assert_eq!(first, "<div class=\"x y\" b=\"2\" a=\"1\"><p>t</p><!--c--></div>");
    assert_eq!(dom.clone().to_html(), first);
}
#[test]
fn iterator_visits_every_node_once_in_preorder() {
    let dom = Dom::parse("<a><b>1</b><c><d/>2</c><!--3--></a>").unwrap();
    let root = &dom.children[0];
    let mut seen: Vec<String> = Vec::new();
    let mut it = root.into_iter();
    while let Some(n) = it.next() {
        seen.push(match n {
            Node::Element(e) => e.name.clone(),
            Node::Text(t) => t.clone(),
            Node::Comment(c) => format!("#{}", c),
        });
    }
    assert_eq!(seen, vec!["b", "1", "c", "d", "2", "#3"]);
    assert!(it.next().is_none());
    assert_eq!(root.descendants().len(), 6);
    let leaf = Node::Text("x".to_string());
    assert!(leaf.into_iter().next().is_none());
}
#[test]
fn class_attribute_becomes_classes() {
    let dom = Dom::parse("<div class='a b c'/>").unwrap();
    let e = el(&dom.children[0]);
    assert_eq!(e.classes, vec!["a".to_string(), "b".to_string(), "c".to_string()]);
    assert!(e.attributes.iter().all(|(k, _)| k != "class"));
    let dom = Dom::parse("<div class=' a  a ' class=b id='' id=z/>").unwrap();
    let e = el(&dom.children[0]);
    assert_eq!(e.classes, vec!["a".to_string(), "a".to_string(), "b".to_string()]);
    assert_eq!(e.id, Some("z".to_string()));
}
#[test]
fn repeated_attribute_keeps_last_value() {
    let dom = Dom::parse("<div k=1 k='2' j></div>").unwrap();
    let e = el(&dom.children[0]);
    assert_eq!(
        e.attributes,
        vec![("k".to_string(), Some("2".to_string())), ("j".to_string(), None)]
    );
}
#[test]
fn element_build_error_is_recorded() {
    let dom = Dom::parse("<?xml version=\"1.0\" ?>\n<div />\n").unwrap();
    assert_eq!(dom.errors, vec!["Failed to create element at rule: el_process_instruct".to_string()]);
    assert_eq!(dom.children.len(), 1);
    assert_eq!(el(&dom.children[0]).name, "div");
}
#[test]
fn unreadable_markup_is_an_error() {
    let e = Dom::parse("<p>ok</p>\n  <!-- never closed").unwrap_err();
    assert_eq!(e.message(), "Failed to parse the markup at line 2, column 3");
}
#[test]
fn raw_text_keeps_markup_as_text() {
    let dom = Dom::parse("<script>if (a < b) { x = '<p>' }</script>").unwrap();
    let s = el(&dom.children[0]);
    assert_eq!(s.children, vec![Node::Text("if (a < b) { x = '<p>' }".to_string())]);
}
#[test]
fn void_elements_take_no_children() {
    let dom = Dom::parse("<p><br>text<IMG src=x></p>").unwrap();
    let p = el(&dom.children[0]);
    assert_eq!(p.children.len(), 3);
    assert_eq!(el(&p.children[0]).variant, ElementVariant::Void);
    assert_eq!(el(&p.children[2]).name, "IMG");
    assert_eq!(p.to_html(), "<p><br/>text<IMG src=\"x\"/></p>");
}
#[test]
fn ast_classifies_by_count() {
    assert_eq!(Ast::parse("").unwrap().tree_type, AstVariant::Empty);
    assert_eq!(Ast::parse("<html></html>").unwrap().tree_type, AstVariant::Document);
    assert_eq!(Ast::parse("<div/>").unwrap().tree_type, AstVariant::DocumentFragment);
    let ast = Ast::parse("<div/> <p></p>").unwrap();
    assert_eq!(ast.tree_type, AstVariant::DocumentFragment);
    assert_eq!(ast.nodes.len(), 3);
    assert!(Ast::parse("<div/><body></body>").is_err());
}
#[test]
fn unclosed_nesting_is_read_as_text_quickly() {
    let input = format!("{}x", "<div><p>".repeat(40));
    let dom = Dom::parse(&input).unwrap();
    assert_eq!(dom.tree_type, DomVariant::DocumentFragment);
    assert_eq!(dom.children, vec![Node::Text(input.clone())]);
}
#[test]
fn comments_with_white_space_between_stay_in_order() {
    let dom = Dom::parse("  <!-- a -->\n\t<!--b--> <!--  c  d -->  ").unwrap();
    assert_eq!(dom.tree_type, DomVariant::DocumentFragment);
    assert!(dom.errors.is_empty());
    let comments: Vec<&str> = dom.children.iter().filter_map(|n| n.comment()).collect();
    assert_eq!(comments, vec!["a", "b", "c  d"]);
    assert_eq!(dom.children.len(), 3);
}
#[test]
fn plain_text_is_one_text_node() {
    let dom = Dom::parse(" just > text & more ").unwrap();
    assert_eq!(dom.tree_type, DomVariant::DocumentFragment);
    assert_eq!(dom.children, vec![Node::Text(" just > text & more ".to_string())]);
}
#[test]
fn attributes_sort_the_same_whatever_their_order() {
    let a = Dom::parse("<div b='2' a c=3 ab='x'/>").unwrap();
    let b = Dom::parse("<div c=3 ab='x' a b='2'/>").unwrap();
    let sa = sorted_attributes(&el(&a.children[0]).attributes);
    let sb = sorted_attributes(&el(&b.children[0]).attributes);
    assert_eq!(sa, sb);
    let keys: Vec<&str> = sa.iter().map(|(k, _)| k.as_str()).collect();
    assert_eq!(keys, vec!["a", "ab", "b", "c"]);
    assert!(str_lt("a", "ab") && str_lt("ab", "b") && !str_lt("b", "b") && !str_lt("b", "a"));
}
