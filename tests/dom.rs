use html_parser::{Dom, DomVariant, Element, ElementVariant, Node};

fn el(n: &Node) -> &Element {
    n.element().unwrap()
}

fn attr<'a>(e: &'a Element, key: &str) -> Option<&'a Option<String>> {
    e.attributes.iter().find(|(k, _)| k == key).map(|(_, v)| v)
}

#[test]
fn node_utillity_functions() {
    let node = Node::Text("test".to_string());
    assert_eq!(node.text(), Some("test"));
    assert_eq!(node.element(), None);
    assert_eq!(node.comment(), None);

    let node = Node::Element(Element::default());
    assert_eq!(node.text(), None);
    assert_eq!(node.element(), Some(&Element::default()));
    assert_eq!(node.comment(), None);

    let node = Node::Comment("test".to_string());
    assert_eq!(node.text(), None);
    assert_eq!(node.element(), None);
    assert_eq!(node.comment(), Some("test"));
}

#[test]
fn document_empty_it_can_parse_empty_document() {
    let dom = Dom::parse("").unwrap();
    assert_eq!(dom.tree_type, DomVariant::Empty);
    assert!(dom.children.is_empty());
}
#[test]
fn it_can_parse_minimal_document() {
    let dom = Dom::parse("<!DOCTYPE html><html></html>").unwrap();
    assert_eq!(dom.tree_type, DomVariant::Document);
    assert_eq!(dom.children.len(), 1);
    assert_eq!(el(&dom.children[0]).name, "html");
    assert_eq!(el(&dom.children[0]).variant, ElementVariant::Normal);
}
#[test]
fn it_can_parse_document_with_comments() {
    let markup = "<!-- comment -->\n<!-- comment -->\n<!DOCTYPE html>\n<!-- comment -->\n<!-- comment -->\n<html>\n<!-- comment -->\n</html>\n<!-- comment -->\n<!-- comment -->\n";
    let dom = Dom::parse(markup).unwrap();
    assert_eq!(dom.tree_type, DomVariant::Document);
    assert_eq!(dom.children.len(), 7);
    let html = el(&dom.children[4]);
    assert_eq!(html.name, "html");
    assert_eq!(html.children.len(), 1);
    assert_eq!(html.children[0].comment(), Some("comment"));
    for i in [0, 1, 2, 3, 5, 6] {
        assert_eq!(dom.children[i].comment(), Some("comment"));
    }
}
#[test]
fn it_error_when_doctype_and_multiple_html() {
    assert!(Dom::parse("<!DOCTYPE html><html></html><html></html>").is_err());
}
#[test]
fn it_can_parse_single_div_as_fragment() {
    let dom = Dom::parse("<div/>").unwrap();
    assert_eq!(dom.tree_type, DomVariant::DocumentFragment);
    assert_eq!(el(&dom.children[0]).name, "div");
}
#[test]
fn it_can_parse_single_text_as_fragment() {
    let dom = Dom::parse("hello").unwrap();
    assert_eq!(dom.tree_type, DomVariant::DocumentFragment);
    assert_eq!(dom.children, vec![Node::Text("hello".to_string())]);
}
#[test]
fn it_can_parse_text_comment_element_as_fragment() {
    let dom = Dom::parse("hello<!--world?--><div/>").unwrap();
    assert_eq!(dom.tree_type, DomVariant::DocumentFragment);
    assert_eq!(dom.children.len(), 3);
    assert_eq!(dom.children[0].text(), Some("hello"));
    assert_eq!(dom.children[1].comment(), Some("world?"));
    assert_eq!(el(&dom.children[2]).name, "div");
}
#[test]
fn it_error_when_body_is_used_in_fragment_root() {
    assert!(Dom::parse("<div></div><body></body>").is_err());
}
#[test]
fn it_error_when_head_is_used_in_fragment_root() {
    assert!(Dom::parse("<div></div><head></head>").is_err());
}
#[test]
fn it_error_when_html_is_used_in_fragment_root() {
    assert!(Dom::parse("<div></div><html></html>").is_err());
}
#[test]
fn it_can_parse_document_with_just_one_comment() {
    let dom = Dom::parse("<!-- hello !\"#/()= -->").unwrap();
    assert_eq!(dom.tree_type, DomVariant::DocumentFragment);
    assert_eq!(dom.children, vec![Node::Comment("hello !\"#/()=".to_string())]);
}
#[test]
fn it_can_parse_document_with_just_comments() {
    let dom = Dom::parse("<!--x--><!--y--><!--z-->").unwrap();
    assert_eq!(dom.tree_type, DomVariant::DocumentFragment);
    let comments: Vec<&str> = dom.children.iter().filter_map(|n| n.comment()).collect();
    assert_eq!(comments, vec!["x", "y", "z"]);
    assert_eq!(dom.children.len(), 3);
}

#[test]
fn it_can_parse_document_with_just_text() {
    let dom = Dom::parse("hello world").unwrap();
    assert_eq!(dom.children, vec![Node::Text("hello world".to_string())]);
}
#[test]
fn it_can_parse_document_with_text_and_line_breaks() {
    let html = "hello world\nhere's another line for you!\nThe end\n";
    let dom = Dom::parse(html).unwrap();
    assert_eq!(dom.tree_type, DomVariant::DocumentFragment);
    assert_eq!(dom.children, vec![Node::Text(html.to_string())]);
}
#[test]
fn it_can_parse_document_with_multiple_text_elements() {
    let html = "hello world\nhere's another line for you!\n<div/>\nThe end\n";
    let dom = Dom::parse(html).unwrap();
    assert_eq!(dom.children.len(), 3);
    assert_eq!(dom.children[0].text(), Some("hello world\nhere's another line for you!\n"));
    assert_eq!(el(&dom.children[1]).name, "div");
    assert_eq!(dom.children[2].text(), Some("\nThe end\n"));
}
#[test]
fn it_can_parse_text_with_chevron() {
    let dom = Dom::parse("hello <> world").unwrap();
    assert_eq!(dom.children, vec![Node::Text("hello <> world".to_string())]);
}
#[test]
fn it_can_parse_text_in_paragraph_with_weird_formatting() {
    let html = "<p>\n    This is a <b>para</b>gra<b>ph</b> with some<i> weird </i> formatting.\n</p>\n";
    let dom = Dom::parse(html).unwrap();
    let p = el(&dom.children[0]);
    assert_eq!(p.children.len(), 7);
    assert_eq!(p.children[0].text(), Some("\n    This is a "));
    assert_eq!(el(&p.children[1]).children[0].text(), Some("para"));
    assert_eq!(p.children[2].text(), Some("gra"));
    assert_eq!(el(&p.children[3]).children[0].text(), Some("ph"));
    assert_eq!(p.children[4].text(), Some(" with some"));
    assert_eq!(el(&p.children[5]).children[0].text(), Some(" weird "));
    assert_eq!(p.children[6].text(), Some(" formatting.\n"));
}

#[test]
fn element_attributes_it_can_parse_double_quote() {
    let dom = Dom::parse("<div id=\"one\"></div>").unwrap();
    let e = el(&dom.children[0]);
    assert_eq!(e.id.as_deref(), Some("one"));
    assert!(e.attributes.is_empty());
}
#[test]
fn element_attributes_it_can_parse_single_quote() {
    let dom = Dom::parse("<div id='one'></div>").unwrap();
    assert_eq!(el(&dom.children[0]).id.as_deref(), Some("one"));
}
#[test]
fn it_can_parse_no_quote() {
    let dom = Dom::parse("<div id=one></div>").unwrap();
    assert_eq!(el(&dom.children[0]).id.as_deref(), Some("one"));
}
#[test]
fn element_attributes_it_can_parse_attribute_key_mixed_case_symbols() {
    let dom = Dom::parse("<div data-cat='morris'></div>").unwrap();
    let e = el(&dom.children[0]);
    assert_eq!(attr(e, "data-cat"), Some(&Some("morris".to_string())));
}
#[test]
fn element_attributes_it_can_parse_multiple_attributes_single_quote() {
    let dom = Dom::parse("<div cat='mjau' dog='woff' ape=oh></div>").unwrap();
    let e = el(&dom.children[0]);
    assert_eq!(e.attributes.len(), 3);
    assert_eq!(attr(e, "cat"), Some(&Some("mjau".to_string())));
    assert_eq!(attr(e, "dog"), Some(&Some("woff".to_string())));
    assert_eq!(attr(e, "ape"), Some(&Some("oh".to_string())));
}
#[test]
fn it_can_parse_multiple_attributes_where_whitespace_does_not_matter_for_keys() {
    let dom = Dom::parse("<div    cat   =  \"mjau\" dog ='  woff  'ape = oh ></div>").unwrap();
    let e = el(&dom.children[0]);
    assert_eq!(e.attributes.len(), 3);
    assert_eq!(attr(e, "cat"), Some(&Some("mjau".to_string())));
    assert_eq!(attr(e, "dog"), Some(&Some("  woff  ".to_string())));
    assert_eq!(attr(e, "ape"), Some(&Some("oh".to_string())));
}
#[test]
fn element_attributes_it_can_parse_multiple_attributes_double_quote() {
    let dom = Dom::parse("<div cat=\"mjau\" dog=\"woff\" ape=\"oh\"></div>").unwrap();
    let e = el(&dom.children[0]);
    assert_eq!(attr(e, "ape"), Some(&Some("oh".to_string())));
    assert_eq!(e.attributes.len(), 3);
}
#[test]
fn it_can_parse_multiple_attributes_no_quote() {
    let dom = Dom::parse("<div cat=mjau dog=woff ape=oh></div>").unwrap();
    let e = el(&dom.children[0]);
    assert_eq!(attr(e, "dog"), Some(&Some("woff".to_string())));
    assert_eq!(e.attributes.len(), 3);
}
#[test]
fn it_can_parse_attribute_multiple_values_single_quote() {
    let dom = Dom::parse("<div cat='mjau mjau' />").unwrap();
    let e = el(&dom.children[0]);
    assert_eq!(e.variant, ElementVariant::Void);
    assert_eq!(attr(e, "cat"), Some(&Some("mjau mjau".to_string())));
}
#[test]
fn it_can_parse_attribute_multiple_values_double_quote() {
    let dom = Dom::parse("<div cat=\"mjau mjau\" />").unwrap();
    assert_eq!(attr(el(&dom.children[0]), "cat"), Some(&Some("mjau mjau".to_string())));
}
#[test]
fn it_can_parse_attribute_with_empty_value() {
    let dom = Dom::parse("<img hidden/>").unwrap();
    let e = el(&dom.children[0]);
    assert_eq!(e.variant, ElementVariant::Void);
    assert_eq!(e.attributes, vec![("hidden".to_string(), None)]);
}
#[test]
fn it_can_parse_id() {
    let dom = Dom::parse("<img id=a/>").unwrap();
    assert_eq!(el(&dom.children[0]).id.as_deref(), Some("a"));
}
#[test]
fn it_can_parse_classes() {
    let dom = Dom::parse("<img class='a b c'/>").unwrap();
    let e = el(&dom.children[0]);
    assert_eq!(e.classes, vec!["a".to_string(), "b".to_string(), "c".to_string()]);
    assert!(attr(e, "class").is_none());
}
#[test]
fn it_keeps_spaces_for_non_classes() {
    let dom = Dom::parse("<img attr=' a b     \n\t'/>").unwrap();
    assert_eq!(attr(el(&dom.children[0]), "attr"), Some(&Some(" a b     \n\t".to_string())));
}

#[test]
fn it_can_iter_1() {
    let html = "<html>\n    <head>\n        <title>title</title>\n    </head>\n    <body>\n        <ul>\n            <li></li>\n            <li></li>\n            <li></li>\n        </ul>\n    </body>\n</html>\n";
    let dom = Dom::parse(html).unwrap();
    let mut root = dom.children.get(0).unwrap().into_iter();
    let mut num_li = 0;
    while let Some(curr) = root.next() {
        if let Node::Element(ref e) = curr {
            if e.name == "li" {
                num_li += 1;
            }
        }
    }
    assert_eq!(num_li, 3);
}

#[test]
fn it_can_parse_html_and_output_html() {
    let html = "<template>\n    <h1 class=\"main bg-red mp-12\">Header</h1>\n    <ul>\n        <li title=\"Item one\">Item 1</li>\n        </br>\n        <li><button disabled></button></li>\n    </ul>\n</template>\n\n";
    let out = Dom::parse(html).unwrap().to_html();
    assert_eq!(
        out,
        "<template><h1 class=\"main bg-red mp-12\">Header</h1><ul><li title=\"Item one\">Item 1</li><li><button disabled></button></li></ul></template>"
    );
}

#[test]
fn it_can_generate_source_span() {
    let html = "<template>\n    <h1>Header</h1>\n    <p>Paragraph</p>\n</template>\n";
    let dom = Dom::parse(html).unwrap();
    let t = el(&dom.children[0]);
    assert_eq!(t.source_span.text, "<template>\n    <h1>Header</h1>\n    <p>Paragraph</p>\n</template>");
    assert_eq!((t.source_span.start_line, t.source_span.start_column), (1, 1));
    assert_eq!((t.source_span.end_line, t.source_span.end_column), (4, 12));
    let h1 = el(&t.children[0]);
    assert_eq!(h1.source_span.text, "<h1>Header</h1>");
    assert_eq!((h1.source_span.start_line, h1.source_span.start_column), (2, 5));
    assert_eq!((h1.source_span.end_line, h1.source_span.end_column), (2, 20));
    let p = el(&t.children[1]);
    assert_eq!((p.source_span.start_line, p.source_span.start_column), (3, 5));
    assert_eq!((p.source_span.end_line, p.source_span.end_column), (3, 21));
}

#[test]
fn it_can_parse_svg() {
    let html = "<svg  xmlns=\"http://www.w3.org/2000/svg\" xmlns:xlink=\"http://www.w3.org/1999/xlink\">\n    <rect x=\"10\" y=\"10\" height=\"100\" width=\"100\" style=\"stroke:#ff0000; fill: #0000ff\"/>\n</svg>\n";
    let dom = Dom::parse(html).unwrap();
    let svg = el(&dom.children[0]);
    assert_eq!(attr(svg, "xmlns:xlink"), Some(&Some("http://www.w3.org/1999/xlink".to_string())));
    let rect = el(&svg.children[0]);
    assert_eq!(rect.name, "rect");
    assert_eq!(rect.variant, ElementVariant::Void);
    assert_eq!(rect.attributes.len(), 5);
    assert_eq!(attr(rect, "style"), Some(&Some("stroke:#ff0000; fill: #0000ff".to_string())));
}
#[test]
fn it_can_parse_complex_svg() {
    let svg = "<svg width=\"600\" height=\"600\">\n    <rect id=\"rec\" x=\"300\" y=\"100\" width=\"300\" height=\"100\" style=\"fill:lime\"> \n    <animate attributeName=\"x\" attributeType=\"XML\" begin=\"0s\" dur=\"6s\" fill=\"freeze\" from=\"300\" to=\"0\" /> \n    <animate attributeName=\"y\" attributeType=\"XML\" begin=\"0s\" dur=\"6s\" fill=\"freeze\" from=\"100\" to=\"0\" /> \n    <animate attributeName=\"width\" attributeType=\"XML\" begin=\"0s\" dur=\"6s\" fill=\"freeze\" from=\"300\" to=\"800\" /> \n    <animate attributeName=\"height\" attributeType=\"XML\" begin=\"0s\" dur=\"6s\" fill=\"freeze\" from=\"100\" to=\"300\" /> \n    <animate attributeName=\"fill\" attributeType=\"CSS\" from=\"lime\" to=\"red\" begin=\"2s\" dur=\"4s\" fill=\"freeze\" />\n    </rect>\n    <g transform=\"translate(100,100)\"> \n    <text id=\"TextElement\" x=\"0\" y=\"0\" style=\"font-family:Verdana;font-size:24; visibility:hidden\"> It's SVG!\n        <set attributeName=\"visibility\" attributeType=\"CSS\" to=\"visible\" begin=\"1s\" dur=\"5s\" fill=\"freeze\" />\n        <animateMotion path=\"M 0 0 L 100 100\" begin=\"1s\" dur=\"5s\" fill=\"freeze\" />\n        <animate attributeName=\"fill\" attributeType=\"CSS\" from=\"red\" to=\"blue\" begin=\"1s\" dur=\"5s\" fill=\"freeze\" /> \n        <animateTransform attributeName=\"transform\" attributeType=\"XML\" type=\"rotate\" from=\"-30\" to=\"0\" begin=\"1s\" dur=\"5s\" fill=\"freeze\" /> \n        <animateTransform attributeName=\"transform\" attributeType=\"XML\" type=\"scale\" from=\"1\" to=\"3\" additive=\"sum\" begin=\"1s\" dur=\"5s\" fill=\"freeze\" /> \n    </text> \n    </g>\n    Sorry, your browser does not support inline SVG.\n</svg>\n";
    assert!(Dom::parse(&svg).is_ok());
}
#[test]
fn it_can_parse_simple() {
    let html = "<!DOCTYPE html>\n<html lang=\"en\">\n    <head>\n        <meta charset=\"UTF-8\">\n        <meta name=\"viewport\" content=\"width=device-width, initial-scale=1.0\">\n        <title>Document</title>\n        <style>\n            body {\n                background: black;\n            }\n    \n            h1 {\n                color: white;\n            }\n        </style>\n    </head>\n    <body>\n        <h1>Hello world</h1>\n        <!-- There should be more text here -->\n        <script>\n            const title = document.querySelector(\"h1\")\n            title.innerText = \"Hello from script\"\n        </script>\n    </body>\n</html>        \n";
    let dom = Dom::parse(html).unwrap();
    assert_eq!(dom.tree_type, DomVariant::Document);
    assert!(dom.errors.is_empty());
}
