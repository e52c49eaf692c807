use html_parser::{Dom, DomVariant, Element, ElementVariant, HtmlParser, Node};

fn el(n: &Node) -> &Element {
    n.element().unwrap()
}

fn only_element(dom: &Dom) -> &Element {
    assert_eq!(dom.children.len(), 1);
    el(&dom.children[0])
}

#[test]
fn element_it_can_parse_empty_document() {
    assert_eq!((), HtmlParser::parse("", false).unwrap());
}
#[test]
fn element_it_can_parse_one_element() {
    assert_eq!((), HtmlParser::parse("<html></html>", false).unwrap());
    let dom = Dom::parse("<html></html>").unwrap();
    assert_eq!(dom.tree_type, DomVariant::Document);
    let e = only_element(&dom);
    assert_eq!(e.name, "html");
    assert_eq!(e.variant, ElementVariant::Normal);
    assert!(e.children.is_empty());
}
#[test]
fn element_it_can_parse_one_element_upper_case() {
    assert_eq!((), HtmlParser::parse("<HTML></HTML>", false).unwrap());
    let dom = Dom::parse("<HTML></HTML>").unwrap();
    assert_eq!(dom.tree_type, DomVariant::Document);
    assert_eq!(only_element(&dom).name, "HTML");
}
#[test]
fn element_it_can_parse_one_element_mixed_case() {
    assert_eq!((), HtmlParser::parse("<Html></Html>", false).unwrap());
    let dom = Dom::parse("<Html></Html>").unwrap();
    assert_eq!(dom.tree_type, DomVariant::Document);
    assert_eq!(only_element(&dom).name, "Html");
}
#[test]
fn element_it_can_parse_one_element_mixed_case_numbers() {
    assert_eq!((), HtmlParser::parse("<Header1></Header1>", false).unwrap());
    let dom = Dom::parse("<Header1></Header1>").unwrap();
    assert_eq!(dom.tree_type, DomVariant::DocumentFragment);
    let e = only_element(&dom);
    assert_eq!(e.name, "Header1");
    assert_eq!(e.variant, ElementVariant::Normal);
}
#[test]
fn element_it_can_parse_one_element_mixed_case_numbers_symbols() {
    assert_eq!((), HtmlParser::parse("<Head_er-1></Head_er-1>", false).unwrap());
    let dom = Dom::parse("<Head_Er-1></Head_Er-1>").unwrap();
    assert_eq!(dom.tree_type, DomVariant::DocumentFragment);
    assert_eq!(only_element(&dom).name, "Head_Er-1");
}
#[test]
fn element_it_errors_when_case_dont_match() {
    assert!(HtmlParser::parse("<html></Html>", false).is_err());
}
#[test]
fn element_it_can_parse_multiple_elements() {
    assert_eq!((), HtmlParser::parse("<div></div><div></div>", false).unwrap());
    let dom = Dom::parse("<div/><div/>").unwrap();
    assert_eq!(dom.tree_type, DomVariant::DocumentFragment);
    assert_eq!(dom.children.len(), 2);
    for child in &dom.children {
        assert_eq!(el(child).name, "div");
        assert_eq!(el(child).variant, ElementVariant::Void);
    }
}
#[test]
fn it_can_parse_multiple_open_elements() {
    let dom = Dom::parse("<div></div><div></div>").unwrap();
    assert_eq!(dom.children.len(), 2);
    for child in &dom.children {
        assert_eq!(el(child).variant, ElementVariant::Normal);
    }
}
#[test]
fn element_it_errors_when_multiple_elements_dont_match() {
    assert!(HtmlParser::parse("<div></span><div></div>", false).is_err());
}
#[test]
fn element_it_can_parse_one_comment() {
    assert_eq!((), HtmlParser::parse("<!-- hello !\"#/()= -->", false).unwrap());
}
#[test]
fn element_it_can_parse_multiple_comments() {
    assert_eq!((), HtmlParser::parse("<!--x--><!--y--><!--z-->", false).unwrap());
}
#[test]
fn element_it_can_parse_one_text() {
    assert_eq!((), HtmlParser::parse("hello world", false).unwrap());
}
#[test]
fn element_it_can_parse_multiple_rows_of_text() {
    assert_eq!((), HtmlParser::parse("hello\nworld\n!", false).unwrap());
}
#[test]
fn element_it_can_parse_element_comment_text() {
    assert_eq!((), HtmlParser::parse("<div></div><!--x-->hello", false).unwrap());
}
#[test]
fn element_it_can_parse_nested_elements() {
    assert_eq!((), HtmlParser::parse("<div><div></div></div>", false).unwrap());
    let dom = Dom::parse("<div>\n    <div />\n</div>\n").unwrap();
    let outer = only_element(&dom);
    assert_eq!(outer.variant, ElementVariant::Normal);
    assert_eq!(outer.children.len(), 1);
    assert_eq!(el(&outer.children[0]).name, "div");
    assert_eq!(el(&outer.children[0]).variant, ElementVariant::Void);
}
#[test]
fn it_can_parse_nested_elements_mixed_children() {
    let html = "<div>\n    <!--comment-->\n    <div/>\n    Hello\n    <div>\n        World\n    </div>\n</div>\n";
    let dom = Dom::parse(html).unwrap();
    let outer = only_element(&dom);
    assert_eq!(outer.children.len(), 4);
    assert_eq!(outer.children[0].comment(), Some("comment"));
    assert_eq!(el(&outer.children[1]).variant, ElementVariant::Void);
    assert_eq!(outer.children[2].text(), Some("\n    Hello\n    "));
    let inner = el(&outer.children[3]);
    assert_eq!(inner.children[0].text(), Some("\n        World\n    "));
}
#[test]
fn element_it_can_parse_nested_elements_comments_text() {
    let markup = "<p id='body'><i>hello</i><!--x-->world</p>";
    assert_eq!((), HtmlParser::parse(markup, false).unwrap());
    let dom = Dom::parse(markup).unwrap();
    let p = only_element(&dom);
    assert_eq!(p.id.as_deref(), Some("body"));
    assert_eq!(p.children.len(), 3);
    assert_eq!(el(&p.children[0]).children[0].text(), Some("hello"));
    assert_eq!(p.children[1].comment(), Some("x"));
    assert_eq!(p.children[2].text(), Some("world"));
}
#[test]
fn element_it_can_parse_nested_and_indented() {
    let markup = "<p id='body'>\n    <i>hello</i>\n    <!--x-->\n    world\n</p>\n";
    assert_eq!((), HtmlParser::parse(markup, false).unwrap());
}
#[test]
fn element_it_can_parse_deeply_nested() {
    assert_eq!((), HtmlParser::parse(DEEP, false).unwrap());
    let dom = Dom::parse(DEEP).unwrap();
    let mut e = only_element(&dom);
    for _ in 0..7 {
        assert_eq!(e.classes, vec!["1".to_string()]);
        assert_eq!(e.children.len(), 1);
        e = el(&e.children[0]);
    }
    assert_eq!(e.children.len(), 2);
    assert_eq!(e.children[0].comment(), Some("this is deep"));
    assert_eq!(e.children[1].text().map(|t| t.trim()), Some("hello world"));
}
#[test]
fn element_it_can_parse_script_with_content() {
    assert_eq!((), HtmlParser::parse(SCRIPT, false).unwrap());
    let dom = Dom::parse(SCRIPT).unwrap();
    let script = only_element(&dom);
    assert_eq!(script.name, "script");
    assert_eq!(script.variant, ElementVariant::Normal);
    assert_eq!(script.children.len(), 1);
    let body = script.children[0].text().unwrap();
    assert!(body.contains("console.log('yeah buddy, that\\'s right')"));
    assert!(body.starts_with("\n    const person_creator"));
}
#[test]
fn element_it_can_parse_style_with_content() {
    assert_eq!((), HtmlParser::parse(STYLE, false).unwrap());
    let dom = Dom::parse(STYLE).unwrap();
    let style = only_element(&dom);
    assert_eq!(style.name, "style");
    assert_eq!(style.children.len(), 1);
    assert!(style.children[0].text().unwrap().contains("--background-color: black;"));
}
#[test]
fn it_skips_dangling_elements() {
    let dom = Dom::parse("<div id='123'></div>\n</div>\n<div id='321'></div>\n").unwrap();
    assert_eq!(dom.children.len(), 2);
    assert_eq!(el(&dom.children[0]).id.as_deref(), Some("123"));
    assert_eq!(el(&dom.children[1]).id.as_deref(), Some("321"));
}
#[test]
fn it_can_parse_broken_html() {
    let dom = Dom::parse("<div></span><div></div>").unwrap();
    assert_eq!(dom.tree_type, DomVariant::DocumentFragment);
    assert_eq!(dom.children.len(), 2);
    assert_eq!(dom.children[0].text(), Some("<div>"));
    assert_eq!(el(&dom.children[1]).name, "div");
}
#[test]
fn it_errors_when_multiple_nested_elements_dont_match() {
    let dom = Dom::parse("<div><div><div><div></div></div_error></div></div>").unwrap();
    assert_eq!(dom.children.len(), 2);
    assert_eq!(dom.children[0].text(), Some("<div>"));
    let mut e = el(&dom.children[1]);
    for _ in 0..2 {
        assert_eq!(e.children.len(), 1);
        e = el(&e.children[0]);
    }
    assert!(e.children.is_empty());
}
#[test]
fn it_can_clone_node() {
    let dom = Dom::parse("<div>one</div>\n<div>two</div>\n").unwrap();
    let one = dom.children[0].clone();
    assert_eq!(one, dom.children[0]);
    assert_eq!(el(&one).children[0].text(), Some("one"));
}
#[test]
fn it_can_clone_dom() {
    let html = "<html>\n    <head>\n        <title>Title</title>\n    </head>\n    <body>\n        <h1>Hello world</h1>\n    </body>\n</html>\n";
    let dom = Dom::parse(html).unwrap();
    let dom_clone = dom.clone();
    assert_eq!(dom, dom_clone);
}
#[test]
fn it_can_deal_with_weird_whitespaces() {
    let html = "<!-- Normal case -->\n<div> Text </div>\n\n<!-- Whitespaces in opening tag to the left -->\n< div> Text </div>\n\n<!-- Whitespaces in opening tag to the right -->\n<div > Text </div>\n\n<!-- Whitespaces in closing tag to the left (should not work) -->\n<div> Text < /div>\n\n<!-- Whitespaces in closing tag to the right -->\n<div> Text </div >\n\n<!-- Whitespaces everywhere (should not work) -->\n< div > Text < / div >\n";
    let dom = Dom::parse(html).unwrap();
    assert_eq!(dom.tree_type, DomVariant::DocumentFragment);
    let texts: Vec<&str> = dom.children.iter().filter_map(|n| n.text()).collect();
    assert_eq!(texts, vec!["< div> Text ", "<div> Text < /div>\n\n", "< div > Text < / div >\n"]);
    let divs: Vec<&Element> = dom.children.iter().filter_map(|n| n.element()).collect();
    assert_eq!(divs.len(), 3);
    for d in divs {
        assert_eq!(d.children[0].text(), Some(" Text "));
    }
}

const DEEP: &str = "<div class='1'>\n    <div class='1'>\n        <div class='1'>\n            <div class='1'>\n                <div class='1'>\n                    <div class='1'>\n                        <div class='1'>\n                            <div class='1'>\n                                <!--this is deep-->\n                                hello world\n                            </div>\n                        </div>\n                    </div>\n                </div> \n            </div>\n        </div>\n    </div>\n</div>\n";

const SCRIPT: &str = "<script>\n    const person_creator = ({ name, symtoms }) => {\n        let person = {}\n        person.name = name\n        person.symtoms = {}\n        for (symtom of symtoms) {\n            person.symtoms[symtom] = true\n        }\n        return person\n    }\n    \n    const main = () => {\n        let name = 'mathias'\n        let symtoms = ['Dunning-Kruger', 'ACDC', 'Slacker']\n    \n        setTimeout(() => {\n            let person = person_creator({ name, symtoms })\n            if (person.symtoms.hasOwnProperty('Dunning-Kruger')) {\n                console.log('yeah buddy, that\\'s right')\n            }\n        }, 1337)\n    }\n    \n    main()\n</script>\n";

const STYLE: &str = "<style>\n    :root {\n        --background-color: black;\n        --text-color: white;\n    }\n    body {\n        background: var(--background-color);\n        color: var(--text-color);\n    }\n</style>\n";
