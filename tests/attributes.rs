use html_parser::{Ast, HtmlParser};

fn ok(markup: &str) -> bool {
    HtmlParser::parse(markup, false).is_ok()
}

#[test]
fn attributes_it_can_parse_double_quote() {
    let markup = "<div id=\"one\"></div>";
    assert!(ok(markup) && Ast::parse(markup).is_ok());
}
#[test]
fn attributes_it_can_parse_single_quote() {
    let markup = "<div id='one'></div>";
    assert!(ok(markup) && Ast::parse(markup).is_ok());
}
#[test]
fn attributes_it_can_parse_no_quote_no_space() {
    let markup = "<div id=one></div>";
    assert!(ok(markup) && Ast::parse(markup).is_ok());
}
#[test]
fn attributes_it_can_parse_no_quote_space() {
    let markup = "<div id=one ></div>";
    assert!(ok(markup) && Ast::parse(markup).is_ok());
}
#[test]
fn attributes_it_can_parse_closed_element_attribute_double_quote() {
    let markup = "<img alt=\"cat\" />";
    assert!(ok(markup) && Ast::parse(markup).is_ok());
}
#[test]
fn attributes_it_can_parse_closed_element_attribute_single_quote() {
    let markup = "<img alt='cat'/>";
    assert!(ok(markup) && Ast::parse(markup).is_ok());
}
#[test]
fn attributes_it_can_parse_attribute_key_mixed_case_symbols() {
    let markup = "<img data-cat='morris'/>";
    assert!(ok(markup) && Ast::parse(markup).is_ok());
}
#[test]
fn attributes_it_can_parse_multiple_attributes_single_quote() {
    let markup = "<img alt='cat' title='morris'/>";
    assert!(ok(markup) && Ast::parse(markup).is_ok());
}
#[test]
fn attributes_it_can_parse_multiple_attributes_single_quote_multiple_spaces() {
    let markup = "<img alt='cat'   title='morris'  />";
    assert!(ok(markup) && Ast::parse(markup).is_ok());
}
#[test]
fn attributes_it_can_parse_multiple_attributes_double_quote() {
    let markup = "<img alt=\"cat\" title=\"morris\"/>";
    assert!(ok(markup) && Ast::parse(markup).is_ok());
}
#[test]
fn attributes_it_can_parse_multiple_attribute_values_single_quote() {
    let markup = "<img alt='cat dog'/>";
    assert!(ok(markup) && Ast::parse(markup).is_ok());
}
#[test]
fn attributes_it_can_parse_multiple_attribute_values_double_quote() {
    let markup = "<img alt=\"cat dog\"/>";
    assert!(ok(markup) && Ast::parse(markup).is_ok());
}
#[test]
fn attributes_it_can_parse_empty_attributes() {
    let markup = "<img hidden/>";
    assert!(ok(markup) && Ast::parse(markup).is_ok());
}

