use html_parser::HtmlParser;

fn ok(markup: &str) -> bool {
    HtmlParser::parse(markup, false).is_ok()
}

#[test]
fn tests_it_can_parse_empty_document() {
    assert_eq!((), HtmlParser::parse("", false).unwrap());
}
#[test]
fn tests_it_can_parse_one_element() {
    assert_eq!((), HtmlParser::parse("<html></html>", false).unwrap());
}
#[test]
fn tests_it_can_parse_one_element_upper_case() {
    assert_eq!((), HtmlParser::parse("<HTML></HTML>", false).unwrap());
}
#[test]
fn tests_it_can_parse_one_element_mixed_case() {
    assert_eq!((), HtmlParser::parse("<Html></Html>", false).unwrap());
}
#[test]
fn tests_it_errors_when_case_dont_match() {
    assert!(HtmlParser::parse("<html></Html>", false).is_err());
}
#[test]
fn it_errors_on_element_without_matching_name() {
    assert!(HtmlParser::parse("<html></div>", false).is_err());
}
#[test]
fn tests_it_can_parse_multiple_elements() {
    assert_eq!((), HtmlParser::parse("<div></div><div></div>", false).unwrap());
}
#[test]
fn tests_it_errors_when_multiple_elements_dont_match() {
    assert!(HtmlParser::parse("<div></span><div></div>", false).is_err());
}
#[test]
fn tests_it_can_parse_one_comment() {
    assert_eq!((), HtmlParser::parse("<!-- hello !\"#/()= -->", false).unwrap());
}
#[test]
fn tests_it_can_parse_multiple_comments() {
    assert_eq!((), HtmlParser::parse("<!--x--><!--y--><!--z-->", false).unwrap());
}
#[test]
fn tests_it_can_parse_one_text() {
    assert_eq!((), HtmlParser::parse("hello world", false).unwrap());
}
#[test]
fn tests_it_can_parse_multiple_rows_of_text() {
    assert_eq!((), HtmlParser::parse("hello\nworld\n!", false).unwrap());
}
#[test]
fn tests_it_can_parse_element_comment_text() {
    assert_eq!((), HtmlParser::parse("<div></div><!--x-->hello", false).unwrap());
}
#[test]
fn tests_it_can_parse_nested_elements() {
    assert_eq!((), HtmlParser::parse("<div><div></div></div>", false).unwrap());
}
#[test]
fn it_can_parse_open_element_attribute_double_quote() {
    assert_eq!((), HtmlParser::parse("<div id=\"one\"></div>", false).unwrap());
}
#[test]
fn tests_it_can_parse_closed_element_attribute_double_quote() {
    assert_eq!((), HtmlParser::parse("<img alt=\"cat\" />", false).unwrap());
}
#[test]
fn it_can_parse_open_element_attribute_single_quote() {
    assert_eq!((), HtmlParser::parse("<div id='one'></div>", false).unwrap());
}
#[test]
fn tests_it_can_parse_closed_element_attribute_single_quote() {
    assert_eq!((), HtmlParser::parse("<img alt='cat'/>", false).unwrap());
}
#[test]
fn tests_it_can_parse_multiple_attributes_single_quote() {
    assert_eq!((), HtmlParser::parse("<img alt='cat bog sheep-123'/>", false).unwrap());
}
#[test]
fn tests_it_can_parse_multiple_attributes_double_quote() {
    assert_eq!((), HtmlParser::parse("<img alt=\"cat bog sheep-123\"/>", false).unwrap());
}
#[test]
fn tests_it_can_parse_empty_attributes() {
    assert_eq!((), HtmlParser::parse("<img hidden/>", false).unwrap());
}
#[test]
fn tests_it_can_parse_nested_elements_comments_text() {
    assert_eq!(
        (),
        HtmlParser::parse("<p id='body'><i>hello</i><!--x-->world</p>", false).unwrap()
    );
}
#[test]
fn tests_it_can_parse_nested_and_indented() {
    let markup = "<p id='body'>\n    <i>hello</i>\n    <!--x-->\n    world\n</p>\n";
    assert_eq!((), HtmlParser::parse(markup, false).unwrap());
}
#[test]
fn tests_it_can_parse_deeply_nested() {
    assert!(ok(DEEP));
}
#[test]
fn tests_it_can_parse_script_with_content() {
    assert!(ok(SCRIPT));
}
#[test]
fn tests_it_can_parse_style_with_content() {
    assert!(ok(STYLE));
}

#[test]
fn it_errors_when_element_name_dont_match() {
    assert!(HtmlParser::parse("<html></div>", false).is_err());
}
#[test]
fn websites_it_can_parse_simple_html_page() {
    assert_eq!((), HtmlParser::parse(SIMPLE_PAGE, false).unwrap());
}
#[test]
fn element_it_can_parse_simple_html_page() {
    assert_eq!((), HtmlParser::parse(SIMPLE_PAGE, false).unwrap());
}
#[test]
fn strict_parse_reports_where_it_stopped() {
    let e = HtmlParser::parse("<p>a\nb <c</p>", false).unwrap_err();
    assert_eq!(e.message(), "Failed to parse the markup at line 1, column 1");
    let e = HtmlParser::parse("<!--x-->\n<b>", false).unwrap_err();
    assert_eq!(e.message(), "Failed to parse the markup at line 2, column 1");
}

const DEEP: &str = "<div class='1'>\n    <div class='1'>\n        <div class='1'>\n            <div class='1'>\n                <div class='1'>\n                    <div class='1'>\n                        <div class='1'>\n                            <div class='1'>\n                                <!--this is deep-->\n                                hello world\n                            </div>\n                        </div>\n                    </div>\n                </div> \n            </div>\n        </div>\n    </div>\n</div>\n";

const SCRIPT: &str = "<script>\n    const person_creator = ({ name, symtoms }) => {\n        let person = {}\n        person.name = name\n        person.symtoms = {}\n        for (symtom of symtoms) {\n            person.symtoms[symtom] = true\n        }\n        return person\n    }\n    \n    const main = () => {\n        let name = 'mathias'\n        let symtoms = ['Dunning-Kruger', 'ACDC', 'Slacker']\n    \n        setTimeout(() => {\n            let person = person_creator({ name, symtoms })\n            if (person.symtoms.hasOwnProperty('Dunning-Kruger')) {\n                console.log('yeah buddy, that\\'s right')\n            }\n        }, 1337)\n    }\n    \n    main()\n</script>\n";

const STYLE: &str = "<style>\n    :root {\n        --background-color: black;\n        --text-color: white;\n    }\n    body {\n        background: var(--background-color);\n        color: var(--text-color);\n    }\n</style>\n";

const SIMPLE_PAGE: &str = "<!DOCTYPE html>\n<html lang=\"en\">\n    <head>\n        <meta charset=\"UTF-8\">\n        <meta name=\"viewport\" content=\"width=device-width, initial-scale=1.0\">\n        <title>Document</title>\n        <style>\n            body {\n                background: black;\n            }\n    \n            h1 {\n                color: white;\n            }\n        </style>\n    </head>\n    <body>\n        <h1>Hello world</h1>\n        <!-- There should be more text here -->\n        <script>\n            const title = document.querySelector(\"h1\")\n            title.innerText = \"Hello from script\"\n        </script>\n    </body>\n</html>        \n";
