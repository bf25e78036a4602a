use web_api_cat::document::{build, Page};
use web_api_cat::extract::{ExtractedElement, ExtractedNode};
use web_api_cat::inline_style::{camel_to_kebab, capitalize_first, kebab_to_camel, parse_inline_style, serialize_inline_style};
use web_api_cat::markup::parse_page;

fn load(html: &str) -> Page {
    build(&parse_page(html))
}

fn element(page: &Page, id: &str) -> usize {
    page.get_element_by_id(id).expect("element with that id")
}

fn find<'a>(e: &'a ExtractedElement, tag: &str) -> Option<&'a ExtractedElement> {
    if e.name.eq_ignore_ascii_case(tag) {
        return Some(e);
    }
    e.children.iter().find_map(|c| match c {
        ExtractedNode::ElementNode(x) => find(x, tag),
        ExtractedNode::TextNode(_) => None,
    })
}

fn style_attribute(e: &ExtractedElement) -> Option<&str> {
    e.attributes.iter().find(|(name, _)| name.eq_ignore_ascii_case("style")).map(|(_, v)| v.as_str())
}

#[test]
fn parsed_style_attribute_populates_style_object_camelcase() {
    let page = load("<html><body><div id='host' style='color: red'></div></body></html>");
    let host = element(&page, "host");
    assert_eq!(page.dom.style_property(host, "color").as_deref(), Some("red"));
}

#[test]
fn parsed_style_kebab_attribute_becomes_camelcase_property() {
    let page = load("<html><body><div id='host' style='font-size: 14px'></div></body></html>");
    let host = element(&page, "host");
    assert_eq!(page.dom.style_property(host, "fontSize").as_deref(), Some("14px"));
}

#[test]
fn parsed_style_multiple_declarations() {
    let page = load("<html><body><div id='host' style='color: red; padding: 5px'></div></body></html>");
    let host = element(&page, "host");
    let c = page.dom.style_property(host, "color").unwrap_or_default();
    let p = page.dom.style_property(host, "padding").unwrap_or_default();
    assert_eq!(format!("{c},{p}"), "red,5px");
}

#[test]
fn parsed_style_tolerates_whitespace_and_trailing_semicolon() {
    let page = load("<html><body><div id='host' style='  color :  red ; '></div></body></html>");
    let host = element(&page, "host");
    assert_eq!(page.dom.style_property(host, "color").as_deref(), Some("red"));
}

#[test]
fn parsed_style_compound_property_round_trip() {
    let page = load("<html><body><div id='host' style='border-bottom-color: blue'></div></body></html>");
    let host = element(&page, "host");
    assert_eq!(page.dom.style_property(host, "borderBottomColor").as_deref(), Some("blue"));
}

#[test]
fn extract_serializes_style_object_back_to_kebab() {
    let mut page = load("<html><body><div id='host'></div></body></html>");
    let host = element(&page, "host");
    page.dom.set_style_property(host, "color", "red");
    page.dom.set_style_property(host, "fontSize", "14px");
    let root = page.extract();
    let div = find(&root, "div").expect("a div");
    let style = style_attribute(div).expect("a style attribute");
    assert!(style.contains("color: red"));
    assert!(style.contains("font-size: 14px"));
}

#[test]
fn extract_drops_style_attribute_when_style_object_is_empty() {
    let page = load("<html><body><div id='host'></div></body></html>");
    let root = page.extract();
    let div = find(&root, "div").expect("a div");
    assert!(style_attribute(div).is_none());
}

#[test]
fn extract_preserves_parsed_style_through_round_trip() {
    let page = load("<html><body><div id='host' style='color: red'></div></body></html>");
    let root = page.extract();
    let div = find(&root, "div").expect("a div");
    assert_eq!(style_attribute(div), Some("color: red"));
}

#[test]
fn extract_reflects_js_overwrites_of_parsed_style() {
    let mut page = load("<html><body><div id='host' style='color: red'></div></body></html>");
    let host = element(&page, "host");
    page.dom.set_style_property(host, "color", "blue");
    let root = page.extract();
    let div = find(&root, "div").expect("a div");
    assert_eq!(style_attribute(div), Some("color: blue"));
}

#[test]
fn extract_appends_new_style_props_to_existing_parse() {
    let mut page = load("<html><body><div id='host' style='color: red'></div></body></html>");
    let host = element(&page, "host");
    page.dom.set_style_property(host, "padding", "5px");
    let root = page.extract();
    let div = find(&root, "div").expect("a div");
    let style = style_attribute(div).expect("a style attribute");
    assert!(style.contains("color: red"));
    assert!(style.contains("padding: 5px"));
}

#[test]
fn inline_style_functions_on_plain_strings() {
    assert_eq!(
        parse_inline_style("color: red; ; BACKGROUND-Color : a:b ;no-colon"),
        vec![("color".to_owned(), "red".to_owned()), ("backgroundColor".to_owned(), "a:b".to_owned())]
    );
    assert_eq!(
        serialize_inline_style(&[("fontSize".to_owned(), "1px".to_owned()), ("color".to_owned(), "red".to_owned())]),
        "font-size: 1px; color: red"
    );
    assert_eq!(serialize_inline_style(&[]), "");
    assert_eq!(kebab_to_camel("border-TOP-width"), "borderTopWidth");
    assert_eq!(kebab_to_camel("-webkit-x"), "WebkitX");
    assert_eq!(camel_to_kebab("WebkitTransform"), "webkit-transform");
    assert_eq!(capitalize_first("hELLO"), "Hello");
    assert_eq!(capitalize_first(""), "");
}

#[test]
fn serialized_style_parses_back_to_the_same_declarations() {
    let props = vec![
        ("fontSize".to_owned(), "14px".to_owned()),
        ("backgroundImage".to_owned(), "url(http://x/y.png)".to_owned()),
        ("color".to_owned(), String::new()),
        ("borderTopLeftRadius".to_owned(), "2px 3px".to_owned()),
    ];
    assert_eq!(parse_inline_style(&serialize_inline_style(&props)), props);
    for name in ["fontSize", "a", "zIndex", "borderTopLeftRadius"] {
        assert_eq!(kebab_to_camel(&camel_to_kebab(name)), name);
    }
}

#[test]
fn leading_capital_does_not_survive_kebab_round_trip() {
    // A name with a capital in front is outside the round-trip law.
    assert_eq!(kebab_to_camel(&camel_to_kebab("WebkitTransform")), "webkitTransform");
}

#[test]
fn kebab_names_survive_camel_round_trip() {
    for name in ["border-top-left-radius", "z-index", "color", "h1-x2", "grid-row2"] {
        assert_eq!(camel_to_kebab(&kebab_to_camel(name)), name);
    }
    // A segment that starts with a digit is outside the round-trip law.
    assert_eq!(camel_to_kebab(&kebab_to_camel("grid-row-2")), "grid-row2");
}
