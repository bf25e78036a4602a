use web_api_cat::document::{build, Page};
use web_api_cat::markup::parse_page;

fn load(html: &str) -> Page {
    build(&parse_page(html))
}

fn element(page: &Page, id: &str) -> usize {
    page.get_element_by_id(id).expect("element with that id")
}

#[test]
fn get_element_by_id_returns_element() {
    let page = load("<html><body><p id='greet'>hello</p></body></html>");
    let greet = element(&page, "greet");
    assert_eq!(page.dom.elements[greet].text_content, "hello");
}

#[test]
fn get_element_by_id_missing_returns_null() {
    let page = load("<html><body><p>hi</p></body></html>");
    assert_eq!(page.get_element_by_id("missing"), None);
}

#[test]
fn query_selector_tag() {
    let page = load("<html><body><span>x</span><p>y</p></body></html>");
    let p = page.query_selector("p").expect("a p");
    assert_eq!(page.dom.elements[p].text_content, "y");
}

#[test]
fn query_selector_class() {
    let page = load("<html><body><p class='a'>1</p><p class='b'>2</p></body></html>");
    let b = page.query_selector(".b").expect("a .b");
    assert_eq!(page.dom.elements[b].text_content, "2");
}

#[test]
fn element_tag_name_lowercased() {
    let page = load("<html><body><P id='p'>hi</P></body></html>");
    let p = element(&page, "p");
    assert_eq!(page.dom.elements[p].tag_name, "p");
}

#[test]
fn element_class_name() {
    let page = load("<html><body><p id='p' class='greeting big'>hi</p></body></html>");
    let p = element(&page, "p");
    assert_eq!(page.dom.elements[p].class_name, "greeting big");
}

#[test]
fn get_attribute_returns_value() {
    let page = load("<html><body><a id='link' href='https://example.com'>x</a></body></html>");
    let link = element(&page, "link");
    assert_eq!(page.dom.get_attribute(link, "href").as_deref(), Some("https://example.com"));
}

#[test]
fn get_attribute_missing_returns_null() {
    let page = load("<html><body><p id='p'>x</p></body></html>");
    let p = element(&page, "p");
    assert_eq!(page.dom.get_attribute(p, "missing"), None);
}

#[test]
fn has_attribute_true_false() {
    let page = load("<html><body><input id='i' disabled></body></html>");
    let i = element(&page, "i");
    assert!(page.dom.has_attribute(i, "disabled"));
    assert!(!page.dom.has_attribute(i, "checked"));
}

#[test]
fn set_attribute_round_trip() {
    let mut page = load("<html><body><p id='p'>x</p></body></html>");
    let p = element(&page, "p");
    page.dom.set_attribute(p, "data-x", "42");
    assert_eq!(page.dom.get_attribute(p, "data-x").as_deref(), Some("42"));
}

#[test]
fn body_alias_resolves() {
    let page = load("<html><body><p>x</p></body></html>");
    let body = page.body.expect("a body");
    assert_eq!(page.dom.elements[body].tag_name, "body");
}

#[test]
fn text_content_concatenates_descendant_text() {
    let page = load("<html><body><div id='d'>a<b>b<i>c</i></b><!-- skip -->d</div></body></html>");
    let d = element(&page, "d");
    assert_eq!(page.dom.elements[d].text_content, "abcd");
}

#[test]
fn set_attribute_id_and_class_are_mirrored() {
    let mut page = load("<html><body><p id='p'>x</p></body></html>");
    let p = element(&page, "p");
    page.dom.set_attribute(p, "id", "q");
    page.dom.set_attribute(p, "class", "k l");
    assert_eq!(page.dom.elements[p].id, "q");
    assert_eq!(page.dom.elements[p].class_name, "k l");
    assert_eq!(page.get_element_by_id("q"), Some(p));
    assert_eq!(page.get_element_by_id("p"), None);
}

#[test]
fn id_lookup_ignores_attribute_name_case() {
    let page = load("<html><body><p ID='upper'>x</p></body></html>");
    assert!(page.get_element_by_id("upper").is_some());
}
