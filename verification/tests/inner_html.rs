use web_api_cat::document::{build, Page};
use web_api_cat::inner_html::{escape_attribute, escape_attribute_char, escape_text, escape_text_char};
use web_api_cat::markup::parse_page;

fn load(html: &str) -> Page {
    build(&parse_page(html))
}

fn element(page: &Page, id: &str) -> usize {
    page.get_element_by_id(id).expect("element with that id")
}

#[test]
fn inner_html_get_serializes_single_child() {
    let page = load("<html><body><div id='host'><span>hi</span></div></body></html>");
    let host = element(&page, "host");
    assert_eq!(page.dom.inner_html(host), "<span>hi</span>");
}

#[test]
fn inner_html_get_serializes_multiple_children_in_order() {
    let page = load("<html><body><div id='host'><a>x</a><b>y</b><c>z</c></div></body></html>");
    let host = element(&page, "host");
    assert_eq!(page.dom.inner_html(host), "<a>x</a><b>y</b><c>z</c>");
}

#[test]
fn inner_html_get_includes_attributes() {
    let page = load("<html><body><div id='host'><a href='/x' id='link'>go</a></div></body></html>");
    let host = element(&page, "host");
    let s = page.dom.inner_html(host);
    assert!(s.contains(" href=\"/x\""));
    assert_eq!(s, "<a href=\"/x\" id=\"link\">go</a>");
}

#[test]
fn inner_html_get_escapes_text_content() {
    let mut page = load("<html><body><div id='host'></div></body></html>");
    let host = element(&page, "host");
    page.dom.set_text_content(host, "<script>x</script>");
    assert_eq!(page.dom.inner_html(host), "&lt;script&gt;x&lt;/script&gt;");
}

#[test]
fn inner_html_get_on_leaf_uses_text_content() {
    let page = load("<html><body><div id='host'>plain text</div></body></html>");
    let host = element(&page, "host");
    assert_eq!(page.dom.inner_html(host), "plain text");
}

#[test]
fn inner_html_set_replaces_children_with_parsed_fragment() {
    let mut page = load("<html><body><div id='host'><span>old</span></div></body></html>");
    let host = element(&page, "host");
    page.dom.set_inner_html(host, "<p>new</p>");
    let first = page.dom.elements[host].children[0];
    assert_eq!(page.dom.elements[first].tag_name, "p");
}

#[test]
fn inner_html_set_updates_children_length() {
    let mut page = load("<html><body><div id='host'><span>old</span></div></body></html>");
    let host = element(&page, "host");
    page.dom.set_inner_html(host, "<a>1</a><b>2</b><c>3</c>");
    assert_eq!(page.dom.elements[host].children.len(), 3);
}

#[test]
fn inner_html_set_empty_string_clears_children() {
    let mut page = load("<html><body><div id='host'><span>a</span><span>b</span></div></body></html>");
    let host = element(&page, "host");
    page.dom.set_inner_html(host, "");
    assert_eq!(page.dom.elements[host].children.len(), 0);
}

#[test]
fn inner_html_round_trip_through_set_and_get() {
    let mut page = load("<html><body><div id='host'></div></body></html>");
    let host = element(&page, "host");
    page.dom.set_inner_html(host, "<p>round</p>");
    assert_eq!(page.dom.inner_html(host), "<p>round</p>");
}

#[test]
fn inner_html_works_on_created_element() {
    let mut page = load("<html><body></body></html>");
    let el = page.create_element("div");
    page.dom.set_inner_html(el, "<span>x</span>");
    let first = page.dom.elements[el].children[0];
    assert_eq!(page.dom.elements[first].tag_name, "span");
}

#[test]
fn escaping_text_and_attribute_characters() {
    assert_eq!(escape_text_char('<'), "&lt;");
    assert_eq!(escape_text_char('>'), "&gt;");
    assert_eq!(escape_text_char('&'), "&amp;");
    assert_eq!(escape_text_char('"'), "\"");
    assert_eq!(escape_attribute_char('"'), "&quot;");
    assert_eq!(escape_attribute_char('x'), "x");
    assert_eq!(escape_text("a<b & \"c\""), "a&lt;b &amp; \"c\"");
    assert_eq!(escape_attribute("a<b & \"c\""), "a&lt;b &amp; &quot;c&quot;");
}

#[test]
fn attribute_values_are_escaped_in_markup() {
    let mut page = load("<html><body><div id='host'></div></body></html>");
    let host = element(&page, "host");
    let a = page.create_element("a");
    page.dom.set_attribute(a, "title", "say \"hi\" & <go>");
    page.dom.append_child(host, a);
    assert_eq!(page.dom.inner_html(host), "<a title=\"say &quot;hi&quot; &amp; &lt;go&gt;\"></a>");
}
