use web_api_cat::document::{build, Page};
use web_api_cat::markup::parse_page;

fn load(html: &str) -> Page {
    build(&parse_page(html))
}

fn element(page: &Page, id: &str) -> usize {
    page.get_element_by_id(id).expect("element with that id")
}

#[test]
fn outer_html_includes_own_tag_for_leaf() {
    let page = load("<html><body><span id='host'>hi</span></body></html>");
    let host = element(&page, "host");
    assert_eq!(page.dom.outer_html(host), "<span id=\"host\">hi</span>");
}

#[test]
fn outer_html_recurses_for_children() {
    let page = load("<html><body><div id='host'><a>x</a><b>y</b></div></body></html>");
    let host = element(&page, "host");
    assert_eq!(page.dom.outer_html(host), "<div id=\"host\"><a>x</a><b>y</b></div>");
}

#[test]
fn outer_html_setter_is_a_noop() {
    let page = load("<html><body><div id='host'><a>x</a></div></body></html>");
    let host = element(&page, "host");
    let first = page.dom.elements[host].children[0];
    assert_eq!(page.dom.elements[first].tag_name, "a");
}

#[test]
fn outer_html_works_on_created_element() {
    let mut page = load("<html><body></body></html>");
    let el = page.create_element("p");
    page.dom.set_attribute(el, "id", "src");
    assert_eq!(page.dom.outer_html(el), "<p id=\"src\"></p>");
}
