use web_api_cat::document::{build, Page};
use web_api_cat::markup::parse_page;

fn load(html: &str) -> Page {
    build(&parse_page(html))
}

fn element(page: &Page, id: &str) -> usize {
    page.get_element_by_id(id).expect("element with that id")
}

fn tag(page: &Page, id: Option<usize>) -> Option<String> {
    id.map(|i| page.dom.elements[i].tag_name.clone())
}

#[test]
fn first_element_child_returns_first_child() {
    let page = load("<html><body><div id='host'><a>1</a><b>2</b><c>3</c></div></body></html>");
    let host = element(&page, "host");
    assert_eq!(tag(&page, page.dom.first_element_child(host)).as_deref(), Some("a"));
}

#[test]
fn first_element_child_is_null_when_no_children() {
    let page = load("<html><body><div id='host'></div></body></html>");
    let host = element(&page, "host");
    assert_eq!(page.dom.first_element_child(host), None);
}

#[test]
fn last_element_child_returns_last_child() {
    let page = load("<html><body><div id='host'><a>1</a><b>2</b><c>3</c></div></body></html>");
    let host = element(&page, "host");
    assert_eq!(tag(&page, page.dom.last_element_child(host)).as_deref(), Some("c"));
}

#[test]
fn last_element_child_is_null_when_no_children() {
    let page = load("<html><body><div id='host'></div></body></html>");
    let host = element(&page, "host");
    assert_eq!(page.dom.last_element_child(host), None);
}

#[test]
fn previous_element_sibling_returns_preceding_sibling() {
    let page = load("<html><body><div id='host'><a>1</a><b id='target'>2</b><c>3</c></div></body></html>");
    let target = element(&page, "target");
    assert_eq!(tag(&page, page.dom.previous_element_sibling(target)).as_deref(), Some("a"));
}

#[test]
fn previous_element_sibling_is_null_for_first_child() {
    let page = load("<html><body><div id='host'><a id='target'>1</a><b>2</b></div></body></html>");
    let target = element(&page, "target");
    assert_eq!(page.dom.previous_element_sibling(target), None);
}

#[test]
fn next_element_sibling_returns_following_sibling() {
    let page = load("<html><body><div id='host'><a>1</a><b id='target'>2</b><c>3</c></div></body></html>");
    let target = element(&page, "target");
    assert_eq!(tag(&page, page.dom.next_element_sibling(target)).as_deref(), Some("c"));
}

#[test]
fn next_element_sibling_is_null_for_last_child() {
    let page = load("<html><body><div id='host'><a>1</a><b id='target'>2</b></div></body></html>");
    let target = element(&page, "target");
    assert_eq!(page.dom.next_element_sibling(target), None);
}

#[test]
fn sibling_is_null_for_detached_element() {
    let mut page = load("<html><body></body></html>");
    let el = page.create_element("span");
    assert!(page.dom.previous_element_sibling(el).is_none() && page.dom.next_element_sibling(el).is_none());
}

#[test]
fn siblings_update_after_append_child() {
    let mut page = load("<html><body><div id='host'></div></body></html>");
    let host = element(&page, "host");
    let a = page.create_element("a");
    let b = page.create_element("b");
    page.dom.append_child(host, a);
    page.dom.append_child(host, b);
    let next = tag(&page, page.dom.next_element_sibling(a)).unwrap_or_default();
    let prev = tag(&page, page.dom.previous_element_sibling(b)).unwrap_or_default();
    assert_eq!(format!("{next},{prev}"), "b,a");
}
