use web_api_cat::document::{build, Page};
use web_api_cat::markup::parse_page;

fn load(html: &str) -> Page {
    build(&parse_page(html))
}

fn element(page: &Page, id: &str) -> usize {
    page.get_element_by_id(id).expect("element with that id")
}

fn child_tags(page: &Page, parent: usize) -> String {
    page.dom.elements[parent]
        .children
        .iter()
        .map(|&c| page.dom.elements[c].tag_name.clone())
        .collect()
}

#[test]
fn replace_child_returns_old_child() {
    let mut page = load("<html><body><div id='host'><span id='old'>x</span></div></body></html>");
    let host = element(&page, "host");
    let old = element(&page, "old");
    let fresh = page.create_element("a");
    let r = page.dom.replace_child(host, fresh, old);
    assert_eq!(page.dom.elements[r].tag_name, "span");
}

#[test]
fn replace_child_swaps_in_place() {
    let mut page = load("<html><body><div id='host'><span id='old'>x</span></div></body></html>");
    let host = element(&page, "host");
    let old = element(&page, "old");
    let fresh = page.create_element("a");
    page.dom.replace_child(host, fresh, old);
    assert_eq!(child_tags(&page, host), "a");
}

#[test]
fn replace_child_preserves_length() {
    let mut page = load("<html><body><div id='host'><a>1</a><b>2</b><c>3</c></div></body></html>");
    let host = element(&page, "host");
    let second = page.dom.elements[host].children[1];
    let fresh = page.create_element("z");
    page.dom.replace_child(host, fresh, second);
    assert_eq!(page.dom.elements[host].children.len(), 3);
}

#[test]
fn replace_child_keeps_siblings_at_their_indexes() {
    let mut page = load("<html><body><div id='host'><a>1</a><b>2</b><c>3</c></div></body></html>");
    let host = element(&page, "host");
    let middle = page.dom.elements[host].children[1];
    let fresh = page.create_element("z");
    page.dom.replace_child(host, fresh, middle);
    assert_eq!(child_tags(&page, host), "azc");
}

#[test]
fn replace_child_noop_on_non_child() {
    let mut page = load("<html><body><div id='host'><span>x</span></div></body></html>");
    let host = element(&page, "host");
    let stranger = page.create_element("p");
    let fresh = page.create_element("z");
    page.dom.replace_child(host, fresh, stranger);
    assert_eq!(child_tags(&page, host), "span");
}

#[test]
fn replace_child_works_on_created_element() {
    let mut page = load("<html><body></body></html>");
    let host = page.create_element("div");
    let old_child = page.create_element("span");
    page.dom.append_child(host, old_child);
    let fresh = page.create_element("p");
    page.dom.replace_child(host, fresh, old_child);
    assert_eq!(child_tags(&page, host), "p");
}
