use web_api_cat::document::{build, Page};
use web_api_cat::markup::parse_page;

fn load(html: &str) -> Page {
    build(&parse_page(html))
}

fn element(page: &Page, id: &str) -> usize {
    page.get_element_by_id(id).expect("element with that id")
}

#[test]
fn class_list_contains_reads_parsed_class_attribute() {
    let page = load("<html><body><div id='host' class='alpha beta'></div></body></html>");
    let host = element(&page, "host");
    assert!(page.dom.class_list_contains(host, "alpha"));
}

#[test]
fn class_list_contains_returns_false_for_missing_token() {
    let page = load("<html><body><div id='host' class='alpha'></div></body></html>");
    let host = element(&page, "host");
    assert!(!page.dom.class_list_contains(host, "beta"));
}

#[test]
fn class_list_add_updates_class_name() {
    let mut page = load("<html><body><div id='host' class='alpha'></div></body></html>");
    let host = element(&page, "host");
    page.dom.class_list_add(host, "beta");
    assert_eq!(page.dom.elements[host].class_name, "alpha beta");
}

#[test]
fn class_list_add_does_not_duplicate_existing_token() {
    let mut page = load("<html><body><div id='host' class='alpha'></div></body></html>");
    let host = element(&page, "host");
    page.dom.class_list_add(host, "alpha");
    assert_eq!(page.dom.elements[host].class_name, "alpha");
}

#[test]
fn class_list_remove_drops_token_and_updates_get_attribute() {
    let mut page = load("<html><body><div id='host' class='alpha beta gamma'></div></body></html>");
    let host = element(&page, "host");
    page.dom.class_list_remove(host, "beta");
    assert_eq!(page.dom.get_attribute(host, "class").as_deref(), Some("alpha gamma"));
}

#[test]
fn class_list_toggle_adds_missing_token_and_returns_true() {
    let mut page = load("<html><body><div id='host' class='alpha'></div></body></html>");
    let host = element(&page, "host");
    assert!(page.dom.class_list_toggle(host, "beta"));
}

#[test]
fn class_list_toggle_removes_existing_token_and_returns_false() {
    let mut page = load("<html><body><div id='host' class='alpha beta'></div></body></html>");
    let host = element(&page, "host");
    assert!(!page.dom.class_list_toggle(host, "alpha"));
}

#[test]
fn class_list_works_on_created_element() {
    let mut page = load("<html><body></body></html>");
    let el = page.create_element("span");
    page.dom.class_list_add(el, "one");
    page.dom.class_list_add(el, "two");
    assert_eq!(page.dom.elements[el].class_name, "one two");
}

#[test]
fn class_list_add_then_remove_leaves_other_tokens() {
    let mut page = load("<html><body><div id='host' class='  a   b  '></div></body></html>");
    let host = element(&page, "host");
    page.dom.class_list_add(host, "c");
    assert!(page.dom.class_list_contains(host, "c"));
    page.dom.class_list_remove(host, "c");
    assert!(!page.dom.class_list_contains(host, "c"));
    assert!(page.dom.class_list_contains(host, "a"));
    assert!(page.dom.class_list_contains(host, "b"));
    assert_eq!(page.dom.elements[host].class_name, "a b");
}

#[test]
fn class_list_toggle_twice_reports_presence_each_time() {
    let mut page = load("<html><body><div id='host'></div></body></html>");
    let host = element(&page, "host");
    assert!(page.dom.class_list_toggle(host, "x"));
    assert!(page.dom.class_list_contains(host, "x"));
    assert!(!page.dom.class_list_toggle(host, "x"));
    assert!(!page.dom.class_list_contains(host, "x"));
}
