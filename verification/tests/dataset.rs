use web_api_cat::document::{build, Page};
use web_api_cat::markup::parse_page;

fn load(html: &str) -> Page {
    build(&parse_page(html))
}

fn element(page: &Page, id: &str) -> usize {
    page.get_element_by_id(id).expect("element with that id")
}

#[test]
fn single_segment_data_attribute_reachable_via_dataset() {
    let page = load("<html><body><div id='host' data-foo='bar'></div></body></html>");
    let host = element(&page, "host");
    assert_eq!(page.dom.dataset_value(host, "foo").as_deref(), Some("bar"));
}

#[test]
fn two_segment_data_attribute_camelcases() {
    let page = load("<html><body><div id='host' data-user-name='alice'></div></body></html>");
    let host = element(&page, "host");
    assert_eq!(page.dom.dataset_value(host, "userName").as_deref(), Some("alice"));
}

#[test]
fn three_segment_data_attribute_camelcases() {
    let page = load("<html><body><div id='host' data-user-profile-id='42'></div></body></html>");
    let host = element(&page, "host");
    assert_eq!(page.dom.dataset_value(host, "userProfileId").as_deref(), Some("42"));
}

#[test]
fn multiple_data_attributes_coexist_in_dataset() {
    let page = load(
        "<html><body><div id='host' data-id='1' data-name='alice' data-role='admin'></div></body></html>",
    );
    let host = element(&page, "host");
    let id = page.dom.dataset_value(host, "id").unwrap_or_default();
    let name = page.dom.dataset_value(host, "name").unwrap_or_default();
    let role = page.dom.dataset_value(host, "role").unwrap_or_default();
    assert_eq!(format!("{id},{name},{role}"), "1,alice,admin");
}

#[test]
fn non_data_attributes_are_excluded_from_dataset() {
    let page = load(
        "<html><body><div id='host' class='foo' style='color: red' data-x='y'></div></body></html>",
    );
    let host = element(&page, "host");
    assert_eq!(page.dom.dataset_value(host, "class"), None);
    assert_eq!(page.dom.dataset_value(host, "style"), None);
    assert_eq!(page.dom.dataset_value(host, "x").as_deref(), Some("y"));
}

#[test]
fn bare_data_prefix_is_not_in_dataset() {
    let page = load("<html><body><div id='host' data='nope' data-foo='yes'></div></body></html>");
    let host = element(&page, "host");
    assert_eq!(page.dom.dataset_value(host, ""), None);
    assert_eq!(page.dom.dataset_value(host, "foo").as_deref(), Some("yes"));
}

#[test]
fn dataset_on_created_element_starts_empty() {
    let mut page = load("<html><body></body></html>");
    let el = page.create_element("div");
    assert_eq!(page.dom.elements[el].dataset.len(), 0);
}

#[test]
fn dataset_writes_round_trip_within_the_object() {
    let mut page = load("<html><body><div id='host'></div></body></html>");
    let host = element(&page, "host");
    page.dom.set_dataset_value(host, "newKey", "v");
    assert_eq!(page.dom.dataset_value(host, "newKey").as_deref(), Some("v"));
}

#[test]
fn dataset_objects_are_per_element_not_shared() {
    let page = load("<html><body><div id='a' data-x='ax'></div><div id='b' data-x='bx'></div></body></html>");
    let a = element(&page, "a");
    let b = element(&page, "b");
    let ax = page.dom.dataset_value(a, "x").unwrap_or_default();
    let bx = page.dom.dataset_value(b, "x").unwrap_or_default();
    assert_eq!(format!("{ax},{bx}"), "ax,bx");
}

#[test]
fn dataset_value_is_a_string_even_when_attribute_looks_numeric() {
    let page = load("<html><body><div id='host' data-count='42'></div></body></html>");
    let host = element(&page, "host");
    let v: Option<String> = page.dom.dataset_value(host, "count");
    assert_eq!(v.as_deref(), Some("42"));
}

#[test]
fn replacing_the_dataset_keeps_only_the_given_keys() {
    let mut page = load("<html><body><div id='host' data-a='1' data-b='2'></div></body></html>");
    let host = element(&page, "host");
    let pairs = vec![("b".to_owned(), "3".to_owned()), ("b".to_owned(), "4".to_owned())];
    page.dom.replace_dataset(host, &pairs);
    assert_eq!(page.dom.dataset_value(host, "a"), None);
    assert_eq!(page.dom.dataset_value(host, "b").as_deref(), Some("4"));
}
