use web_api_cat::document::{build, Page};
use web_api_cat::markup::parse_page;

fn load(html: &str) -> Page {
    build(&parse_page(html))
}

fn element(page: &Page, id: &str) -> usize {
    page.get_element_by_id(id).expect("element with that id")
}

#[test]
fn style_is_an_object_on_parsed_element() {
    let page = load("<html><body><div id='host'></div></body></html>");
    let host = element(&page, "host");
    assert_eq!(page.dom.elements[host].style.len(), 0);
}

#[test]
fn style_property_assignment_round_trips() {
    let mut page = load("<html><body><div id='host'></div></body></html>");
    let host = element(&page, "host");
    page.dom.set_style_property(host, "color", "red");
    assert_eq!(page.dom.style_property(host, "color").as_deref(), Some("red"));
}

#[test]
fn multiple_style_properties_coexist() {
    let mut page = load("<html><body><div id='host'></div></body></html>");
    let host = element(&page, "host");
    page.dom.set_style_property(host, "color", "red");
    page.dom.set_style_property(host, "display", "none");
    let c = page.dom.style_property(host, "color").unwrap_or_default();
    let d = page.dom.style_property(host, "display").unwrap_or_default();
    assert_eq!(format!("{c},{d}"), "red,none");
}

#[test]
fn style_unset_property_is_undefined() {
    let page = load("<html><body><div id='host'></div></body></html>");
    let host = element(&page, "host");
    assert_eq!(page.dom.style_property(host, "color"), None);
}

#[test]
fn style_works_on_created_element() {
    let mut page = load("<html><body></body></html>");
    let el = page.create_element("p");
    page.dom.set_style_property(el, "fontSize", "14px");
    assert_eq!(page.dom.style_property(el, "fontSize").as_deref(), Some("14px"));
}

#[test]
fn style_objects_are_per_element_not_shared() {
    let mut page = load("<html><body><div id='a'></div><div id='b'></div></body></html>");
    let a = element(&page, "a");
    let b = element(&page, "b");
    page.dom.set_style_property(a, "color", "red");
    page.dom.set_style_property(b, "color", "blue");
    let ca = page.dom.style_property(a, "color").unwrap_or_default();
    let cb = page.dom.style_property(b, "color").unwrap_or_default();
    assert_eq!(format!("{ca},{cb}"), "red,blue");
}

#[test]
fn replacing_the_style_drops_properties_a_script_deleted() {
    let mut page = load("<html><body><div id='host' style='color: red; margin: 0'></div></body></html>");
    let host = element(&page, "host");
    assert_eq!(page.dom.style_property(host, "margin").as_deref(), Some("0"));
    let pairs = vec![("color".to_owned(), "blue".to_owned()), ("fontSize".to_owned(), "9px".to_owned())];
    page.dom.replace_style(host, &pairs);
    assert_eq!(page.dom.style_property(host, "color").as_deref(), Some("blue"));
    assert_eq!(page.dom.style_property(host, "fontSize").as_deref(), Some("9px"));
    assert_eq!(page.dom.style_property(host, "margin"), None);
    assert_eq!(page.dom.elements[host].style.len(), 2);
}
