use web_api_cat::document::{build, Page};
use web_api_cat::markup::parse_page;

fn load(html: &str) -> Page {
    build(&parse_page(html))
}

fn element(page: &Page, id: &str) -> usize {
    page.get_element_by_id(id).expect("element with that id")
}

fn id_of(page: &Page, el: Option<usize>) -> String {
    el.map(|i| page.dom.elements[i].id.clone()).unwrap_or_default()
}

#[test]
fn input_value_getter_reflects_attribute() {
    let page = load("<html><body><input id='host' value='initial'/></body></html>");
    let host = element(&page, "host");
    assert_eq!(page.dom.value(host), "initial");
}

#[test]
fn input_value_getter_empty_when_attribute_missing() {
    let page = load("<html><body><input id='host'/></body></html>");
    let host = element(&page, "host");
    assert_eq!(page.dom.value(host), "");
}

#[test]
fn input_value_setter_round_trips() {
    let mut page = load("<html><body><input id='host' value='before'/></body></html>");
    let host = element(&page, "host");
    page.dom.set_value(host, "after");
    assert_eq!(page.dom.value(host), "after");
}

#[test]
fn input_value_setter_updates_get_attribute() {
    let mut page = load("<html><body><input id='host' value='before'/></body></html>");
    let host = element(&page, "host");
    page.dom.set_value(host, "after");
    assert_eq!(page.dom.get_attribute(host, "value").as_deref(), Some("after"));
}

#[test]
fn input_checked_getter_reflects_attribute_presence() {
    let page = load(
        "<html><body>
            <input id='on' type='checkbox' checked/>
            <input id='off' type='checkbox'/>
        </body></html>",
    );
    let on = element(&page, "on");
    let off = element(&page, "off");
    assert!(page.dom.checked(on) && !page.dom.checked(off));
}

#[test]
fn input_checked_setter_adds_and_removes_attribute() {
    let mut page = load("<html><body><input id='host' type='checkbox'/></body></html>");
    let host = element(&page, "host");
    page.dom.set_checked(host, true);
    let after_on = page.dom.has_attribute(host, "checked");
    page.dom.set_checked(host, false);
    let after_off = page.dom.has_attribute(host, "checked");
    assert!(after_on && !after_off);
}

#[test]
fn checked_pseudo_class_via_query_selector() {
    let page = load(
        "<html><body>
            <input type='checkbox'/>
            <input id='want' type='checkbox' checked/>
            <input type='checkbox'/>
        </body></html>",
    );
    assert_eq!(id_of(&page, page.query_selector(":checked")), "want");
}

#[test]
fn checked_pseudo_class_via_query_selector_all() {
    let page = load(
        "<html><body>
            <input type='checkbox' checked/>
            <input type='checkbox'/>
            <input type='checkbox' checked/>
            <input type='radio' checked/>
        </body></html>",
    );
    assert_eq!(page.dom.query_selector_all(page.root, ":checked").len(), 3);
}

#[test]
fn checked_pseudo_class_combines_with_tag_and_attribute() {
    let page = load(
        "<html><body>
            <input type='checkbox' checked/>
            <input id='want' type='radio' checked name='group'/>
            <input type='radio' name='group'/>
        </body></html>",
    );
    assert_eq!(id_of(&page, page.query_selector("input[type=radio]:checked")), "want");
}

#[test]
fn checked_pseudo_class_updates_after_setter() {
    let mut page = load(
        "<html><body>
            <input id='a' type='checkbox'/>
            <input id='b' type='checkbox'/>
        </body></html>",
    );
    let b = element(&page, "b");
    page.dom.set_checked(b, true);
    assert_eq!(id_of(&page, page.query_selector(":checked")), "b");
}

#[test]
fn checked_pseudo_class_combines_with_not() {
    let page = load(
        "<html><body>
            <input id='want' type='checkbox'/>
            <input type='checkbox' checked/>
        </body></html>",
    );
    assert_eq!(id_of(&page, page.query_selector("input:not(:checked)")), "want");
}

#[test]
fn matches_with_checked_pseudo_class() {
    let page = load(
        "<html><body>
            <input id='on' type='checkbox' checked/>
            <input id='off' type='checkbox'/>
        </body></html>",
    );
    let on = element(&page, "on");
    let off = element(&page, "off");
    assert!(page.dom.matches(on, ":checked") && !page.dom.matches(off, ":checked"));
}
