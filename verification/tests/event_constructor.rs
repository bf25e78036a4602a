use web_api_cat::document::{build, Page};
use web_api_cat::event::{Dispatch, Event, ListenerTable};
use web_api_cat::markup::parse_page;

fn load(html: &str) -> Page {
    build(&parse_page(html))
}

fn element(page: &Page, id: &str) -> usize {
    page.get_element_by_id(id).expect("element with that id")
}

#[test]
fn new_event_returns_object_with_type() {
    let e = Event::new("click", false, false, false);
    assert_eq!(e.event_type, "click");
}

#[test]
fn new_event_defaults_bubbles_cancelable_composed_to_false() {
    let e = Event::new("click", false, false, false);
    assert!(!e.bubbles && !e.cancelable && !e.composed);
}

#[test]
fn new_event_honours_bubbles_option() {
    assert!(Event::new("click", true, false, false).bubbles);
}

#[test]
fn new_event_honours_cancelable_option() {
    assert!(Event::new("click", false, true, false).cancelable);
}

#[test]
fn new_event_default_prevented_starts_false() {
    let e = Event::new("click", false, false, false);
    assert!(!e.default_prevented);
    assert_eq!(e.target, None);
    assert_eq!(e.current_target, None);
}

#[test]
fn dispatching_new_event_fires_listeners() {
    let page = load("<html><body><div id='host'></div></body></html>");
    let host = element(&page, "host");
    let mut table = ListenerTable::new();
    table.add_event_listener(host, "click", 1, false);
    let mut d = Dispatch::begin(&page.dom, Event::new("click", false, false, false), host);
    let mut count = 0;
    while let Some((_level, callback)) = d.next_call(&table) {
        if callback == 1 {
            count += 1;
        }
    }
    assert_eq!(count, 1);
}

#[test]
fn user_reference_sees_default_prevented_after_dispatch() {
    let page = load("<html><body><div id='host'></div></body></html>");
    let host = element(&page, "host");
    let mut table = ListenerTable::new();
    table.add_event_listener(host, "click", 1, false);
    let mut d = Dispatch::begin(&page.dom, Event::new("click", false, false, false), host);
    while let Some((_level, _callback)) = d.next_call(&table) {
        d.event.prevent_default();
    }
    assert!(d.event.default_prevented);
}

#[test]
fn user_reference_sees_target_after_dispatch() {
    let page = load("<html><body><div id='host'>x</div></body></html>");
    let host = element(&page, "host");
    let table = ListenerTable::new();
    let mut d = Dispatch::begin(&page.dom, Event::new("click", false, false, false), host);
    while d.next_call(&table).is_some() {}
    let target = d.event.target.expect("a target");
    assert!(page.dom.elements[target].tag_name.eq_ignore_ascii_case("div"));
}

#[test]
fn dispatch_resets_default_prevented_at_entry() {
    let page = load("<html><body><div id='host'></div></body></html>");
    let host = element(&page, "host");
    let mut table = ListenerTable::new();
    table.add_event_listener(host, "click", 1, false);
    let mut e = Event::new("click", false, false, false);
    e.prevent_default();
    let before = e.default_prevented;
    let mut d = Dispatch::begin(&page.dom, e, host);
    while d.next_call(&table).is_some() {}
    let after = d.event.default_prevented;
    assert!(before && !after);
}

#[test]
fn new_event_object_has_method_bindings() {
    let mut e = Event::new("click", false, false, false);
    e.prevent_default();
    e.stop_propagation();
    assert!(e.default_prevented && e.propagation_stopped && !e.immediate_stopped);
    e.stop_immediate_propagation();
    assert!(e.propagation_stopped && e.immediate_stopped);
}

#[test]
fn a_listener_added_during_a_level_fires_from_a_later_level_on() {
    let page = load("<html><body><div id='parent'><span id='child'>x</span></div></body></html>");
    let child = element(&page, "child");
    let parent = element(&page, "parent");
    let mut table = ListenerTable::new();
    table.add_event_listener(child, "click", 1, false);
    let mut d = Dispatch::begin(&page.dom, Event::new("click", false, false, false), child);
    let mut calls = Vec::new();
    while let Some((level, callback)) = d.next_call(&table) {
        calls.push((level, callback));
        if callback == 1 {
            table.add_event_listener(child, "click", 2, false);
            table.add_event_listener(parent, "click", 3, false);
        }
    }
    assert_eq!(calls, vec![(child, 1), (parent, 3)]);
}
