use std::collections::HashMap;

use web_api_cat::document::{build, Page};
use web_api_cat::dom::Dom;
use web_api_cat::event::{parse_capture_arg, CaptureArg, Dispatch, Event, ListenerTable};
use web_api_cat::markup::parse_page;

type Behaviour = Box<dyn Fn(&mut Event, usize, &Dom, &mut String)>;

fn load(html: &str) -> Page {
    build(&parse_page(html))
}

fn element(page: &Page, id: &str) -> usize {
    page.get_element_by_id(id).expect("element with that id")
}

fn plain_event(event_type: &str) -> Event {
    Event::new(event_type, false, false, false)
}

/// Runs a dispatch to the end, calling the behaviour registered for each
/// callback handle that the walk hands out.
fn run_dispatch(
    page: &Page,
    table: &ListenerTable,
    target: usize,
    event: Event,
    behaviours: &HashMap<u64, Behaviour>,
    trace: &mut String,
) -> (bool, Event) {
    let mut d = Dispatch::begin(&page.dom, event, target);
    while let Some((_level, callback)) = d.next_call(table) {
        if let Some(b) = behaviours.get(&callback) {
            let current = d.event.current_target.expect("a current target");
            b(&mut d.event, current, &page.dom, trace);
        }
    }
    (d.outcome(), d.event)
}

fn append(s: &'static str) -> Behaviour {
    Box::new(move |_e, _c, _d, t| t.push_str(s))
}

#[test]
fn add_listener_then_dispatch_fires_the_handler() {
    let page = load("<html><body><div id='host'></div></body></html>");
    let host = element(&page, "host");
    let mut table = ListenerTable::new();
    table.add_event_listener(host, "click", 1, false);
    let behaviours: HashMap<u64, Behaviour> = HashMap::from([(1, append("x"))]);
    let mut trace = String::new();
    run_dispatch(&page, &table, host, plain_event("click"), &behaviours, &mut trace);
    assert_eq!(trace.len(), 1);
}

#[test]
fn dispatch_event_returns_true() {
    let page = load("<html><body><div id='host'></div></body></html>");
    let host = element(&page, "host");
    let table = ListenerTable::new();
    let mut trace = String::new();
    let (r, _) = run_dispatch(&page, &table, host, plain_event("noop"), &HashMap::new(), &mut trace);
    assert!(r);
}

#[test]
fn multiple_listeners_fire_in_registration_order() {
    let page = load("<html><body><div id='host'></div></body></html>");
    let host = element(&page, "host");
    let mut table = ListenerTable::new();
    table.add_event_listener(host, "click", 1, false);
    table.add_event_listener(host, "click", 2, false);
    table.add_event_listener(host, "click", 3, false);
    let behaviours: HashMap<u64, Behaviour> =
        HashMap::from([(1, append("a")), (2, append("b")), (3, append("c"))]);
    let mut trace = String::new();
    run_dispatch(&page, &table, host, plain_event("click"), &behaviours, &mut trace);
    assert_eq!(trace, "abc");
}

#[test]
fn listeners_for_different_types_dont_cross_fire() {
    let page = load("<html><body><div id='host'></div></body></html>");
    let host = element(&page, "host");
    let mut table = ListenerTable::new();
    table.add_event_listener(host, "click", 1, false);
    table.add_event_listener(host, "submit", 2, false);
    let behaviours: HashMap<u64, Behaviour> = HashMap::from([(1, append("c")), (2, append("s"))]);
    let mut trace = String::new();
    for ty in ["click", "click", "submit"] {
        run_dispatch(&page, &table, host, plain_event(ty), &behaviours, &mut trace);
    }
    let clicks = trace.matches('c').count();
    let submits = trace.matches('s').count();
    assert_eq!(clicks * 10 + submits, 21);
}

#[test]
fn handler_receives_the_event_object_with_type() {
    let page = load("<html><body><div id='host'></div></body></html>");
    let host = element(&page, "host");
    let mut table = ListenerTable::new();
    table.add_event_listener(host, "foo", 1, false);
    let behaviours: HashMap<u64, Behaviour> =
        HashMap::from([(1, Box::new(|e: &mut Event, _c: usize, _d: &Dom, t: &mut String| t.push_str(&e.event_type)) as Behaviour)]);
    let mut trace = String::new();
    run_dispatch(&page, &table, host, plain_event("foo"), &behaviours, &mut trace);
    assert_eq!(trace, "foo");
}

#[test]
fn remove_event_listener_drops_the_handler() {
    let page = load("<html><body><div id='host'></div></body></html>");
    let host = element(&page, "host");
    let mut table = ListenerTable::new();
    table.add_event_listener(host, "click", 7, false);
    let behaviours: HashMap<u64, Behaviour> = HashMap::from([(7, append("x"))]);
    let mut trace = String::new();
    run_dispatch(&page, &table, host, plain_event("click"), &behaviours, &mut trace);
    table.remove_event_listener(host, "click", 7, false);
    run_dispatch(&page, &table, host, plain_event("click"), &behaviours, &mut trace);
    assert_eq!(trace.len(), 1);
}

#[test]
fn bubble_dispatch_fires_parent_listener() {
    let page = load("<html><body><div id='parent'><span id='child'>x</span></div></body></html>");
    let child = element(&page, "child");
    let parent = element(&page, "parent");
    let mut table = ListenerTable::new();
    table.add_event_listener(child, "click", 1, false);
    table.add_event_listener(parent, "click", 2, false);
    let behaviours: HashMap<u64, Behaviour> = HashMap::from([(1, append("c")), (2, append("p"))]);
    let mut trace = String::new();
    run_dispatch(&page, &table, child, plain_event("click"), &behaviours, &mut trace);
    assert_eq!(trace, "cp");
}

#[test]
fn dispatch_on_root_doesnt_bubble_past_document_element() {
    let page = load("<html><body><div id='host'></div></body></html>");
    let host = element(&page, "host");
    let mut table = ListenerTable::new();
    table.add_event_listener(page.root, "click", 1, false);
    let behaviours: HashMap<u64, Behaviour> = HashMap::from([(1, append("r"))]);
    let mut trace = String::new();
    run_dispatch(&page, &table, host, plain_event("click"), &behaviours, &mut trace);
    assert_eq!(trace.len(), 1);
}

#[test]
fn listener_throw_does_not_abort_remaining_listeners() {
    let page = load("<html><body><div id='host'></div></body></html>");
    let host = element(&page, "host");
    let mut table = ListenerTable::new();
    table.add_event_listener(host, "click", 1, false);
    table.add_event_listener(host, "click", 2, false);
    // The first listener "throws": its effects end early, and the walk
    // goes on with the next listener all the same.
    let behaviours: HashMap<u64, Behaviour> = HashMap::from([(1, append("a")), (2, append("b"))]);
    let mut trace = String::new();
    run_dispatch(&page, &table, host, plain_event("click"), &behaviours, &mut trace);
    assert_eq!(trace, "ab");
}

#[test]
fn add_event_listener_works_on_created_element() {
    let mut page = load("<html><body></body></html>");
    let el = page.create_element("span");
    let mut table = ListenerTable::new();
    table.add_event_listener(el, "ping", 1, false);
    let behaviours: HashMap<u64, Behaviour> = HashMap::from([(1, append("x"))]);
    let mut trace = String::new();
    run_dispatch(&page, &table, el, plain_event("ping"), &behaviours, &mut trace);
    assert_eq!(trace.len(), 1);
}

#[test]
fn handler_can_close_over_outer_state() {
    let page = load("<html><body><div id='host'></div></body></html>");
    let host = element(&page, "host");
    let mut table = ListenerTable::new();
    table.add_event_listener(host, "tick", 1, false);
    let behaviours: HashMap<u64, Behaviour> = HashMap::from([(1, append("+"))]);
    let mut trace = String::new();
    for _ in 0..3 {
        run_dispatch(&page, &table, host, plain_event("tick"), &behaviours, &mut trace);
    }
    assert_eq!(trace.len(), 3);
}

#[test]
fn dispatch_with_no_listeners_is_a_silent_noop() {
    let page = load("<html><body><div id='host'></div></body></html>");
    let host = element(&page, "host");
    let table = ListenerTable::new();
    let mut trace = String::new();
    let (r, _) = run_dispatch(&page, &table, host, plain_event("unhandled"), &HashMap::new(), &mut trace);
    assert!(r && trace.is_empty());
}

fn prevent() -> Behaviour {
    Box::new(|e, _c, _d, _t| e.prevent_default())
}

#[test]
fn prevent_default_makes_dispatch_event_return_false() {
    let page = load("<html><body><div id='host'></div></body></html>");
    let host = element(&page, "host");
    let mut table = ListenerTable::new();
    table.add_event_listener(host, "click", 1, false);
    let behaviours: HashMap<u64, Behaviour> = HashMap::from([(1, prevent())]);
    let mut trace = String::new();
    let (r, _) = run_dispatch(&page, &table, host, plain_event("click"), &behaviours, &mut trace);
    assert!(!r);
}

#[test]
fn prevent_default_sets_default_prevented_flag_on_event() {
    let page = load("<html><body><div id='host'></div></body></html>");
    let host = element(&page, "host");
    let mut table = ListenerTable::new();
    table.add_event_listener(host, "click", 1, false);
    table.add_event_listener(host, "click", 2, false);
    let observe: Behaviour = Box::new(|e, _c, _d, t| t.push_str(if e.default_prevented { "true" } else { "false" }));
    let behaviours: HashMap<u64, Behaviour> = HashMap::from([(1, prevent()), (2, observe)]);
    let mut trace = String::new();
    run_dispatch(&page, &table, host, plain_event("click"), &behaviours, &mut trace);
    assert_eq!(trace, "true");
}

#[test]
fn dispatch_without_prevent_default_returns_true() {
    let page = load("<html><body><div id='host'></div></body></html>");
    let host = element(&page, "host");
    let mut table = ListenerTable::new();
    table.add_event_listener(host, "click", 1, false);
    let behaviours: HashMap<u64, Behaviour> = HashMap::from([(1, append(""))]);
    let mut trace = String::new();
    let (r, _) = run_dispatch(&page, &table, host, plain_event("click"), &behaviours, &mut trace);
    assert!(r);
}

#[test]
fn stop_propagation_halts_bubble_after_current_level() {
    let page = load("<html><body><div id='parent'><span id='child'>x</span></div></body></html>");
    let child = element(&page, "child");
    let parent = element(&page, "parent");
    let mut table = ListenerTable::new();
    table.add_event_listener(child, "click", 1, false);
    table.add_event_listener(parent, "click", 2, false);
    let stop: Behaviour = Box::new(|e, _c, _d, t| {
        t.push('c');
        e.stop_propagation();
    });
    let behaviours: HashMap<u64, Behaviour> = HashMap::from([(1, stop), (2, append("p"))]);
    let mut trace = String::new();
    run_dispatch(&page, &table, child, plain_event("click"), &behaviours, &mut trace);
    assert_eq!(trace, "c");
}

#[test]
fn stop_propagation_still_fires_remaining_listeners_at_current_level() {
    let page = load("<html><body><div id='parent'><span id='child'>x</span></div></body></html>");
    let child = element(&page, "child");
    let parent = element(&page, "parent");
    let mut table = ListenerTable::new();
    table.add_event_listener(child, "click", 1, false);
    table.add_event_listener(child, "click", 2, false);
    table.add_event_listener(parent, "click", 3, false);
    let stop: Behaviour = Box::new(|e, _c, _d, t| {
        t.push('a');
        e.stop_propagation();
    });
    let behaviours: HashMap<u64, Behaviour> = HashMap::from([(1, stop), (2, append("b")), (3, append("p"))]);
    let mut trace = String::new();
    run_dispatch(&page, &table, child, plain_event("click"), &behaviours, &mut trace);
    assert_eq!(trace, "ab");
}

#[test]
fn stop_immediate_propagation_halts_remaining_listeners_at_current_level() {
    let page = load("<html><body><div id='parent'><span id='child'>x</span></div></body></html>");
    let child = element(&page, "child");
    let parent = element(&page, "parent");
    let mut table = ListenerTable::new();
    table.add_event_listener(child, "click", 1, false);
    table.add_event_listener(child, "click", 2, false);
    table.add_event_listener(parent, "click", 3, false);
    let stop: Behaviour = Box::new(|e, _c, _d, t| {
        t.push('a');
        e.stop_immediate_propagation();
    });
    let behaviours: HashMap<u64, Behaviour> = HashMap::from([(1, stop), (2, append("b")), (3, append("p"))]);
    let mut trace = String::new();
    run_dispatch(&page, &table, child, plain_event("click"), &behaviours, &mut trace);
    assert_eq!(trace, "a");
}

#[test]
fn event_target_stays_as_original_dispatch_target() {
    let page = load("<html><body><div id='parent'><span id='child'>x</span></div></body></html>");
    let child = element(&page, "child");
    let parent = element(&page, "parent");
    let mut table = ListenerTable::new();
    table.add_event_listener(parent, "click", 1, false);
    let observe: Behaviour = Box::new(|e, _c, d, t| {
        let target = e.target.expect("a target");
        t.push_str(&d.elements[target].tag_name);
    });
    let behaviours: HashMap<u64, Behaviour> = HashMap::from([(1, observe)]);
    let mut trace = String::new();
    run_dispatch(&page, &table, child, plain_event("click"), &behaviours, &mut trace);
    assert_eq!(trace, "span");
}

#[test]
fn event_current_target_reflects_current_bubble_level() {
    let page = load("<html><body><div id='parent'><span id='child'>x</span></div></body></html>");
    let child = element(&page, "child");
    let parent = element(&page, "parent");
    let mut table = ListenerTable::new();
    table.add_event_listener(child, "click", 1, false);
    table.add_event_listener(parent, "click", 2, false);
    let first: Behaviour = Box::new(|_e, c, d, t| t.push_str(&d.elements[c].tag_name));
    let second: Behaviour = Box::new(|_e, c, d, t| {
        t.push(',');
        t.push_str(&d.elements[c].tag_name);
    });
    let behaviours: HashMap<u64, Behaviour> = HashMap::from([(1, first), (2, second)]);
    let mut trace = String::new();
    run_dispatch(&page, &table, child, plain_event("click"), &behaviours, &mut trace);
    assert!(trace.eq_ignore_ascii_case("span,div"));
}

#[test]
fn event_type_is_preserved_through_decoration() {
    let page = load("<html><body><div id='host'></div></body></html>");
    let host = element(&page, "host");
    let mut table = ListenerTable::new();
    table.add_event_listener(host, "myevent", 1, false);
    let observe: Behaviour = Box::new(|e, _c, _d, t| t.push_str(&e.event_type));
    let behaviours: HashMap<u64, Behaviour> = HashMap::from([(1, observe)]);
    let mut trace = String::new();
    run_dispatch(&page, &table, host, plain_event("myevent"), &behaviours, &mut trace);
    assert_eq!(trace, "myevent");
}

#[test]
fn prevent_default_does_not_affect_bubble() {
    let page = load("<html><body><div id='parent'><span id='child'>x</span></div></body></html>");
    let child = element(&page, "child");
    let parent = element(&page, "parent");
    let mut table = ListenerTable::new();
    table.add_event_listener(child, "click", 1, false);
    table.add_event_listener(parent, "click", 2, false);
    let first: Behaviour = Box::new(|e, _c, _d, t| {
        e.prevent_default();
        t.push('c');
    });
    let behaviours: HashMap<u64, Behaviour> = HashMap::from([(1, first), (2, append("p"))]);
    let mut trace = String::new();
    run_dispatch(&page, &table, child, plain_event("click"), &behaviours, &mut trace);
    assert_eq!(trace, "cp");
}

#[test]
fn prevent_default_is_idempotent() {
    let page = load("<html><body><div id='host'></div></body></html>");
    let host = element(&page, "host");
    let mut table = ListenerTable::new();
    table.add_event_listener(host, "click", 1, false);
    let thrice: Behaviour = Box::new(|e, _c, _d, _t| {
        e.prevent_default();
        e.prevent_default();
        e.prevent_default();
    });
    let behaviours: HashMap<u64, Behaviour> = HashMap::from([(1, thrice)]);
    let mut trace = String::new();
    let (r, _) = run_dispatch(&page, &table, host, plain_event("click"), &behaviours, &mut trace);
    assert!(!r);
}

#[test]
fn capture_listeners_fire_root_first_before_target_and_bubble() {
    let page = load("<html><body><div id='parent'><span id='child'>x</span></div></body></html>");
    let child = element(&page, "child");
    let parent = element(&page, "parent");
    let mut table = ListenerTable::new();
    table.add_event_listener(parent, "click", 1, false);
    table.add_event_listener(parent, "click", 2, true);
    table.add_event_listener(page.root, "click", 3, true);
    table.add_event_listener(child, "click", 4, true);
    table.add_event_listener(child, "click", 5, false);
    let behaviours: HashMap<u64, Behaviour> = HashMap::from([
        (1, append("Pb")),
        (2, append("Pc")),
        (3, append("Rc")),
        (4, append("Tc")),
        (5, append("Tb")),
    ]);
    let mut trace = String::new();
    run_dispatch(&page, &table, child, plain_event("click"), &behaviours, &mut trace);
    assert_eq!(trace, "RcPcTcTbPb");
}

#[test]
fn remove_only_drops_the_listener_with_the_same_capture_flag() {
    let page = load("<html><body><div id='host'></div></body></html>");
    let host = element(&page, "host");
    let mut table = ListenerTable::new();
    table.add_event_listener(host, "click", 1, true);
    table.add_event_listener(host, "click", 1, false);
    table.remove_event_listener(host, "click", 1, false);
    let left = table.listeners(host, "click");
    assert_eq!(left.len(), 1);
    assert!(left[0].capture);
}

#[test]
fn the_capture_argument_is_a_flag_or_an_options_object() {
    assert!(parse_capture_arg(CaptureArg::Flag(true)));
    assert!(!parse_capture_arg(CaptureArg::Flag(false)));
    assert!(parse_capture_arg(CaptureArg::Options(Some(true))));
    assert!(!parse_capture_arg(CaptureArg::Options(Some(false))));
    assert!(!parse_capture_arg(CaptureArg::Options(None)));
    assert!(!parse_capture_arg(CaptureArg::Other));
}
