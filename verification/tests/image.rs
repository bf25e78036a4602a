use web_api_cat::document::{build, Page};
use web_api_cat::markup::parse_page;

fn load(html: &str) -> Page {
    build(&parse_page(html))
}

fn element(page: &Page, id: &str) -> usize {
    page.get_element_by_id(id).expect("element with that id")
}

#[test]
fn img_src_getter_reflects_attribute() {
    let page = load("<html><body><img id='host' src='/cat.png'/></body></html>");
    let host = element(&page, "host");
    assert_eq!(page.dom.reflected(host, "src"), "/cat.png");
}

#[test]
fn img_src_setter_round_trips() {
    let mut page = load("<html><body><img id='host' src='/cat.png'/></body></html>");
    let host = element(&page, "host");
    page.dom.set_attribute(host, "src", "/dog.png");
    assert_eq!(page.dom.get_attribute(host, "src").as_deref(), Some("/dog.png"));
}

#[test]
fn img_alt_getter_reflects_attribute() {
    let page = load("<html><body><img id='host' alt='a cat' src='/cat.png'/></body></html>");
    let host = element(&page, "host");
    assert_eq!(page.dom.reflected(host, "alt"), "a cat");
}

#[test]
fn img_height_setter_writes_attribute() {
    let mut page = load("<html><body><img id='host' src='/cat.png'/></body></html>");
    let host = element(&page, "host");
    page.dom.set_attribute(host, "height", "240");
    assert_eq!(page.dom.get_attribute(host, "height").as_deref(), Some("240"));
}

#[test]
fn img_natural_width_defaults_to_zero() {
    let page = load("<html><body><img id='host' src='/cat.png'/></body></html>");
    let host = element(&page, "host");
    assert_eq!(page.dom.image_state(host).natural_width, 0);
}

#[test]
fn img_natural_height_defaults_to_zero() {
    let page = load("<html><body><img id='host' src='/cat.png'/></body></html>");
    let host = element(&page, "host");
    assert_eq!(page.dom.image_state(host).natural_height, 0);
}

#[test]
fn img_complete_defaults_to_false() {
    let page = load("<html><body><img id='host' src='/cat.png'/></body></html>");
    let host = element(&page, "host");
    assert!(!page.dom.image_state(host).complete);
}

#[test]
fn img_query_selectable_by_src() {
    let page = load(
        "<html><body>
            <img src='/a.png'/>
            <img id='want' src='/b.png'/>
            <img src='/c.png'/>
        </body></html>",
    );
    let found = page.query_selector("img[src=\"/b.png\"]").expect("a match");
    assert_eq!(page.dom.elements[found].id, "want");
}

#[test]
fn img_accessors_install_on_created_element() {
    let mut page = load("<html><body></body></html>");
    let img = page.create_element("img");
    page.dom.set_attribute(img, "src", "/created.png");
    page.dom.set_attribute(img, "alt", "made by JS");
    page.dom.set_attribute(img, "width", "100");
    assert_eq!(page.dom.reflected(img, "src"), "/created.png");
    assert_eq!(page.dom.reflected(img, "alt"), "made by JS");
    assert_eq!(page.dom.reflected(img, "width"), "100");
    assert!(!page.dom.image_state(img).complete);
}

#[test]
fn non_img_elements_see_harmless_defaults() {
    let page = load("<html><body><div id='host'>x</div></body></html>");
    let host = element(&page, "host");
    assert_eq!(page.dom.reflected(host, "src"), "");
    assert_eq!(page.dom.reflected(host, "alt"), "");
    let state = page.dom.image_state(host);
    assert_eq!(state.natural_width, 0);
    assert!(!state.complete);
}

#[test]
fn set_natural_size_helper_round_trips_to_js() {
    let mut page = load("<html><body><img id='host' src='/cat.png'/></body></html>");
    let host = element(&page, "host");
    page.dom.set_natural_size(host, 640, 480);
    page.dom.set_complete(host, true);
    let s = page.dom.image_state(host);
    assert_eq!(format!("{},{},{}", s.natural_width, s.natural_height, s.complete), "640,480,true");
}

#[test]
fn img_innerhtml_preserves_attributes_after_round_trip() {
    let page = load("<html><body><img id='host' src='/cat.png' alt='cat' width='100' height='80'/></body></html>");
    let body = page.body.expect("a body");
    let s = page.dom.inner_html(body);
    assert!(s.contains("src=\"/cat.png\""));
    assert!(s.contains("alt=\"cat\""));
    assert!(s.contains("width=\"100\""));
    assert!(s.contains("height=\"80\""));
}
