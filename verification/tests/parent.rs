use web_api_cat::document::{build, Page};
use web_api_cat::markup::parse_page;

fn load(html: &str) -> Page {
    build(&parse_page(html))
}

fn element(page: &Page, id: &str) -> usize {
    page.get_element_by_id(id).expect("element with that id")
}

#[test]
fn parent_element_of_parsed_child_is_its_parent() {
    let page = load("<html><body><div id='host'><span id='leaf'>x</span></div></body></html>");
    let leaf = element(&page, "leaf");
    let parent = page.dom.parent_element(leaf).expect("a parent");
    assert!(page.dom.elements[parent].tag_name.eq_ignore_ascii_case("div"));
}

#[test]
fn parent_element_of_root_is_null() {
    let page = load("<html><body></body></html>");
    assert_eq!(page.dom.parent_element(page.root), None);
}

#[test]
fn parent_element_of_created_element_is_null() {
    let mut page = load("<html><body></body></html>");
    let el = page.create_element("span");
    assert_eq!(page.dom.parent_element(el), None);
}

#[test]
fn append_child_sets_parent_element_on_child() {
    let mut page = load("<html><body><div id='host'></div></body></html>");
    let host = element(&page, "host");
    let child = page.create_element("span");
    page.dom.append_child(host, child);
    let parent = page.dom.parent_element(child).expect("a parent");
    assert!(page.dom.elements[parent].tag_name.eq_ignore_ascii_case("div"));
}

#[test]
fn remove_child_clears_parent_element() {
    let mut page = load("<html><body><div id='host'><span id='leaf'>x</span></div></body></html>");
    let host = element(&page, "host");
    let leaf = element(&page, "leaf");
    page.dom.remove_child(host, leaf);
    assert_eq!(page.dom.parent_element(leaf), None);
}

#[test]
fn insert_before_sets_parent_element() {
    let mut page = load("<html><body><div id='host'><span id='ref'>r</span></div></body></html>");
    let host = element(&page, "host");
    let reference = element(&page, "ref");
    let fresh = page.create_element("a");
    page.dom.insert_before(host, fresh, Some(reference));
    let parent = page.dom.parent_element(fresh).expect("a parent");
    assert!(page.dom.elements[parent].tag_name.eq_ignore_ascii_case("div"));
}

#[test]
fn replace_child_swaps_parent_backrefs() {
    let mut page = load("<html><body><div id='host'><span id='old'>x</span></div></body></html>");
    let host = element(&page, "host");
    let old_child = element(&page, "old");
    let new_child = page.create_element("a");
    page.dom.replace_child(host, new_child, old_child);
    let new_tag = match page.dom.parent_element(new_child) {
        Some(p) => page.dom.elements[p].tag_name.clone(),
        None => "detached".to_owned(),
    };
    let old_tag = match page.dom.parent_element(old_child) {
        Some(p) => page.dom.elements[p].tag_name.clone(),
        None => "detached".to_owned(),
    };
    assert!(format!("{new_tag},{old_tag}").eq_ignore_ascii_case("div,detached"));
}

#[test]
fn element_remove_detaches_from_parent() {
    let mut page = load("<html><body><div id='host'><span id='leaf'>x</span></div></body></html>");
    let host = element(&page, "host");
    let leaf = element(&page, "leaf");
    page.dom.remove(leaf);
    let child_count = page.dom.elements[host].children.len();
    let detached = usize::from(page.dom.parent_element(leaf).is_none());
    assert_eq!(child_count * 10 + detached, 1);
}

#[test]
fn parent_node_matches_parent_element() {
    let page = load("<html><body><div id='host'><span id='leaf'>x</span></div></body></html>");
    let leaf = element(&page, "leaf");
    let parent_node = page.dom.parent_element(leaf);
    let parent_element = page.dom.parent_element(leaf);
    assert_eq!(parent_node, parent_element);
    assert_eq!(parent_node, Some(element(&page, "host")));
}

#[test]
fn inner_html_setter_clears_old_parent_backrefs_and_sets_new() {
    let mut page = load("<html><body><div id='host'><span id='old'>x</span></div></body></html>");
    let host = element(&page, "host");
    let old_child = element(&page, "old");
    page.dom.set_inner_html(host, "<a>fresh</a>");
    let new_first = page.dom.elements[host].children[0];
    let old_detached = usize::from(page.dom.parent_element(old_child).is_none());
    let new_attached = usize::from(page.dom.parent_element(new_first) == Some(host));
    assert_eq!(old_detached * 10 + new_attached, 11);
}

#[test]
fn deep_clone_grandchild_parent_points_at_cloned_intermediate() {
    let mut page = load("<html><body><div id='host'><span><a>x</a></span></div></body></html>");
    let host = element(&page, "host");
    let clone = page.dom.clone_node(host, true);
    let cloned_inter = page.dom.elements[clone].children[0];
    let cloned_leaf = page.dom.elements[cloned_inter].children[0];
    assert_eq!(page.dom.parent_element(cloned_leaf), Some(cloned_inter));
    assert_eq!(page.dom.parent_element(clone), None);
}
