//! The `document` and the `window` around it: the element tree built from
//! the parsed page, `documentElement`, `body` (the first element, in
//! document order, whose tag is `body` without regard to ASCII case),
//! `getElementById`, `querySelector`, `createElement` and `cookie`; and
//! the two storages and the event listeners that the window holds.

use vstd::prelude::*;
use crate::cookie::{install_cookie_accessor, CookieJar};
use crate::dom::Dom;
use crate::event::ListenerTable;
use crate::location::{build_location_object, Location};
use crate::html::{built_elem, HtmlElement};
use crate::query::{all_descendants, all_in, all_in_exec, class_selector, first_descendant, id_selector};
use crate::selector::{parse_selector_list, parse_selector_list_exec};
use crate::storage::{build_storage_object, Storage};
use crate::text::{chars_of, eq_ignore_case, eq_ignore_case_exec};

verus! {

/// Depth-first, pre-order search of `ids[i..]` and of their descendants
/// (at most `depth` levels further down) for the first element whose tag
/// is `tag` without regard to ASCII case.
pub open spec fn tag_search(dom: Dom, ids: Seq<usize>, i: int, tag: Seq<char>, depth: nat) -> Option<usize>
    decreases depth, ids.len() - i,
{
    if i < 0 || i >= ids.len() {
        None
    } else {
        let c = ids[i];
        if eq_ignore_case(dom.node(c as int).tag_name@, tag) {
            Some(c)
        } else {
            let sub = if depth == 0 {
                None
            } else {
                tag_search(dom, dom.children_of(c as int), 0, tag, (depth - 1) as nat)
            };
            match sub {
                Some(x) => Some(x),
                None => tag_search(dom, ids, i + 1, tag, depth),
            }
        }
    }
}

/// What `tag_search` finds is an element of the arena.
pub proof fn lemma_tag_search_in_range(dom: Dom, ids: Seq<usize>, i: int, tag: Seq<char>, depth: nat)
    requires
        dom.wf(),
        forall|j: int| 0 <= j < ids.len() ==> #[trigger] ids[j] < dom.len(),
    ensures
        match tag_search(dom, ids, i, tag, depth) {
            Some(x) => x < dom.len(),
            None => true,
        },
    decreases depth, ids.len() - i,
{
    if 0 <= i < ids.len() {
        let c = ids[i];
        if !eq_ignore_case(dom.node(c as int).tag_name@, tag) {
            if depth > 0 {
                assert(dom.elements@[c as int].wf(dom.len()));
                lemma_tag_search_in_range(dom, dom.children_of(c as int), 0, tag, (depth - 1) as nat);
            }
            lemma_tag_search_in_range(dom, ids, i + 1, tag, depth);
        }
    }
}

fn tag_search_exec(dom: &Dom, ids: &Vec<usize>, tag: &Vec<char>, depth: usize) -> (r: Option<usize>)
    requires
        dom.wf(),
        forall|j: int| 0 <= j < ids@.len() ==> #[trigger] ids@[j] < dom.len(),
    ensures
        r == tag_search(*dom, ids@, 0, tag@, depth as nat),
    decreases depth,
{
    let mut i: usize = 0;
    while i < ids.len()
        invariant
            i <= ids@.len(),
            dom.wf(),
            forall|j: int| 0 <= j < ids@.len() ==> #[trigger] ids@[j] < dom.len(),
            tag_search(*dom, ids@, i as int, tag@, depth as nat) == tag_search(*dom, ids@, 0, tag@, depth as nat),
        decreases ids@.len() - i,
    {
        let c = ids[i];
        let name = chars_of(dom.elements[c].tag_name.as_str());
        if eq_ignore_case_exec(&name, tag) {
            return Some(c);
        }
        if depth > 0 {
            assert(dom.elements@[c as int].wf(dom.len()));
            let sub = tag_search_exec(dom, &dom.elements[c].children, tag, depth - 1);
            if sub.is_some() {
                return sub;
            }
        }
        i = i + 1;
    }
    None
}

impl Dom {
    /// `root` itself when its tag is `tag` (without regard to ASCII case),
    /// otherwise the first such element below it in document order.
    pub fn find_element_by_tag(&self, root: usize, tag: &str) -> (r: Option<usize>)
        requires
            self.wf(),
            root < self.len(),
        ensures
            r == tag_search(*self, seq![root], 0, tag@, self.len()),
    {
        let mut ids: Vec<usize> = Vec::new();
        ids.push(root);
        assert(ids@ == seq![root]);
        let t = chars_of(tag);
        tag_search_exec(self, &ids, &t, self.elements.len())
    }
}

/// The script-side `document`.
pub struct Page {
    pub dom: Dom,
    /// `documentElement`.
    pub root: usize,
    /// `body`.
    pub body: Option<usize>,
    /// `cookie`.
    pub cookies: CookieJar,
}

impl Page {
    pub open spec fn wf(&self) -> bool {
        &&& self.dom.wf()
        &&& self.root < self.dom.len()
        &&& match self.body {
            Some(b) => b < self.dom.len(),
            None => true,
        }
    }

    /// `document.getElementById(id)`: the first element below
    /// `documentElement`, in document order, whose `id` is `id`; none for
    /// an empty `id`.
    pub fn get_element_by_id(&self, id: &str) -> (r: Option<usize>)
        requires
            self.wf(),
        ensures
            id@.len() == 0 ==> r is None,
            id@.len() > 0 ==> r == first_descendant(self.dom, self.root, id_selector(id@), 0),
    {
        self.dom.find_by_id(self.root, id)
    }

    /// `document.querySelector(selector)`: the first element below
    /// `documentElement`, in document order, that matches.
    pub fn query_selector(&self, selector: &str) -> (r: Option<usize>)
        requires
            self.wf(),
        ensures
            r == first_descendant(self.dom, self.root, parse_selector_list(selector@), selector@.len()),
    {
        self.dom.query_selector(self.root, selector)
    }

    /// `document.querySelectorAll(selector)`: every element below
    /// `documentElement` that matches, in document order.
    pub fn query_selector_all(&self, selector: &str) -> (r: Vec<usize>)
        requires
            self.wf(),
        ensures
            r@ == all_descendants(self.dom, self.root, parse_selector_list(selector@), selector@.len()),
    {
        self.dom.query_selector_all(self.root, selector)
    }

    /// `document.getElementsByTagName(name)`.
    pub fn get_elements_by_tag_name(&self, name: &str) -> (r: Vec<usize>)
        requires
            self.wf(),
        ensures
            name@.len() == 0 ==> r@ == Seq::<usize>::empty(),
            name@.len() > 0 ==> r@ == all_descendants(self.dom, self.root, parse_selector_list(name@), name@.len()),
    {
        self.dom.get_elements_by_tag_name(self.root, name)
    }

    /// `document.getElementsByClassName(names)`.
    pub fn get_elements_by_class_name(&self, names: &str) -> (r: Vec<usize>)
        requires
            self.wf(),
        ensures
            match class_selector(names@) {
                None => r@ == Seq::<usize>::empty(),
                Some(sel) => r@ == all_descendants(self.dom, self.root, parse_selector_list(sel), sel.len()),
            },
    {
        self.dom.get_elements_by_class_name(self.root, names)
    }

    /// Every element of the document, `documentElement` included, that
    /// matches `selector`, in document order (the host's search for,
    /// say, every `img`).
    pub fn find_all_in_document(&self, selector: &str) -> (r: Vec<usize>)
        requires
            self.wf(),
        ensures
            r@ == all_in(self.dom, seq![self.root], 0, parse_selector_list(selector@), selector@.len(), self.dom.len()),
    {
        let text = chars_of(selector);
        let list = parse_selector_list_exec(&text);
        let mut ids: Vec<usize> = Vec::new();
        ids.push(self.root);
        assert(ids@ == seq![self.root]);
        all_in_exec(&self.dom, &ids, &list, text.len(), self.dom.elements.len())
    }

    /// `document.createElement(tag)`: a new detached element.
    pub fn create_element(&mut self, tag: &str) -> (id: usize)
        requires
            old(self).wf(),
        ensures
            final(self).wf(),
            id == old(self).dom.len(),
            final(self).root == old(self).root,
            final(self).body == old(self).body,
            final(self).dom.len() == old(self).dom.len() + 1,
            forall|i: int| 0 <= i < old(self).dom.len() ==> final(self).dom.elements@[i] == old(self).dom.elements@[i],
            final(self).dom.node(id as int).tag_name@ == tag@,
            final(self).dom.node(id as int).id@ == Seq::<char>::empty(),
            final(self).dom.node(id as int).class_name@ == Seq::<char>::empty(),
            final(self).dom.node(id as int).text_content@ == Seq::<char>::empty(),
            final(self).dom.node(id as int).attributes@ == Seq::<(Seq<char>, Seq<char>)>::empty(),
            final(self).dom.node(id as int).style@ == Seq::<(Seq<char>, Seq<char>)>::empty(),
            final(self).dom.node(id as int).dataset@ == Seq::<(Seq<char>, Seq<char>)>::empty(),
            final(self).dom.node(id as int).children@ == Seq::<usize>::empty(),
            final(self).dom.node(id as int).parent is None,
            final(self).cookies == old(self).cookies,
    {
        self.dom.create_element(tag)
    }
}

/// Builds the `document` of a parsed page: the element tree of `html`,
/// with `html`'s element as `documentElement`, `body` found in it, and
/// an empty cookie jar.
pub fn build(html: &HtmlElement) -> (p: Page)
    ensures
        p.wf(),
        p.root == 0,
        built_elem(p.dom, 0, *html),
        p.dom.node(0).parent is None,
        p.body == tag_search(p.dom, seq![0usize], 0, seq!['b', 'o', 'd', 'y'], p.dom.len()),
        p.cookies.visible@ == Seq::<char>::empty(),
        p.cookies.writes@ == Seq::<char>::empty(),
{
    let mut dom = Dom::new();
    let root = dom.build_element(html, None);
    let body_tag = "body";
    proof {
        reveal_strlit("body");
    }
    assert(body_tag@ =~= seq!['b', 'o', 'd', 'y']);
    let body = dom.find_element_by_tag(root, body_tag);
    proof {
        lemma_tag_search_in_range(dom, seq![root], 0, body_tag@, dom.len());
    }
    Page { dom, root, body, cookies: install_cookie_accessor() }
}

/// What scripts see as globals: `document`, `window`, `localStorage`,
/// `sessionStorage`, `location`, and the listeners registered on the
/// elements.
pub struct Window {
    pub document: Page,
    pub local_storage: Storage,
    pub session_storage: Storage,
    pub listeners: ListenerTable,
    pub location: Location,
}

/// Sets up the globals for a parsed page: its `document`, two empty
/// storages and no listeners.
pub fn install(html: &HtmlElement) -> (w: Window)
    ensures
        w.document.wf(),
        w.document.root == 0,
        built_elem(w.document.dom, 0, *html),
        w.local_storage.wf(),
        w.local_storage@.len() == 0,
        w.session_storage.wf(),
        w.session_storage@.len() == 0,
        w.listeners@.len() == 0,
        w.location.href@.len() == 0,
        w.location.pending_nav is None,
{
    Window {
        document: build(html),
        local_storage: build_storage_object(),
        session_storage: build_storage_object(),
        listeners: ListenerTable::new(),
        location: build_location_object(),
    }
}

} // verus!
