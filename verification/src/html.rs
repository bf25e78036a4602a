//! Parsed HTML and how the element tree is built from it: every element of
//! the markup becomes an element with the tag, the attributes (a later
//! duplicate wins), the `id` and `class` attributes (the first whose name
//! matches without regard to ASCII case), the concatenated text of all
//! descendant text nodes, and its element children in document order.

use vstd::prelude::*;
use crate::dom::{Dom, DomElement, ImageState};
use crate::strmap::{last_value, pair_views, StrMap};
use crate::inline_style::{kebab_to_camel, parse_inline_style, spec_kebab_to_camel, spec_parse_inline_style};
use crate::query::starts_with_exec;
use crate::text::{append_chars, chars_of, eq_ignore_case, eq_ignore_case_exec, slice_range, string_of};

verus! {

/// A node of parsed markup.
pub enum HtmlNode {
    ElementNode(HtmlElement),
    TextNode(String),
    CommentNode(String),
}

/// An element of parsed markup: its tag name, its attributes in source
/// order, and its child nodes.
pub struct HtmlElement {
    pub name: String,
    pub attributes: Vec<(String, String)>,
    pub children: Vec<HtmlNode>,
}

/// The text of a node: a text node's content, an element's descendant
/// text, nothing for a comment.
pub open spec fn node_text(n: HtmlNode) -> Seq<char>
    decreases n,
{
    match n {
        HtmlNode::TextNode(t) => t@,
        HtmlNode::ElementNode(e) => nodes_text(e.children@),
        HtmlNode::CommentNode(_) => Seq::empty(),
    }
}

/// The concatenated text of `ns`, in order.
pub open spec fn nodes_text(ns: Seq<HtmlNode>) -> Seq<char>
    decreases ns,
{
    if ns.len() == 0 {
        Seq::empty()
    } else {
        nodes_text(ns.drop_last()) + node_text(ns.last())
    }
}

/// The value of the first pair whose name equals `name` without regard
/// to ASCII case.
pub open spec fn first_value_ignore_case(pairs: Seq<(Seq<char>, Seq<char>)>, name: Seq<char>) -> Option<Seq<char>>
    decreases pairs.len(),
{
    if pairs.len() == 0 {
        None
    } else if eq_ignore_case(pairs[0].0, name) {
        Some(pairs[0].1)
    } else {
        first_value_ignore_case(pairs.drop_first(), name)
    }
}

pub open spec fn or_empty(v: Option<Seq<char>>) -> Seq<char> {
    match v {
        Some(s) => s,
        None => Seq::empty(),
    }
}

/// The fields that an element built from `e` carries, apart from its
/// child list and parent slot.
pub open spec fn fields_from(n: DomElement, e: HtmlElement) -> bool {
    let pairs = pair_views(e.attributes@);
    &&& n.tag_name@ == e.name@
    &&& n.id@ == or_empty(first_value_ignore_case(pairs, seq!['i', 'd']))
    &&& n.class_name@ == or_empty(first_value_ignore_case(pairs, seq!['c', 'l', 'a', 's', 's']))
    &&& n.text_content@ == nodes_text(e.children@)
    &&& forall|k: Seq<char>| #[trigger] n.attributes.get_spec(k) == last_value(pairs, k)
    &&& forall|k: Seq<char>| #[trigger] n.style.get_spec(k) == last_value(style_pairs(pairs), k)
    &&& forall|k: Seq<char>| #[trigger] n.dataset.get_spec(k) == last_value(dataset_pairs(pairs), k)
    &&& n.image == (ImageState { natural_width: 0, natural_height: 0, complete: false })
}

pub open spec fn style_name() -> Seq<char> {
    seq!['s', 't', 'y', 'l', 'e']
}

/// The declarations of the `style` attribute among `pairs`.
pub open spec fn style_pairs(pairs: Seq<(Seq<char>, Seq<char>)>) -> Seq<(Seq<char>, Seq<char>)> {
    spec_parse_inline_style(or_empty(last_value(pairs, style_name())))
}

pub open spec fn data_prefix() -> Seq<char> {
    seq!['d', 'a', 't', 'a', '-']
}

/// The `data-*` attributes among `pairs` with a name past the prefix,
/// keyed by that name in camelCase.
pub open spec fn dataset_pairs(pairs: Seq<(Seq<char>, Seq<char>)>) -> Seq<(Seq<char>, Seq<char>)>
    decreases pairs.len(),
{
    if pairs.len() == 0 {
        Seq::empty()
    } else {
        let r = dataset_pairs(pairs.drop_last());
        let k = pairs.last().0;
        if k.len() > 5 && k.take(5) == data_prefix() {
            r.push((spec_kebab_to_camel(k.skip(5)), pairs.last().1))
        } else {
            r
        }
    }
}

/// The entries of `dataset` for `pairs` (see [`dataset_pairs`]), in order.
pub fn dataset_entries(pairs: &Vec<(String, String)>) -> (r: Vec<(String, String)>)
    ensures
        pair_views(r@) == dataset_pairs(pair_views(pairs@)),
{
    let mut r: Vec<(String, String)> = Vec::new();
    let prefix: [char; 5] = ['d', 'a', 't', 'a', '-'];
    assert(prefix@ == data_prefix());
    let mut i: usize = 0;
    while i < pairs.len()
        invariant
            i <= pairs@.len(),
            prefix@ == data_prefix(),
            pair_views(r@) == dataset_pairs(pair_views(pairs@).take(i as int)),
        decreases pairs@.len() - i,
    {
        proof {
            let t = pair_views(pairs@).take(i + 1);
            assert(t.drop_last() == pair_views(pairs@).take(i as int));
            assert(t.last() == (pairs@[i as int].0@, pairs@[i as int].1@));
        }
        let k = chars_of(pairs[i].0.as_str());
        if k.len() > 5 && starts_with_exec(&k, &prefix) {
            let rest = slice_range(&k, 5, k.len());
            assert(rest@ == k@.skip(5));
            assert(k@.take(5) == data_prefix());
            let rest_s = string_of(&rest);
            let key = kebab_to_camel(rest_s.as_str());
            let ghost prev = r@;
            r.push((key, pairs[i].1.clone()));
            assert(pair_views(r@) =~= pair_views(prev).push((key@, pairs@[i as int].1@)));
        } else {
            proof {
                if k@.len() > 5 {
                    assert(!(k@.take(5) == data_prefix()));
                }
            }
        }
        i = i + 1;
    }
    assert(pair_views(pairs@).take(pairs@.len() as int) == pair_views(pairs@));
    r
}

/// Element `id` of `d` and the elements below it were built from `e`.
pub open spec fn built_elem(d: Dom, id: int, e: HtmlElement) -> bool
    decreases e,
{
    &&& 0 <= id < d.len()
    &&& fields_from(d.node(id), e)
    &&& built_list(d, d.node(id).children@, e.children@, id)
}

/// `ids` are the elements built, one each and in order, from the element
/// nodes of `ns`, as children of `parent`.
pub open spec fn built_list(d: Dom, ids: Seq<usize>, ns: Seq<HtmlNode>, parent: int) -> bool
    decreases ns,
{
    if ns.len() == 0 {
        ids.len() == 0
    } else {
        match ns.last() {
            HtmlNode::ElementNode(x) => {
                &&& ids.len() > 0
                &&& built_list(d, ids.drop_last(), ns.drop_last(), parent)
                &&& parent < ids.last()
                &&& built_elem(d, ids.last() as int, x)
                &&& d.node(ids.last() as int).parent == Some(parent as usize)
            },
            _ => built_list(d, ids, ns.drop_last(), parent),
        }
    }
}

/// The value of the first attribute whose name equals `name` without
/// regard to ASCII case.
pub fn lookup_attribute(pairs: &Vec<(String, String)>, name: &str) -> (r: Option<String>)
    ensures
        match r {
            Some(v) => first_value_ignore_case(pair_views(pairs@), name@) == Some(v@),
            None => first_value_ignore_case(pair_views(pairs@), name@) is None,
        },
{
    let n = chars_of(name);
    let mut i: usize = 0;
    assert(pair_views(pairs@).skip(0) == pair_views(pairs@));
    while i < pairs.len()
        invariant
            i <= pairs@.len(),
            n@ == name@,
            first_value_ignore_case(pair_views(pairs@).skip(i as int), name@)
                == first_value_ignore_case(pair_views(pairs@), name@),
        decreases pairs@.len() - i,
    {
        let ghost rest = pair_views(pairs@).skip(i as int);
        assert(rest[0] == (pairs@[i as int].0@, pairs@[i as int].1@));
        assert(rest.drop_first() == pair_views(pairs@).skip(i + 1));
        let k = chars_of(pairs[i].0.as_str());
        if eq_ignore_case_exec(&k, &n) {
            return Some(pairs[i].1.clone());
        }
        i = i + 1;
    }
    None
}

/// The concatenated text of `nodes` and all their descendants.
pub fn collect_text(nodes: &Vec<HtmlNode>) -> (r: Vec<char>)
    ensures
        r@ == nodes_text(nodes@),
    decreases nodes@,
{
    let mut r: Vec<char> = Vec::new();
    let mut i: usize = 0;
    while i < nodes.len()
        invariant
            i <= nodes@.len(),
            r@ == nodes_text(nodes@.take(i as int)),
        decreases nodes@.len() - i,
    {
        proof {
            let t = nodes@.take(i + 1);
            assert(t.drop_last() == nodes@.take(i as int));
            assert(t.last() == nodes@[i as int]);
        }
        match &nodes[i] {
            HtmlNode::TextNode(t) => {
                let cs = chars_of(t.as_str());
                assert(node_text(nodes@[i as int]) == t@);
                append_chars(&mut r, &cs);
            },
            HtmlNode::ElementNode(e) => {
                proof {
                    assert(decreases_to!(nodes@ => nodes@[i as int]));
                }
                let cs = collect_text(&e.children);
                assert(node_text(nodes@[i as int]) == nodes_text(e.children@));
                append_chars(&mut r, &cs);
            },
            HtmlNode::CommentNode(_) => {
                assert(node_text(nodes@[i as int]) == Seq::<char>::empty());
                assert(r@ + Seq::<char>::empty() == r@);
            },
        }
        i = i + 1;
    }
    assert(nodes@.take(nodes@.len() as int) == nodes@);
    r
}

/// What `built_elem` says of a subtree only depends on the elements from
/// its root on, so it survives appending elements and changing elements
/// before the root.
pub proof fn lemma_built_frame(d: Dom, d2: Dom, id: int, e: HtmlElement)
    requires
        built_elem(d, id, e),
        d2.len() >= d.len(),
        forall|j: int| id <= j < d.len() ==> #[trigger] d2.node(j) == d.node(j),
    ensures
        built_elem(d2, id, e),
    decreases e,
{
    lemma_built_list_frame(d, d2, d.node(id).children@, e.children@, id);
}

pub proof fn lemma_built_list_frame(d: Dom, d2: Dom, ids: Seq<usize>, ns: Seq<HtmlNode>, parent: int)
    requires
        built_list(d, ids, ns, parent),
        d2.len() >= d.len(),
        forall|j: int| parent < j < d.len() ==> #[trigger] d2.node(j) == d.node(j),
    ensures
        built_list(d2, ids, ns, parent),
    decreases ns,
{
    if ns.len() > 0 {
        match ns.last() {
            HtmlNode::ElementNode(x) => {
                lemma_built_list_frame(d, d2, ids.drop_last(), ns.drop_last(), parent);
                let c = ids.last() as int;
                assert(built_elem(d, c, x));
                assert(0 <= c < d.len());
                assert(parent < c);
                assert(d2.node(c) == d.node(c));
                lemma_built_frame(d, d2, c, x);
            },
            _ => {
                lemma_built_list_frame(d, d2, ids, ns.drop_last(), parent);
            },
        }
    }
}

impl Dom {
    /// Adds the elements of `e` and of every element below it, with `e`'s
    /// element under `parent`, and returns the index of `e`'s element.
    pub fn build_element(&mut self, e: &HtmlElement, parent: Option<usize>) -> (id: usize)
        requires
            old(self).wf(),
            match parent {
                Some(p) => p < old(self).len(),
                None => true,
            },
        ensures
            final(self).wf(),
            id == old(self).len(),
            final(self).len() > old(self).len(),
            forall|j: int| 0 <= j < old(self).len() ==> #[trigger] final(self).node(j) == old(self).node(j),
            built_elem(*final(self), id as int, *e),
            final(self).node(id as int).parent == parent,
        decreases e,
    {
        let attributes = StrMap::from_pairs(&e.attributes);
        let id_key = "id";
        let class_key = "class";
        proof {
            reveal_strlit("id");
            reveal_strlit("class");
        }
        assert(id_key@ =~= seq!['i', 'd']);
        assert(class_key@ =~= seq!['c', 'l', 'a', 's', 's']);
        let id_value = match lookup_attribute(&e.attributes, id_key) {
            Some(v) => v,
            None => String::new(),
        };
        let class_value = match lookup_attribute(&e.attributes, class_key) {
            Some(v) => v,
            None => String::new(),
        };
        let text = collect_text(&e.children);
        let style_key = "style";
        proof {
            reveal_strlit("style");
        }
        assert(style_key@ =~= style_name());
        let style_text = match attributes.get(style_key) {
            Some(v) => v,
            None => String::new(),
        };
        let declarations = parse_inline_style(style_text.as_str());
        let style = StrMap::from_pairs(&declarations);
        let data = dataset_entries(&e.attributes);
        let dataset = StrMap::from_pairs(&data);
        let node = DomElement {
            tag_name: e.name.clone(),
            id: id_value,
            class_name: class_value,
            text_content: string_of(&text),
            attributes,
            style,
            dataset,
            children: Vec::new(),
            parent,
            image: ImageState::unloaded(),
        };
        let id = self.add_element(node);
        let mut i: usize = 0;
        while i < e.children.len()
            invariant
                self.wf(),
                id == old(self).len(),
                self.len() > id,
                i <= e.children@.len(),
                forall|j: int| 0 <= j < old(self).len() ==> #[trigger] self.node(j) == old(self).node(j),
                fields_from(self.node(id as int), *e),
                built_list(*self, self.node(id as int).children@, e.children@.take(i as int), id as int),
                self.node(id as int).parent == parent,
            decreases e.children@.len() - i,
        {
            proof {
                let t = e.children@.take(i + 1);
                assert(t.drop_last() == e.children@.take(i as int));
                assert(t.last() == e.children@[i as int]);
            }
            match &e.children[i] {
                HtmlNode::ElementNode(x) => {
                    let ghost d0 = *self;
                    proof {
                        assert(decreases_to!(*e => e.children@[i as int]));
                    }
                    let c = self.build_element(x, Some(id));
                    let ghost d1 = *self;
                    proof {
                        lemma_built_list_frame(d0, d1, d0.node(id as int).children@, e.children@.take(i as int), id as int);
                        assert(d1.node(id as int) == d0.node(id as int));
                    }
                    self.elements[id].children.push(c);
                    proof {
                        assert(d1.elements@[id as int].wf(d1.len()));
                        crate::element::lemma_wf_update(d1, *self, id as int);
                        let d2 = *self;
                        assert forall|j: int| id < j < d1.len() implies #[trigger] d2.node(j) == d1.node(j) by {}
                        lemma_built_list_frame(d1, d2, d0.node(id as int).children@, e.children@.take(i as int), id as int);
                        assert forall|j: int| c <= j < d1.len() implies #[trigger] d2.node(j) == d1.node(j) by {}
                        lemma_built_frame(d1, d2, c as int, *x);
                        assert(d2.node(id as int).children@.drop_last() == d0.node(id as int).children@);
                        assert(d2.node(id as int).children@.last() == c);
                    }
                },
                _ => {},
            }
            i = i + 1;
        }
        assert(e.children@.take(e.children@.len() as int) == e.children@);
        id
    }
}

/// The first element, in document order, of `e` and the elements below it
/// whose tag is `body` without regard to ASCII case.
pub open spec fn body_in(e: HtmlElement) -> Option<HtmlElement>
    decreases e,
{
    if eq_ignore_case(e.name@, seq!['b', 'o', 'd', 'y']) {
        Some(e)
    } else {
        body_in_nodes(e.children@)
    }
}

pub open spec fn body_in_nodes(ns: Seq<HtmlNode>) -> Option<HtmlElement>
    decreases ns,
{
    if ns.len() == 0 {
        None
    } else {
        match ns[0] {
            HtmlNode::ElementNode(x) => match body_in(x) {
                Some(b) => Some(b),
                None => body_in_nodes(ns.drop_first()),
            },
            _ => body_in_nodes(ns.drop_first()),
        }
    }
}

/// The `body` element of parsed markup (see [`body_in`]).
pub fn find_html_body(e: &HtmlElement) -> (r: Option<&HtmlElement>)
    ensures
        match r {
            Some(b) => body_in(*e) == Some(*b),
            None => body_in(*e) is None,
        },
    decreases e,
{
    let n = chars_of(e.name.as_str());
    let body: [char; 4] = ['b', 'o', 'd', 'y'];
    assert(body@ == seq!['b', 'o', 'd', 'y']);
    if eq_ignore_case_exec(&n, &body) {
        return Some(e);
    }
    let mut i: usize = 0;
    assert(e.children@.skip(0) == e.children@);
    while i < e.children.len()
        invariant
            i <= e.children@.len(),
            !eq_ignore_case(e.name@, seq!['b', 'o', 'd', 'y']),
            body_in_nodes(e.children@.skip(i as int)) == body_in(*e),
        decreases e.children@.len() - i,
    {
        let ghost rest = e.children@.skip(i as int);
        assert(rest[0] == e.children@[i as int]);
        assert(rest.drop_first() == e.children@.skip(i + 1));
        match &e.children[i] {
            HtmlNode::ElementNode(x) => {
                proof {
                    assert(decreases_to!(*e => e.children@[i as int]));
                }
                let found = find_html_body(x);
                if found.is_some() {
                    return found;
                }
            },
            _ => {},
        }
        i = i + 1;
    }
    None
}

/// `ids` are the elements built, one each and in order, from the element
/// nodes of `ns`, detached, each from index `lo` on.
pub open spec fn built_roots(d: Dom, ids: Seq<usize>, ns: Seq<HtmlNode>, lo: int) -> bool
    decreases ns.len(),
{
    if ns.len() == 0 {
        ids.len() == 0
    } else {
        match ns.last() {
            HtmlNode::ElementNode(x) => {
                &&& ids.len() > 0
                &&& built_roots(d, ids.drop_last(), ns.drop_last(), lo)
                &&& lo <= ids.last()
                &&& built_elem(d, ids.last() as int, x)
                &&& d.node(ids.last() as int).parent is None
            },
            _ => built_roots(d, ids, ns.drop_last(), lo),
        }
    }
}

pub proof fn lemma_built_roots_frame(d: Dom, d2: Dom, ids: Seq<usize>, ns: Seq<HtmlNode>, lo: int)
    requires
        built_roots(d, ids, ns, lo),
        d2.len() >= d.len(),
        forall|j: int| lo <= j < d.len() ==> #[trigger] d2.node(j) == d.node(j),
    ensures
        built_roots(d2, ids, ns, lo),
    decreases ns.len(),
{
    if ns.len() > 0 {
        match ns.last() {
            HtmlNode::ElementNode(x) => {
                lemma_built_roots_frame(d, d2, ids.drop_last(), ns.drop_last(), lo);
                let c = ids.last() as int;
                assert(built_elem(d, c, x));
                assert(0 <= c < d.len());
                assert(d2.node(c) == d.node(c));
                lemma_built_frame(d, d2, c, x);
            },
            _ => {
                lemma_built_roots_frame(d, d2, ids, ns.drop_last(), lo);
            },
        }
    }
}

/// The elements named by `built_roots` lie from `lo` on, inside the arena.
pub proof fn lemma_built_roots_ids(d: Dom, ids: Seq<usize>, ns: Seq<HtmlNode>, lo: int)
    requires
        built_roots(d, ids, ns, lo),
    ensures
        forall|j: int| 0 <= j < ids.len() ==> lo <= #[trigger] ids[j] < d.len(),
    decreases ns.len(),
{
    if ns.len() > 0 {
        match ns.last() {
            HtmlNode::ElementNode(x) => {
                lemma_built_roots_ids(d, ids.drop_last(), ns.drop_last(), lo);
                assert(built_elem(d, ids.last() as int, x));
                assert forall|j: int| 0 <= j < ids.len() implies lo <= #[trigger] ids[j] < d.len() by {
                    if j < ids.len() - 1 {
                        assert(ids[j] == ids.drop_last()[j]);
                    }
                }
            },
            _ => {
                lemma_built_roots_ids(d, ids, ns.drop_last(), lo);
            },
        }
    }
}

impl Dom {
    /// Builds each element node of `ns`, detached, and returns their
    /// indices in order.
    pub fn build_children(&mut self, ns: &Vec<HtmlNode>) -> (r: Vec<usize>)
        requires
            old(self).wf(),
        ensures
            final(self).wf(),
            final(self).len() >= old(self).len(),
            forall|j: int| 0 <= j < old(self).len() ==> #[trigger] final(self).node(j) == old(self).node(j),
            built_roots(*final(self), r@, ns@, old(self).len() as int),
    {
        let mut r: Vec<usize> = Vec::new();
        let mut i: usize = 0;
        while i < ns.len()
            invariant
                i <= ns@.len(),
                self.wf(),
                self.len() >= old(self).len(),
                forall|j: int| 0 <= j < old(self).len() ==> #[trigger] self.node(j) == old(self).node(j),
                built_roots(*self, r@, ns@.take(i as int), old(self).len() as int),
            decreases ns@.len() - i,
        {
            proof {
                let t = ns@.take(i + 1);
                assert(t.drop_last() == ns@.take(i as int));
                assert(t.last() == ns@[i as int]);
            }
            match &ns[i] {
                HtmlNode::ElementNode(x) => {
                    let ghost d0 = *self;
                    let c = self.build_element(x, None);
                    proof {
                        lemma_built_roots_frame(d0, *self, r@, ns@.take(i as int), old(self).len() as int);
                    }
                    let ghost prev = r@;
                    r.push(c);
                    assert(r@.drop_last() == prev);
                },
                _ => {},
            }
            i = i + 1;
        }
        assert(ns@.take(ns@.len() as int) == ns@);
        r
    }
}

} // verus!
