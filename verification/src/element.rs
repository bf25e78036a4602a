//! Element-side operations: attributes (`getAttribute`, `setAttribute`,
//! `hasAttribute`, with `id` and `class` mirrored onto `id` and
//! `className`), the class list (`classList.add/remove/contains/toggle`),
//! the structural mutators (`appendChild`, `removeChild`, `insertBefore`,
//! `replaceChild`, `remove`) and the navigation getters (`parentElement`,
//! `firstElementChild`, `lastElementChild`, `previousElementSibling`,
//! `nextElementSibling`).

use vstd::prelude::*;
use crate::dom::{Dom, DomElement, ImageState, lemma_element_wf_mono};
use crate::query::{first_pos, first_position, next_sibling, next_sibling_exec, prev_sibling, prev_sibling_exec};
use crate::strmap::{has_key, last_value, pair_views, StrMap};
use crate::text::{chars_of, eq_chars, join, join_exec, string_of, tokens, tokens_exec, views};

verus! {

/// Everything but the child list and the parent slot is equal.
pub open spec fn same_fields(a: DomElement, b: DomElement) -> bool {
    &&& a.tag_name@ == b.tag_name@
    &&& a.id@ == b.id@
    &&& a.class_name@ == b.class_name@
    &&& a.text_content@ == b.text_content@
    &&& a.attributes@ == b.attributes@
    &&& a.style@ == b.style@
    &&& a.dataset@ == b.dataset@
    &&& a.image == b.image
}

/// `new` is `old` with the child lists and parent slots that `children`
/// and `parents` name replaced, and nothing else changed.
pub open spec fn relinked(
    old: Dom,
    new: Dom,
    children: Map<int, Seq<usize>>,
    parents: Map<int, Option<usize>>,
) -> bool {
    &&& new.len() == old.len()
    &&& new.wf()
    &&& forall|j: int| 0 <= j < old.len() ==> same_fields(#[trigger] new.node(j), old.node(j))
    &&& forall|j: int|
        0 <= j < old.len() ==> #[trigger] new.node(j).children@ == if children.dom().contains(j) {
            children[j]
        } else {
            old.node(j).children@
        }
    &&& forall|j: int|
        0 <= j < old.len() ==> #[trigger] new.node(j).parent == if parents.dom().contains(j) {
            parents[j]
        } else {
            old.node(j).parent
        }
}

pub open spec fn id_name() -> Seq<char> {
    seq!['i', 'd']
}

pub open spec fn class_attr_name() -> Seq<char> {
    seq!['c', 'l', 'a', 's', 's']
}

/// `new` is `old` after `setAttribute(name, value)` on `id`: the attribute
/// map gains `name -> value`, `id` / `class` are mirrored onto the `id` /
/// `className` fields, and nothing else changes.
pub open spec fn attribute_written(old: Dom, new: Dom, id: int, name: Seq<char>, value: Seq<char>) -> bool {
    &&& new.len() == old.len()
    &&& new.wf()
    &&& forall|j: int| 0 <= j < old.len() && j != id ==> #[trigger] new.node(j) == old.node(j)
    &&& new.node(id).attributes.get_spec(name) == Some(value)
    &&& forall|k: Seq<char>| k != name ==> new.node(id).attributes.get_spec(k) == old.node(id).attributes.get_spec(k)
    &&& forall|k: Seq<char>| has_key(new.node(id).attributes@, k) <==> (k == name || has_key(old.node(id).attributes@, k))
    &&& new.node(id).id@ == (if name == id_name() { value } else { old.node(id).id@ })
    &&& new.node(id).class_name@ == (if name == class_attr_name() { value } else { old.node(id).class_name@ })
    &&& new.node(id).tag_name@ == old.node(id).tag_name@
    &&& new.node(id).text_content@ == old.node(id).text_content@
    &&& new.node(id).style@ == old.node(id).style@
    &&& new.node(id).dataset@ == old.node(id).dataset@
    &&& new.node(id).image == old.node(id).image
    &&& new.node(id).children@ == old.node(id).children@
    &&& new.node(id).parent == old.node(id).parent
}

/// `tokens` without any copy of `t`.
pub open spec fn without(ts: Seq<Seq<char>>, t: Seq<char>) -> Seq<Seq<char>>
    decreases ts.len(),
{
    if ts.len() == 0 {
        Seq::empty()
    } else {
        let r = without(ts.drop_last(), t);
        if ts.last() == t {
            r
        } else {
            r.push(ts.last())
        }
    }
}

/// The class attribute after `classList.add(token)`.
pub open spec fn class_added(class_name: Seq<char>, token: Seq<char>) -> Seq<char> {
    let ts = tokens(class_name);
    join(if ts.contains(token) { ts } else { ts.push(token) }, seq![' '])
}

/// The class attribute after `classList.remove(token)`.
pub open spec fn class_removed(class_name: Seq<char>, token: Seq<char>) -> Seq<char> {
    join(without(tokens(class_name), token), seq![' '])
}

pub proof fn lemma_wf_update(old: Dom, new: Dom, id: int)
    requires
        old.wf(),
        0 <= id < old.len(),
        new.elements@.len() == old.elements@.len(),
        forall|j: int| 0 <= j < old.len() && j != id ==> #[trigger] new.elements@[j] == old.elements@[j],
        new.elements@[id].wf(old.len()),
    ensures
        new.wf(),
{
    assert forall|j: int| 0 <= j < new.elements@.len() implies #[trigger] new.elements@[j].wf(
        new.elements@.len(),
    ) by {
        if j != id {
            assert(old.elements@[j].wf(old.len()));
        }
    }
}

impl Dom {
    /// `getAttribute(name)` on element `id`.
    pub fn get_attribute(&self, id: usize, name: &str) -> (r: Option<String>)
        requires
            self.wf(),
            id < self.len(),
        ensures
            match r {
                Some(v) => self.node(id as int).attributes.get_spec(name@) == Some(v@),
                None => self.node(id as int).attributes.get_spec(name@) is None,
            },
    {
        assert(self.elements@[id as int].wf(self.len()));
        self.elements[id].attributes.get(name)
    }

    /// `hasAttribute(name)` on element `id`.
    pub fn has_attribute(&self, id: usize, name: &str) -> (b: bool)
        requires
            self.wf(),
            id < self.len(),
        ensures
            b == self.node(id as int).attributes.get_spec(name@) is Some,
    {
        self.get_attribute(id, name).is_some()
    }

    /// `setAttribute(name, value)` on element `id`; `id` and `class` are
    /// also written to the element's `id` and `className`.
    pub fn set_attribute(&mut self, id: usize, name: &str, value: &str)
        requires
            old(self).wf(),
            id < old(self).len(),
        ensures
            attribute_written(*old(self), *final(self), id as int, name@, value@),
    {
        let ghost old_dom = *self;
        assert(self.elements@[id as int].wf(self.len()));
        self.elements[id].attributes.insert(name, value);
        let n = chars_of(name);
        let id_lit: [char; 2] = ['i', 'd'];
        let class_lit: [char; 5] = ['c', 'l', 'a', 's', 's'];
        assert(id_lit@ == id_name());
        assert(class_lit@ == class_attr_name());
        if eq_chars(&n, &id_lit) {
            self.elements[id].id = value.to_owned();
        } else if eq_chars(&n, &class_lit) {
            self.elements[id].class_name = value.to_owned();
        }
        proof {
            lemma_wf_update(old_dom, *self, id as int);
        }
    }

    /// Drops attribute `name` of element `id` (the `checked = false`
    /// reflection uses it).
    pub fn remove_attribute(&mut self, id: usize, name: &str)
        requires
            old(self).wf(),
            id < old(self).len(),
        ensures
            final(self).wf(),
            final(self).len() == old(self).len(),
            forall|j: int| 0 <= j < old(self).len() && j != id ==> #[trigger] final(self).node(j) == old(self).node(j),
            final(self).node(id as int).attributes.get_spec(name@) is None,
            forall|k: Seq<char>| k != name@ ==> final(self).node(id as int).attributes.get_spec(k)
                == old(self).node(id as int).attributes.get_spec(k),
            same_fields_but_attributes(final(self).node(id as int), old(self).node(id as int)),
    {
        let ghost old_dom = *self;
        assert(self.elements@[id as int].wf(self.len()));
        self.elements[id].attributes.remove(name);
        proof {
            lemma_wf_update(old_dom, *self, id as int);
        }
    }

    /// `classList.contains(token)`.
    pub fn class_list_contains(&self, id: usize, token: &str) -> (b: bool)
        requires
            self.wf(),
            id < self.len(),
        ensures
            b == tokens(self.node(id as int).class_name@).contains(token@),
    {
        let cs = chars_of(self.elements[id].class_name.as_str());
        let toks = tokens_exec(&cs);
        let t = chars_of(token);
        contains_token(&toks, &t)
    }

    /// `classList.add(token)`: the token is appended unless present, and
    /// the re-joined list is written back as the `class` attribute.
    pub fn class_list_add(&mut self, id: usize, token: &str)
        requires
            old(self).wf(),
            id < old(self).len(),
        ensures
            attribute_written(
                *old(self),
                *final(self),
                id as int,
                class_attr_name(),
                class_added(old(self).node(id as int).class_name@, token@),
            ),
    {
        let cs = chars_of(self.elements[id].class_name.as_str());
        let mut toks = tokens_exec(&cs);
        let t = chars_of(token);
        if !contains_token(&toks, &t) {
            let ghost prev = views(toks@);
            toks.push(t);
            assert(views(toks@) =~= prev.push(token@));
        }
        let sep: [char; 1] = [' '];
        let joined = join_exec(&toks, &sep);
        assert(sep@ == seq![' ']);
        let s = string_of(&joined);
        let class_key = "class";
        proof {
            reveal_strlit("class");
        }
        assert(class_key@ =~= class_attr_name());
        self.set_attribute(id, class_key, s.as_str());
    }

    /// `classList.remove(token)`: every copy of the token is dropped and the
    /// re-joined list is written back as the `class` attribute.
    pub fn class_list_remove(&mut self, id: usize, token: &str)
        requires
            old(self).wf(),
            id < old(self).len(),
        ensures
            attribute_written(
                *old(self),
                *final(self),
                id as int,
                class_attr_name(),
                class_removed(old(self).node(id as int).class_name@, token@),
            ),
    {
        let cs = chars_of(self.elements[id].class_name.as_str());
        let toks = tokens_exec(&cs);
        let t = chars_of(token);
        let kept = without_exec(&toks, &t);
        let sep: [char; 1] = [' '];
        let joined = join_exec(&kept, &sep);
        assert(sep@ == seq![' ']);
        let s = string_of(&joined);
        let class_key = "class";
        proof {
            reveal_strlit("class");
        }
        assert(class_key@ =~= class_attr_name());
        self.set_attribute(id, class_key, s.as_str());
    }

    /// `classList.toggle(token)`: removes the token when present, adds it
    /// otherwise; returns whether it is present afterwards.
    pub fn class_list_toggle(&mut self, id: usize, token: &str) -> (present: bool)
        requires
            old(self).wf(),
            id < old(self).len(),
        ensures
            present == !tokens(old(self).node(id as int).class_name@).contains(token@),
            attribute_written(
                *old(self),
                *final(self),
                id as int,
                class_attr_name(),
                if present {
                    class_added(old(self).node(id as int).class_name@, token@)
                } else {
                    class_removed(old(self).node(id as int).class_name@, token@)
                },
            ),
    {
        let was = self.class_list_contains(id, token);
        if was {
            self.class_list_remove(id, token);
        } else {
            self.class_list_add(id, token);
        }
        !was
    }
}

/// Everything but the attribute map is equal.
pub open spec fn same_fields_but_attributes(a: DomElement, b: DomElement) -> bool {
    &&& a.tag_name@ == b.tag_name@
    &&& a.id@ == b.id@
    &&& a.class_name@ == b.class_name@
    &&& a.text_content@ == b.text_content@
    &&& a.style@ == b.style@
    &&& a.dataset@ == b.dataset@
    &&& a.image == b.image
    &&& a.children@ == b.children@
    &&& a.parent == b.parent
}

fn contains_token(toks: &Vec<Vec<char>>, t: &Vec<char>) -> (b: bool)
    ensures
        b == views(toks@).contains(t@),
{
    let mut k: usize = 0;
    while k < toks.len()
        invariant
            k <= toks@.len(),
            forall|j: int| 0 <= j < k ==> views(toks@)[j] != t@,
        decreases toks@.len() - k,
    {
        if eq_chars(&toks[k], t) {
            assert(views(toks@)[k as int] == t@);
            return true;
        }
        k = k + 1;
    }
    proof {
        if views(toks@).contains(t@) {
            let j = choose|j: int| 0 <= j < views(toks@).len() && views(toks@)[j] == t@;
            assert(views(toks@)[j] != t@);
        }
    }
    false
}

fn without_exec(toks: &Vec<Vec<char>>, t: &Vec<char>) -> (r: Vec<Vec<char>>)
    ensures
        views(r@) == without(views(toks@), t@),
{
    let mut r: Vec<Vec<char>> = Vec::new();
    let mut k: usize = 0;
    while k < toks.len()
        invariant
            k <= toks@.len(),
            views(r@) == without(views(toks@).take(k as int), t@),
        decreases toks@.len() - k,
    {
        proof {
            let s = views(toks@).take(k + 1);
            assert(s.drop_last() == views(toks@).take(k as int));
            assert(s.last() == toks@[k as int]@);
        }
        if !eq_chars(&toks[k], t) {
            let c = copy_chars(&toks[k]);
            let ghost prev = views(r@);
            r.push(c);
            assert(views(r@) =~= prev.push(c@));
        }
        k = k + 1;
    }
    assert(views(toks@).take(toks@.len() as int) == views(toks@));
    r
}

fn copy_chars(v: &Vec<char>) -> (r: Vec<char>)
    ensures
        r@ == v@,
{
    let mut r: Vec<char> = Vec::new();
    crate::text::append_chars(&mut r, v);
    r
}

} // verus!

verus! {

/// The state change of `appendChild(child)` on `parent`.
pub open spec fn appended(old: Dom, new: Dom, parent: int, child: usize) -> bool {
    relinked(
        old,
        new,
        map![parent => old.node(parent).children@.push(child)],
        map![child as int => Some(parent as usize)],
    )
}

/// The state change of `removeChild(child)` on `parent`: the first copy of
/// `child` leaves the child list and its parent slot is cleared; nothing
/// happens when `child` is not a child of `parent`.
pub open spec fn removed(old: Dom, new: Dom, parent: int, child: usize) -> bool {
    let k = first_pos(old.node(parent).children@, child);
    if k < 0 {
        relinked(old, new, Map::empty(), Map::empty())
    } else {
        relinked(
            old,
            new,
            map![parent => old.node(parent).children@.remove(k)],
            map![child as int => None],
        )
    }
}

/// The state change of `insertBefore(node, reference)` on `parent`.
pub open spec fn inserted(old: Dom, new: Dom, parent: int, node: usize, reference: Option<usize>) -> bool {
    match reference {
        None => appended(old, new, parent, node),
        Some(r) => {
            let k = first_pos(old.node(parent).children@, r);
            if k < 0 {
                relinked(old, new, Map::empty(), Map::empty())
            } else {
                relinked(
                    old,
                    new,
                    map![parent => old.node(parent).children@.insert(k, node)],
                    map![node as int => Some(parent as usize)],
                )
            }
        },
    }
}

/// The state change of `replaceChild(new_child, old_child)` on `parent`:
/// `new_child` takes the slot of the first copy of `old_child`, gets
/// `parent` as its parent, and then `old_child`'s parent slot is cleared.
pub open spec fn replaced(old: Dom, new: Dom, parent: int, new_child: usize, old_child: usize) -> bool {
    let k = first_pos(old.node(parent).children@, old_child);
    if k < 0 {
        relinked(old, new, Map::empty(), Map::empty())
    } else {
        relinked(
            old,
            new,
            map![parent => old.node(parent).children@.update(k, new_child)],
            map![new_child as int => Some(parent as usize)].insert(old_child as int, None),
        )
    }
}

impl Dom {
    /// `appendChild(child)` on `parent`; returns `child`.
    pub fn append_child(&mut self, parent: usize, child: usize) -> (r: usize)
        requires
            old(self).wf(),
            parent < old(self).len(),
            child < old(self).len(),
        ensures
            r == child,
            appended(*old(self), *final(self), parent as int, child),
    {
        let ghost d0 = *self;
        self.elements[parent].children.push(child);
        let ghost d1 = *self;
        proof {
            assert(d0.elements@[parent as int].wf(d0.len()));
            assert(d1.elements@[parent as int].wf(d0.len()));
            lemma_wf_update(d0, d1, parent as int);
        }
        self.elements[child].parent = Some(parent);
        proof {
            assert(d1.elements@[child as int].wf(d1.len()));
            lemma_wf_update(d1, *self, child as int);
        }
        child
    }

    /// `removeChild(child)` on `parent`; returns `child`.
    pub fn remove_child(&mut self, parent: usize, child: usize) -> (r: usize)
        requires
            old(self).wf(),
            parent < old(self).len(),
            child < old(self).len(),
        ensures
            r == child,
            removed(*old(self), *final(self), parent as int, child),
    {
        let ghost d0 = *self;
        match first_position(&self.elements[parent].children, child) {
            None => {},
            Some(k) => {
                self.elements[parent].children.remove(k);
                let ghost d1 = *self;
                proof {
                    assert(d0.elements@[parent as int].wf(d0.len()));
                    assert(d1.elements@[parent as int].children@ == d0.elements@[parent as int].children@.remove(k as int));
                    assert forall|i: int| 0 <= i < d1.elements@[parent as int].children@.len() implies
                        #[trigger] d1.elements@[parent as int].children@[i] < d0.len() by {
                        if i >= k {
                            assert(d1.elements@[parent as int].children@[i] == d0.elements@[parent as int].children@[i + 1]);
                        } else {
                            assert(d1.elements@[parent as int].children@[i] == d0.elements@[parent as int].children@[i]);
                        }
                    }
                    lemma_wf_update(d0, d1, parent as int);
                }
                self.elements[child].parent = None;
                proof {
                    assert(d1.elements@[child as int].wf(d1.len()));
                    lemma_wf_update(d1, *self, child as int);
                }
            },
        }
        child
    }

    /// `insertBefore(node, reference)` on `parent`; a missing reference
    /// appends.  Returns `node`.
    pub fn insert_before(&mut self, parent: usize, node: usize, reference: Option<usize>) -> (r: usize)
        requires
            old(self).wf(),
            parent < old(self).len(),
            node < old(self).len(),
        ensures
            r == node,
            inserted(*old(self), *final(self), parent as int, node, reference),
    {
        match reference {
            None => self.append_child(parent, node),
            Some(rf) => self.insert_before_reference(parent, node, rf),
        }
    }

    /// `insertBefore(node, reference)` on `parent` with a reference given:
    /// nothing happens when the reference is not a child of `parent`.
    fn insert_before_reference(&mut self, parent: usize, node: usize, rf: usize) -> (r: usize)
        requires
            old(self).wf(),
            parent < old(self).len(),
            node < old(self).len(),
        ensures
            r == node,
            inserted(*old(self), *final(self), parent as int, node, Some(rf)),
    {
        let ghost d0 = *self;
        match first_position(&self.elements[parent].children, rf) {
            None => {},
            Some(k) => {
                self.elements[parent].children.insert(k, node);
                let ghost d1 = *self;
                proof {
                    assert(d0.elements@[parent as int].wf(d0.len()));
                    assert(d1.elements@[parent as int].children@ == d0.elements@[parent as int].children@.insert(k as int, node));
                    assert forall|i: int| 0 <= i < d1.elements@[parent as int].children@.len() implies
                        #[trigger] d1.elements@[parent as int].children@[i] < d0.len() by {
                        if i > k {
                            assert(d1.elements@[parent as int].children@[i] == d0.elements@[parent as int].children@[i - 1]);
                        } else if i < k {
                            assert(d1.elements@[parent as int].children@[i] == d0.elements@[parent as int].children@[i]);
                        }
                    }
                    lemma_wf_update(d0, d1, parent as int);
                }
                self.elements[node].parent = Some(parent);
                proof {
                    assert(d1.elements@[node as int].wf(d1.len()));
                    lemma_wf_update(d1, *self, node as int);
                }
            },
        }
        node
    }

    /// `replaceChild(new_child, old_child)` on `parent`; returns
    /// `old_child`.
    pub fn replace_child(&mut self, parent: usize, new_child: usize, old_child: usize) -> (r: usize)
        requires
            old(self).wf(),
            parent < old(self).len(),
            new_child < old(self).len(),
            old_child < old(self).len(),
        ensures
            r == old_child,
            replaced(*old(self), *final(self), parent as int, new_child, old_child),
    {
        let ghost d0 = *self;
        match first_position(&self.elements[parent].children, old_child) {
            None => {},
            Some(k) => {
                self.elements[parent].children.set(k, new_child);
                let ghost d1 = *self;
                proof {
                    assert(d0.elements@[parent as int].wf(d0.len()));
                    assert(d1.elements@[parent as int].children@ == d0.elements@[parent as int].children@.update(k as int, new_child));
                    assert forall|i: int| 0 <= i < d1.elements@[parent as int].children@.len() implies
                        #[trigger] d1.elements@[parent as int].children@[i] < d0.len() by {
                        if i != k {
                            assert(d1.elements@[parent as int].children@[i] == d0.elements@[parent as int].children@[i]);
                        }
                    }
                    lemma_wf_update(d0, d1, parent as int);
                }
                self.elements[new_child].parent = Some(parent);
                let ghost d2 = *self;
                proof {
                    assert(d1.elements@[new_child as int].wf(d1.len()));
                    lemma_wf_update(d1, d2, new_child as int);
                }
                self.elements[old_child].parent = None;
                proof {
                    assert(d2.elements@[old_child as int].wf(d2.len()));
                    lemma_wf_update(d2, *self, old_child as int);
                }
            },
        }
        old_child
    }

    /// `element.remove()`: detaches `id` from the element its parent slot
    /// names (nothing happens when the slot is empty).
    pub fn remove(&mut self, id: usize)
        requires
            old(self).wf(),
            id < old(self).len(),
        ensures
            match old(self).node(id as int).parent {
                None => relinked(*old(self), *final(self), Map::empty(), Map::empty()),
                Some(p) => removed(*old(self), *final(self), p as int, id),
            },
    {
        match self.elements[id].parent {
            None => {},
            Some(p) => {
                assert(self.elements@[id as int].wf(self.len()));
                self.remove_child(p, id);
            },
        }
    }

    /// `parentElement` / `parentNode` of `id`.
    pub fn parent_element(&self, id: usize) -> (r: Option<usize>)
        ensures
            r == self.parent_of(id as int),
    {
        self.parent_exec(id)
    }

    /// `firstElementChild` of `id`.
    pub fn first_element_child(&self, id: usize) -> (r: Option<usize>)
        requires
            id < self.len(),
        ensures
            r == (if self.node(id as int).children@.len() > 0 {
                Some(self.node(id as int).children@[0])
            } else {
                None
            }),
    {
        if self.elements[id].children.len() > 0 {
            Some(self.elements[id].children[0])
        } else {
            None
        }
    }

    /// `lastElementChild` of `id`.
    pub fn last_element_child(&self, id: usize) -> (r: Option<usize>)
        requires
            id < self.len(),
        ensures
            r == (if self.node(id as int).children@.len() > 0 {
                Some(self.node(id as int).children@.last())
            } else {
                None
            }),
    {
        let n = self.elements[id].children.len();
        if n > 0 {
            Some(self.elements[id].children[n - 1])
        } else {
            None
        }
    }

    /// `previousElementSibling` of `id`.
    pub fn previous_element_sibling(&self, id: usize) -> (r: Option<usize>)
        requires
            self.wf(),
        ensures
            r == prev_sibling(*self, id),
    {
        prev_sibling_exec(self, id)
    }

    /// `nextElementSibling` of `id`.
    pub fn next_element_sibling(&self, id: usize) -> (r: Option<usize>)
        requires
            self.wf(),
        ensures
            r == next_sibling(*self, id),
    {
        next_sibling_exec(self, id)
    }
}

pub open spec fn value_name() -> Seq<char> {
    seq!['v', 'a', 'l', 'u', 'e']
}

pub open spec fn checked_name() -> Seq<char> {
    seq!['c', 'h', 'e', 'c', 'k', 'e', 'd']
}

impl Dom {
    /// A property that reflects attribute `name`: its value, or the empty
    /// string when it is absent (`input.value`, `img.src`, `img.alt`).
    pub fn reflected(&self, id: usize, name: &str) -> (r: String)
        requires
            self.wf(),
            id < self.len(),
        ensures
            r@ == match self.node(id as int).attributes.get_spec(name@) {
                Some(v) => v,
                None => Seq::<char>::empty(),
            },
    {
        match self.get_attribute(id, name) {
            Some(v) => v,
            None => String::new(),
        }
    }

    /// `input.value` (read): the `value` attribute, or empty.
    pub fn value(&self, id: usize) -> (r: String)
        requires
            self.wf(),
            id < self.len(),
        ensures
            r@ == match self.node(id as int).attributes.get_spec(value_name()) {
                Some(v) => v,
                None => Seq::<char>::empty(),
            },
    {
        let key = "value";
        proof {
            reveal_strlit("value");
        }
        assert(key@ =~= value_name());
        self.reflected(id, key)
    }

    /// `input.value = text`: writes the `value` attribute.
    pub fn set_value(&mut self, id: usize, text: &str)
        requires
            old(self).wf(),
            id < old(self).len(),
        ensures
            attribute_written(*old(self), *final(self), id as int, value_name(), text@),
    {
        let key = "value";
        proof {
            reveal_strlit("value");
        }
        assert(key@ =~= value_name());
        self.set_attribute(id, key, text);
    }

    /// `input.checked` (read): whether the `checked` attribute is present.
    pub fn checked(&self, id: usize) -> (b: bool)
        requires
            self.wf(),
            id < self.len(),
        ensures
            b == self.node(id as int).attributes.get_spec(checked_name()) is Some,
    {
        let key = "checked";
        proof {
            reveal_strlit("checked");
        }
        assert(key@ =~= checked_name());
        self.has_attribute(id, key)
    }

    /// `input.checked = on`: a true value writes an empty `checked`
    /// attribute, a false one removes it.
    pub fn set_checked(&mut self, id: usize, on: bool)
        requires
            old(self).wf(),
            id < old(self).len(),
        ensures
            final(self).wf(),
            final(self).len() == old(self).len(),
            forall|j: int| 0 <= j < old(self).len() && j != id ==> #[trigger] final(self).node(j) == old(self).node(j),
            final(self).node(id as int).attributes.get_spec(checked_name()) == (if on {
                Some(Seq::<char>::empty())
            } else {
                None
            }),
            forall|k: Seq<char>| k != checked_name() ==> final(self).node(id as int).attributes.get_spec(k)
                == old(self).node(id as int).attributes.get_spec(k),
            same_fields_but_attributes(final(self).node(id as int), old(self).node(id as int)),
    {
        let key = "checked";
        proof {
            reveal_strlit("checked");
        }
        assert(key@ =~= checked_name());
        if on {
            self.set_attribute(id, key, "");
            proof {
                reveal_strlit("");
            }
        } else {
            self.remove_attribute(id, key);
        }
    }
}

impl Dom {
    /// `element.style[name]` (read).
    pub fn style_property(&self, id: usize, name: &str) -> (r: Option<String>)
        requires
            self.wf(),
            id < self.len(),
        ensures
            match r {
                Some(v) => self.node(id as int).style.get_spec(name@) == Some(v@),
                None => self.node(id as int).style.get_spec(name@) is None,
            },
    {
        assert(self.elements@[id as int].wf(self.len()));
        self.elements[id].style.get(name)
    }

    /// `element.style[name] = value`: only the inline style changes.
    pub fn set_style_property(&mut self, id: usize, name: &str, value: &str)
        requires
            old(self).wf(),
            id < old(self).len(),
        ensures
            final(self).wf(),
            final(self).len() == old(self).len(),
            forall|j: int| 0 <= j < old(self).len() && j != id ==> #[trigger] final(self).node(j) == old(self).node(j),
            final(self).node(id as int).style.get_spec(name@) == Some(value@),
            forall|k: Seq<char>| k != name@ ==> final(self).node(id as int).style.get_spec(k)
                == old(self).node(id as int).style.get_spec(k),
            final(self).node(id as int) == (DomElement { style: final(self).node(id as int).style, ..old(self).node(id as int) }),
    {
        let ghost d0 = *self;
        assert(self.elements@[id as int].wf(self.len()));
        self.elements[id].style.insert(name, value);
        proof {
            lemma_wf_update(d0, *self, id as int);
        }
    }

    /// The inline style becomes exactly `pairs` (what a script left on the
    /// element's `style` object, a later pair overriding an earlier one
    /// with the same name): only the inline style changes.
    pub fn replace_style(&mut self, id: usize, pairs: &Vec<(String, String)>)
        requires
            old(self).wf(),
            id < old(self).len(),
        ensures
            final(self).wf(),
            final(self).len() == old(self).len(),
            forall|j: int| 0 <= j < old(self).len() && j != id ==> #[trigger] final(self).node(j) == old(self).node(j),
            forall|k: Seq<char>| #[trigger] final(self).node(id as int).style.get_spec(k)
                == last_value(pair_views(pairs@), k),
            final(self).node(id as int) == (DomElement { style: final(self).node(id as int).style, ..old(self).node(id as int) }),
    {
        let ghost d0 = *self;
        assert(self.elements@[id as int].wf(self.len()));
        let m = StrMap::from_pairs(pairs);
        self.elements[id].style = m;
        proof {
            lemma_wf_update(d0, *self, id as int);
        }
    }

    /// `element.dataset[key]` (read).
    pub fn dataset_value(&self, id: usize, key: &str) -> (r: Option<String>)
        requires
            self.wf(),
            id < self.len(),
        ensures
            match r {
                Some(v) => self.node(id as int).dataset.get_spec(key@) == Some(v@),
                None => self.node(id as int).dataset.get_spec(key@) is None,
            },
    {
        assert(self.elements@[id as int].wf(self.len()));
        self.elements[id].dataset.get(key)
    }

    /// `element.dataset[key] = value`: only the dataset changes (it is a
    /// snapshot, not a view of the attributes).
    pub fn set_dataset_value(&mut self, id: usize, key: &str, value: &str)
        requires
            old(self).wf(),
            id < old(self).len(),
        ensures
            final(self).wf(),
            final(self).len() == old(self).len(),
            forall|j: int| 0 <= j < old(self).len() && j != id ==> #[trigger] final(self).node(j) == old(self).node(j),
            final(self).node(id as int).dataset.get_spec(key@) == Some(value@),
            forall|k: Seq<char>| k != key@ ==> final(self).node(id as int).dataset.get_spec(k)
                == old(self).node(id as int).dataset.get_spec(k),
            final(self).node(id as int) == (DomElement { dataset: final(self).node(id as int).dataset, ..old(self).node(id as int) }),
    {
        let ghost d0 = *self;
        assert(self.elements@[id as int].wf(self.len()));
        self.elements[id].dataset.insert(key, value);
        proof {
            lemma_wf_update(d0, *self, id as int);
        }
    }
}

impl Dom {
    /// The dataset becomes exactly `pairs` (what a script left on the
    /// element's `dataset` object, a later pair overriding an earlier one
    /// with the same key): only the dataset changes.
    pub fn replace_dataset(&mut self, id: usize, pairs: &Vec<(String, String)>)
        requires
            old(self).wf(),
            id < old(self).len(),
        ensures
            final(self).wf(),
            final(self).len() == old(self).len(),
            forall|j: int| 0 <= j < old(self).len() && j != id ==> #[trigger] final(self).node(j) == old(self).node(j),
            forall|k: Seq<char>| #[trigger] final(self).node(id as int).dataset.get_spec(k)
                == last_value(pair_views(pairs@), k),
            final(self).node(id as int) == (DomElement { dataset: final(self).node(id as int).dataset, ..old(self).node(id as int) }),
    {
        let ghost d0 = *self;
        assert(self.elements@[id as int].wf(self.len()));
        let m = StrMap::from_pairs(pairs);
        self.elements[id].dataset = m;
        proof {
            lemma_wf_update(d0, *self, id as int);
        }
    }
}

impl Dom {
    /// `element.textContent = text`: the stored text changes; the child
    /// list does not (text is kept apart from the element children).
    pub fn set_text_content(&mut self, id: usize, text: &str)
        requires
            old(self).wf(),
            id < old(self).len(),
        ensures
            final(self).wf(),
            final(self).len() == old(self).len(),
            forall|j: int| 0 <= j < old(self).len() && j != id ==> #[trigger] final(self).node(j) == old(self).node(j),
            final(self).node(id as int).text_content@ == text@,
            final(self).node(id as int) == (DomElement { text_content: final(self).node(id as int).text_content, ..old(self).node(id as int) }),
    {
        let ghost d0 = *self;
        assert(self.elements@[id as int].wf(self.len()));
        self.elements[id].text_content = text.to_owned();
        proof {
            lemma_wf_update(d0, *self, id as int);
        }
    }
}

impl Dom {
    /// `img.naturalWidth`, `img.naturalHeight` and `img.complete`.
    pub fn image_state(&self, id: usize) -> (s: ImageState)
        requires
            id < self.len(),
        ensures
            s == self.node(id as int).image,
    {
        self.elements[id].image
    }

    /// The host reports the decoded size of the image `id` shows.
    pub fn set_natural_size(&mut self, id: usize, width: u32, height: u32)
        requires
            old(self).wf(),
            id < old(self).len(),
        ensures
            final(self).wf(),
            final(self).len() == old(self).len(),
            forall|j: int| 0 <= j < old(self).len() && j != id ==> #[trigger] final(self).node(j) == old(self).node(j),
            final(self).node(id as int) == (DomElement {
                image: ImageState { natural_width: width, natural_height: height, ..old(self).node(id as int).image },
                ..old(self).node(id as int)
            }),
    {
        let ghost d0 = *self;
        assert(self.elements@[id as int].wf(self.len()));
        self.elements[id].image.natural_width = width;
        self.elements[id].image.natural_height = height;
        proof {
            lemma_wf_update(d0, *self, id as int);
        }
    }

    /// The host reports whether the image `id` shows has loaded.
    pub fn set_complete(&mut self, id: usize, complete: bool)
        requires
            old(self).wf(),
            id < old(self).len(),
        ensures
            final(self).wf(),
            final(self).len() == old(self).len(),
            forall|j: int| 0 <= j < old(self).len() && j != id ==> #[trigger] final(self).node(j) == old(self).node(j),
            final(self).node(id as int) == (DomElement {
                image: ImageState { complete, ..old(self).node(id as int).image },
                ..old(self).node(id as int)
            }),
    {
        let ghost d0 = *self;
        assert(self.elements@[id as int].wf(self.len()));
        self.elements[id].image.complete = complete;
        proof {
            lemma_wf_update(d0, *self, id as int);
        }
    }
}

} // verus!
