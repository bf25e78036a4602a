//! `element.cloneNode(deep)`: a new detached element with the same tag,
//! `id`, `className`, `textContent`, attributes and inline style; with
//! `deep`, every descendant is cloned too and the clones become the new
//! element's children.

use vstd::prelude::*;
use crate::dom::{Dom, DomElement};
use crate::element::same_fields;

verus! {

/// Element `c` of `d`, and the elements below it, are clones of element
/// `s` of `src` going `depth` levels down: same fields, and children that
/// are clones, in order, of `s`'s children, each with `c` as its parent.
pub open spec fn clone_of(d: Dom, c: int, src: Dom, s: int, depth: nat) -> bool
    decreases depth,
{
    &&& 0 <= c < d.len()
    &&& 0 <= s < src.len()
    &&& same_fields(d.node(c), src.node(s))
    &&& if depth == 0 {
        d.node(c).children@.len() == 0
    } else {
        let ks = src.node(s).children@;
        &&& d.node(c).children@.len() == ks.len()
        &&& forall|i: int|
            0 <= i < ks.len() ==> {
                let ci = #[trigger] d.node(c).children@[i];
                &&& c < ci
                &&& d.node(ci as int).parent == Some(c as usize)
                &&& clone_of(d, ci as int, src, ks[i] as int, (depth - 1) as nat)
            }
    }
}

pub proof fn lemma_clone_frame(d: Dom, d2: Dom, c: int, src: Dom, s: int, depth: nat)
    requires
        clone_of(d, c, src, s, depth),
        d2.len() >= d.len(),
        forall|j: int| c <= j < d.len() ==> #[trigger] d2.node(j) == d.node(j),
    ensures
        clone_of(d2, c, src, s, depth),
    decreases depth,
{
    if depth > 0 {
        let ks = src.node(s).children@;
        assert forall|i: int| 0 <= i < ks.len() implies {
            let ci = #[trigger] d2.node(c).children@[i];
            &&& c < ci
            &&& d2.node(ci as int).parent == Some(c as usize)
            &&& clone_of(d2, ci as int, src, ks[i] as int, (depth - 1) as nat)
        } by {
            let ci = d.node(c).children@[i];
            assert(clone_of(d, ci as int, src, ks[i] as int, (depth - 1) as nat));
            assert(d2.node(ci as int) == d.node(ci as int));
            lemma_clone_frame(d, d2, ci as int, src, ks[i] as int, (depth - 1) as nat);
        }
    }
}

impl Dom {
    fn copy_element(&self, s: usize, parent: Option<usize>) -> (e: DomElement)
        requires
            self.wf(),
            s < self.len(),
        ensures
            same_fields(e, self.node(s as int)),
            e.children@.len() == 0,
            e.parent == parent,
            e.attributes.wf(),
            e.style.wf(),
            e.dataset.wf(),
    {
        assert(self.elements@[s as int].wf(self.len()));
        let src = &self.elements[s];
        DomElement {
            tag_name: src.tag_name.clone(),
            id: src.id.clone(),
            class_name: src.class_name.clone(),
            text_content: src.text_content.clone(),
            attributes: src.attributes.duplicate(),
            style: src.style.duplicate(),
            dataset: src.dataset.duplicate(),
            children: Vec::new(),
            parent,
            image: src.image,
        }
    }

    fn clone_below(&mut self, s: usize, parent: Option<usize>, depth: usize, src: Ghost<Dom>) -> (c: usize)
        requires
            old(self).wf(),
            s < src@.len(),
            src@.wf(),
            src@.len() <= old(self).len(),
            forall|j: int| 0 <= j < src@.len() ==> #[trigger] old(self).node(j) == src@.node(j),
            match parent {
                Some(p) => p < old(self).len(),
                None => true,
            },
        ensures
            final(self).wf(),
            c == old(self).len(),
            final(self).len() > old(self).len(),
            forall|j: int| 0 <= j < old(self).len() ==> #[trigger] final(self).node(j) == old(self).node(j),
            clone_of(*final(self), c as int, src@, s as int, depth as nat),
            final(self).node(c as int).parent == parent,
        decreases depth,
    {
        let e = self.copy_element(s, parent);
        assert(e.wf((self.len() + 1) as nat));
        let c = self.add_element(e);
        if depth > 0 {
            assert(self.elements@[s as int].wf(self.len()));
            let ks = self.elements[s].children.clone();
            assert(ks@ == src@.node(s as int).children@);
            let mut i: usize = 0;
            while i < ks.len()
                invariant
                    self.wf(),
                    c == old(self).len(),
                    self.len() > c,
                    depth > 0,
                    i <= ks@.len(),
                    ks@ == src@.node(s as int).children@,
                    src@.len() <= old(self).len(),
                    src@.wf(),
                    s < src@.len(),
                    forall|j: int| 0 <= j < old(self).len() ==> #[trigger] self.node(j) == old(self).node(j),
                    forall|j: int| 0 <= j < src@.len() ==> #[trigger] old(self).node(j) == src@.node(j),
                    same_fields(self.node(c as int), src@.node(s as int)),
                    self.node(c as int).parent == parent,
                    self.node(c as int).children@.len() == i,
                    forall|k: int|
                        0 <= k < i ==> {
                            let ck = #[trigger] self.node(c as int).children@[k];
                            &&& c < ck
                            &&& self.node(ck as int).parent == Some(c)
                            &&& clone_of(*self, ck as int, src@, ks@[k] as int, (depth - 1) as nat)
                        },
                decreases ks@.len() - i,
            {
                let ghost d0 = *self;
                let k = ks[i];
                assert(src@.elements@[s as int].wf(src@.len()));
                let ck = self.clone_below(k, Some(c), depth - 1, src);
                let ghost d1 = *self;
                proof {
                    assert(d1.node(c as int) == d0.node(c as int));
                }
                self.elements[c].children.push(ck);
                proof {
                    assert(d1.elements@[c as int].wf(d1.len()));
                    crate::element::lemma_wf_update(d1, *self, c as int);
                    let d2 = *self;
                    assert forall|j: int| 0 <= j < old(self).len() implies #[trigger] d2.node(j) == old(self).node(j) by {
                        assert(d2.node(j) == d1.node(j));
                        assert(d1.node(j) == d0.node(j));
                    }
                    assert forall|m: int| 0 <= m < i + 1 implies {
                        let cm = #[trigger] d2.node(c as int).children@[m];
                        &&& c < cm
                        &&& d2.node(cm as int).parent == Some(c)
                        &&& clone_of(d2, cm as int, src@, ks@[m] as int, (depth - 1) as nat)
                    } by {
                        let cm = d2.node(c as int).children@[m];
                        if m < i {
                            assert(cm == d0.node(c as int).children@[m]);
                            assert(clone_of(d0, cm as int, src@, ks@[m] as int, (depth - 1) as nat));
                            assert forall|j: int| cm <= j < d0.len() implies #[trigger] d1.node(j) == d0.node(j) by {}
                            lemma_clone_frame(d0, d1, cm as int, src@, ks@[m] as int, (depth - 1) as nat);
                            assert forall|j: int| cm <= j < d1.len() implies #[trigger] d2.node(j) == d1.node(j) by {}
                            lemma_clone_frame(d1, d2, cm as int, src@, ks@[m] as int, (depth - 1) as nat);
                        } else {
                            assert(cm == ck);
                            assert forall|j: int| ck <= j < d1.len() implies #[trigger] d2.node(j) == d1.node(j) by {}
                            lemma_clone_frame(d1, d2, ck as int, src@, ks@[m] as int, (depth - 1) as nat);
                        }
                    }
                }
                i = i + 1;
            }
        }
        c
    }

    /// `element.cloneNode(deep)` on `id`: returns the index of the new,
    /// detached element.  Without `deep` it has no children.  With `deep`
    /// the walk down takes at most as many levels as there are elements,
    /// which reaches every descendant whenever the child lists form no
    /// cycle.
    pub fn clone_node(&mut self, id: usize, deep: bool) -> (c: usize)
        requires
            old(self).wf(),
            id < old(self).len(),
        ensures
            final(self).wf(),
            c == old(self).len(),
            forall|j: int| 0 <= j < old(self).len() ==> #[trigger] final(self).node(j) == old(self).node(j),
            final(self).node(c as int).parent is None,
            clone_of(
                *final(self),
                c as int,
                *old(self),
                id as int,
                if deep {
                    old(self).len()
                } else {
                    0
                },
            ),
    {
        let ghost src = *self;
        let depth = if deep {
            self.elements.len()
        } else {
            0
        };
        self.clone_below(id, None, depth, Ghost(src))
    }
}

} // verus!
