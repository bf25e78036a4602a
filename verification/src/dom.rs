//! The element tree that scripts see through `document`.
//!
//! Elements live in an arena and refer to each other by index.  Each one
//! carries what the script-side element object carries: `tagName`, `id`,
//! `className`, `textContent`, its attributes, its inline style, the list
//! of its element children (the `children` array) and the hidden parent
//! slot that `parentElement` reads.  As in the script engine, nothing ties
//! a child list to the parent slots of its members except the mutators
//! that keep them in step.

use vstd::prelude::*;
use crate::strmap::StrMap;

verus! {

/// One element.
pub struct DomElement {
    pub tag_name: String,
    pub id: String,
    pub class_name: String,
    pub text_content: String,
    pub attributes: StrMap,
    pub style: StrMap,
    /// `dataset`: the `data-*` attributes the element was built with.
    pub dataset: StrMap,
    pub children: Vec<usize>,
    pub parent: Option<usize>,
    /// What the host reported of the image the element shows.
    pub image: ImageState,
}

/// The load state of an image, as the host reports it after fetching and
/// decoding: `naturalWidth`, `naturalHeight` and `complete`.
#[derive(Clone, Copy, PartialEq, Eq, Structural, Debug)]
pub struct ImageState {
    pub natural_width: u32,
    pub natural_height: u32,
    pub complete: bool,
}

impl ImageState {
    /// Nothing loaded yet: both sizes zero, not complete.
    pub fn unloaded() -> (s: ImageState)
        ensures
            s == (ImageState { natural_width: 0, natural_height: 0, complete: false }),
    {
        ImageState { natural_width: 0, natural_height: 0, complete: false }
    }
}

/// The elements of a document, addressed by index.
pub struct Dom {
    pub elements: Vec<DomElement>,
}

impl DomElement {
    pub open spec fn wf(&self, n: nat) -> bool {
        &&& self.attributes.wf()
        &&& self.style.wf()
        &&& self.dataset.wf()
        &&& forall|i: int| 0 <= i < self.children@.len() ==> #[trigger] self.children@[i] < n
        &&& match self.parent {
            Some(p) => p < n,
            None => true,
        }
    }

    /// An element with the given tag and otherwise empty fields (what
    /// `document.createElement(tag)` produces).
    pub fn blank(tag: &str) -> (e: DomElement)
        ensures
            e.tag_name@ == tag@,
            e.id@ == Seq::<char>::empty(),
            e.class_name@ == Seq::<char>::empty(),
            e.text_content@ == Seq::<char>::empty(),
            e.attributes@ == Seq::<(Seq<char>, Seq<char>)>::empty(),
            e.style@ == Seq::<(Seq<char>, Seq<char>)>::empty(),
            e.dataset@ == Seq::<(Seq<char>, Seq<char>)>::empty(),
            e.children@ == Seq::<usize>::empty(),
            e.parent is None,
            e.image == (ImageState { natural_width: 0, natural_height: 0, complete: false }),
            e.wf(0),
    {
        DomElement {
            tag_name: tag.to_owned(),
            id: String::new(),
            class_name: String::new(),
            text_content: String::new(),
            attributes: StrMap::new(),
            style: StrMap::new(),
            dataset: StrMap::new(),
            children: Vec::new(),
            parent: None,
            image: ImageState::unloaded(),
        }
    }
}

pub proof fn lemma_element_wf_mono(e: DomElement, n: nat, m: nat)
    requires
        e.wf(n),
        n <= m,
    ensures
        e.wf(m),
{
}

impl Dom {
    pub open spec fn len(&self) -> nat {
        self.elements@.len()
    }

    pub open spec fn valid(&self, id: int) -> bool {
        0 <= id < self.elements@.len()
    }

    pub open spec fn node(&self, id: int) -> DomElement {
        self.elements@[id]
    }

    /// Every reference held by an element points at an element.
    pub open spec fn wf(&self) -> bool {
        forall|i: int| 0 <= i < self.elements@.len() ==> #[trigger] self.elements@[i].wf(
            self.elements@.len(),
        )
    }

    /// The parent slot of `id` (none for an index outside the arena).
    pub open spec fn parent_of(&self, id: int) -> Option<usize> {
        if self.valid(id) {
            self.node(id).parent
        } else {
            None
        }
    }

    /// The child list of `id` (empty for an index outside the arena).
    pub open spec fn children_of(&self, id: int) -> Seq<usize> {
        if self.valid(id) {
            self.node(id).children@
        } else {
            Seq::empty()
        }
    }

    pub fn new() -> (d: Dom)
        ensures
            d.wf(),
            d.len() == 0,
    {
        Dom { elements: Vec::new() }
    }

    pub fn size(&self) -> (n: usize)
        ensures
            n == self.len(),
    {
        self.elements.len()
    }

    /// Adds `e` to the arena and returns its index.
    pub fn add_element(&mut self, e: DomElement) -> (id: usize)
        requires
            old(self).wf(),
            e.wf((old(self).len() + 1) as nat),
        ensures
            final(self).wf(),
            id == old(self).len(),
            final(self).elements@ == old(self).elements@.push(e),
    {
        let id = self.elements.len();
        self.elements.push(e);
        proof {
            assert forall|i: int| 0 <= i < self.elements@.len() implies #[trigger] self.elements@[i].wf(
                self.elements@.len(),
            ) by {
                if i < id {
                    assert(old(self).elements@[i].wf(old(self).len()));
                    lemma_element_wf_mono(self.elements@[i], old(self).len(), self.elements@.len());
                }
            }
        }
        id
    }

    /// `document.createElement(tag)`: a fresh detached element with the
    /// given tag and empty fields.
    pub fn create_element(&mut self, tag: &str) -> (id: usize)
        requires
            old(self).wf(),
        ensures
            final(self).wf(),
            id == old(self).len(),
            final(self).len() == old(self).len() + 1,
            forall|i: int| 0 <= i < old(self).len() ==> final(self).elements@[i] == old(self).elements@[i],
            final(self).node(id as int).tag_name@ == tag@,
            final(self).node(id as int).id@ == Seq::<char>::empty(),
            final(self).node(id as int).class_name@ == Seq::<char>::empty(),
            final(self).node(id as int).text_content@ == Seq::<char>::empty(),
            final(self).node(id as int).attributes@ == Seq::<(Seq<char>, Seq<char>)>::empty(),
            final(self).node(id as int).style@ == Seq::<(Seq<char>, Seq<char>)>::empty(),
            final(self).node(id as int).dataset@ == Seq::<(Seq<char>, Seq<char>)>::empty(),
            final(self).node(id as int).children@ == Seq::<usize>::empty(),
            final(self).node(id as int).parent is None,
    {
        let e = DomElement::blank(tag);
        proof {
            lemma_element_wf_mono(e, 0, (self.len() + 1) as nat);
        }
        self.add_element(e)
    }
}

} // verus!
