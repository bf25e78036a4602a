//! Properties that span several operations of the element tree: what a
//! read gives back after a write, and which operation undoes which.

use vstd::prelude::*;
use crate::dom::Dom;
use crate::element::{
    appended, attribute_written, checked_name, class_added, class_attr_name, class_removed, removed,
    without,
};
use crate::query::first_pos;
use crate::text::{clean_tokens, is_clean_token, lemma_tokens_clean, lemma_tokens_join, tokens};

verus! {

proof fn lemma_first_pos_pushed(cs: Seq<usize>, x: usize)
    requires
        !cs.contains(x),
    ensures
        first_pos(cs.push(x), x) == cs.len(),
{
    let s = cs.push(x);
    assert(s[cs.len() as int] == x);
    assert(s.contains(x));
    let k = first_pos(s, x);
    if k < cs.len() {
        assert(cs[k] == x);
    }
}

proof fn lemma_without_clean(ts: Seq<Seq<char>>, t: Seq<char>)
    requires
        clean_tokens(ts),
    ensures
        clean_tokens(without(ts, t)),
        !without(ts, t).contains(t),
        forall|u: Seq<char>| u != t ==> (without(ts, t).contains(u) <==> ts.contains(u)),
    decreases ts.len(),
{
    if ts.len() > 0 {
        let init = ts.drop_last();
        assert(clean_tokens(init)) by {
            assert forall|i: int| 0 <= i < init.len() implies is_clean_token(#[trigger] init[i]) by {
                assert(init[i] == ts[i]);
            }
        }
        lemma_without_clean(init, t);
        let r = without(init, t);
        assert(ts == init.push(ts.last()));
        assert forall|u: Seq<char>| u != t implies (without(ts, t).contains(u) <==> ts.contains(u)) by {
            if ts.contains(u) {
                let i = choose|i: int| 0 <= i < ts.len() && ts[i] == u;
                if i < init.len() {
                    assert(init[i] == u);
                    assert(init.contains(u));
                }
            }
            if ts.last() != t {
                if without(ts, t).contains(u) {
                    let i = choose|i: int| 0 <= i < r.push(ts.last()).len() && r.push(ts.last())[i] == u;
                    if i < r.len() {
                        assert(r[i] == u);
                        assert(r.contains(u));
                    } else {
                        assert(ts[ts.len() - 1] == u);
                    }
                }
                if ts.contains(u) && !init.contains(u) {
                    assert(r.push(ts.last())[r.len() as int] == u);
                }
                if r.contains(u) {
                    let i = choose|i: int| 0 <= i < r.len() && r[i] == u;
                    assert(r.push(ts.last())[i] == u);
                }
            }
            if init.contains(u) {
                let i = choose|i: int| 0 <= i < init.len() && init[i] == u;
                assert(ts[i] == u);
            }
        }
        if ts.last() != t {
            let w = r.push(ts.last());
            assert(clean_tokens(w)) by {
                assert forall|i: int| 0 <= i < w.len() implies is_clean_token(#[trigger] w[i]) by {
                    if i < r.len() {
                        assert(w[i] == r[i]);
                    } else {
                        assert(w[i] == ts[ts.len() - 1]);
                    }
                }
            }
            if w.contains(t) {
                let i = choose|i: int| 0 <= i < w.len() && w[i] == t;
                if i < r.len() {
                    assert(r[i] == t);
                    assert(r.contains(t));
                }
            }
        }
    }
}

/// After `setAttribute(name, value)`, `getAttribute(name)` gives `value`
/// back, and `hasAttribute(name)` holds.
pub proof fn law_set_then_get_attribute(old: Dom, new: Dom, id: int, name: Seq<char>, value: Seq<char>)
    requires
        attribute_written(old, new, id, name, value),
    ensures
        new.node(id).attributes.get_spec(name) == Some(value),
        new.node(id).attributes.get_spec(name) is Some,
{
}

/// After `classList.add(token)` with a token that holds no whitespace,
/// `classList.contains(token)` holds, and the other tokens are those of
/// before, in their order.
pub proof fn law_class_add_then_contains(old: Dom, new: Dom, id: int, token: Seq<char>)
    requires
        is_clean_token(token),
        attribute_written(old, new, id, class_attr_name(), class_added(old.node(id).class_name@, token)),
    ensures
        tokens(new.node(id).class_name@).contains(token),
        tokens(new.node(id).class_name@) == (if tokens(old.node(id).class_name@).contains(token) {
            tokens(old.node(id).class_name@)
        } else {
            tokens(old.node(id).class_name@).push(token)
        }),
{
    let ts = tokens(old.node(id).class_name@);
    lemma_tokens_clean(old.node(id).class_name@);
    if ts.contains(token) {
        lemma_tokens_join(ts);
    } else {
        let w = ts.push(token);
        assert(clean_tokens(w)) by {
            assert forall|i: int| 0 <= i < w.len() implies is_clean_token(#[trigger] w[i]) by {
                if i < ts.len() {
                    assert(w[i] == ts[i]);
                }
            }
        }
        lemma_tokens_join(w);
        assert(w[ts.len() as int] == token);
    }
}

/// After `classList.remove(token)`, `classList.contains(token)` is false
/// and every other token of before is still there.
pub proof fn law_class_remove_then_absent(old: Dom, new: Dom, id: int, token: Seq<char>)
    requires
        attribute_written(old, new, id, class_attr_name(), class_removed(old.node(id).class_name@, token)),
    ensures
        !tokens(new.node(id).class_name@).contains(token),
        forall|u: Seq<char>|
            u != token ==> (tokens(new.node(id).class_name@).contains(u) <==> tokens(
                old.node(id).class_name@,
            ).contains(u)),
{
    let ts = tokens(old.node(id).class_name@);
    lemma_tokens_clean(old.node(id).class_name@);
    lemma_without_clean(ts, token);
    lemma_tokens_join(without(ts, token));
}

/// `classList.toggle(token)` returns whether the token is present
/// afterwards.
pub proof fn law_toggle_reports_presence(old: Dom, new: Dom, id: int, token: Seq<char>, present: bool)
    requires
        is_clean_token(token),
        present == !tokens(old.node(id).class_name@).contains(token),
        attribute_written(
            old,
            new,
            id,
            class_attr_name(),
            if present {
                class_added(old.node(id).class_name@, token)
            } else {
                class_removed(old.node(id).class_name@, token)
            },
        ),
    ensures
        tokens(new.node(id).class_name@).contains(token) == present,
{
    if present {
        law_class_add_then_contains(old, new, id, token);
    } else {
        law_class_remove_then_absent(old, new, id, token);
    }
}

/// `removeChild(child)` undoes `appendChild(child)` on a parent that did
/// not hold `child`: every child list is as before, and `child` is left
/// without a parent.
pub proof fn law_append_then_remove(d0: Dom, d1: Dom, d2: Dom, parent: int, child: usize)
    requires
        d0.wf(),
        0 <= parent < d0.len(),
        child < d0.len(),
        !d0.node(parent).children@.contains(child),
        appended(d0, d1, parent, child),
        removed(d1, d2, parent, child),
    ensures
        d2.len() == d0.len(),
        forall|j: int| 0 <= j < d0.len() ==> #[trigger] d2.node(j).children@ == d0.node(j).children@,
        d2.node(child as int).parent is None,
        forall|j: int| 0 <= j < d0.len() && j != child ==> #[trigger] d2.node(j).parent == d0.node(j).parent,
{
    let cs = d0.node(parent).children@;
    assert(d1.node(parent).children@ == cs.push(child));
    lemma_first_pos_pushed(cs, child);
    assert(cs.push(child).remove(cs.len() as int) =~= cs);
}

/// A clone is independent of the element it was made from: writing an
/// attribute of the clone leaves every element that existed before the
/// clone as it was.
pub proof fn law_clone_is_independent(
    d0: Dom,
    d1: Dom,
    d2: Dom,
    c: int,
    name: Seq<char>,
    value: Seq<char>,
)
    requires
        c == d0.len(),
        d1.len() > d0.len(),
        forall|j: int| 0 <= j < d0.len() ==> #[trigger] d1.node(j) == d0.node(j),
        attribute_written(d1, d2, c, name, value),
    ensures
        forall|j: int| 0 <= j < d0.len() ==> #[trigger] d2.node(j) == d0.node(j),
{
    assert forall|j: int| 0 <= j < d0.len() implies #[trigger] d2.node(j) == d0.node(j) by {
        assert(d2.node(j) == d1.node(j));
    }
}

/// `input.checked` reads back what was last assigned to it.
pub proof fn law_checked_round_trip(after: Dom, id: int, on: bool)
    requires
        after.node(id).attributes.get_spec(checked_name()) == (if on {
            Some(Seq::<char>::empty())
        } else {
            None
        }),
    ensures
        (after.node(id).attributes.get_spec(checked_name()) is Some) == on,
{
}

} // verus!
