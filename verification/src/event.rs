//! `EventTarget`: listener registration (`addEventListener`,
//! `removeEventListener`), the `Event` record and its flag setters, and the
//! planning of `dispatchEvent`.
//!
//! Dispatch interleaves decisions with calls into script code, so it is a
//! state machine: [`Dispatch::next_call`] names the next listener to run,
//! the caller runs it, copies the event flags that the listener may have
//! set back into [`Dispatch::event`], and asks again.  The walk follows the
//! three phases of the DOM: capture (root down to the target's parent,
//! capture listeners only), at-target (every listener of the target) and
//! bubble (the target's parent up to the root, non-capture listeners only).
//! A level's listeners are read when the level starts, so a listener added
//! during the walk first fires at a later level.

use vstd::prelude::*;
use crate::dom::Dom;
use crate::text::{chars_of, eq_chars};

verus! {

/// The third argument of `addEventListener` / `removeEventListener`, as
/// far as capture goes.
#[derive(Clone, Copy, PartialEq, Eq, Structural, Debug)]
pub enum CaptureArg {
    /// A boolean `useCapture`.
    Flag(bool),
    /// An options object, with its `capture` property when that property
    /// is a boolean.
    Options(Option<bool>),
    /// No third argument, or a value of any other kind.
    Other,
}

/// Whether a third argument asks for the capture phase: a `true` flag,
/// or an options object whose `capture` is `true`.
pub open spec fn wants_capture(arg: CaptureArg) -> bool {
    match arg {
        CaptureArg::Flag(b) => b,
        CaptureArg::Options(Some(b)) => b,
        CaptureArg::Options(None) => false,
        CaptureArg::Other => false,
    }
}

/// The capture flag of a listener registration or removal.
pub fn parse_capture_arg(arg: CaptureArg) -> (r: bool)
    ensures
        r == wants_capture(arg),
{
    match arg {
        CaptureArg::Flag(b) => b,
        CaptureArg::Options(Some(b)) => b,
        CaptureArg::Options(None) => false,
        CaptureArg::Other => false,
    }
}

/// Which listeners a level of the walk runs.
#[derive(Clone, Copy, PartialEq, Eq, Structural, Debug)]
pub enum ListenerFilter {
    Capture,
    Bubble,
    Any,
}

pub open spec fn filter_allows(filter: ListenerFilter, capture: bool) -> bool {
    match filter {
        ListenerFilter::Capture => capture,
        ListenerFilter::Bubble => !capture,
        ListenerFilter::Any => true,
    }
}

/// Whether a listener registered with `capture` runs at a level with
/// `filter`.
pub fn filter_matches(filter: ListenerFilter, capture: bool) -> (b: bool)
    ensures
        b == filter_allows(filter, capture),
{
    match filter {
        ListenerFilter::Capture => capture,
        ListenerFilter::Bubble => !capture,
        ListenerFilter::Any => true,
    }
}

/// A registered listener: the callback (by the handle its owner gave it)
/// and the capture flag it was registered with.
#[derive(Clone, Copy, PartialEq, Eq, Structural, Debug)]
pub struct Listener {
    pub callback: u64,
    pub capture: bool,
}

/// One registration: which element, which event type, which listener.
pub struct ListenerRecord {
    pub target: usize,
    pub event_type: String,
    pub listener: Listener,
}

/// Every registration, in the order it was made.
pub struct ListenerTable {
    pub records: Vec<ListenerRecord>,
}

impl View for ListenerTable {
    type V = Seq<(usize, Seq<char>, Listener)>;

    open spec fn view(&self) -> Seq<(usize, Seq<char>, Listener)> {
        self.records@.map_values(|r: ListenerRecord| (r.target, r.event_type@, r.listener))
    }
}

/// The listeners registered on `target` for `event_type`, in registration
/// order.
pub open spec fn listeners_of(records: Seq<(usize, Seq<char>, Listener)>, target: usize, event_type: Seq<char>) -> Seq<Listener>
    decreases records.len(),
{
    if records.len() == 0 {
        Seq::empty()
    } else {
        let r = listeners_of(records.drop_last(), target, event_type);
        let last = records.last();
        if last.0 == target && last.1 == event_type {
            r.push(last.2)
        } else {
            r
        }
    }
}

/// `records` without the registrations of `listener` on `target` for
/// `event_type`.
pub open spec fn drop_matching(
    records: Seq<(usize, Seq<char>, Listener)>,
    target: usize,
    event_type: Seq<char>,
    listener: Listener,
) -> Seq<(usize, Seq<char>, Listener)>
    decreases records.len(),
{
    if records.len() == 0 {
        Seq::empty()
    } else {
        let r = drop_matching(records.drop_last(), target, event_type, listener);
        let last = records.last();
        if last.0 == target && last.1 == event_type && last.2 == listener {
            r
        } else {
            r.push(last)
        }
    }
}

/// `ls` without any copy of `l`.
pub open spec fn without_listener(ls: Seq<Listener>, l: Listener) -> Seq<Listener>
    decreases ls.len(),
{
    if ls.len() == 0 {
        Seq::empty()
    } else {
        let r = without_listener(ls.drop_last(), l);
        if ls.last() == l {
            r
        } else {
            r.push(ls.last())
        }
    }
}

fn same_registration(rec: &ListenerRecord, target: usize, event_type: &Vec<char>) -> (b: bool)
    ensures
        b == (rec.target == target && rec.event_type@ == event_type@),
{
    if rec.target != target {
        return false;
    }
    let k = chars_of(rec.event_type.as_str());
    eq_chars(&k, event_type)
}

impl ListenerTable {
    pub fn new() -> (t: ListenerTable)
        ensures
            t@ == Seq::<(usize, Seq<char>, Listener)>::empty(),
    {
        let t = ListenerTable { records: Vec::new() };
        assert(t@ =~= Seq::<(usize, Seq<char>, Listener)>::empty());
        t
    }

    /// `addEventListener(type, callback, capture)` on `target`: the
    /// listener joins the end of the queue for that type.
    pub fn add_event_listener(&mut self, target: usize, event_type: &str, callback: u64, capture: bool)
        ensures
            final(self)@ == old(self)@.push((target, event_type@, Listener { callback, capture })),
    {
        let rec = ListenerRecord {
            target,
            event_type: event_type.to_owned(),
            listener: Listener { callback, capture },
        };
        self.records.push(rec);
        assert(self@ =~= old(self)@.push((target, event_type@, Listener { callback, capture })));
    }

    /// `removeEventListener(type, callback, capture)` on `target`: every
    /// registration with the same callback and the same capture flag
    /// leaves; one made with the other capture flag stays.
    pub fn remove_event_listener(&mut self, target: usize, event_type: &str, callback: u64, capture: bool)
        ensures
            final(self)@ == drop_matching(old(self)@, target, event_type@, Listener { callback, capture }),
    {
        let l = Listener { callback, capture };
        let ty = chars_of(event_type);
        let mut kept: Vec<ListenerRecord> = Vec::new();
        let mut i: usize = 0;
        while i < self.records.len()
            invariant
                i <= self@.len(),
                self@ == old(self)@,
                kept@.map_values(|r: ListenerRecord| (r.target, r.event_type@, r.listener))
                    == drop_matching(self@.take(i as int), target, ty@, l),
                ty@ == event_type@,
            decreases self@.len() - i,
        {
            proof {
                let t = self@.take(i + 1);
                assert(t.drop_last() == self@.take(i as int));
                assert(t.last() == self@[i as int]);
            }
            let same = same_registration(&self.records[i], target, &ty);
            if same && self.records[i].listener == l {
            } else {
                let rec = ListenerRecord {
                    target: self.records[i].target,
                    event_type: self.records[i].event_type.as_str().to_owned(),
                    listener: self.records[i].listener,
                };
                let ghost before = kept@;
                kept.push(rec);
                assert(kept@.map_values(|r: ListenerRecord| (r.target, r.event_type@, r.listener))
                    =~= before.map_values(|r: ListenerRecord| (r.target, r.event_type@, r.listener)).push(
                    self@[i as int]));
            }
            i = i + 1;
        }
        assert(self@.take(self@.len() as int) == self@);
        self.records = kept;
    }

    /// The listeners of `target` for `event_type`, in registration order.
    pub fn listeners(&self, target: usize, event_type: &str) -> (r: Vec<Listener>)
        ensures
            r@ == listeners_of(self@, target, event_type@),
    {
        let ty = chars_of(event_type);
        let mut r: Vec<Listener> = Vec::new();
        let mut i: usize = 0;
        while i < self.records.len()
            invariant
                i <= self@.len(),
                r@ == listeners_of(self@.take(i as int), target, ty@),
                ty@ == event_type@,
            decreases self@.len() - i,
        {
            proof {
                let t = self@.take(i + 1);
                assert(t.drop_last() == self@.take(i as int));
                assert(t.last() == self@[i as int]);
            }
            if same_registration(&self.records[i], target, &ty) {
                r.push(self.records[i].listener);
            }
            i = i + 1;
        }
        assert(self@.take(self@.len() as int) == self@);
        r
    }
}

/// An event as scripts see it: its type and init flags, the flags that
/// the listeners set, and the elements it is being dispatched to.
pub struct Event {
    pub event_type: String,
    pub bubbles: bool,
    pub cancelable: bool,
    pub composed: bool,
    pub default_prevented: bool,
    pub propagation_stopped: bool,
    pub immediate_stopped: bool,
    pub target: Option<usize>,
    pub current_target: Option<usize>,
}

/// `e` as `dispatchEvent` leaves it before the walk starts: aimed at
/// `target`, nothing prevented, nothing stopped.
pub open spec fn decorated(e: Event, target: usize) -> Event {
    Event {
        target: Some(target),
        current_target: Some(target),
        default_prevented: false,
        propagation_stopped: false,
        immediate_stopped: false,
        ..e
    }
}

impl Event {
    /// `new Event(type, { bubbles, cancelable, composed })`: a fresh event
    /// with nothing prevented or stopped and no target yet.
    pub fn new(event_type: &str, bubbles: bool, cancelable: bool, composed: bool) -> (e: Event)
        ensures
            e.event_type@ == event_type@,
            e.bubbles == bubbles,
            e.cancelable == cancelable,
            e.composed == composed,
            !e.default_prevented,
            !e.propagation_stopped,
            !e.immediate_stopped,
            e.target is None,
            e.current_target is None,
    {
        Event {
            event_type: event_type.to_owned(),
            bubbles,
            cancelable,
            composed,
            default_prevented: false,
            propagation_stopped: false,
            immediate_stopped: false,
            target: None,
            current_target: None,
        }
    }

    /// `event.preventDefault()`: marks the default as prevented; calling it
    /// again changes nothing.
    pub fn prevent_default(&mut self)
        ensures
            *final(self) == (Event { default_prevented: true, ..*old(self) }),
    {
        self.default_prevented = true;
    }

    /// `event.stopPropagation()`: no level after the current one runs.
    pub fn stop_propagation(&mut self)
        ensures
            *final(self) == (Event { propagation_stopped: true, ..*old(self) }),
    {
        self.propagation_stopped = true;
    }

    /// `event.stopImmediatePropagation()`: not even the remaining
    /// listeners of the current level run.
    pub fn stop_immediate_propagation(&mut self)
        ensures
            *final(self) == (Event { propagation_stopped: true, immediate_stopped: true, ..*old(self) }),
    {
        self.propagation_stopped = true;
        self.immediate_stopped = true;
    }
}

/// The element `id` followed by its ancestors, read through the parent
/// slots, at most `fuel` steps up.
pub open spec fn parent_chain(dom: Dom, id: usize, fuel: nat) -> Seq<usize>
    decreases fuel,
{
    match dom.parent_of(id as int) {
        Some(p) if fuel > 0 => seq![id] + parent_chain(dom, p, (fuel - 1) as nat),
        _ => seq![id],
    }
}

/// The levels of a walk over `chain` (target first, then its ancestors):
/// the ancestors from the root down with capture listeners, the target
/// with all its listeners, the ancestors from the parent up with
/// non-capture listeners.
pub open spec fn dispatch_levels(chain: Seq<usize>) -> Seq<(usize, ListenerFilter)> {
    let anc = chain.drop_first();
    Seq::new(anc.len(), |i: int| (anc[anc.len() - 1 - i], ListenerFilter::Capture))
        + seq![(chain[0], ListenerFilter::Any)]
        + Seq::new(anc.len(), |i: int| (anc[i], ListenerFilter::Bubble))
}

/// A dispatch in progress.
pub struct Dispatch {
    pub event: Event,
    pub levels: Vec<(usize, ListenerFilter)>,
    /// The level being walked.
    pub level: usize,
    /// Whether the current level has read its listeners.
    pub started: bool,
    /// The listeners of the current level, read when it started.
    pub queue: Vec<Listener>,
    /// The next of them to consider.
    pub pos: usize,
}

pub struct DispatchView {
    pub event: Event,
    pub levels: Seq<(usize, ListenerFilter)>,
    pub level: int,
    pub started: bool,
    pub queue: Seq<Listener>,
    pub pos: int,
}

impl View for Dispatch {
    type V = DispatchView;

    open spec fn view(&self) -> DispatchView {
        DispatchView {
            event: self.event,
            levels: self.levels@,
            level: self.level as int,
            started: self.started,
            queue: self.queue@,
            pos: self.pos as int,
        }
    }
}

pub open spec fn stopped(e: Event) -> bool {
    e.propagation_stopped || e.immediate_stopped
}

/// Where the walk goes from `d` with the registrations `table`: the state
/// in which it next hands a listener out, with that listener's level and
/// callback, or the final state with none when the walk is over.  A level
/// is skipped when propagation was stopped before it started; a listener
/// is skipped when immediate propagation was stopped or the level's
/// filter refuses it; starting a level makes its element the current
/// target.
pub open spec fn advance(d: DispatchView, table: Seq<(usize, Seq<char>, Listener)>) -> (DispatchView, Option<(usize, u64)>)
    decreases d.levels.len() - d.level, (if d.started { 0int } else { 1int }), d.queue.len() - d.pos,
{
    if d.level < 0 || d.level >= d.levels.len() {
        (d, None)
    } else {
        let node = d.levels[d.level].0;
        let filter = d.levels[d.level].1;
        if !d.started {
            if stopped(d.event) {
                advance(DispatchView { level: d.level + 1, ..d }, table)
            } else {
                advance(
                    DispatchView {
                        started: true,
                        queue: listeners_of(table, node, d.event.event_type@),
                        pos: 0,
                        event: Event { current_target: Some(node), ..d.event },
                        ..d
                    },
                    table,
                )
            }
        } else if 0 <= d.pos < d.queue.len() {
            let l = d.queue[d.pos];
            let next = DispatchView { pos: d.pos + 1, ..d };
            if d.event.immediate_stopped || !filter_allows(filter, l.capture) {
                advance(next, table)
            } else {
                (next, Some((node, l.callback)))
            }
        } else {
            advance(DispatchView { level: d.level + 1, started: false, ..d }, table)
        }
    }
}

impl Dispatch {
    pub open spec fn inv(&self) -> bool {
        &&& self.level <= self.levels@.len()
        &&& self.pos <= self.queue@.len()
    }

    /// The listener to run next, with the element whose level it belongs
    /// to (`this` for the call), or `None` when the walk is over.
    pub fn next_call(&mut self, table: &ListenerTable) -> (r: Option<(usize, u64)>)
        requires
            old(self).inv(),
        ensures
            final(self).inv(),
            (final(self)@, r) == advance(old(self)@, table@),
    {
        loop
            invariant
                self.inv(),
                advance(self@, table@) == advance(old(self)@, table@),
            decreases self.levels@.len() - self.level, (if self.started { 0int } else { 1int }), self.queue@.len() - self.pos,
        {
            if self.level >= self.levels.len() {
                return None;
            }
            let node = self.levels[self.level].0;
            let filter = self.levels[self.level].1;
            if !self.started {
                if self.event.propagation_stopped || self.event.immediate_stopped {
                    self.level = self.level + 1;
                } else {
                    let q = table.listeners(node, self.event.event_type.as_str());
                    self.queue = q;
                    self.pos = 0;
                    self.started = true;
                    self.event.current_target = Some(node);
                }
            } else if self.pos < self.queue.len() {
                let l = self.queue[self.pos];
                self.pos = self.pos + 1;
                if !(self.event.immediate_stopped || !filter_matches(filter, l.capture)) {
                    return Some((node, l.callback));
                }
            } else {
                self.level = self.level + 1;
                self.started = false;
            }
        }
    }

    /// What `dispatchEvent` returns once the walk is over: whether the
    /// default was left alone.
    pub fn outcome(&self) -> (b: bool)
        ensures
            b == !self.event.default_prevented,
    {
        !self.event.default_prevented
    }
}

impl Dom {
    /// The element `id` and its ancestors, nearest first, as the parent
    /// slots name them.  The walk takes at most as many steps as there are
    /// elements, which reaches the root whenever the parent slots form no
    /// cycle.
    pub fn bubble_chain(&self, id: usize) -> (r: Vec<usize>)
        requires
            self.wf(),
            id < self.len(),
        ensures
            r@ == parent_chain(*self, id, self.len()),
            r@.len() >= 1,
            r@[0] == id,
    {
        let mut r: Vec<usize> = Vec::new();
        let mut cur = id;
        let mut fuel = self.elements.len();
        r.push(cur);
        while fuel > 0
            invariant_except_break
                fuel == 0 ==> r@ == parent_chain(*self, id, self.len()),
                self.wf(),
                cur < self.len(),
                fuel <= self.len(),
                r@.len() >= 1,
                r@[0] == id,
                r@.drop_last() + parent_chain(*self, cur, fuel as nat) == parent_chain(*self, id, self.len()),
                r@.last() == cur,
            ensures
                r@ == parent_chain(*self, id, self.len()),
                r@.len() >= 1,
                r@[0] == id,
            decreases fuel,
        {
            match self.elements[cur].parent {
                None => {
                    proof {
                        assert(parent_chain(*self, cur, fuel as nat) == seq![cur]);
                        assert(r@.drop_last().push(cur) == r@);
                    }
                    break;
                },
                Some(p) => {
                    assert(self.elements@[cur as int].wf(self.len()));
                    proof {
                        assert(parent_chain(*self, cur, fuel as nat) == seq![cur] + parent_chain(*self, p, (fuel - 1) as nat));
                        assert(r@.drop_last() + (seq![cur] + parent_chain(*self, p, (fuel - 1) as nat))
                            == r@ + parent_chain(*self, p, (fuel - 1) as nat));
                    }
                    let ghost prev = r@;
                    r.push(p);
                    assert(r@.drop_last() == prev);
                    cur = p;
                    fuel = fuel - 1;
                    proof {
                        if fuel == 0 {
                            assert(parent_chain(*self, cur, 0) == seq![cur]);
                            assert(r@.drop_last() + seq![cur] =~= r@);
                        }
                    }
                },
            }
        }
        r
    }
}

/// The levels of the walk over `chain` (see [`dispatch_levels`]).
pub fn build_levels(chain: &Vec<usize>) -> (r: Vec<(usize, ListenerFilter)>)
    requires
        chain@.len() >= 1,
    ensures
        r@ == dispatch_levels(chain@),
{
    let n = chain.len();
    let mut r: Vec<(usize, ListenerFilter)> = Vec::new();
    let mut i: usize = 1;
    while i < n
        invariant
            1 <= i <= n,
            n == chain@.len(),
            r@.len() == i - 1,
            forall|j: int| 0 <= j < i - 1 ==> #[trigger] r@[j] == (chain@[n - 1 - j], ListenerFilter::Capture),
        decreases n - i,
    {
        r.push((chain[n - i], ListenerFilter::Capture));
        i = i + 1;
    }
    r.push((chain[0], ListenerFilter::Any));
    let mut k: usize = 1;
    while k < n
        invariant
            1 <= k <= n,
            n == chain@.len(),
            r@.len() == n - 1 + k,
            forall|j: int| 0 <= j < n - 1 ==> #[trigger] r@[j] == (chain@[n - 1 - j], ListenerFilter::Capture),
            r@[n - 1] == (chain@[0], ListenerFilter::Any),
            forall|j: int| n <= j < n - 1 + k ==> #[trigger] r@[j] == (chain@[j - n + 1], ListenerFilter::Bubble),
        decreases n - k,
    {
        r.push((chain[k], ListenerFilter::Bubble));
        k = k + 1;
    }
    assert(r@ =~= dispatch_levels(chain@));
    r
}

impl Dispatch {
    /// `dispatchEvent(event)` on `target`: the event is aimed at `target`
    /// with its flags cleared, and the walk is laid out over `target` and
    /// its ancestors.
    pub fn begin(dom: &Dom, event: Event, target: usize) -> (d: Dispatch)
        requires
            dom.wf(),
            target < dom.len(),
        ensures
            d.inv(),
            d.event == decorated(event, target),
            d.levels@ == dispatch_levels(parent_chain(*dom, target, dom.len())),
            d.level == 0,
            !d.started,
            d.queue@.len() == 0,
            d.pos == 0,
    {
        let chain = dom.bubble_chain(target);
        let levels = build_levels(&chain);
        let mut event = event;
        event.target = Some(target);
        event.current_target = Some(target);
        event.default_prevented = false;
        event.propagation_stopped = false;
        event.immediate_stopped = false;
        Dispatch { event, levels, level: 0, started: false, queue: Vec::new(), pos: 0 }
    }
}

/// `addEventListener` puts the listener at the end of the queue of its
/// element and type, and touches no other queue.
pub proof fn law_add_appends(
    table: Seq<(usize, Seq<char>, Listener)>,
    target: usize,
    event_type: Seq<char>,
    l: Listener,
    other: usize,
    other_type: Seq<char>,
)
    ensures
        listeners_of(table.push((target, event_type, l)), target, event_type) == listeners_of(
            table,
            target,
            event_type,
        ).push(l),
        (other, other_type) != (target, event_type) ==> listeners_of(
            table.push((target, event_type, l)),
            other,
            other_type,
        ) == listeners_of(table, other, other_type),
{
    let t2 = table.push((target, event_type, l));
    assert(t2.drop_last() == table);
}

/// `removeEventListener` drops exactly the listeners with the same
/// callback and capture flag from the queue of its element and type, and
/// touches no other queue.
pub proof fn law_remove_drops(
    table: Seq<(usize, Seq<char>, Listener)>,
    target: usize,
    event_type: Seq<char>,
    l: Listener,
    other: usize,
    other_type: Seq<char>,
)
    ensures
        listeners_of(drop_matching(table, target, event_type, l), target, event_type)
            == without_listener(listeners_of(table, target, event_type), l),
        (other, other_type) != (target, event_type) ==> listeners_of(
            drop_matching(table, target, event_type, l),
            other,
            other_type,
        ) == listeners_of(table, other, other_type),
    decreases table.len(),
{
    if table.len() > 0 {
        let init = table.drop_last();
        law_remove_drops(init, target, event_type, l, other, other_type);
        let last = table.last();
        let d = drop_matching(init, target, event_type, l);
        if !(last.0 == target && last.1 == event_type && last.2 == l) {
            assert(d.push(last).drop_last() == d);
        }
        let ls = listeners_of(table, target, event_type);
        if last.0 == target && last.1 == event_type {
            assert(ls.drop_last() == listeners_of(init, target, event_type));
        }
    }
}

proof fn lemma_without_absent(ls: Seq<Listener>, l: Listener)
    requires
        !ls.contains(l),
    ensures
        without_listener(ls, l) == ls,
    decreases ls.len(),
{
    if ls.len() > 0 {
        let init = ls.drop_last();
        assert(!init.contains(l)) by {
            if init.contains(l) {
                let i = choose|i: int| 0 <= i < init.len() && init[i] == l;
                assert(ls[i] == l);
            }
        }
        lemma_without_absent(init, l);
        assert(ls.last() != l) by {
            assert(ls[ls.len() - 1] == ls.last());
        }
        assert(init.push(ls.last()) == ls);
    }
}

/// `removeEventListener` undoes `addEventListener` of a listener that was
/// not registered on that element for that type.
pub proof fn law_add_then_remove(table: Seq<(usize, Seq<char>, Listener)>, target: usize, event_type: Seq<char>, l: Listener)
    requires
        !listeners_of(table, target, event_type).contains(l),
    ensures
        listeners_of(drop_matching(table.push((target, event_type, l)), target, event_type, l), target, event_type)
            == listeners_of(table, target, event_type),
{
    let t2 = table.push((target, event_type, l));
    law_remove_drops(t2, target, event_type, l, target, event_type);
    law_add_appends(table, target, event_type, l, target, event_type);
    let ls = listeners_of(table, target, event_type);
    assert(ls.push(l).drop_last() == ls);
    lemma_without_absent(ls, l);
}

/// Once immediate propagation is stopped, no further listener runs.
pub proof fn law_immediate_stop_ends(d: DispatchView, table: Seq<(usize, Seq<char>, Listener)>)
    requires
        d.event.immediate_stopped,
    ensures
        advance(d, table).1 is None,
    decreases d.levels.len() - d.level, (if d.started { 0int } else { 1int }), d.queue.len() - d.pos,
{
    if 0 <= d.level < d.levels.len() {
        if !d.started {
            law_immediate_stop_ends(DispatchView { level: d.level + 1, ..d }, table);
        } else if 0 <= d.pos < d.queue.len() {
            law_immediate_stop_ends(DispatchView { pos: d.pos + 1, ..d }, table);
        } else {
            law_immediate_stop_ends(DispatchView { level: d.level + 1, started: false, ..d }, table);
        }
    }
}

/// Once propagation is stopped, no level that has not started yet runs a
/// listener: the walk ends with the level in progress.
pub proof fn law_stop_ends_before_next_level(d: DispatchView, table: Seq<(usize, Seq<char>, Listener)>)
    requires
        stopped(d.event),
        !d.started,
    ensures
        advance(d, table).1 is None,
    decreases d.levels.len() - d.level,
{
    if 0 <= d.level < d.levels.len() {
        law_stop_ends_before_next_level(DispatchView { level: d.level + 1, ..d }, table);
    }
}

/// A listener handed out belongs to a level of the walk whose filter lets
/// it run, and is one of the listeners registered on that level's element
/// for the event's type when the level started.
pub proof fn law_calls_are_registered(d: DispatchView, table: Seq<(usize, Seq<char>, Listener)>)
    requires
        d.started ==> 0 <= d.level < d.levels.len() && d.queue == listeners_of(
            table,
            d.levels[d.level].0,
            d.event.event_type@,
        ),
    ensures
        match advance(d, table).1 {
            Some(call) => {
                let e = advance(d, table).0;
                &&& 0 <= e.level < e.levels.len()
                &&& call.0 == e.levels[e.level].0
                &&& exists|i: int|
                    0 <= i < e.queue.len() && (#[trigger] e.queue[i]).callback == call.1
                        && filter_allows(e.levels[e.level].1, e.queue[i].capture)
                &&& e.queue == listeners_of(table, call.0, d.event.event_type@)
            },
            None => true,
        },
    decreases d.levels.len() - d.level, (if d.started { 0int } else { 1int }), d.queue.len() - d.pos,
{
    if 0 <= d.level < d.levels.len() {
        let node = d.levels[d.level].0;
        if !d.started {
            if stopped(d.event) {
                law_calls_are_registered(DispatchView { level: d.level + 1, ..d }, table);
            } else {
                law_calls_are_registered(
                    DispatchView {
                        started: true,
                        queue: listeners_of(table, node, d.event.event_type@),
                        pos: 0,
                        event: Event { current_target: Some(node), ..d.event },
                        ..d
                    },
                    table,
                );
            }
        } else if 0 <= d.pos < d.queue.len() {
            let l = d.queue[d.pos];
            if d.event.immediate_stopped || !filter_allows(d.levels[d.level].1, l.capture) {
                law_calls_are_registered(DispatchView { pos: d.pos + 1, ..d }, table);
            } else {
                let e = advance(d, table).0;
                assert(e.queue[d.pos] == l);
            }
        } else {
            law_calls_are_registered(DispatchView { level: d.level + 1, started: false, ..d }, table);
        }
    }
}

} // verus!
