//! Handler identities and dependency declarations of the event bus.

use vstd::prelude::*;
use vstd::std_specs::cmp::{PartialEqSpec, PartialEqSpecImpl};

use crate::events::handler_graph::{
    cycle_report, dedup, distinct, drawn_from, handler_ids, heads, id_seq, plan_drawn_from, plan_view, schedulable,
    schedulable_without, table_deps, try_build_execution_plan, valid_plan, CircularDependencyError,
};

verus! {

/// Unique identifier for a handler, used for deduplication and dependency
/// tracking. Two identifiers are equal when their numeric ids are equal.
#[derive(Clone, Debug)]
pub struct HandlerId {
    /// Human-readable name.
    pub name: String,
    /// Unique numeric ID.
    id: u64,
}

impl HandlerId {
    /// The numeric id.
    pub closed spec fn id_view(&self) -> u64 {
        self.id
    }

    /// The name, as characters.
    pub closed spec fn name_view(&self) -> Seq<char> {
        self.name@
    }

    /// Create a handler ID with the given name and a fresh numeric id: the
    /// next id of `ids`, which moves on by one. The new identity differs
    /// from every identity whose id is below the counter of `ids`, such as
    /// all those `ids` handed out before it wrapped around, even ones with
    /// the same name.
    pub fn new(name: String, ids: &mut HandlerIdSource) -> (h: HandlerId)
        ensures
            h.name_view() == name@,
            h.id_view() == old(ids).next_view(),
            final(ids).next_view() == if old(ids).next_view() == u64::MAX {
                0
            } else {
                (old(ids).next_view() + 1) as u64
            },
            forall|earlier: HandlerId| #[trigger] earlier.id_view() < old(ids).next_view() ==> !PartialEqSpec::eq_spec(&h, &earlier),
    {
        let id = ids.take_next();
        HandlerId { name, id }
    }

    /// The name.
    pub fn name(&self) -> (r: &str)
        ensures
            r@ == self.name_view(),
    {
        self.name.as_str()
    }

    /// The numeric id.
    pub fn id(&self) -> (r: u64)
        ensures
            r == self.id_view(),
    {
        self.id
    }

    /// A field-by-field copy of this identifier.
    pub fn copy(&self) -> (r: HandlerId)
        ensures
            r == *self,
    {
        HandlerId { name: self.name.clone(), id: self.id }
    }
}

impl PartialEq for HandlerId {
    fn eq(&self, other: &Self) -> (r: bool) {
        self.id == other.id
    }
}

impl PartialEqSpecImpl for HandlerId {
    open spec fn obeys_eq_spec() -> bool {
        true
    }

    open spec fn eq_spec(&self, other: &HandlerId) -> bool {
        self.id_view() == other.id_view()
    }
}

impl Eq for HandlerId {

}

/// The counter that hands out fresh numeric ids to handler identities
/// (see `HandlerId::new`), counting up from 1 and wrapping around after the
/// largest `u64`.
#[derive(Debug)]
pub struct HandlerIdSource {
    next: u64,
}

impl HandlerIdSource {
    /// The id the next identity gets.
    pub closed spec fn next_view(&self) -> u64 {
        self.next
    }

    /// A source whose first id is 1.
    pub fn new() -> (s: HandlerIdSource)
        ensures
            s.next_view() == 1,
    {
        HandlerIdSource { next: 1 }
    }

    /// The next id; the counter moves on by one (wrapping around after the
    /// largest `u64`).
    fn take_next(&mut self) -> (id: u64)
        ensures
            id == old(self).next_view(),
            final(self).next_view() == if old(self).next_view() == u64::MAX {
                0
            } else {
                (old(self).next_view() + 1) as u64
            },
    {
        let id = self.next;
        self.next = if self.next == u64::MAX {
            0
        } else {
            self.next + 1
        };
        id
    }
}

/// Identities taken one after another from a source that does not wrap
/// around in between all differ, even when their names are the same.
pub proof fn lemma_fresh_ids_differ(ids: Seq<HandlerId>, first: u64)
    requires
        first as int + ids.len() <= u64::MAX + 1,
        forall|k: int| 0 <= k < ids.len() ==> #[trigger] ids[k].id_view() == first + k,
    ensures
        forall|a: int, b: int| 0 <= a < b < ids.len() ==> !PartialEqSpec::eq_spec(&#[trigger] ids[a], &#[trigger] ids[b]),
{
}

/// Declares a dependency on another event handler.
#[derive(Clone, Debug)]
pub struct Depends {
    /// The handler this dependency refers to.
    pub handler_id: HandlerId,
}

impl Depends {
    /// Create a new dependency referencing the given handler.
    pub fn new(handler_id: HandlerId) -> (d: Depends)
        ensures
            d.handler_id == handler_id,
    {
        Depends { handler_id }
    }
}

/// An ordered list of handler groups. Handlers of one group may run in
/// parallel; groups run one after another.
pub type ExecutionPlan = Vec<Vec<HandlerId>>;

/// How an emitted event reaches its handlers: all at once, or level by
/// level when some handler declares dependencies.
#[derive(Debug)]
pub enum Dispatch {
    /// Every handler, in registration order, may run concurrently.
    Concurrent(Vec<HandlerId>),
    /// Levels run one after another; handlers of a level run concurrently.
    Levels(ExecutionPlan),
}

/// The handlers registered for one event type, in registration order: each
/// handler's identity and dependencies, and the handlers themselves.
pub struct EventHandlers<H> {
    /// Identity and dependencies of each handler.
    pub table: Vec<(HandlerId, Vec<Depends>)>,
    /// The handlers, parallel to `table`.
    pub handlers: Vec<H>,
}

impl<H> EventHandlers<H> {
    /// The table and the handlers line up, and no identity repeats.
    pub open spec fn wf(&self) -> bool {
        &&& self.table@.len() == self.handlers@.len()
        &&& distinct(handler_ids(self.table@))
    }

    /// Whether some handler declares a dependency.
    pub open spec fn has_dependencies_spec(&self) -> bool {
        exists|i: int| 0 <= i < self.table@.len() && #[trigger] self.table@[i].1@.len() > 0
    }

    /// No handlers.
    pub fn new() -> (e: Self)
        ensures
            e.wf(),
            e.table@.len() == 0,
    {
        EventHandlers { table: Vec::new(), handlers: Vec::new() }
    }

    /// Whether a handler with this identity is registered.
    pub fn contains(&self, id: &HandlerId) -> (r: bool)
        ensures
            r == handler_ids(self.table@).contains(id.id_view()),
    {
        let mut i: usize = 0;
        while i < self.table.len()
            invariant
                i <= self.table@.len(),
                forall|j: int| 0 <= j < i ==> #[trigger] handler_ids(self.table@)[j] != id.id_view(),
            decreases self.table@.len() - i,
        {
            if self.table[i].0.id() == id.id() {
                assert(handler_ids(self.table@)[i as int] == id.id_view());
                return true;
            }
            i += 1;
        }
        false
    }

    /// Register a handler with its dependencies (none when not given).
    pub fn on(&mut self, id: HandlerId, handler: H, dependencies: Option<Vec<Depends>>)
        requires
            old(self).wf(),
            !handler_ids(old(self).table@).contains(id.id_view()),
        ensures
            final(self).wf(),
            final(self).handlers@ == old(self).handlers@.push(handler),
            final(self).table@.len() == old(self).table@.len() + 1,
            final(self).table@.drop_last() == old(self).table@,
            final(self).table@.last().0 == id,
            match dependencies {
                Some(d) => final(self).table@.last().1 == d,
                None => final(self).table@.last().1@.len() == 0,
            },
    {
        let deps = match dependencies {
            Some(d) => d,
            None => Vec::new(),
        };
        let ghost before = handler_ids(self.table@);
        self.table.push((id, deps));
        self.handlers.push(handler);
        assert(self.table@.drop_last() =~= old(self).table@);
        assert(handler_ids(self.table@) =~= before.push(self.table@.last().0.id_view()));
        assert(distinct(handler_ids(self.table@))) by {
            assert forall|a: int, b: int| 0 <= a < b < handler_ids(self.table@).len() implies handler_ids(self.table@)[a]
                != handler_ids(self.table@)[b] by {
                if b == before.len() {
                    assert(before.contains(before[a]));
                }
            }
        }
    }

    /// Unregister the handler with this identity, if registered.
    pub fn off(&mut self, id: &HandlerId)
        requires
            old(self).wf(),
        ensures
            final(self).wf(),
            !handler_ids(final(self).table@).contains(id.id_view()),
            !handler_ids(old(self).table@).contains(id.id_view()) ==> final(self).table == old(self).table
                && final(self).handlers == old(self).handlers,
            forall|i: int|
                0 <= i < old(self).table@.len() && handler_ids(old(self).table@)[i] == id.id_view()
                    ==> final(self).table@ == old(self).table@.remove(i) && final(self).handlers@
                    == old(self).handlers@.remove(i),
    {
        let mut i: usize = 0;
        while i < self.table.len()
            invariant
                self.wf(),
                *self == *old(self),
                i <= self.table@.len(),
                forall|j: int| 0 <= j < i ==> #[trigger] handler_ids(self.table@)[j] != id.id_view(),
            decreases self.table@.len() - i,
        {
            if self.table[i].0.id() == id.id() {
                let ghost ids = handler_ids(self.table@);
                assert(ids[i as int] == id.id_view());
                assert(ids.contains(id.id_view()));
                self.table.remove(i);
                self.handlers.remove(i);
                assert(handler_ids(self.table@) =~= ids.remove(i as int));
                assert forall|k: int| 0 <= k < ids.len() && ids[k] == id.id_view() implies k == i by {
                    if k != i {
                        assert(ids[k] == ids[i as int]);
                    }
                }
                assert(!handler_ids(self.table@).contains(id.id_view())) by {
                    if handler_ids(self.table@).contains(id.id_view()) {
                        let k = choose|k: int| 0 <= k < handler_ids(self.table@).len() && handler_ids(self.table@)[k] == id.id_view();
                        if k < i {
                            assert(ids[k] == id.id_view());
                        } else {
                            assert(ids[k + 1] == id.id_view());
                        }
                    }
                }
                assert(distinct(handler_ids(self.table@))) by {
                    assert forall|a: int, b: int| 0 <= a < b < handler_ids(self.table@).len() implies handler_ids(self.table@)[a]
                        != handler_ids(self.table@)[b] by {
                        let a2 = if a < i { a } else { a + 1 };
                        let b2 = if b < i { b } else { b + 1 };
                        assert(ids[a2] != ids[b2]);
                    }
                }
                return;
            }
            i += 1;
        }
    }

    /// Whether some handler declares a dependency.
    pub fn has_dependencies(&self) -> (r: bool)
        ensures
            r == self.has_dependencies_spec(),
    {
        let mut i: usize = 0;
        while i < self.table.len()
            invariant
                i <= self.table@.len(),
                forall|j: int| 0 <= j < i ==> #[trigger] self.table@[j].1@.len() == 0,
            decreases self.table@.len() - i,
        {
            if self.table[i].1.len() > 0 {
                return true;
            }
            i += 1;
        }
        false
    }

    /// How an event reaches these handlers: all at once when none declares
    /// a dependency, else in the levels of the dependency plan; an error
    /// when the dependencies cannot be scheduled.
    pub fn dispatch_plan(&self) -> (r: Result<Dispatch, CircularDependencyError>)
        requires
            self.wf(),
        ensures
            ({
                let ids = dedup(handler_ids(self.table@));
                let deps = table_deps(ids, self.table@);
                &&& (r is Err <==> self.has_dependencies_spec() && !schedulable(ids, deps))
                &&& match r {
                    Ok(Dispatch::Concurrent(v)) => !self.has_dependencies_spec() && v@ == heads(self.table@),
                    Ok(Dispatch::Levels(plan)) => self.has_dependencies_spec() && valid_plan(ids, deps, plan_view(plan@))
                        && plan_drawn_from(plan@, heads(self.table@)),
                    Err(e) => cycle_report(ids, deps, id_seq(e.handlers@)) && schedulable_without(ids, deps, id_seq(e.handlers@))
                        && drawn_from(e.handlers@, heads(self.table@)),
                }
            }),
    {
        let mut ids: Vec<HandlerId> = Vec::new();
        let mut i: usize = 0;
        while i < self.table.len()
            invariant
                i <= self.table@.len(),
                id_seq(ids@) == handler_ids(self.table@).take(i as int),
                ids@ == heads(self.table@).take(i as int),
            decreases self.table@.len() - i,
        {
            let ghost before = ids@;
            ids.push(self.table[i].0.copy());
            assert(ids@ =~= heads(self.table@).take(i + 1));
            assert(id_seq(ids@) =~= id_seq(before).push(self.table@[i as int].0.id_view()));
            assert(handler_ids(self.table@).take(i + 1) =~= handler_ids(self.table@).take(i as int).push(
                self.table@[i as int].0.id_view(),
            ));
            i += 1;
        }
        assert(handler_ids(self.table@).take(i as int) =~= handler_ids(self.table@));
        assert(heads(self.table@).take(i as int) =~= heads(self.table@));
        if !self.has_dependencies() {
            return Ok(Dispatch::Concurrent(ids));
        }
        match try_build_execution_plan(ids.as_slice(), self.table.as_slice()) {
            Ok(plan) => Ok(Dispatch::Levels(plan)),
            Err(e) => Err(e),
        }
    }
}

} // verus!
