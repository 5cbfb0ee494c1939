//! Dependency graph resolution for event handlers.
//!
//! Handlers are organised into levels: level 0 holds the handlers without
//! dependencies, and a handler sits one level above its deepest dependency.
//! Handlers of one level can run in parallel.

use vstd::prelude::*;

use crate::events::event_bus::{Depends, ExecutionPlan, HandlerId};

verus! {

// ---------------------------------------------------------------------------
// Model
// ---------------------------------------------------------------------------

/// The numeric ids of the handlers, in order.
pub open spec fn handler_ids(hs: Seq<(HandlerId, Vec<Depends>)>) -> Seq<u64> {
    hs.map_values(|h: (HandlerId, Vec<Depends>)| h.0.id_view())
}

/// The numeric ids a dependency list refers to.
pub open spec fn dep_ids(ds: Seq<Depends>) -> Seq<u64> {
    ds.map_values(|d: Depends| d.handler_id.id_view())
}

/// The dependency ids of each handler, in order.
pub open spec fn handler_deps(hs: Seq<(HandlerId, Vec<Depends>)>) -> Seq<Seq<u64>> {
    hs.map_values(|h: (HandlerId, Vec<Depends>)| dep_ids(h.1@))
}

/// The ids of a list of handler identifiers.
pub open spec fn id_seq(l: Seq<HandlerId>) -> Seq<u64> {
    l.map_values(|h: HandlerId| h.id_view())
}

/// The ids of each level of a plan.
/// The handler identities of the entries of `hs`, in order.
pub open spec fn heads(hs: Seq<(HandlerId, Vec<Depends>)>) -> Seq<HandlerId> {
    hs.map_values(|p: (HandlerId, Vec<Depends>)| p.0)
}

/// Every identity of `xs`, name and id, is one of `ys`.
pub open spec fn drawn_from(xs: Seq<HandlerId>, ys: Seq<HandlerId>) -> bool {
    forall|b: int| 0 <= b < xs.len() ==> #[trigger] ys.contains(xs[b])
}

/// Every identity of every level of `plan`, name and id, is one of `ys`.
pub open spec fn plan_drawn_from(plan: Seq<Vec<HandlerId>>, ys: Seq<HandlerId>) -> bool {
    forall|a: int| 0 <= a < plan.len() ==> drawn_from(#[trigger] plan[a]@, ys)
}

/// What is drawn from what is drawn from `zs` is drawn from `zs`.
pub proof fn lemma_drawn_trans(xs: Seq<HandlerId>, ys: Seq<HandlerId>, zs: Seq<HandlerId>)
    requires
        drawn_from(xs, ys),
        drawn_from(ys, zs),
    ensures
        drawn_from(xs, zs),
{
    assert forall|b: int| 0 <= b < xs.len() implies #[trigger] zs.contains(xs[b]) by {
        assert(ys.contains(xs[b]));
        let k = choose|k: int| 0 <= k < ys.len() && ys[k] == xs[b];
        assert(zs.contains(ys[k]));
    }
}

pub open spec fn plan_view(plan: Seq<Vec<HandlerId>>) -> Seq<Seq<u64>> {
    plan.map_values(|l: Vec<HandlerId>| id_seq(l@))
}

/// No value occurs twice.
pub open spec fn distinct(s: Seq<u64>) -> bool {
    forall|i: int, j: int| 0 <= i < j < s.len() ==> s[i] != s[j]
}

/// A handler with dependencies `ds` may sit at level `k` of `plan`: its
/// dependencies (a repeated one counts once) all sit at lower levels, and
/// (unless it has none and sits at level 0) one of them sits directly below
/// it.
pub open spec fn placed_at(ds: Seq<u64>, plan: Seq<Seq<u64>>, k: int) -> bool {
    &&& forall|m: int| 0 <= m < ds.len() ==> in_lower_level(plan, k, #[trigger] ds[m])
    &&& (k == 0 ==> ds.len() == 0)
    &&& (k > 0 ==> exists|m: int| 0 <= m < ds.len() && #[trigger] plan[k - 1].contains(ds[m]))
}

/// `x` sits at some level of `plan`.
pub open spec fn in_some_level(plan: Seq<Seq<u64>>, x: u64) -> bool {
    exists|k: int| 0 <= k < plan.len() && #[trigger] plan[k].contains(x)
}

/// `x` sits at some level below `k`.
pub open spec fn in_lower_level(plan: Seq<Seq<u64>>, k: int, x: u64) -> bool {
    exists|k2: int| 0 <= k2 < k && #[trigger] plan[k2].contains(x)
}

/// `plan` schedules every handler exactly once, each at the level its
/// dependencies determine, with no empty level.
pub open spec fn valid_plan(ids: Seq<u64>, deps: Seq<Seq<u64>>, plan: Seq<Seq<u64>>) -> bool {
    &&& forall|k: int| 0 <= k < plan.len() ==> #[trigger] plan[k].len() > 0 && distinct(plan[k])
    &&& forall|k: int, x: u64| 0 <= k < plan.len() && #[trigger] plan[k].contains(x) ==> ids.contains(x)
    &&& forall|i: int| 0 <= i < ids.len() ==> in_some_level(plan, #[trigger] ids[i])
    &&& forall|k1: int, k2: int, x: u64|
        0 <= k1 < plan.len() && 0 <= k2 < plan.len() && #[trigger] plan[k1].contains(x) && #[trigger] plan[k2].contains(x)
            ==> k1 == k2
    &&& forall|i: int, k: int|
        0 <= i < ids.len() && 0 <= k < plan.len() && #[trigger] plan[k].contains(ids[i]) ==> placed_at(deps[i], plan, k)
}

/// The handlers can be scheduled: some valid plan exists.
pub open spec fn schedulable(ids: Seq<u64>, deps: Seq<Seq<u64>>) -> bool {
    exists|plan: Seq<Seq<u64>>| valid_plan(ids, deps, plan)
}

/// `plan` schedules exactly the handlers not in `rem`, each once, each at
/// the level its dependencies determine, with no empty level.
pub open spec fn plan_without(ids: Seq<u64>, deps: Seq<Seq<u64>>, rem: Seq<u64>, plan: Seq<Seq<u64>>) -> bool {
    &&& forall|k: int| 0 <= k < plan.len() ==> #[trigger] plan[k].len() > 0 && distinct(plan[k])
    &&& forall|k: int, x: u64| 0 <= k < plan.len() && #[trigger] plan[k].contains(x) ==> ids.contains(x) && !rem.contains(x)
    &&& forall|i: int| 0 <= i < ids.len() && !rem.contains(ids[i]) ==> in_some_level(plan, #[trigger] ids[i])
    &&& forall|k1: int, k2: int, x: u64|
        0 <= k1 < plan.len() && 0 <= k2 < plan.len() && #[trigger] plan[k1].contains(x) && #[trigger] plan[k2].contains(x)
            ==> k1 == k2
    &&& forall|i: int, k: int|
        0 <= i < ids.len() && 0 <= k < plan.len() && #[trigger] plan[k].contains(ids[i]) ==> placed_at(deps[i], plan, k)
}

/// The handlers outside `rem` can be scheduled among themselves.
pub open spec fn schedulable_without(ids: Seq<u64>, deps: Seq<Seq<u64>>, rem: Seq<u64>) -> bool {
    exists|plan: Seq<Seq<u64>>| plan_without(ids, deps, rem, plan)
}

/// Handler `i` can never run once every handler of `rem` is held back: it
/// depends on an unknown handler, or on a handler of `rem`.
pub open spec fn blocked(ids: Seq<u64>, deps: Seq<Seq<u64>>, rem: Seq<u64>, i: int) -> bool {
    ||| exists|m: int| 0 <= m < deps[i].len() && !ids.contains(#[trigger] deps[i][m])
    ||| exists|m: int| 0 <= m < deps[i].len() && rem.contains(#[trigger] deps[i][m])
}

/// A non-empty set of handlers that all block each other rules out every plan.
pub proof fn lemma_blocked_not_schedulable(ids: Seq<u64>, deps: Seq<Seq<u64>>, rem: Seq<u64>)
    requires
        deps.len() == ids.len(),
        rem.len() > 0,
        forall|x: u64| rem.contains(x) ==> ids.contains(x),
        forall|i: int| 0 <= i < ids.len() && rem.contains(ids[i]) ==> blocked(ids, deps, rem, i),
    ensures
        !schedulable(ids, deps),
{
    if schedulable(ids, deps) {
        let plan = choose|plan: Seq<Seq<u64>>| valid_plan(ids, deps, plan);
        assert(rem.contains(rem[0]));
        let i = choose|i: int| 0 <= i < ids.len() && ids[i] == rem[0];
        let k = choose|k: int| 0 <= k < plan.len() && #[trigger] plan[k].contains(ids[i]);
        lemma_rem_absent(ids, deps, rem, plan, k, i);
    }
}

proof fn lemma_rem_absent(ids: Seq<u64>, deps: Seq<Seq<u64>>, rem: Seq<u64>, plan: Seq<Seq<u64>>, k: int, i: int)
    requires
        deps.len() == ids.len(),
        valid_plan(ids, deps, plan),
        forall|i: int| 0 <= i < ids.len() && rem.contains(ids[i]) ==> blocked(ids, deps, rem, i),
        0 <= k < plan.len(),
        0 <= i < ids.len(),
    ensures
        !(rem.contains(ids[i]) && plan[k].contains(ids[i])),
    decreases k,
{
    if rem.contains(ids[i]) && plan[k].contains(ids[i]) {
        assert(placed_at(deps[i], plan, k));
        assert(blocked(ids, deps, rem, i));
        if exists|m: int| 0 <= m < deps[i].len() && !ids.contains(#[trigger] deps[i][m]) {
            let m = choose|m: int| 0 <= m < deps[i].len() && !ids.contains(#[trigger] deps[i][m]);
            let k2 = choose|k2: int| 0 <= k2 < k && #[trigger] plan[k2].contains(deps[i][m]);
            assert(ids.contains(deps[i][m]));
        } else if exists|m: int| 0 <= m < deps[i].len() && rem.contains(#[trigger] deps[i][m]) {
            let m = choose|m: int| 0 <= m < deps[i].len() && rem.contains(#[trigger] deps[i][m]);
            let k2 = choose|k2: int| 0 <= k2 < k && #[trigger] plan[k2].contains(deps[i][m]);
            assert(ids.contains(deps[i][m]));
            let j = choose|j: int| 0 <= j < ids.len() && ids[j] == deps[i][m];
            lemma_rem_absent(ids, deps, rem, plan, k2, j);
        }
    }
}


// ---------------------------------------------------------------------------
// Errors
// ---------------------------------------------------------------------------

/// Error raised when circular dependencies are detected among event handlers.
#[derive(Debug)]
pub struct CircularDependencyError {
    /// The handlers involved in the circular dependency.
    pub handlers: Vec<HandlerId>,
}

/// The names of the first five handlers, joined by `", "`.
pub open spec fn handler_names_spec(hs: Seq<HandlerId>) -> Seq<char>
    decreases hs.len(),
{
    if hs.len() == 0 {
        Seq::empty()
    } else if hs.len() > 5 {
        handler_names_spec(hs.take(5))
    } else if hs.len() == 1 {
        hs[0].name_view()
    } else {
        handler_names_spec(hs.drop_last()) + ", "@ + hs.last().name_view()
    }
}

/// The names of the first five handlers, joined by `", "`.
pub fn handler_names(handlers: &[HandlerId]) -> (s: String)
    ensures
        s@ == handler_names_spec(handlers@),
{
    let mut s = String::new();
    let limit: usize = if handlers.len() > 5 { 5 } else { handlers.len() };
    let ghost shown = handlers@.take(limit as int);
    assert(handler_names_spec(handlers@) == handler_names_spec(shown)) by {
        if handlers@.len() > 5 {
            assert(handlers@.take(5) =~= shown);
        } else {
            assert(handlers@ =~= shown);
        }
    }
    let mut i: usize = 0;
    while i < limit
        invariant
            limit <= handlers@.len(),
            limit <= 5,
            i <= limit,
            shown == handlers@.take(limit as int),
            s@ == handler_names_spec(shown.take(i as int)),
        decreases limit - i,
    {
        assert(shown.take(i + 1).drop_last() =~= shown.take(i as int));
        if i > 0 {
            s.append(", ");
        } else {
            assert(shown.take(0) =~= Seq::<HandlerId>::empty());
        }
        let nm = handlers[i].name();
        s.append(nm);
        i += 1;
    }
    assert(shown.take(limit as int) =~= shown);
    s
}

impl CircularDependencyError {
    /// The error message.
    pub fn message(&self) -> (m: String)
        ensures
            m@ == "Circular dependency detected in event handlers: "@ + handler_names_spec(
                self.handlers@,
            ),
    {
        let mut m = String::from_str("Circular dependency detected in event handlers: ");
        let names = handler_names(self.handlers.as_slice());
        m.append(names.as_str());
        m
    }
}

// ---------------------------------------------------------------------------
// Resolution
// ---------------------------------------------------------------------------

/// The dependency positions computed for a handler, as a sequence.
pub open spec fn pos_view(o: Option<Vec<usize>>) -> Option<Seq<usize>> {
    match o {
        Some(v) => Some(v@),
        None => None,
    }
}

/// `info` records where the dependencies of handler `i` sit among the handlers,
/// or `None` when one names an unknown handler.
pub open spec fn info_ok(ids: Seq<u64>, deps: Seq<Seq<u64>>, info: Option<Seq<usize>>, i: int) -> bool {
    match info {
        Some(ps) => {
            &&& ps.len() == deps[i].len()
            &&& forall|m: int| 0 <= m < ps.len() ==> (#[trigger] ps[m] as int) < ids.len() && ids[ps[m] as int] == deps[i][m]
        },
        None => exists|m: int| 0 <= m < deps[i].len() && !ids.contains(#[trigger] deps[i][m]),
    }
}

/// A level assignment strictly below `b`.
pub open spec fn below(o: Option<usize>, b: int) -> bool {
    match o {
        Some(l) => l < b,
        None => false,
    }
}

/// A handler is ready when all its dependencies sit below level `b`.
pub open spec fn ready(info: Option<Seq<usize>>, lv: Seq<Option<usize>>, b: int) -> bool {
    match info {
        Some(ps) => all_below(ps, lv, b),
        None => false,
    }
}

/// Every position of `ps` is scheduled below level `b`.
pub open spec fn all_below(ps: Seq<usize>, lv: Seq<Option<usize>>, b: int) -> bool {
    forall|m: int| 0 <= m < ps.len() ==> below(#[trigger] lv[ps[m] as int], b)
}

/// A handler at level `k` has all dependencies lower and one directly below.
pub open spec fn placed_lv(info: Option<Seq<usize>>, lv: Seq<Option<usize>>, k: int) -> bool {
    match info {
        Some(ps) => {
            &&& forall|m: int| 0 <= m < ps.len() ==> below(#[trigger] lv[ps[m] as int], k)
            &&& (k == 0 ==> ps.len() == 0)
            &&& (k > 0 ==> exists|m: int| 0 <= m < ps.len() && #[trigger] lv[ps[m] as int] == Some((k - 1) as usize))
        },
        None => false,
    }
}

/// The number of unscheduled handlers.
pub open spec fn count_none(s: Seq<Option<usize>>) -> nat
    decreases s.len(),
{
    if s.len() == 0 {
        0
    } else {
        count_none(s.drop_last()) + if s.last() is None {
            1nat
        } else {
            0nat
        }
    }
}

proof fn lemma_count_none_decreases(a: Seq<Option<usize>>, b: Seq<Option<usize>>, w: int)
    requires
        a.len() == b.len(),
        forall|i: int| 0 <= i < a.len() && b[i] is None ==> a[i] is None,
        0 <= w < a.len(),
        a[w] is None,
        b[w] is Some,
    ensures
        count_none(b) < count_none(a),
    decreases a.len(),
{
    lemma_count_none_mono(a.drop_last(), b.drop_last());
    if w < a.len() - 1 {
        lemma_count_none_decreases(a.drop_last(), b.drop_last(), w);
    }
}

proof fn lemma_count_none_mono(a: Seq<Option<usize>>, b: Seq<Option<usize>>)
    requires
        a.len() == b.len(),
        forall|i: int| 0 <= i < a.len() && b[i] is None ==> a[i] is None,
    ensures
        count_none(b) <= count_none(a),
    decreases a.len(),
{
    if a.len() > 0 {
        lemma_count_none_mono(a.drop_last(), b.drop_last());
    }
}

/// The position of the handler with id `d`, if any.
fn find_index(handlers: &[(HandlerId, Vec<Depends>)], d: u64) -> (r: Option<usize>)
    ensures
        match r {
            Some(j) => j < handlers@.len() && handler_ids(handlers@)[j as int] == d,
            None => !handler_ids(handlers@).contains(d),
        },
{
    let mut j: usize = 0;
    while j < handlers.len()
        invariant
            j <= handlers@.len(),
            forall|t: int| 0 <= t < j ==> handler_ids(handlers@)[t] != d,
        decreases handlers@.len() - j,
    {
        if handlers[j].0.id() == d {
            return Some(j);
        }
        j += 1;
    }
    None
}

/// The positions of the dependencies of handler `i`.
fn dep_positions(handlers: &[(HandlerId, Vec<Depends>)], i: usize) -> (r: Option<Vec<usize>>)
    requires
        i < handlers@.len(),
    ensures
        info_ok(handler_ids(handlers@), handler_deps(handlers@), pos_view(r), i as int),
{
    let ghost ids = handler_ids(handlers@);
    let ghost ds = handler_deps(handlers@)[i as int];
    let deps = &handlers[i].1;
    assert(ds == dep_ids(deps@));
    let mut ps: Vec<usize> = Vec::new();
    let mut m: usize = 0;
    while m < deps.len()
        invariant
            ids == handler_ids(handlers@),
            ds == dep_ids(deps@),
            ds == handler_deps(handlers@)[i as int],
            i < handlers@.len(),
            m <= deps@.len(),
            ps@.len() == m,
            forall|t: int| 0 <= t < m ==> (#[trigger] ps@[t] as int) < ids.len() && ids[ps@[t] as int] == ds[t],
        decreases deps@.len() - m,
    {
        let d = deps[m].handler_id.id();
        assert(ds[m as int] == d);
        match find_index(handlers, d) {
            None => {
                assert(!handler_ids(handlers@).contains(handler_deps(handlers@)[i as int][m as int]));
                return None;
            },
            Some(j) => {
                ps.push(j);
            },
        }
        m += 1;
    }
    assert(ds.take(m as int) =~= ds);
    Some(ps)
}

/// Whether all positions `ps` are scheduled below level `bound`.
fn deps_ready(ps: &Vec<usize>, level: &Vec<Option<usize>>, bound: usize) -> (r: bool)
    requires
        forall|m: int| 0 <= m < ps@.len() ==> (#[trigger] ps@[m] as int) < level@.len(),
    ensures
        r == all_below(ps@, level@, bound as int),
{
    let mut m: usize = 0;
    while m < ps.len()
        invariant
            m <= ps@.len(),
            forall|t: int| 0 <= t < ps@.len() ==> (#[trigger] ps@[t] as int) < level@.len(),
            forall|t: int| 0 <= t < m ==> below(#[trigger] level@[ps@[t] as int], bound as int),
        decreases ps@.len() - m,
    {
        let ok = match level[ps[m]] {
            Some(l) => l < bound,
            None => false,
        };
        if !ok {
            assert(!below(level@[ps@[m as int] as int], bound as int));
            assert(0 <= m < ps@.len());

            return false;
        }
        m += 1;
    }
    true
}


// ---------------------------------------------------------------------------
// Round invariants
// ---------------------------------------------------------------------------

/// Strictly increasing positions.
pub open spec fn increasing(s: Seq<int>) -> bool {
    forall|a: int, b: int| 0 <= a < b < s.len() ==> s[a] < s[b]
}

/// The plan levels `pv` list the handlers at positions `members`, and the
/// level assignment `level` agrees with them.
pub open spec fn members_ok(ids: Seq<u64>, level: Seq<Option<usize>>, pv: Seq<Seq<u64>>, members: Seq<Seq<int>>) -> bool {
    &&& pv.len() == members.len()
    &&& members.len() <= usize::MAX
    &&& forall|k: int|
        0 <= k < members.len() ==> #[trigger] members[k].len() > 0 && pv[k].len() == members[k].len()
            && increasing(members[k])
    &&& forall|k: int, t: int|
        0 <= k < members.len() && 0 <= t < members[k].len() ==> 0 <= #[trigger] members[k][t] < level.len()
            && level[members[k][t]] == Some(k as usize) && pv[k][t] == ids[members[k][t]]
    &&& forall|i: int|
        0 <= i < level.len() && (#[trigger] level[i]) is Some ==> level[i]->0 < members.len()
            && members[level[i]->0 as int].contains(i)
}

/// The state between rounds of the level computation.
pub open spec fn round_inv(
    ids: Seq<u64>,
    deps: Seq<Seq<u64>>,
    info: Seq<Option<Seq<usize>>>,
    level: Seq<Option<usize>>,
    pv: Seq<Seq<u64>>,
    members: Seq<Seq<int>>,
) -> bool {
    &&& level.len() == ids.len()
    &&& info.len() == ids.len()
    &&& deps.len() == ids.len()
    &&& distinct(ids)
    &&& forall|i: int| 0 <= i < ids.len() ==> info_ok(ids, deps, #[trigger] info[i], i)
    &&& members_ok(ids, level, pv, members)
    &&& forall|i: int|
        0 <= i < level.len() && (#[trigger] level[i]) is Some ==> placed_lv(info[i], level, level[i]->0 as int)
    &&& members.len() > 0 ==> forall|i: int|
        0 <= i < level.len() && (#[trigger] level[i]) is None ==> !ready(info[i], level, members.len() - 1)
}

proof fn lemma_round_step(
    ids: Seq<u64>,
    deps: Seq<Seq<u64>>,
    info: Seq<Option<Seq<usize>>>,
    old_level: Seq<Option<usize>>,
    new_level: Seq<Option<usize>>,
    pv: Seq<Seq<u64>>,
    group: Seq<u64>,
    members: Seq<Seq<int>>,
    cur: Seq<int>,
)
    requires
        round_inv(ids, deps, info, old_level, pv, members),
        cur.len() > 0,
        increasing(cur),
        forall|t: int|
            0 <= t < cur.len() ==> 0 <= #[trigger] cur[t] < ids.len() && old_level[cur[t]] is None
                && ready(info[cur[t]], old_level, members.len() as int),
        forall|j: int|
            0 <= j < ids.len() && old_level[j] is None && ready(info[j], old_level, members.len() as int)
                ==> cur.contains(j),
        new_level.len() == old_level.len(),
        forall|j: int|
            0 <= j < new_level.len() ==> #[trigger] new_level[j] == (if cur.contains(j) {
                Some(members.len() as usize)
            } else {
                old_level[j]
            }),
        group.len() == cur.len(),
        forall|t: int| 0 <= t < cur.len() ==> #[trigger] group[t] == ids[cur[t]],
        members.len() < usize::MAX,
    ensures
        round_inv(ids, deps, info, new_level, pv.push(group), members.push(cur)),
        count_none(new_level) < count_none(old_level),
{
    let r = members.len() as int;
    let nm = members.push(cur);
    let npv = pv.push(group);
    // Unchanged entries keep their levels.
    assert forall|j: int| 0 <= j < old_level.len() && (#[trigger] old_level[j]) is Some implies new_level[j] == old_level[j] by {
        if cur.contains(j) {
            let t = choose|t: int| 0 <= t < cur.len() && cur[t] == j;
            assert(old_level[cur[t]] is None);
        }
    }
    // Members.
    assert(members_ok(ids, new_level, npv, nm)) by {
        assert forall|k: int, t: int| 0 <= k < nm.len() && 0 <= t < nm[k].len() implies 0 <= #[trigger] nm[k][t] < new_level.len()
            && new_level[nm[k][t]] == Some(k as usize) && npv[k][t] == ids[nm[k][t]] by {
            if k < r {
                assert(nm[k] == members[k]);
                assert(old_level[members[k][t]] == Some(k as usize));
                assert(new_level[nm[k][t]] == old_level[nm[k][t]]);
            } else {
                assert(nm[k] == cur);
                assert(cur.contains(cur[t]));
            }
        }
        assert forall|i: int| 0 <= i < new_level.len() && (#[trigger] new_level[i]) is Some implies new_level[i]->0 < nm.len()
            && nm[new_level[i]->0 as int].contains(i) by {
            if cur.contains(i) {
                assert(nm[r] == cur);
            } else {
                assert(old_level[i] is Some);
                let k = old_level[i]->0 as int;
                assert(members[k].contains(i));
                assert(nm[k] == members[k]);
            }
        }
        assert forall|k: int| 0 <= k < nm.len() implies #[trigger] nm[k].len() > 0 && npv[k].len() == nm[k].len()
            && increasing(nm[k]) by {
            if k < r {
                assert(nm[k] == members[k]);
                assert(npv[k] == pv[k]);
            } else {
                assert(nm[k] == cur);
                assert(npv[k] == group);
            }
        }
    }
    // Placement.
    assert forall|i: int| 0 <= i < new_level.len() && (#[trigger] new_level[i]) is Some implies placed_lv(
        info[i],
        new_level,
        new_level[i]->0 as int,
    ) by {
        if cur.contains(i) {
            let t = choose|t: int| 0 <= t < cur.len() && cur[t] == i;
            assert(ready(info[cur[t]], old_level, r));
            let ps = info[i]->0;
            assert forall|m: int| 0 <= m < ps.len() implies below(#[trigger] new_level[ps[m] as int], r) by {
                assert(below(old_level[ps[m] as int], r));
                assert(info_ok(ids, deps, info[i], i));
            }
            if r == 0 {
                if ps.len() > 0 {
                    assert(below(old_level[ps[0] as int], 0));
                }
            } else {
                assert(old_level[i] is None);
                assert(!ready(info[i], old_level, r - 1));
                let m = choose|m: int| 0 <= m < ps.len() && !below(#[trigger] old_level[ps[m] as int], r - 1);
                assert(info_ok(ids, deps, info[i], i));
                assert(below(old_level[ps[m] as int], r));
                assert(new_level[ps[m] as int] == Some((r - 1) as usize));
            }
        } else {
            assert(new_level[i] == old_level[i]);
            let k = old_level[i]->0 as int;
            assert(placed_lv(info[i], old_level, k));
            let ps = info[i]->0;
            assert(info_ok(ids, deps, info[i], i));
            assert forall|m: int| 0 <= m < ps.len() implies below(#[trigger] new_level[ps[m] as int], k) by {
                assert(below(old_level[ps[m] as int], k));
            }
            if k > 0 {
                let m = choose|m: int| 0 <= m < ps.len() && #[trigger] old_level[ps[m] as int] == Some((k - 1) as usize);
                assert(new_level[ps[m] as int] == Some((k - 1) as usize));
            }
        }
    }
    // Unscheduled handlers are not ready at the last level.
    assert forall|i: int| 0 <= i < new_level.len() && (#[trigger] new_level[i]) is None implies !ready(
        info[i],
        new_level,
        nm.len() - 1,
    ) by {
        assert(!cur.contains(i));
        assert(old_level[i] is None);
        assert(!ready(info[i], old_level, r));
        if ready(info[i], new_level, r) {
            let ps = info[i]->0;
            assert(info_ok(ids, deps, info[i], i));
            assert forall|m: int| 0 <= m < ps.len() implies below(#[trigger] old_level[ps[m] as int], r) by {
                assert(below(new_level[ps[m] as int], r));
                if cur.contains(ps[m] as int) {
                    assert(new_level[ps[m] as int] == Some(r as usize));
                }
            }
        }
    }
    // Progress.
    assert(cur.contains(cur[0]));
    lemma_count_none_decreases(old_level, new_level, cur[0]);
}

/// The plan covers every handler: it is a valid plan.
proof fn lemma_final_ok(
    ids: Seq<u64>,
    deps: Seq<Seq<u64>>,
    info: Seq<Option<Seq<usize>>>,
    level: Seq<Option<usize>>,
    pv: Seq<Seq<u64>>,
    members: Seq<Seq<int>>,
)
    requires
        round_inv(ids, deps, info, level, pv, members),
        forall|i: int| 0 <= i < level.len() ==> (#[trigger] level[i]) is Some,
    ensures
        valid_plan(ids, deps, pv),
{
    // Membership in a level means being assigned to it.
    assert forall|k: int, i: int| 0 <= k < pv.len() && 0 <= i < ids.len() && #[trigger] pv[k].contains(ids[i]) implies level[i]
        == Some(k as usize) by {
        let t = choose|t: int| 0 <= t < pv[k].len() && pv[k][t] == ids[i];
        let j = members[k][t];
        assert(ids[j] == ids[i]);
    }
    assert forall|k: int| 0 <= k < pv.len() implies #[trigger] pv[k].len() > 0 && distinct(pv[k]) by {
        assert(members[k].len() > 0 && pv[k].len() == members[k].len() && increasing(members[k]));
        assert forall|a: int, b: int| 0 <= a < b < pv[k].len() implies #[trigger] pv[k][a] != #[trigger] pv[k][b] by {
            let ma = members[k][a];
            let mb = members[k][b];
            assert(ma < mb);
            assert(0 <= ma < ids.len() && 0 <= mb < ids.len());
            assert(pv[k][a] == ids[ma] && pv[k][b] == ids[mb]);
            assert(ids[ma] != ids[mb]);
        }
    }
    assert forall|k: int, x: u64| 0 <= k < pv.len() && #[trigger] pv[k].contains(x) implies ids.contains(x) by {
        let t = choose|t: int| 0 <= t < pv[k].len() && pv[k][t] == x;
        assert(ids[members[k][t]] == x);
    }
    assert forall|i: int| 0 <= i < ids.len() implies in_some_level(pv, #[trigger] ids[i]) by {
        let k = level[i]->0 as int;
        assert(members[k].contains(i));
        let t = choose|t: int| 0 <= t < members[k].len() && members[k][t] == i;
        assert(pv[k][t] == ids[i]);
        assert(pv[k].contains(ids[i]));
    }
    assert forall|k1: int, k2: int, x: u64| 0 <= k1 < pv.len() && 0 <= k2 < pv.len() && #[trigger] pv[k1].contains(x)
        && #[trigger] pv[k2].contains(x) implies k1 == k2 by {
        let t = choose|t: int| 0 <= t < pv[k1].len() && pv[k1][t] == x;
        let i = members[k1][t];
        assert(pv[k1].contains(ids[i]));
        assert(pv[k2].contains(ids[i]));
    }
    assert forall|i: int, k: int| 0 <= i < ids.len() && 0 <= k < pv.len() && #[trigger] pv[k].contains(ids[i]) implies placed_at(
        deps[i],
        pv,
        k,
    ) by {
        lemma_placed(ids, deps, info, level, pv, members, i, k);
    }
}

/// The plan covers exactly the scheduled handlers.
proof fn lemma_final_partial(
    ids: Seq<u64>,
    deps: Seq<Seq<u64>>,
    info: Seq<Option<Seq<usize>>>,
    level: Seq<Option<usize>>,
    pv: Seq<Seq<u64>>,
    members: Seq<Seq<int>>,
    rem: Seq<u64>,
)
    requires
        round_inv(ids, deps, info, level, pv, members),
        forall|i: int| 0 <= i < ids.len() ==> (rem.contains(#[trigger] ids[i]) <==> level[i] is None),
    ensures
        plan_without(ids, deps, rem, pv),
{
    assert forall|k: int, i: int| 0 <= k < pv.len() && 0 <= i < ids.len() && #[trigger] pv[k].contains(ids[i]) implies level[i]
        == Some(k as usize) by {
        let t = choose|t: int| 0 <= t < pv[k].len() && pv[k][t] == ids[i];
        let j = members[k][t];
        assert(ids[j] == ids[i]);
    }
    assert forall|k: int| 0 <= k < pv.len() implies #[trigger] pv[k].len() > 0 && distinct(pv[k]) by {
        assert(members[k].len() > 0 && pv[k].len() == members[k].len() && increasing(members[k]));
        assert forall|a: int, b: int| 0 <= a < b < pv[k].len() implies #[trigger] pv[k][a] != #[trigger] pv[k][b] by {
            let ma = members[k][a];
            let mb = members[k][b];
            assert(ma < mb);
            assert(pv[k][a] == ids[ma] && pv[k][b] == ids[mb]);
            assert(ids[ma] != ids[mb]);
        }
    }
    assert forall|k: int, x: u64| 0 <= k < pv.len() && #[trigger] pv[k].contains(x) implies ids.contains(x) && !rem.contains(x) by {
        let t = choose|t: int| 0 <= t < pv[k].len() && pv[k][t] == x;
        let j = members[k][t];
        assert(ids[j] == x);
        assert(level[j] == Some(k as usize));
    }
    assert forall|i: int| 0 <= i < ids.len() && !rem.contains(ids[i]) implies in_some_level(pv, #[trigger] ids[i]) by {
        let k = level[i]->0 as int;
        assert(members[k].contains(i));
        let t = choose|t: int| 0 <= t < members[k].len() && members[k][t] == i;
        assert(pv[k][t] == ids[i]);
        assert(pv[k].contains(ids[i]));
    }
    assert forall|k1: int, k2: int, x: u64| 0 <= k1 < pv.len() && 0 <= k2 < pv.len() && #[trigger] pv[k1].contains(x)
        && #[trigger] pv[k2].contains(x) implies k1 == k2 by {
        let t = choose|t: int| 0 <= t < pv[k1].len() && pv[k1][t] == x;
        let i = members[k1][t];
        assert(pv[k1].contains(ids[i]));
        assert(pv[k2].contains(ids[i]));
    }
    assert forall|i: int, k: int| 0 <= i < ids.len() && 0 <= k < pv.len() && #[trigger] pv[k].contains(ids[i]) implies placed_at(
        deps[i],
        pv,
        k,
    ) by {
        lemma_placed(ids, deps, info, level, pv, members, i, k);
    }
}

/// The handlers a failed resolution reports are fixed by the handlers: two
/// reports that each block themselves and leave the rest schedulable name
/// the same handlers.
pub proof fn lemma_cycle_report_unique(ids: Seq<u64>, deps: Seq<Seq<u64>>, r1: Seq<u64>, r2: Seq<u64>)
    requires
        deps.len() == ids.len(),
        cycle_report(ids, deps, r1),
        schedulable_without(ids, deps, r1),
        cycle_report(ids, deps, r2),
        schedulable_without(ids, deps, r2),
    ensures
        forall|x: u64| r1.contains(x) <==> r2.contains(x),
{
    lemma_report_within(ids, deps, r1, r2);
    lemma_report_within(ids, deps, r2, r1);
}

/// A self-blocking report `r2` lies within any report `r1` that leaves
/// the rest schedulable.
proof fn lemma_report_within(ids: Seq<u64>, deps: Seq<Seq<u64>>, r1: Seq<u64>, r2: Seq<u64>)
    requires
        deps.len() == ids.len(),
        schedulable_without(ids, deps, r1),
        cycle_report(ids, deps, r2),
    ensures
        forall|x: u64| r2.contains(x) ==> r1.contains(x),
{
    let plan = choose|plan: Seq<Seq<u64>>| plan_without(ids, deps, r1, plan);
    assert forall|x: u64| r2.contains(x) implies r1.contains(x) by {
        if !r1.contains(x) {
            let i = choose|i: int| 0 <= i < ids.len() && ids[i] == x;
            assert(in_some_level(plan, ids[i]));
            let k = choose|k: int| 0 <= k < plan.len() && #[trigger] plan[k].contains(ids[i]);
            lemma_no_scheduled_in(ids, deps, r1, r2, plan, k, i);
        }
    }
}

/// No handler the plan schedules is in a self-blocking report.
proof fn lemma_no_scheduled_in(ids: Seq<u64>, deps: Seq<Seq<u64>>, r1: Seq<u64>, r2: Seq<u64>, plan: Seq<Seq<u64>>, k: int, i: int)
    requires
        deps.len() == ids.len(),
        plan_without(ids, deps, r1, plan),
        cycle_report(ids, deps, r2),
        0 <= k < plan.len(),
        0 <= i < ids.len(),
        plan[k].contains(ids[i]),
    ensures
        !r2.contains(ids[i]),
    decreases k,
{
    if r2.contains(ids[i]) {
        assert(placed_at(deps[i], plan, k));
        assert(blocked(ids, deps, r2, i));
        if exists|m: int| 0 <= m < deps[i].len() && !ids.contains(#[trigger] deps[i][m]) {
            let m = choose|m: int| 0 <= m < deps[i].len() && !ids.contains(#[trigger] deps[i][m]);
            let k2 = choose|k2: int| 0 <= k2 < k && #[trigger] plan[k2].contains(deps[i][m]);
            assert(ids.contains(deps[i][m]));
        } else {
            let m = choose|m: int| 0 <= m < deps[i].len() && r2.contains(#[trigger] deps[i][m]);
            let k2 = choose|k2: int| 0 <= k2 < k && #[trigger] plan[k2].contains(deps[i][m]);
            assert(ids.contains(deps[i][m]));
            let j = choose|j: int| 0 <= j < ids.len() && ids[j] == deps[i][m];
            lemma_no_scheduled_in(ids, deps, r1, r2, plan, k2, j);
        }
    }
}

proof fn lemma_placed(
    ids: Seq<u64>,
    deps: Seq<Seq<u64>>,
    info: Seq<Option<Seq<usize>>>,
    level: Seq<Option<usize>>,
    pv: Seq<Seq<u64>>,
    members: Seq<Seq<int>>,
    i: int,
    k: int,
)
    requires
        round_inv(ids, deps, info, level, pv, members),
        0 <= i < ids.len(),
        0 <= k < pv.len(),
        level[i] == Some(k as usize),
    ensures
        placed_at(deps[i], pv, k),
{
    assert(placed_lv(info[i], level, k));
    assert(info_ok(ids, deps, info[i], i));
    let ps = info[i]->0;
    let ds = deps[i];
    assert forall|m: int| 0 <= m < ds.len() implies in_lower_level(pv, k, #[trigger] ds[m]) by {
        assert(below(level[ps[m] as int], k));
        let j = ps[m] as int;
        let k2 = level[j]->0 as int;
        assert(members[k2].contains(j));
        let t = choose|t: int| 0 <= t < members[k2].len() && members[k2][t] == j;
        assert(pv[k2][t] == ds[m]);
        assert(pv[k2].contains(ds[m]));
    }
    if k > 0 {
        let m = choose|m: int| 0 <= m < ps.len() && #[trigger] level[ps[m] as int] == Some((k - 1) as usize);
        let j = ps[m] as int;
        let km = k - 1;
        assert(members[km].contains(j));
        let t = choose|t: int| 0 <= t < members[km].len() && members[km][t] == j;
        assert(pv[km][t] == ds[m]);
        assert(pv[km].contains(ds[m]));
    }
    assert(k == 0 ==> ds.len() == 0);
}

/// What a report of unschedulable handlers states: it is non-empty, names
/// only known handlers, and each named handler is blocked by the report.
pub open spec fn cycle_report(ids: Seq<u64>, deps: Seq<Seq<u64>>, rem: Seq<u64>) -> bool {
    &&& rem.len() > 0
    &&& forall|x: u64| rem.contains(x) ==> ids.contains(x)
    &&& forall|i: int| 0 <= i < ids.len() && rem.contains(ids[i]) ==> blocked(ids, deps, rem, i)
}

proof fn lemma_final_err(
    ids: Seq<u64>,
    deps: Seq<Seq<u64>>,
    info: Seq<Option<Seq<usize>>>,
    level: Seq<Option<usize>>,
    pv: Seq<Seq<u64>>,
    members: Seq<Seq<int>>,
    rem: Seq<u64>,
    rem_idx: Seq<int>,
)
    requires
        round_inv(ids, deps, info, level, pv, members),
        forall|i: int| 0 <= i < level.len() && (#[trigger] level[i]) is None ==> !ready(info[i], level, members.len() as int),
        rem.len() > 0,
        rem.len() == rem_idx.len(),
        forall|t: int| 0 <= t < rem.len() ==> 0 <= #[trigger] rem_idx[t] < ids.len() && rem[t] == ids[rem_idx[t]] && level[rem_idx[t]] is None,
        forall|i: int| 0 <= i < ids.len() && (#[trigger] level[i]) is None ==> rem.contains(ids[i]),
    ensures
        cycle_report(ids, deps, rem),
{
    assert forall|x: u64| rem.contains(x) implies ids.contains(x) by {
        let t = choose|t: int| 0 <= t < rem.len() && rem[t] == x;
        assert(ids[rem_idx[t]] == x);
    }
    assert forall|i: int| 0 <= i < ids.len() && rem.contains(ids[i]) implies blocked(ids, deps, rem, i) by {
        let t = choose|t: int| 0 <= t < rem.len() && rem[t] == ids[i];
        assert(ids[rem_idx[t]] == ids[i]);
        assert(level[i] is None);
        assert(!ready(info[i], level, members.len() as int));
        assert(info_ok(ids, deps, info[i], i));
        if info[i] is Some {
            let ps = info[i]->0;
            let m = choose|m: int| 0 <= m < ps.len() && !below(#[trigger] level[ps[m] as int], members.len() as int);
            let j = ps[m] as int;
            if level[j] is Some {
                assert(level[j]->0 < members.len());
            }
            assert(level[j] is None);
            assert(rem.contains(ids[j]));
            assert(rem.contains(deps[i][m]));
        }
    }
}


proof fn lemma_count_none_all(s: Seq<Option<usize>>)
    requires
        forall|i: int| 0 <= i < s.len() ==> (#[trigger] s[i]) is None,
    ensures
        count_none(s) == s.len(),
    decreases s.len(),
{
    if s.len() > 0 {
        lemma_count_none_all(s.drop_last());
    }
}

/// The positions in `cur`, as integers.
pub open spec fn as_ints(cur: Seq<usize>) -> Seq<int> {
    cur.map_values(|x: usize| x as int)
}

/// The dependency positions of every handler.
pub open spec fn infos_view(info: Seq<Option<Vec<usize>>>) -> Seq<Option<Seq<usize>>> {
    info.map_values(|o: Option<Vec<usize>>| pos_view(o))
}

// ---------------------------------------------------------------------------
// HandlerGraph
// ---------------------------------------------------------------------------

/// Resolves handler dependencies into parallel execution levels.
pub struct HandlerGraph {
    /// Ordered execution levels.
    pub levels: ExecutionPlan,
}

impl HandlerGraph {
    /// Resolve the dependencies of `handlers` (distinct handler ids, each with
    /// its dependency list, where a repeated dependency counts once) into
    /// execution levels, or report the handlers that can never run: those
    /// caught in a cycle, or depending on an unknown handler or on one of
    /// those.
    pub fn resolve(handlers: &[(HandlerId, Vec<Depends>)]) -> (r: Result<ExecutionPlan, CircularDependencyError>)
        requires
            distinct(handler_ids(handlers@)),
        ensures
            r is Ok <==> schedulable(handler_ids(handlers@), handler_deps(handlers@)),
            match r {
                Ok(plan) => valid_plan(handler_ids(handlers@), handler_deps(handlers@), plan_view(plan@)) && plan_drawn_from(
                    plan@,
                    heads(handlers@),
                ),
                Err(e) => cycle_report(handler_ids(handlers@), handler_deps(handlers@), id_seq(e.handlers@))
                    && schedulable_without(handler_ids(handlers@), handler_deps(handlers@), id_seq(e.handlers@))
                    && drawn_from(e.handlers@, heads(handlers@)),
            },
    {
        let n = handlers.len();
        let ghost ids = handler_ids(handlers@);
        let ghost deps = handler_deps(handlers@);
        let mut info: Vec<Option<Vec<usize>>> = Vec::new();
        let mut level: Vec<Option<usize>> = Vec::new();
        let mut i: usize = 0;
        while i < n
            invariant
                n == handlers@.len(),
                ids == handler_ids(handlers@),
                deps == handler_deps(handlers@),
                i <= n,
                info@.len() == i,
                level@.len() == i,
                forall|j: int| 0 <= j < i ==> info_ok(ids, deps, pos_view(#[trigger] info@[j]), j),
                forall|j: int| 0 <= j < i ==> (#[trigger] level@[j]) is None,
            decreases n - i,
        {
            info.push(dep_positions(handlers, i));
            level.push(None);
            i += 1;
        }
        let ghost infos = infos_view(info@);
        proof {
            lemma_count_none_all(level@);
            assert forall|j: int| 0 <= j < ids.len() implies info_ok(ids, deps, #[trigger] infos[j], j) by {
                assert(infos[j] == pos_view(info@[j]));
            }
        }
        let mut plan: Vec<Vec<HandlerId>> = Vec::new();
        let ghost mut members: Seq<Seq<int>> = Seq::empty();
        assert(plan_view(plan@) =~= Seq::<Seq<u64>>::empty());
        loop
            invariant
                n == handlers@.len(),
                ids == handler_ids(handlers@),
                deps == handler_deps(handlers@),
                info@.len() == n,
                infos == infos_view(info@),
                round_inv(ids, deps, infos, level@, plan_view(plan@), members),
                members.len() + count_none(level@) <= n,
                plan_drawn_from(plan@, heads(handlers@)),
            ensures
                plan_drawn_from(plan@, heads(handlers@)),
                round_inv(ids, deps, infos, level@, plan_view(plan@), members),
                forall|q: int| 0 <= q < level@.len() && (#[trigger] level@[q]) is None ==> !ready(infos[q], level@, members.len() as int),
            decreases count_none(level@),
        {
            let r = plan.len();
            let mut cur: Vec<usize> = Vec::new();
            let mut j: usize = 0;
            while j < n
                invariant
                    n == handlers@.len(),
                    ids == handler_ids(handlers@),
                    deps == handler_deps(handlers@),
                    info@.len() == n,
                    infos == infos_view(info@),
                    round_inv(ids, deps, infos, level@, plan_view(plan@), members),
                    r == members.len(),
                    j <= n,
                    increasing(as_ints(cur@)),
                    forall|t: int|
                        0 <= t < cur@.len() ==> (#[trigger] cur@[t]) < j && level@[cur@[t] as int] is None
                            && ready(infos[cur@[t] as int], level@, r as int),
                    forall|q: int|
                        0 <= q < j && (#[trigger] level@[q]) is None && ready(infos[q], level@, r as int)
                            ==> as_ints(cur@).contains(q),
                decreases n - j,
            {
                let ghost cur0 = as_ints(cur@);
                if level[j].is_none() {
                    assert(info_ok(ids, deps, infos[j as int], j as int));
                    let rd = match &info[j] {
                        Some(ps) => {
                            assert(infos[j as int] == Some(ps@));
                            deps_ready(ps, &level, r)
                        },
                        None => false,
                    };
                    if rd {
                        cur.push(j);
                        assert(as_ints(cur@) =~= cur0.push(j as int));
                    }
                }
                assert forall|q: int|
                    0 <= q < j + 1 && (#[trigger] level@[q]) is None && ready(infos[q], level@, r as int)
                        implies as_ints(cur@).contains(q) by {
                    if q < j {
                        let t = choose|t: int| 0 <= t < cur0.len() && cur0[t] == q;
                        assert(as_ints(cur@)[t] == q);
                    } else {
                        assert(as_ints(cur@)[cur@.len() - 1] == q);
                    }
                }
                j += 1;
            }
            if cur.len() == 0 {
                assert forall|q: int| 0 <= q < level@.len() && (#[trigger] level@[q]) is None implies !ready(
                    infos[q],
                    level@,
                    members.len() as int,
                ) by {
                    if ready(infos[q], level@, members.len() as int) {
                        assert(as_ints(cur@).contains(q));
                    }
                }
                break;
            }
            let ghost curi = as_ints(cur@);
            let ghost old_level = level@;
            let ghost old_pv = plan_view(plan@);
            let mut group: Vec<HandlerId> = Vec::new();
            let mut t: usize = 0;
            while t < cur.len()
                invariant
                    n == handlers@.len(),
                    ids == handler_ids(handlers@),
                    curi == as_ints(cur@),
                    level@.len() == n,
                    old_level.len() == n,
                    t <= cur@.len(),
                    increasing(curi),
                    forall|u: int| 0 <= u < cur@.len() ==> (#[trigger] cur@[u]) < n,
                    forall|q: int|
                        0 <= q < n ==> #[trigger] level@[q] == (if curi.take(t as int).contains(q) {
                            Some(r)
                        } else {
                            old_level[q]
                        }),
                    group@.len() == t,
                    forall|u: int| 0 <= u < t ==> #[trigger] id_seq(group@)[u] == ids[curi[u]],
                    drawn_from(group@, heads(handlers@)),
                decreases cur@.len() - t,
            {
                let q = cur[t];
                level.set(q, Some(r));
                let ghost old_group = id_seq(group@);
                let ghost old_g = group@;
                let h = handlers[q].0.copy();
                group.push(h);
                assert(id_seq(group@) =~= old_group.push(ids[q as int]));
                assert(drawn_from(group@, heads(handlers@))) by {
                    assert(heads(handlers@)[q as int] == handlers@[q as int].0);
                    assert forall|b: int| 0 <= b < group@.len() implies #[trigger] heads(handlers@).contains(group@[b]) by {
                        if b < old_g.len() {
                            assert(group@[b] == old_g[b]);
                        }
                    }
                }
                assert(curi[t as int] == q as int);
                assert forall|p: int| 0 <= p < n implies #[trigger] level@[p] == (if curi.take(t + 1).contains(p) {
                    Some(r)
                } else {
                    old_level[p]
                }) by {
                    let ta = curi.take(t as int);
                    let tb = curi.take(t + 1);
                    if ta.contains(p) {
                        let w = choose|w: int| 0 <= w < ta.len() && ta[w] == p;
                        assert(tb[w] == p);
                    }
                    if tb.contains(p) && !ta.contains(p) {
                        let w = choose|w: int| 0 <= w < tb.len() && tb[w] == p;
                        if w < t {
                            assert(ta[w] == p);
                        }
                    }
                    if p == q as int {
                        assert(curi.take(t + 1)[t as int] == p);
                    }
                }
                t += 1;
            }
            assert(curi.take(cur@.len() as int) =~= curi);
            let ghost new_group = id_seq(group@);
            proof {
                assert(curi.contains(curi[0]));
                lemma_count_none_decreases(old_level, level@, curi[0]);
                assert forall|t2: int| 0 <= t2 < curi.len() implies 0 <= #[trigger] curi[t2] < ids.len()
                    && old_level[curi[t2]] is None && ready(infos[curi[t2]], old_level, members.len() as int) by {
                    assert(cur@[t2] < n);
                }
                lemma_round_step(ids, deps, infos, old_level, level@, old_pv, new_group, members, curi);
            }
            let ghost old_plan = plan@;
            plan.push(group);
            proof {
                assert forall|a: int| 0 <= a < plan@.len() implies drawn_from(#[trigger] plan@[a]@, heads(handlers@)) by {
                    if a < old_plan.len() {
                        assert(plan@[a] == old_plan[a]);
                    }
                }
                assert(plan_view(plan@) =~= old_pv.push(new_group));
                members = members.push(curi);
            }
        }
        let mut rem: Vec<HandlerId> = Vec::new();
        let ghost mut rem_idx: Seq<int> = Seq::empty();
        let mut q: usize = 0;
        while q < n
            invariant
                n == handlers@.len(),
                ids == handler_ids(handlers@),
                level@.len() == n,
                q <= n,
                rem@.len() == rem_idx.len(),
                forall|t: int|
                    0 <= t < rem_idx.len() ==> 0 <= #[trigger] rem_idx[t] < n && id_seq(rem@)[t] == ids[rem_idx[t]]
                        && level@[rem_idx[t]] is None,
                forall|p: int| 0 <= p < q && (#[trigger] level@[p]) is None ==> id_seq(rem@).contains(ids[p]),
                drawn_from(rem@, heads(handlers@)),
            decreases n - q,
        {
            if level[q].is_none() {
                let ghost old_rem = id_seq(rem@);
                let ghost old_r = rem@;
                rem.push(handlers[q].0.copy());
                proof {
                    assert(heads(handlers@)[q as int] == handlers@[q as int].0);
                    assert forall|b: int| 0 <= b < rem@.len() implies #[trigger] heads(handlers@).contains(rem@[b]) by {
                        if b < old_r.len() {
                            assert(rem@[b] == old_r[b]);
                        }
                    }
                    rem_idx = rem_idx.push(q as int);
                    assert(id_seq(rem@) =~= old_rem.push(ids[q as int]));
                    assert forall|p: int| 0 <= p < q + 1 && (#[trigger] level@[p]) is None implies id_seq(rem@).contains(
                        ids[p],
                    ) by {
                        if p < q {
                            let t = choose|t: int| 0 <= t < old_rem.len() && old_rem[t] == ids[p];
                            assert(id_seq(rem@)[t] == ids[p]);
                        } else {
                            assert(id_seq(rem@)[rem@.len() - 1] == ids[p]);
                        }
                    }
                }
            }
            q += 1;
        }
        if rem.len() == 0 {
            proof {
                assert forall|p: int| 0 <= p < level@.len() implies (#[trigger] level@[p]) is Some by {
                    if level@[p] is None {
                        assert(id_seq(rem@).contains(ids[p]));
                    }
                }
                lemma_final_ok(ids, deps, infos, level@, plan_view(plan@), members);
                assert(schedulable(ids, deps));
            }
            Ok(plan)
        } else {
            proof {
                lemma_final_err(ids, deps, infos, level@, plan_view(plan@), members, id_seq(rem@), rem_idx);
                lemma_blocked_not_schedulable(ids, deps, id_seq(rem@));
                assert forall|i: int| 0 <= i < ids.len() implies (id_seq(rem@).contains(#[trigger] ids[i]) <==> level@[i] is None) by {
                    if id_seq(rem@).contains(ids[i]) {
                        let t = choose|t: int| 0 <= t < id_seq(rem@).len() && id_seq(rem@)[t] == ids[i];
                        assert(ids[rem_idx[t]] == ids[i]);
                    }
                }
                lemma_final_partial(ids, deps, infos, level@, plan_view(plan@), members, id_seq(rem@));
            }
            Err(CircularDependencyError { handlers: rem })
        }
    }

    /// Build the graph of handlers whose dependencies can be scheduled.
    pub fn new(handlers: &[(HandlerId, Vec<Depends>)]) -> (g: HandlerGraph)
        requires
            distinct(handler_ids(handlers@)),
            schedulable(handler_ids(handlers@), handler_deps(handlers@)),
        ensures
            valid_plan(handler_ids(handlers@), handler_deps(handlers@), plan_view(g.levels@)),
            plan_drawn_from(g.levels@, heads(handlers@)),
    {
        match Self::resolve(handlers) {
            Ok(levels) => HandlerGraph { levels },
            Err(_) => {
                proof {
                    assert(false);
                }
                HandlerGraph { levels: Vec::new() }
            },
        }
    }

    /// Get the ordered execution plan.
    pub fn get_execution_plan(&self) -> (p: &ExecutionPlan)
        ensures
            *p == self.levels,
    {
        &self.levels
    }
}


// ---------------------------------------------------------------------------
// build_execution_plan
// ---------------------------------------------------------------------------

/// The values of `s` with repeats dropped, first occurrences kept in order.
pub open spec fn dedup(s: Seq<u64>) -> Seq<u64>
    decreases s.len(),
{
    if s.len() == 0 {
        Seq::empty()
    } else {
        let d = dedup(s.drop_last());
        if d.contains(s.last()) {
            d
        } else {
            d.push(s.last())
        }
    }
}

/// The dependency ids recorded for handler `x` (none when it has no entry).
pub open spec fn lookup_deps(entries: Seq<(HandlerId, Vec<Depends>)>, x: u64) -> Seq<u64> {
    if handler_ids(entries).contains(x) {
        let j = choose|j: int| 0 <= j < entries.len() && handler_ids(entries)[j] == x;
        dep_ids(entries[j].1@)
    } else {
        Seq::empty()
    }
}

/// The handler table that `build_execution_plan` resolves: the distinct
/// handler ids, each with the dependencies recorded for it.
pub open spec fn table_deps(ids: Seq<u64>, entries: Seq<(HandlerId, Vec<Depends>)>) -> Seq<Seq<u64>> {
    ids.map_values(|x: u64| lookup_deps(entries, x))
}

/// A copy of a dependency list.
fn copy_deps(v: &Vec<Depends>) -> (r: Vec<Depends>)
    ensures
        r@ == v@,
{
    let mut r: Vec<Depends> = Vec::new();
    let mut i: usize = 0;
    while i < v.len()
        invariant
            i <= v@.len(),
            r@ == v@.take(i as int),
        decreases v@.len() - i,
    {
        r.push(Depends { handler_id: v[i].handler_id.copy() });
        assert(r@ =~= v@.take(i + 1));
        i += 1;
    }
    assert(v@.take(i as int) =~= v@);
    r
}

/// The dependencies recorded for handler `x`.
fn find_deps(entries: &[(HandlerId, Vec<Depends>)], x: u64) -> (r: Vec<Depends>)
    requires
        distinct(handler_ids(entries@)),
    ensures
        dep_ids(r@) == lookup_deps(entries@, x),
{
    match find_index(entries, x) {
        Some(j) => {
            let r = copy_deps(&entries[j].1);
            let ghost k = choose|k: int| 0 <= k < entries@.len() && handler_ids(entries@)[k] == x;
            assert(handler_ids(entries@).contains(x));
            assert(k == j as int) by {
                if k != j as int {
                    assert(handler_ids(entries@)[k] == handler_ids(entries@)[j as int]);
                    if k < j as int {
                    } else {
                    }
                }
            }
            r
        },
        None => {
            assert(dep_ids(Seq::<Depends>::empty()) =~= Seq::<u64>::empty());
            Vec::new()
        },
    }
}

/// Try to build an execution plan for `handler_ids`, each with the
/// dependencies recorded in `dependencies` (none when it has no entry).
pub fn try_build_execution_plan(
    handler_ids_in: &[HandlerId],
    dependencies: &[(HandlerId, Vec<Depends>)],
) -> (r: Result<ExecutionPlan, CircularDependencyError>)
    requires
        distinct(handler_ids(dependencies@)),
    ensures
        ({
            let ids = dedup(id_seq(handler_ids_in@));
            let deps = table_deps(ids, dependencies@);
            &&& (r is Ok <==> schedulable(ids, deps))
            &&& match r {
                Ok(plan) => valid_plan(ids, deps, plan_view(plan@)) && plan_drawn_from(plan@, handler_ids_in@),
                Err(e) => cycle_report(ids, deps, id_seq(e.handlers@)) && schedulable_without(ids, deps, id_seq(e.handlers@))
                    && drawn_from(e.handlers@, handler_ids_in@),
            }
        }),
{
    let mut table: Vec<(HandlerId, Vec<Depends>)> = Vec::new();
    let mut i: usize = 0;
    while i < handler_ids_in.len()
        invariant
            i <= handler_ids_in@.len(),
            distinct(handler_ids(dependencies@)),
            handler_ids(table@) == dedup(id_seq(handler_ids_in@).take(i as int)),
            handler_deps(table@) == table_deps(handler_ids(table@), dependencies@),
            distinct(handler_ids(table@)),
            drawn_from(heads(table@), handler_ids_in@),
        decreases handler_ids_in@.len() - i,
    {
        let ghost s = id_seq(handler_ids_in@);
        assert(s.take(i + 1).drop_last() =~= s.take(i as int));
        let x = handler_ids_in[i].id();
        let ghost old_ids = handler_ids(table@);
        let ghost old_deps = handler_deps(table@);
        match find_index(&table, x) {
            Some(_) => {},
            None => {
                let deps = find_deps(dependencies, x);
                let ghost old_t = table@;
                table.push((handler_ids_in[i].copy(), deps));
                assert(drawn_from(heads(table@), handler_ids_in@)) by {
                    assert(handler_ids_in@.contains(handler_ids_in@[i as int]));
                    assert forall|b: int| 0 <= b < heads(table@).len() implies #[trigger] handler_ids_in@.contains(heads(table@)[b]) by {
                        if b < old_t.len() {
                            assert(heads(table@)[b] == heads(old_t)[b]);
                        }
                    }
                }
                assert(handler_ids(table@) =~= old_ids.push(x));
                assert(handler_deps(table@) =~= old_deps.push(lookup_deps(dependencies@, x)));
                assert(table_deps(handler_ids(table@), dependencies@) =~= table_deps(old_ids, dependencies@).push(
                    lookup_deps(dependencies@, x),
                ));
                assert(distinct(handler_ids(table@))) by {
                    assert forall|a: int, b: int| 0 <= a < b < handler_ids(table@).len() implies #[trigger] handler_ids(table@)[a]
                        != #[trigger] handler_ids(table@)[b] by {
                        if b == old_ids.len() {
                            assert(old_ids.contains(old_ids[a]));
                        } else {
                            assert(old_ids[a] != old_ids[b]);
                        }
                    }
                }
            },
        }
        i += 1;
    }
    assert(id_seq(handler_ids_in@).take(i as int) =~= id_seq(handler_ids_in@));
    let r = HandlerGraph::resolve(&table);
    proof {
        match &r {
            Ok(plan) => {
                assert forall|a: int| 0 <= a < plan@.len() implies drawn_from(#[trigger] plan@[a]@, handler_ids_in@) by {
                    lemma_drawn_trans(plan@[a]@, heads(table@), handler_ids_in@);
                }
            },
            Err(e) => {
                lemma_drawn_trans(e.handlers@, heads(table@), handler_ids_in@);
            },
        }
    }
    r
}

/// Build an execution plan for `handler_ids`, each with the dependencies
/// recorded in `dependencies`, when the handlers can be scheduled.
pub fn build_execution_plan(
    handler_ids_in: &[HandlerId],
    dependencies: &[(HandlerId, Vec<Depends>)],
) -> (plan: ExecutionPlan)
    requires
        distinct(handler_ids(dependencies@)),
        schedulable(
            dedup(id_seq(handler_ids_in@)),
            table_deps(dedup(id_seq(handler_ids_in@)), dependencies@),
        ),
    ensures
        valid_plan(
            dedup(id_seq(handler_ids_in@)),
            table_deps(dedup(id_seq(handler_ids_in@)), dependencies@),
            plan_view(plan@),
        ),
        plan_drawn_from(plan@, handler_ids_in@),
{
    match try_build_execution_plan(handler_ids_in, dependencies) {
        Ok(plan) => plan,
        Err(_) => {
            proof {
                assert(false);
            }
            Vec::new()
        },
    }
}

} // verus!
