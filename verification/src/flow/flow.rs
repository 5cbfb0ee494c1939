//! The flow registry: method registration, listener bookkeeping and the
//! rules that decide which listeners a completed method triggers.

use vstd::prelude::*;

use crate::flow::flow_wrappers::{
    contains_name, copy_names, copy_opt_condition, names_set, names_view, opt_names_view,
    same_cond, same_opt_cond, FlowCondition, FlowConditionItem, FlowConditionType,
    FlowMethodMeta, FlowMethodName, SimpleFlowCondition,
};
use crate::flow::utils::{
    copy_members, copy_strings, find_key, first_key_at, get_member, has_key, lemma_member_has_key, lemma_member_push,
    lemma_same_members_at, lemma_same_members_from_entries, member,
    same_json, same_members, JsonValue,
};
use crate::flow::visualization::unique_keys;
use crate::text::str_eq;

verus! {

/// The role a method plays in a flow.
#[derive(Debug, Clone, Copy, PartialEq, Eq, Structural)]
pub enum FlowMethodType {
    /// An entry point of the flow.
    Start,
    /// A method triggered by other methods' completion.
    Listen,
    /// A method whose return value routes execution.
    Router,
}

impl FlowMethodType {
    /// The lower-case name of the method type.
    pub fn as_str(&self) -> (s: &'static str)
        ensures
            s@ == (match self {
                FlowMethodType::Start => "start"@,
                FlowMethodType::Listen => "listen"@,
                FlowMethodType::Router => "router"@,
            }),
    {
        match self {
            FlowMethodType::Start => "start",
            FlowMethodType::Listen => "listen",
            FlowMethodType::Router => "router",
        }
    }
}

/// Registration info for a flow method.
#[derive(Debug)]
pub struct FlowMethodRegistration {
    /// Name of the method.
    pub name: FlowMethodName,
    /// Type of the flow method.
    pub method_type: FlowMethodType,
    /// Whether this is a start method.
    pub is_start_method: bool,
    /// Trigger methods that cause this method to execute.
    pub trigger_methods: Option<Vec<FlowMethodName>>,
    /// Condition type for triggering (OR/AND).
    pub condition_type: Option<FlowConditionType>,
    /// Full trigger condition (for compound or nested conditions).
    pub trigger_condition: Option<FlowCondition>,
    /// Whether this method is a router.
    pub is_router: bool,
    /// Possible router paths (return values that trigger listeners).
    pub router_paths: Option<Vec<String>>,
}

/// The method type that metadata describes: start, else router, else listen.
pub open spec fn method_type_of(is_start: bool, is_router: bool) -> FlowMethodType {
    if is_start {
        FlowMethodType::Start
    } else if is_router {
        FlowMethodType::Router
    } else {
        FlowMethodType::Listen
    }
}

/// The character views of an optional list of strings.
pub open spec fn opt_strings_view(s: Option<Vec<String>>) -> Option<Seq<Seq<char>>> {
    match s {
        Some(v) => Some(v@.map_values(|x: String| x@)),
        None => None,
    }
}

fn copy_opt_names(v: &Option<Vec<FlowMethodName>>) -> (r: Option<Vec<FlowMethodName>>)
    ensures
        opt_names_view(r) == opt_names_view(*v),
{
    match v {
        Some(x) => Some(copy_names(x)),
        None => None,
    }
}

pub(crate) fn copy_opt_strings(v: &Option<Vec<String>>) -> (r: Option<Vec<String>>)
    ensures
        opt_strings_view(r) == opt_strings_view(*v),
{
    match v {
        Some(x) => {
            let c = copy_strings(x);
            assert(c@.map_values(|s: String| s@) =~= x@.map_values(|s: String| s@));
            Some(c)
        },
        None => None,
    }
}

impl FlowMethodRegistration {
    /// Create a registration from method metadata.
    pub fn from_meta(name: FlowMethodName, meta: &FlowMethodMeta) -> (r: FlowMethodRegistration)
        ensures
            r.name == name,
            r.method_type == method_type_of(meta.is_start_method, meta.is_router),
            r.is_start_method == meta.is_start_method,
            opt_names_view(r.trigger_methods) == opt_names_view(meta.trigger_methods),
            r.condition_type == meta.condition_type,
            same_opt_cond(r.trigger_condition, meta.trigger_condition),
            r.is_router == meta.is_router,
            opt_strings_view(r.router_paths) == opt_strings_view(meta.router_paths),
    {
        let method_type = if meta.is_start_method {
            FlowMethodType::Start
        } else if meta.is_router {
            FlowMethodType::Router
        } else {
            FlowMethodType::Listen
        };
        FlowMethodRegistration {
            name,
            method_type,
            is_start_method: meta.is_start_method,
            trigger_methods: copy_opt_names(&meta.trigger_methods),
            condition_type: meta.condition_type,
            trigger_condition: copy_opt_condition(&meta.trigger_condition),
            is_router: meta.is_router,
            router_paths: copy_opt_strings(&meta.router_paths),
        }
    }
}

/// Flow method data for introspection.
#[derive(Debug, Clone)]
pub struct FlowMethodData {
    /// The name of the flow method.
    pub name: String,
    /// Whether this method is a starting point for the flow.
    pub starting_point: bool,
}

/// Completed method data.
#[derive(Debug, Clone)]
pub struct CompletedMethodData {
    /// The flow method information.
    pub flow_method: FlowMethodData,
    /// The completion status.
    pub status: String,
}

/// A listener's trigger condition: simple or compound.
#[derive(Debug)]
pub enum ListenerCondition {
    /// A condition type with a list of method names.
    Simple(SimpleFlowCondition),
    /// A compound or nested flow condition.
    Compound(FlowCondition),
}

/// The same listener condition, up to copying.
pub open spec fn same_listener(a: ListenerCondition, b: ListenerCondition) -> bool {
    match a {
        ListenerCondition::Simple(x) => match b {
            ListenerCondition::Simple(y) => x.condition_type == y.condition_type && names_view(
                x.methods@,
            ) == names_view(y.methods@),
            ListenerCondition::Compound(_) => false,
        },
        ListenerCondition::Compound(x) => match b {
            ListenerCondition::Compound(y) => same_cond(x, y),
            ListenerCondition::Simple(_) => false,
        },
    }
}

impl ListenerCondition {
    /// A deep copy of this condition.
    pub fn copy(&self) -> (r: ListenerCondition)
        ensures
            same_listener(r, *self),
    {
        match self {
            ListenerCondition::Simple(s) => ListenerCondition::Simple(
                SimpleFlowCondition { condition_type: s.condition_type, methods: copy_names(&s.methods) },
            ),
            ListenerCondition::Compound(c) => ListenerCondition::Compound(c.copy()),
        }
    }
}

// ---------------------------------------------------------------------------
// Trigger rules
// ---------------------------------------------------------------------------

/// Every method name mentioned anywhere in a condition tree.
pub open spec fn cond_names(c: FlowCondition) -> Set<Seq<char>>
    decreases c, 0nat,
{
    items_names(c.conditions@) + names_set(c.methods@)
}

/// Every method name mentioned in a list of condition items.
pub open spec fn items_names(items: Seq<FlowConditionItem>) -> Set<Seq<char>>
    decreases items, items.len(),
{
    if items.len() == 0 {
        Set::empty()
    } else {
        items_names(items.drop_last()) + match items.last() {
            FlowConditionItem::MethodName(n) => set![n.0@],
            FlowConditionItem::Condition(sub) => cond_names(sub),
        }
    }
}

/// The OR-deduplication rule: a listener fires unless it already has;
/// afterwards it is marked as fired. Returns `(fired after, fires now)`.
pub open spec fn or_fire(fired: bool) -> (bool, bool) {
    (true, !fired)
}

/// The AND rule: record `m` among the pending completions; the listener
/// fires once every required method is pending, and pending then resets.
/// Returns `(pending after, fires now)`.
pub open spec fn and_step(pending: Set<Seq<char>>, required: Set<Seq<char>>, m: Seq<char>) -> (Set<Seq<char>>, bool) {
    let p = pending.insert(m);
    if required.subset_of(p) {
        (Set::empty(), true)
    } else {
        (p, false)
    }
}

/// Evaluation of a compound condition for one listener when method `m`
/// completes, given whether the listener has already fired (OR dedup) and
/// its pending AND completions. Returns `(fired, pending, triggers)`.
pub open spec fn eval_compound(fired: bool, pending: Set<Seq<char>>, c: FlowCondition, m: Seq<char>) -> (bool, Set<Seq<char>>, bool)
    decreases c, 0nat,
{
    if !cond_names(c).contains(m) {
        (fired, pending, false)
    } else if c.condition_type == FlowConditionType::AND {
        let (p, r) = and_step(pending, cond_names(c), m);
        (fired, p, r)
    } else {
        let (f, p, early) = eval_items(fired, pending, c.conditions@, m);
        match early {
            Some(r) => (f, p, r),
            None => if names_set(c.methods@).contains(m) {
                let (f2, r) = or_fire(f);
                (f2, p, r)
            } else {
                (f, p, false)
            },
        }
    }
}

/// The items of an OR condition, in order: the first item that matches
/// decides (`Some`), or none does (`None`).
pub open spec fn eval_items(fired: bool, pending: Set<Seq<char>>, items: Seq<FlowConditionItem>, m: Seq<char>) -> (bool, Set<Seq<char>>, Option<bool>)
    decreases items, items.len(),
{
    if items.len() == 0 {
        (fired, pending, None)
    } else {
        match items[0] {
            FlowConditionItem::MethodName(n) => if n.0@ == m {
                let (f, r) = or_fire(fired);
                (f, pending, Some(r))
            } else {
                eval_items(fired, pending, items.drop_first(), m)
            },
            FlowConditionItem::Condition(sub) => {
                let (f, p, r) = eval_compound(fired, pending, sub, m);
                if r {
                    (f, p, Some(true))
                } else {
                    eval_items(f, p, items.drop_first(), m)
                }
            },
        }
    }
}

/// The set of strings in a list, as characters.
pub open spec fn str_set(s: Seq<String>) -> Set<Seq<char>> {
    Set::new(|x: Seq<char>| exists|i: int| 0 <= i < s.len() && #[trigger] s[i]@ == x)
}

proof fn lemma_str_set_concat(a: Seq<String>, b: Seq<String>)
    ensures
        str_set(a + b) == str_set(a) + str_set(b),
{
    assert forall|x: Seq<char>| str_set(a + b).contains(x) <==> (str_set(a) + str_set(b)).contains(x) by {
        if str_set(a + b).contains(x) {
            let k = choose|k: int| 0 <= k < (a + b).len() && #[trigger] (a + b)[k]@ == x;
            if k >= a.len() {
                assert(b[k - a.len()]@ == x);
            } else {
                assert(a[k]@ == x);
            }
        }
        if str_set(a).contains(x) {
            let k = choose|k: int| 0 <= k < a.len() && #[trigger] a[k]@ == x;
            assert((a + b)[k]@ == x);
        }
        if str_set(b).contains(x) {
            let k = choose|k: int| 0 <= k < b.len() && #[trigger] b[k]@ == x;
            assert((a + b)[a.len() + k]@ == x);
        }
    }
    assert(str_set(a + b) =~= str_set(a) + str_set(b));
}

/// Appends a copy of every string of `src` to `dst`.
fn append_strings(dst: &mut Vec<String>, src: &Vec<String>)
    ensures
        str_set(final(dst)@) == str_set(old(dst)@) + str_set(src@),
{
    let ghost before = dst@;
    let mut j: usize = 0;
    while j < src.len()
        invariant
            j <= src@.len(),
            dst@ == before + src@.take(j as int),
        decreases src@.len() - j,
    {
        dst.push(src[j].clone());
        assert(src@.take(j + 1) =~= src@.take(j as int).push(src@[j as int]));
        j += 1;
    }
    assert(src@.take(j as int) =~= src@);
    proof {
        lemma_str_set_concat(before, src@);
    }
}

/// Every method name mentioned in a condition tree, as a list (a name may
/// repeat).
pub fn extract_all_methods_from_condition(condition: &FlowCondition) -> (r: Vec<String>)
    ensures
        str_set(r@) == cond_names(*condition),
    decreases condition,
{
    let mut r: Vec<String> = Vec::new();
    let mut i: usize = 0;
    assert(str_set(r@) =~= items_names(condition.conditions@.take(0)));
    while i < condition.conditions.len()
        invariant
            i <= condition.conditions@.len(),
            str_set(r@) == items_names(condition.conditions@.take(i as int)),
        decreases condition.conditions@.len() - i,
    {
        proof {
            assert(decreases_to!(*condition => condition.conditions));
        }
        let sub: Vec<String> = match &condition.conditions[i] {
            FlowConditionItem::MethodName(n) => {
                let mut v: Vec<String> = Vec::new();
                v.push(n.0.clone());
                assert(str_set(v@) =~= set![n.0@]) by {
                    assert(v@[0]@ == n.0@);
                }
                v
            },
            FlowConditionItem::Condition(c) => extract_all_methods_from_condition(c),
        };
        append_strings(&mut r, &sub);
        assert(condition.conditions@.take(i + 1).drop_last() =~= condition.conditions@.take(i as int));
        i += 1;
    }
    assert(condition.conditions@.take(i as int) =~= condition.conditions@);
    let mut names: Vec<String> = Vec::new();
    let mut k: usize = 0;
    while k < condition.methods.len()
        invariant
            k <= condition.methods@.len(),
            names@.len() == k,
            forall|j: int| 0 <= j < k ==> #[trigger] names@[j]@ == condition.methods@[j].0@,
        decreases condition.methods@.len() - k,
    {
        names.push(condition.methods[k].0.clone());
        k += 1;
    }
    assert(str_set(names@) =~= names_set(condition.methods@)) by {
        assert forall|x: Seq<char>| str_set(names@).contains(x) <==> names_set(condition.methods@).contains(x) by {
            if str_set(names@).contains(x) {
                let j = choose|j: int| 0 <= j < names@.len() && #[trigger] names@[j]@ == x;
                assert(names_view(condition.methods@)[j] == x);
            }
            if names_set(condition.methods@).contains(x) {
                let j = choose|j: int| 0 <= j < names_view(condition.methods@).len() && names_view(condition.methods@)[j] == x;
                assert(names@[j]@ == x);
            }
        }
    }
    append_strings(&mut r, &names);
    r
}

/// Whether `x` is one of the strings of `v`.
fn contains_string(v: &Vec<String>, x: &str) -> (r: bool)
    ensures
        r == str_set(v@).contains(x@),
{
    let mut i: usize = 0;
    while i < v.len()
        invariant
            i <= v@.len(),
            forall|j: int| 0 <= j < i ==> #[trigger] v@[j]@ != x@,
        decreases v@.len() - i,
    {
        if crate::text::str_eq(v[i].as_str(), x) {
            assert(v@[i as int]@ == x@);
            return true;
        }
        i += 1;
    }
    false
}

/// Adds `m` to a set of names kept as a list.
fn add_name(v: &mut Vec<FlowMethodName>, m: &FlowMethodName)
    ensures
        names_set(final(v)@) == names_set(old(v)@).insert(m.0@),
{
    if !contains_name(v, m) {
        let ghost before = v@;
        v.push(m.copy());
        assert(names_view(v@) =~= names_view(before).push(m.0@));
        assert forall|x: Seq<char>| names_set(v@).contains(x) <==> names_set(before).insert(m.0@).contains(x) by {
            if names_view(v@).contains(x) {
                let k = choose|k: int| 0 <= k < names_view(v@).len() && names_view(v@)[k] == x;
                if k < before.len() {
                    assert(names_view(before)[k] == x);
                }
            }
            if names_view(before).contains(x) {
                let k = choose|k: int| 0 <= k < names_view(before).len() && names_view(before)[k] == x;
                assert(names_view(v@)[k] == x);
            }
            if x == m.0@ {
                assert(names_view(v@)[before.len() as int] == x);
            }
        }
        assert(names_set(v@) =~= names_set(before).insert(m.0@));
    } else {
        assert(names_set(v@) =~= names_set(v@).insert(m.0@));
    }
}

/// Whether every string of `required` names a method in `v`.
fn strings_within(required: &Vec<String>, v: &Vec<FlowMethodName>) -> (r: bool)
    ensures
        r == str_set(required@).subset_of(names_set(v@)),
{
    let mut i: usize = 0;
    while i < required.len()
        invariant
            i <= required@.len(),
            forall|j: int| 0 <= j < i ==> names_set(v@).contains(#[trigger] required@[j]@),
        decreases required@.len() - i,
    {
        let probe = FlowMethodName::new(required[i].clone());
        if !contains_name(v, &probe) {
            assert(str_set(required@).contains(required@[i as int]@));
            return false;
        }
        i += 1;
    }
    true
}

/// Whether every name of `required` is in `v`.
fn names_within(required: &Vec<FlowMethodName>, v: &Vec<FlowMethodName>) -> (r: bool)
    ensures
        r == names_set(required@).subset_of(names_set(v@)),
{
    let mut i: usize = 0;
    while i < required.len()
        invariant
            i <= required@.len(),
            forall|j: int| 0 <= j < i ==> names_set(v@).contains(#[trigger] names_view(required@)[j]),
        decreases required@.len() - i,
    {
        if !contains_name(v, &required[i]) {
            assert(names_view(required@)[i as int] == required@[i as int].0@);
            assert(names_set(required@).contains(required@[i as int].0@));
            return false;
        }
        i += 1;
    }
    true
}

/// The compound-condition rule on one listener's OR flag and pending list.
fn eval_compound_exec(fired: &mut bool, pending: &mut Vec<FlowMethodName>, c: &FlowCondition, m: &FlowMethodName) -> (r: bool)
    ensures
        (*final(fired), names_set(final(pending)@), r) == eval_compound(*old(fired), names_set(old(pending)@), *c, m.0@),
    decreases c,
{
    let all = extract_all_methods_from_condition(c);
    if !contains_string(&all, m.as_str()) {
        return false;
    }
    match c.condition_type {
        FlowConditionType::AND => {
            add_name(pending, m);
            if strings_within(&all, pending) {
                *pending = Vec::new();
                assert(names_set(pending@) =~= Set::<Seq<char>>::empty());
                true
            } else {
                false
            }
        },
        FlowConditionType::OR => {
            let ghost whole = eval_items(*fired, names_set(pending@), c.conditions@, m.0@);
            assert(eval_compound(*old(fired), names_set(old(pending)@), *c, m.0@) == match whole.2 {
                Some(r) => (whole.0, whole.1, r),
                None => if names_set(c.methods@).contains(m.0@) {
                    (true, whole.1, !whole.0)
                } else {
                    (whole.0, whole.1, false)
                },
            });
            let mut i: usize = 0;
            assert(c.conditions@.skip(0) =~= c.conditions@);
            while i < c.conditions.len()
                invariant
                    i <= c.conditions@.len(),
                    whole == eval_items(*old(fired), names_set(old(pending)@), c.conditions@, m.0@),
                    eval_compound(*old(fired), names_set(old(pending)@), *c, m.0@) == match whole.2 {
                        Some(r) => (whole.0, whole.1, r),
                        None => if names_set(c.methods@).contains(m.0@) {
                            (true, whole.1, !whole.0)
                        } else {
                            (whole.0, whole.1, false)
                        },
                    },
                    eval_items(*old(fired), names_set(old(pending)@), c.conditions@, m.0@) == eval_items(
                        *fired,
                        names_set(pending@),
                        c.conditions@.skip(i as int),
                        m.0@,
                    ),
                decreases c.conditions@.len() - i,
            {
                proof {
                    assert(decreases_to!(*c => c.conditions));
                }
                assert(c.conditions@.skip(i as int)[0] == c.conditions@[i as int]);
                assert(c.conditions@.skip(i as int).drop_first() =~= c.conditions@.skip(i + 1));
                match &c.conditions[i] {
                    FlowConditionItem::MethodName(n) => {
                        if *n == *m {
                            assert(eval_items(*fired, names_set(pending@), c.conditions@.skip(i as int), m.0@)
                                == (true, names_set(pending@), Some(!*fired)));
                            let r = !*fired;
                            *fired = true;
                            return r;
                        }
                    },
                    FlowConditionItem::Condition(sub) => {
                        let ghost f0 = *fired;
                        let ghost p0 = names_set(pending@);
                        if eval_compound_exec(fired, pending, sub, m) {
                            assert(eval_items(f0, p0, c.conditions@.skip(i as int), m.0@) == (
                                *fired,
                                names_set(pending@),
                                Some(true),
                            ));
                            return true;
                        }
                    },
                }
                i += 1;
            }
            if contains_name(&c.methods, m) {
                let r = !*fired;
                *fired = true;
                r
            } else {
                false
            }
        },
    }
}

// ---------------------------------------------------------------------------
// Keyed lists
// ---------------------------------------------------------------------------

/// `i` holds the first entry of `s` keyed `k`.
pub open spec fn first_entry<T>(s: Seq<(FlowMethodName, T)>, k: Seq<char>, i: int) -> bool {
    &&& 0 <= i < s.len()
    &&& s[i].0.0@ == k
    &&& forall|j: int| 0 <= j < i ==> #[trigger] s[j].0.0@ != k
}

/// Whether some entry of `s` is keyed `k`.
pub open spec fn has_entry<T>(s: Seq<(FlowMethodName, T)>, k: Seq<char>) -> bool {
    exists|i: int| first_entry(s, k, i)
}

/// The index of the first entry keyed `k`.
pub open spec fn entry_index<T>(s: Seq<(FlowMethodName, T)>, k: Seq<char>) -> int {
    choose|i: int| first_entry(s, k, i)
}

/// The pending completions recorded for listener `l` (empty when none).
pub open spec fn pending_of(s: Seq<(FlowMethodName, Vec<FlowMethodName>)>, l: Seq<char>) -> Set<Seq<char>> {
    if has_entry(s, l) {
        names_set(s[entry_index(s, l)].1@)
    } else {
        Set::empty()
    }
}

proof fn lemma_first_entry_unique<T>(s: Seq<(FlowMethodName, T)>, k: Seq<char>, i: int, j: int)
    requires
        first_entry(s, k, i),
        first_entry(s, k, j),
    ensures
        i == j,
{
    if i < j {
        assert(s[i].0.0@ != k);
    } else if j < i {
        assert(s[j].0.0@ != k);
    }
}

proof fn lemma_key_has_entry<T>(s: Seq<(FlowMethodName, T)>, k: Seq<char>, t: int)
    requires
        0 <= t < s.len(),
        s[t].0.0@ == k,
    ensures
        has_entry(s, k),
    decreases t,
{
    if forall|j: int| 0 <= j < t ==> #[trigger] s[j].0.0@ != k {
        assert(first_entry(s, k, t));
    } else {
        let j = choose|j: int| 0 <= j < t && #[trigger] s[j].0.0@ == k;
        lemma_key_has_entry(s, k, j);
    }
}

/// The index of the first entry keyed `k`, if any.
fn find_entry<T>(s: &Vec<(FlowMethodName, T)>, k: &FlowMethodName) -> (r: Option<usize>)
    ensures
        match r {
            Some(i) => first_entry(s@, k.0@, i as int),
            None => !has_entry(s@, k.0@),
        },
{
    let mut i: usize = 0;
    while i < s.len()
        invariant
            i <= s@.len(),
            forall|j: int| 0 <= j < i ==> #[trigger] s@[j].0.0@ != k.0@,
        decreases s@.len() - i,
    {
        if s[i].0 == *k {
            return Some(i);
        }
        i += 1;
    }
    None
}

/// A copy of the pending completions recorded for `l`.
fn take_pending(s: &Vec<(FlowMethodName, Vec<FlowMethodName>)>, l: &FlowMethodName) -> (r: Vec<FlowMethodName>)
    ensures
        names_set(r@) == pending_of(s@, l.0@),
{
    match find_entry(s, l) {
        Some(i) => {
            proof {
                lemma_first_entry_unique(s@, l.0@, i as int, entry_index(s@, l.0@));
            }
            let r = copy_names(&s[i].1);
            assert(names_set(r@) =~= names_set(s@[i as int].1@));
            r
        },
        None => {
            let r: Vec<FlowMethodName> = Vec::new();
            assert(names_set(r@) =~= Set::<Seq<char>>::empty());
            r
        },
    }
}

/// Records `v` as the pending completions of `l`; other listeners keep theirs.
fn store_pending(s: &mut Vec<(FlowMethodName, Vec<FlowMethodName>)>, l: &FlowMethodName, v: Vec<FlowMethodName>)
    ensures
        pending_of(final(s)@, l.0@) == names_set(v@),
        forall|k: Seq<char>| k != l.0@ ==> pending_of(final(s)@, k) == pending_of(old(s)@, k),
{
    let ghost vv = v@;
    match find_entry(s, l) {
        Some(i) => {
            s.set(i, (l.copy(), v));
            assert(first_entry(s@, l.0@, i as int));
            proof {
                lemma_first_entry_unique(s@, l.0@, i as int, entry_index(s@, l.0@));
                assert forall|k: Seq<char>| k != l.0@ implies pending_of(s@, k) == pending_of(old(s)@, k) by {
                    assert forall|j: int| first_entry(s@, k, j) <==> first_entry(old(s)@, k, j) by {
                        if first_entry(s@, k, j) {
                            assert forall|t: int| 0 <= t < j implies #[trigger] old(s)@[t].0.0@ != k by {
                                assert(s@[t].0.0@ != k);
                            }
                        }
                        if first_entry(old(s)@, k, j) {
                            assert forall|t: int| 0 <= t < j implies #[trigger] s@[t].0.0@ != k by {
                                assert(old(s)@[t].0.0@ != k);
                            }
                        }
                    }
                    if has_entry(old(s)@, k) {
                        let j = entry_index(old(s)@, k);
                        assert(first_entry(s@, k, j));
                        lemma_first_entry_unique(s@, k, j, entry_index(s@, k));
                    } else if has_entry(s@, k) {
                        assert(first_entry(old(s)@, k, entry_index(s@, k)));
                    }
                }
            }
        },
        None => {
            s.push((l.copy(), v));
            let ghost n = old(s)@.len() as int;
            assert(first_entry(s@, l.0@, n)) by {
                assert forall|t: int| 0 <= t < n implies #[trigger] s@[t].0.0@ != l.0@ by {
                    assert(old(s)@[t].0.0@ == s@[t].0.0@);
                    if old(s)@[t].0.0@ == l.0@ {
                        lemma_key_has_entry(old(s)@, l.0@, t);
                    }
                }
            }
            proof {
                lemma_first_entry_unique(s@, l.0@, n, entry_index(s@, l.0@));
                assert forall|k: Seq<char>| k != l.0@ implies pending_of(s@, k) == pending_of(old(s)@, k) by {
                    assert forall|j: int| first_entry(s@, k, j) <==> first_entry(old(s)@, k, j) by {
                        if first_entry(s@, k, j) {
                            assert(j < n);
                            assert forall|t: int| 0 <= t < j implies #[trigger] old(s)@[t].0.0@ != k by {
                                assert(s@[t].0.0@ != k);
                            }
                        }
                        if first_entry(old(s)@, k, j) {
                            assert forall|t: int| 0 <= t < j implies #[trigger] s@[t].0.0@ != k by {
                                assert(old(s)@[t].0.0@ != k);
                            }
                        }
                    }
                    if has_entry(old(s)@, k) {
                        let j = entry_index(old(s)@, k);
                        assert(first_entry(s@, k, j));
                        lemma_first_entry_unique(s@, k, j, entry_index(s@, k));
                    } else if has_entry(s@, k) {
                        assert(first_entry(old(s)@, k, entry_index(s@, k)));
                    }
                }
            }
        },
    }
}

/// Sets the value under key `k`: the first entry keyed `k` is replaced, or a
/// new entry is appended when there is none.
fn put_entry<T>(s: &mut Vec<(FlowMethodName, T)>, k: FlowMethodName, v: T)
    ensures
        has_entry(old(s)@, k.0@) ==> final(s)@ == old(s)@.update(entry_index(old(s)@, k.0@), (k, v)),
        !has_entry(old(s)@, k.0@) ==> final(s)@ == old(s)@.push((k, v)),
{
    match find_entry(s, &k) {
        Some(i) => {
            proof {
                lemma_first_entry_unique(s@, k.0@, i as int, entry_index(s@, k.0@));
            }
            s.set(i, (k, v));
        },
        None => {
            s.push((k, v));
        },
    }
}

/// Method names for a list of strings.
fn names_from_strings(v: &Vec<String>) -> (r: Vec<FlowMethodName>)
    ensures
        names_view(r@) == v@.map_values(|x: String| x@),
{
    let mut r: Vec<FlowMethodName> = Vec::new();
    let mut i: usize = 0;
    while i < v.len()
        invariant
            i <= v@.len(),
            names_view(r@) == v@.take(i as int).map_values(|x: String| x@),
        decreases v@.len() - i,
    {
        let ghost before = r@;
        r.push(FlowMethodName::new(v[i].clone()));
        assert(names_view(r@) =~= names_view(before).push(v@[i as int]@));
        assert(v@.take(i + 1).map_values(|x: String| x@) =~= v@.take(i as int).map_values(|x: String| x@).push(
            v@[i as int]@,
        ));
        i += 1;
    }
    assert(v@.take(i as int) =~= v@);
    r
}

/// The listener condition that a registration records: its compound
/// condition when it has one, else its trigger methods under its condition
/// type (OR when none is given).
pub open spec fn registered_condition(cond: ListenerCondition, reg: FlowMethodRegistration) -> bool {
    match reg.trigger_condition {
        Some(c) => cond matches ListenerCondition::Compound(d) && same_cond(d, c),
        None => cond matches ListenerCondition::Simple(sc) && sc.condition_type == match reg.condition_type {
            Some(t) => t,
            None => FlowConditionType::OR,
        } && opt_names_view(reg.trigger_methods) == Some(names_view(sc.methods@)),
    }
}

/// Whether a registration makes its method a listener.
pub open spec fn registers_listener(reg: FlowMethodRegistration) -> bool {
    reg.trigger_methods matches Some(t) && t@.len() > 0
}

// ---------------------------------------------------------------------------
// The flow registry
// ---------------------------------------------------------------------------

/// What the trigger rules remember: the listeners that have fired under
/// OR deduplication, and each listener's pending AND completions for simple
/// and for compound conditions.
pub type TriggerState = (Set<Seq<char>>, Map<Seq<char>, Set<Seq<char>>>, Map<Seq<char>, Set<Seq<char>>>);

/// The pending completions of every listener, as a total map.
pub open spec fn pending_map(s: Seq<(FlowMethodName, Vec<FlowMethodName>)>) -> Map<Seq<char>, Set<Seq<char>>> {
    Map::new(|k: Seq<char>| true, |k: Seq<char>| pending_of(s, k))
}

/// One listener's compound condition evaluated against `st`.
pub open spec fn compound_step(st: TriggerState, l: Seq<char>, c: FlowCondition, m: Seq<char>) -> (TriggerState, bool) {
    let (f, p, r) = eval_compound(st.0.contains(l), st.2[l], c, m);
    ((if f {
        st.0.insert(l)
    } else {
        st.0
    }, st.1, st.2.insert(l, p)), r)
}

/// Whether listener `l` with condition `cond` triggers when `m` completes,
/// and the trigger state afterwards.
pub open spec fn trigger_step(st: TriggerState, l: Seq<char>, cond: ListenerCondition, m: Seq<char>) -> (TriggerState, bool) {
    match cond {
        ListenerCondition::Simple(sc) => if !names_view(sc.methods@).contains(m) {
            (st, false)
        } else if sc.condition_type == FlowConditionType::OR {
            let (_, r) = or_fire(st.0.contains(l));
            ((st.0.insert(l), st.1, st.2), r)
        } else {
            let (p, r) = and_step(st.1[l], names_set(sc.methods@), m);
            ((st.0, st.1.insert(l, p), st.2), r)
        },
        ListenerCondition::Compound(c) => compound_step(st, l, c, m),
    }
}

/// Every listener checked in order when `m` completes: the trigger state
/// afterwards and the names of the listeners that trigger, in order.
pub open spec fn trigger_all(st: TriggerState, ls: Seq<(FlowMethodName, ListenerCondition)>, m: Seq<char>) -> (TriggerState, Seq<Seq<char>>)
    decreases ls.len(),
{
    if ls.len() == 0 {
        (st, Seq::empty())
    } else {
        let (st1, fired) = trigger_all(st, ls.drop_last(), m);
        let (st2, r) = trigger_step(st1, ls.last().0.0@, ls.last().1, m);
        (st2, if r {
            fired.push(ls.last().0.0@)
        } else {
            fired
        })
    }
}

/// The flow's method registry and the bookkeeping that decides which
/// listeners a completed method triggers.
pub struct Flow {
    /// Human-readable name of the flow.
    pub name: Option<String>,
    /// All registered flow methods, in registration order.
    pub methods: Vec<FlowMethodRegistration>,
    /// Registered start method names (no repeats).
    pub start_methods: Vec<FlowMethodName>,
    /// Listener conditions, keyed by listener method name.
    pub listeners: Vec<(FlowMethodName, ListenerCondition)>,
    /// Router method names.
    pub routers: Vec<FlowMethodName>,
    /// For each router method, the return values that trigger listeners.
    pub router_paths: Vec<(FlowMethodName, Vec<FlowMethodName>)>,
    /// How many times each method has executed.
    pub method_execution_counts: Vec<(FlowMethodName, usize)>,
    /// The methods that have completed.
    pub completed_methods: Vec<FlowMethodName>,
    /// Pending completions of simple AND listeners.
    pub pending_and_listeners: Vec<(FlowMethodName, Vec<FlowMethodName>)>,
    /// Pending completions of compound AND listeners.
    pub pending_compound_listeners: Vec<(FlowMethodName, Vec<FlowMethodName>)>,
    /// OR listeners that have already fired.
    pub fired_or_listeners: Vec<FlowMethodName>,
    /// Whether execution is resuming from a paused state.
    pub is_execution_resuming: bool,
}

impl Flow {
    /// The trigger state held by this flow.
    pub open spec fn trigger_state(&self) -> TriggerState {
        (
            names_set(self.fired_or_listeners@),
            pending_map(self.pending_and_listeners@),
            pending_map(self.pending_compound_listeners@),
        )
    }

    /// The registration and execution records agree with `other`'s.
    pub open spec fn registry_same(&self, other: &Flow) -> bool {
        &&& self.name == other.name
        &&& self.methods == other.methods
        &&& self.start_methods == other.start_methods
        &&& self.listeners == other.listeners
        &&& self.routers == other.routers
        &&& self.router_paths == other.router_paths
        &&& self.method_execution_counts == other.method_execution_counts
        &&& self.completed_methods == other.completed_methods
        &&& self.is_execution_resuming == other.is_execution_resuming
    }

    /// A flow with nothing registered.
    pub fn new() -> (f: Flow)
        ensures
            f.name is None,
            f.methods@.len() == 0,
            f.start_methods@.len() == 0,
            f.listeners@.len() == 0,
            f.routers@.len() == 0,
            f.router_paths@.len() == 0,
            f.method_execution_counts@.len() == 0,
            f.completed_methods@.len() == 0,
            f.pending_and_listeners@.len() == 0,
            f.pending_compound_listeners@.len() == 0,
            f.fired_or_listeners@.len() == 0,
            !f.is_execution_resuming,
    {
        Flow {
            name: None,
            methods: Vec::new(),
            start_methods: Vec::new(),
            listeners: Vec::new(),
            routers: Vec::new(),
            router_paths: Vec::new(),
            method_execution_counts: Vec::new(),
            completed_methods: Vec::new(),
            pending_and_listeners: Vec::new(),
            pending_compound_listeners: Vec::new(),
            fired_or_listeners: Vec::new(),
            is_execution_resuming: false,
        }
    }

    /// A flow with the given name and nothing registered.
    pub fn with_name(name: &str) -> (f: Flow)
        ensures
            f.name matches Some(n) && n@ == name@,
            f.methods@.len() == 0,
            f.start_methods@.len() == 0,
            f.listeners@.len() == 0,
            f.routers@.len() == 0,
            f.router_paths@.len() == 0,
            f.completed_methods@.len() == 0,
            f.pending_and_listeners@.len() == 0,
            f.pending_compound_listeners@.len() == 0,
            f.fired_or_listeners@.len() == 0,
            !f.is_execution_resuming,
    {
        let mut f = Flow::new();
        f.name = Some(name.to_string());
        f
    }

    /// The flow name, or `"Flow"` when it has none.
    pub fn flow_name(&self) -> (s: &str)
        ensures
            s@ == match self.name {
                Some(n) => n@,
                None => "Flow"@,
            },
    {
        match &self.name {
            Some(n) => n.as_str(),
            None => "Flow",
        }
    }

    /// Mark an OR listener as fired; true when it had not fired before.
    pub fn mark_or_listener_fired(&mut self, listener_name: &FlowMethodName) -> (r: bool)
        ensures
            final(self).registry_same(old(self)),
            final(self).trigger_state() == (
                old(self).trigger_state().0.insert(listener_name.0@),
                old(self).trigger_state().1,
                old(self).trigger_state().2,
            ),
            r == !old(self).trigger_state().0.contains(listener_name.0@),
    {
        if contains_name(&self.fired_or_listeners, listener_name) {
            assert(names_set(self.fired_or_listeners@) =~= names_set(self.fired_or_listeners@).insert(listener_name.0@));
            return false;
        }
        add_name(&mut self.fired_or_listeners, listener_name);
        true
    }

    /// Forget which OR listeners have fired (for cyclic flows).
    pub fn clear_or_listeners(&mut self)
        ensures
            final(self).registry_same(old(self)),
            final(self).trigger_state() == (
                Set::<Seq<char>>::empty(),
                old(self).trigger_state().1,
                old(self).trigger_state().2,
            ),
    {
        self.fired_or_listeners = Vec::new();
        assert(names_set(self.fired_or_listeners@) =~= Set::<Seq<char>>::empty());
    }

    /// Evaluate a compound condition of `listener_name` for a completed method.
    pub fn evaluate_compound_condition(&mut self, listener_name: &FlowMethodName, condition: &FlowCondition, completed_method: &FlowMethodName) -> (r: bool)
        ensures
            final(self).registry_same(old(self)),
            (final(self).trigger_state(), r) == compound_step(
                old(self).trigger_state(),
                listener_name.0@,
                *condition,
                completed_method.0@,
            ),
    {
        let ghost st = self.trigger_state();
        let mut fired = contains_name(&self.fired_or_listeners, listener_name);
        let mut pending = take_pending(&self.pending_compound_listeners, listener_name);
        let r = eval_compound_exec(&mut fired, &mut pending, condition, completed_method);
        let ghost p = names_set(pending@);
        if fired {
            add_name(&mut self.fired_or_listeners, listener_name);
        }
        store_pending(&mut self.pending_compound_listeners, listener_name, pending);
        assert(pending_map(self.pending_compound_listeners@) =~= st.2.insert(listener_name.0@, p));
        r
    }

    /// Whether `listener_name`, with trigger `condition`, triggers now that
    /// `completed_method` has completed; updates the trigger state.
    pub fn should_trigger(&mut self, listener_name: &FlowMethodName, condition: &ListenerCondition, completed_method: &FlowMethodName) -> (r: bool)
        ensures
            final(self).registry_same(old(self)),
            (final(self).trigger_state(), r) == trigger_step(
                old(self).trigger_state(),
                listener_name.0@,
                *condition,
                completed_method.0@,
            ),
    {
        match condition {
            ListenerCondition::Simple(simple) => {
                if !contains_name(&simple.methods, completed_method) {
                    return false;
                }
                match simple.condition_type {
                    FlowConditionType::OR => self.mark_or_listener_fired(listener_name),
                    FlowConditionType::AND => {
                        let ghost st = self.trigger_state();
                        let mut pending = take_pending(&self.pending_and_listeners, listener_name);
                        add_name(&mut pending, completed_method);
                        if names_within(&simple.methods, &pending) {
                            let empty: Vec<FlowMethodName> = Vec::new();
                            assert(names_set(empty@) =~= Set::<Seq<char>>::empty());
                            store_pending(&mut self.pending_and_listeners, listener_name, empty);
                            assert(pending_map(self.pending_and_listeners@) =~= st.1.insert(
                                listener_name.0@,
                                Set::<Seq<char>>::empty(),
                            ));
                            true
                        } else {
                            let ghost p = names_set(pending@);
                            store_pending(&mut self.pending_and_listeners, listener_name, pending);
                            assert(pending_map(self.pending_and_listeners@) =~= st.1.insert(listener_name.0@, p));
                            false
                        }
                    },
                }
            },
            ListenerCondition::Compound(c) => self.evaluate_compound_condition(listener_name, c, completed_method),
        }
    }

    /// Check every listener, in order, against a completed method: the
    /// listeners that trigger, in order, with the trigger state updated.
    pub fn triggered_listeners(&mut self, completed_method: &FlowMethodName) -> (r: Vec<FlowMethodName>)
        ensures
            final(self).registry_same(old(self)),
            (final(self).trigger_state(), names_view(r@)) == trigger_all(
                old(self).trigger_state(),
                old(self).listeners@,
                completed_method.0@,
            ),
    {
        let mut listeners: Vec<(FlowMethodName, ListenerCondition)> = Vec::new();
        std::mem::swap(&mut listeners, &mut self.listeners);
        let ghost ls = listeners@;
        let mut r: Vec<FlowMethodName> = Vec::new();
        let mut i: usize = 0;
        while i < listeners.len()
            invariant
                listeners@ == ls,
                ls == old(self).listeners@,
                i <= ls.len(),
                self.listeners@.len() == 0,
                self.name == old(self).name,
                self.methods == old(self).methods,
                self.start_methods == old(self).start_methods,
                self.routers == old(self).routers,
                self.router_paths == old(self).router_paths,
                self.method_execution_counts == old(self).method_execution_counts,
                self.completed_methods == old(self).completed_methods,
                self.is_execution_resuming == old(self).is_execution_resuming,
                (self.trigger_state(), names_view(r@)) == trigger_all(
                    old(self).trigger_state(),
                    ls.take(i as int),
                    completed_method.0@,
                ),
            decreases ls.len() - i,
        {
            assert(ls.take(i + 1).drop_last() =~= ls.take(i as int));
            assert(ls.take(i + 1).last() == ls[i as int]);
            let ghost before = r@;
            if self.should_trigger(&listeners[i].0, &listeners[i].1, completed_method) {
                r.push(listeners[i].0.copy());
                assert(names_view(r@) =~= names_view(before).push(ls[i as int].0.0@));
            }
            i += 1;
        }
        assert(ls.take(i as int) =~= ls);
        std::mem::swap(&mut listeners, &mut self.listeners);
        r
    }
}

impl Flow {
    /// Register a method: record it, and track it as a start method, a
    /// listener (under its trigger condition) and a router (with its paths)
    /// as its registration says.
    pub fn register_method(&mut self, registration: FlowMethodRegistration)
        ensures
            final(self).methods@ == old(self).methods@.push(registration),
            registration.is_start_method && !names_view(old(self).start_methods@).contains(registration.name.0@)
                ==> names_view(final(self).start_methods@) == names_view(old(self).start_methods@).push(
                registration.name.0@,
            ),
            !(registration.is_start_method && !names_view(old(self).start_methods@).contains(registration.name.0@))
                ==> final(self).start_methods == old(self).start_methods,
            registers_listener(registration) ==> {
                let k = registration.name.0@;
                let i = if has_entry(old(self).listeners@, k) {
                    entry_index(old(self).listeners@, k)
                } else {
                    old(self).listeners@.len() as int
                };
                &&& final(self).listeners@.len() == if has_entry(old(self).listeners@, k) {
                    old(self).listeners@.len()
                } else {
                    old(self).listeners@.len() + 1
                }
                &&& forall|j: int| 0 <= j < old(self).listeners@.len() && j != i ==> #[trigger] final(self).listeners@[j] == old(self).listeners@[j]
                &&& final(self).listeners@[i].0 == registration.name
                &&& registered_condition(final(self).listeners@[i].1, registration)
            },
            !registers_listener(registration) ==> final(self).listeners == old(self).listeners,
            registration.is_router ==> names_set(final(self).routers@) == names_set(old(self).routers@).insert(
                registration.name.0@,
            ),
            !registration.is_router ==> final(self).routers == old(self).routers,
            registration.is_router ==> {
                let k = registration.name.0@;
                let i = if has_entry(old(self).router_paths@, k) {
                    entry_index(old(self).router_paths@, k)
                } else {
                    old(self).router_paths@.len() as int
                };
                &&& final(self).router_paths@.len() == if has_entry(old(self).router_paths@, k) {
                    old(self).router_paths@.len()
                } else {
                    old(self).router_paths@.len() + 1
                }
                &&& forall|j: int| 0 <= j < old(self).router_paths@.len() && j != i ==> #[trigger] final(self).router_paths@[j] == old(self).router_paths@[j]
                &&& final(self).router_paths@[i].0 == registration.name
                &&& Some(names_view(final(self).router_paths@[i].1@)) == match opt_strings_view(registration.router_paths) {
                    Some(p) => Some(p),
                    None => Some(Seq::<Seq<char>>::empty()),
                }
            },
            !registration.is_router ==> final(self).router_paths == old(self).router_paths,
            final(self).name == old(self).name,
            final(self).method_execution_counts == old(self).method_execution_counts,
            final(self).completed_methods == old(self).completed_methods,
            final(self).is_execution_resuming == old(self).is_execution_resuming,
            final(self).trigger_state() == old(self).trigger_state(),
    {
        let name = registration.name.copy();
        if registration.is_start_method {
            if !contains_name(&self.start_methods, &name) {
                let ghost before = self.start_methods@;
                self.start_methods.push(name.copy());
                assert(names_view(self.start_methods@) =~= names_view(before).push(name.0@));
            }
        }
        match &registration.trigger_methods {
            Some(triggers) => {
                if triggers.len() > 0 {
                    let cond = match &registration.trigger_condition {
                        Some(c) => ListenerCondition::Compound(c.copy()),
                        None => {
                            let ct = match registration.condition_type {
                                Some(t) => t,
                                None => FlowConditionType::OR,
                            };
                            ListenerCondition::Simple(SimpleFlowCondition { condition_type: ct, methods: copy_names(triggers) })
                        },
                    };
                    put_entry(&mut self.listeners, name.copy(), cond);
                }
            },
            None => {},
        }
        if registration.is_router {
            add_name(&mut self.routers, &name);
            let paths = match &registration.router_paths {
                Some(p) => names_from_strings(p),
                None => {
                    let e: Vec<FlowMethodName> = Vec::new();
                    assert(names_view(e@) =~= Seq::<Seq<char>>::empty());
                    e
                },
            };
            put_entry(&mut self.router_paths, name.copy(), paths);
        }
        self.methods.push(registration);
    }

    /// Register a method from its name and metadata.
    pub fn register_method_meta(&mut self, name: &str, meta: &FlowMethodMeta)
        ensures
            final(self).methods@.len() == old(self).methods@.len() + 1,
            final(self).methods@.last().name.0@ == name@,
            final(self).methods@.last().method_type == method_type_of(meta.is_start_method, meta.is_router),
            meta.is_start_method && !names_view(old(self).start_methods@).contains(name@) ==> names_view(
                final(self).start_methods@,
            ) == names_view(old(self).start_methods@).push(name@),
            meta.is_router ==> names_set(final(self).routers@) == names_set(old(self).routers@).insert(name@),
            final(self).trigger_state() == old(self).trigger_state(),
    {
        let registration = FlowMethodRegistration::from_meta(FlowMethodName::new(name.to_string()), meta);
        self.register_method(registration);
    }

    /// Reset the execution records and trigger state; registrations stay.
    pub fn reset(&mut self)
        ensures
            final(self).name == old(self).name,
            final(self).methods == old(self).methods,
            final(self).start_methods == old(self).start_methods,
            final(self).listeners == old(self).listeners,
            final(self).routers == old(self).routers,
            final(self).router_paths == old(self).router_paths,
            final(self).method_execution_counts@.len() == 0,
            final(self).completed_methods@.len() == 0,
            final(self).pending_and_listeners@.len() == 0,
            final(self).pending_compound_listeners@.len() == 0,
            final(self).fired_or_listeners@.len() == 0,
            !final(self).is_execution_resuming,
    {
        self.method_execution_counts = Vec::new();
        self.completed_methods = Vec::new();
        self.pending_and_listeners = Vec::new();
        self.pending_compound_listeners = Vec::new();
        self.fired_or_listeners = Vec::new();
        self.is_execution_resuming = false;
    }

    /// The names of the start methods, in registration order.
    pub fn start_method_names(&self) -> (r: Vec<FlowMethodName>)
        ensures
            names_view(r@) == self.methods@.filter(|m: FlowMethodRegistration| m.is_start_method).map_values(
                |m: FlowMethodRegistration| m.name.0@,
            ),
    {
        let mut r: Vec<FlowMethodName> = Vec::new();
        let mut i: usize = 0;
        while i < self.methods.len()
            invariant
                i <= self.methods@.len(),
                names_view(r@) == self.methods@.take(i as int).filter(|m: FlowMethodRegistration| m.is_start_method).map_values(
                    |m: FlowMethodRegistration| m.name.0@,
                ),
            decreases self.methods@.len() - i,
        {
            let ghost before = r@;
            assert(self.methods@.take(i + 1).drop_last() =~= self.methods@.take(i as int));
            reveal(Seq::filter);
            if self.methods[i].is_start_method {
                r.push(self.methods[i].name.copy());
                assert(names_view(r@) =~= names_view(before).push(self.methods@[i as int].name.0@));
            }
            i += 1;
        }
        assert(self.methods@.take(i as int) =~= self.methods@);
        r
    }

    /// Whether a triggered listener is skipped: execution is resuming and the
    /// listener completed before the pause.
    pub fn should_skip_listener(&self, listener_name: &FlowMethodName) -> (r: bool)
        ensures
            r == (self.is_execution_resuming && names_view(self.completed_methods@).contains(listener_name.0@)),
    {
        self.is_execution_resuming && contains_name(&self.completed_methods, listener_name)
    }

    /// Record that a method completed.
    pub fn mark_completed(&mut self, method_name: &FlowMethodName)
        ensures
            names_set(final(self).completed_methods@) == names_set(old(self).completed_methods@).insert(
                method_name.0@,
            ),
            final(self).methods == old(self).methods,
            final(self).listeners == old(self).listeners,
            final(self).routers == old(self).routers,
            final(self).router_paths == old(self).router_paths,
            final(self).method_execution_counts == old(self).method_execution_counts,
            final(self).is_execution_resuming == old(self).is_execution_resuming,
            final(self).trigger_state() == old(self).trigger_state(),
    {
        add_name(&mut self.completed_methods, method_name);
    }

    /// The name whose listeners run next after `listener_name` finished: a
    /// router's string result (none without one), or the listener itself.
    pub fn next_trigger(&self, listener_name: &FlowMethodName, route: Option<&str>) -> (r: Option<FlowMethodName>)
        ensures
            names_view(self.routers@).contains(listener_name.0@) ==> match route {
                Some(s) => r matches Some(n) && n.0@ == s@,
                None => r is None,
            },
            !names_view(self.routers@).contains(listener_name.0@) ==> r == Some(*listener_name),
    {
        if contains_name(&self.routers, listener_name) {
            match route {
                Some(s) => Some(FlowMethodName::new(s.to_string())),
                None => None,
            }
        } else {
            Some(listener_name.copy())
        }
    }
}

/// How many times method `k` has executed according to `s` (0 without an
/// entry).
pub open spec fn count_of(s: Seq<(FlowMethodName, usize)>, k: Seq<char>) -> nat {
    if has_entry(s, k) {
        s[entry_index(s, k)].1 as nat
    } else {
        0
    }
}

impl Flow {
    /// How many times `method_name` has executed.
    pub fn execution_count(&self, method_name: &FlowMethodName) -> (r: usize)
        ensures
            r == count_of(self.method_execution_counts@, method_name.0@),
    {
        match find_entry(&self.method_execution_counts, method_name) {
            Some(i) => {
                proof {
                    lemma_first_entry_unique(
                        self.method_execution_counts@,
                        method_name.0@,
                        i as int,
                        entry_index(self.method_execution_counts@, method_name.0@),
                    );
                }
                self.method_execution_counts[i].1
            },
            None => 0,
        }
    }

    /// Record one more execution of `method_name` (the count saturates at
    /// `usize::MAX`); other counts stay.
    pub fn record_execution(&mut self, method_name: &FlowMethodName)
        ensures
            count_of(final(self).method_execution_counts@, method_name.0@) == if count_of(
                old(self).method_execution_counts@,
                method_name.0@,
            ) < usize::MAX {
                count_of(old(self).method_execution_counts@, method_name.0@) + 1
            } else {
                usize::MAX as nat
            },
            forall|k: Seq<char>|
                k != method_name.0@ ==> count_of(final(self).method_execution_counts@, k) == count_of(
                    old(self).method_execution_counts@,
                    k,
                ),
            final(self).methods == old(self).methods,
            final(self).listeners == old(self).listeners,
            final(self).routers == old(self).routers,
            final(self).router_paths == old(self).router_paths,
            final(self).completed_methods == old(self).completed_methods,
            final(self).is_execution_resuming == old(self).is_execution_resuming,
            final(self).trigger_state() == old(self).trigger_state(),
    {
        let current = self.execution_count(method_name);
        let next = if current < usize::MAX {
            current + 1
        } else {
            current
        };
        let ghost s0 = self.method_execution_counts@;
        let key = method_name.copy();
        put_entry(&mut self.method_execution_counts, key, next);
        let ghost s1 = self.method_execution_counts@;
        proof {
            let l = method_name.0@;
            let i = if has_entry(s0, l) {
                entry_index(s0, l)
            } else {
                s0.len() as int
            };
            assert forall|j: int| 0 <= j < s1.len() implies #[trigger] s1[j].0.0@ == if j < s0.len() {
                s0[j].0.0@
            } else {
                l
            } by {}
            assert(first_entry(s1, l, i)) by {
                if has_entry(s0, l) {
                    assert forall|t: int| 0 <= t < i implies #[trigger] s1[t].0.0@ != l by {
                        assert(s0[t].0.0@ != l);
                    }
                } else {
                    assert forall|t: int| 0 <= t < i implies #[trigger] s1[t].0.0@ != l by {
                        if s0[t].0.0@ == l {
                            lemma_key_has_entry(s0, l, t);
                        }
                    }
                }
            }
            lemma_first_entry_unique(s1, l, i, entry_index(s1, l));
            assert forall|k: Seq<char>| k != l implies count_of(s1, k) == count_of(s0, k) by {
                assert forall|j: int| first_entry(s1, k, j) <==> first_entry(s0, k, j) by {
                    if first_entry(s1, k, j) {
                        assert(j < s0.len());
                        assert forall|t: int| 0 <= t < j implies #[trigger] s0[t].0.0@ != k by {
                            assert(s1[t].0.0@ != k);
                        }
                    }
                    if first_entry(s0, k, j) {
                        assert forall|t: int| 0 <= t < j implies #[trigger] s1[t].0.0@ != k by {
                            assert(s0[t].0.0@ != k);
                        }
                    }
                }
                if has_entry(s0, k) {
                    let j = entry_index(s0, k);
                    assert(first_entry(s1, k, j));
                    lemma_first_entry_unique(s1, k, j, entry_index(s1, k));
                } else if has_entry(s1, k) {
                    assert(first_entry(s0, k, entry_index(s1, k)));
                }
            }
        }
    }
}

// ---------------------------------------------------------------------------
// Laws of the trigger rules
// ---------------------------------------------------------------------------

/// A simple condition of the given type over `methods`.
pub open spec fn is_simple(c: ListenerCondition, t: FlowConditionType) -> bool {
    c matches ListenerCondition::Simple(sc) && sc.condition_type == t
}

/// The trigger methods of a simple condition.
pub open spec fn simple_methods(c: ListenerCondition) -> Set<Seq<char>> {
    match c {
        ListenerCondition::Simple(sc) => names_set(sc.methods@),
        ListenerCondition::Compound(d) => cond_names(d),
    }
}

/// An OR listener fires at most once for its triggers: a second completion
/// of any trigger does not fire it again, until the fired listeners are
/// cleared, after which it fires again.
pub proof fn lemma_or_listener_fires_once(st: TriggerState, l: Seq<char>, c: ListenerCondition, m1: Seq<char>, m2: Seq<char>)
    requires
        is_simple(c, FlowConditionType::OR),
        simple_methods(c).contains(m1),
        simple_methods(c).contains(m2),
    ensures
        ({
            let (st1, r1) = trigger_step(st, l, c, m1);
            let (st2, r2) = trigger_step(st1, l, c, m2);
            &&& r1 == !st.0.contains(l)
            &&& !r2
            &&& trigger_step((Set::empty(), st2.1, st2.2), l, c, m2).1
        }),
{
    if let ListenerCondition::Simple(sc) = c {
        assert(names_view(sc.methods@).contains(m1));
        assert(names_view(sc.methods@).contains(m2));
    }
}

/// A condition tree every node of which is an OR.
pub open spec fn or_only(c: FlowCondition) -> bool
    decreases c, 0nat,
{
    c.condition_type == FlowConditionType::OR && items_or_only(c.conditions@)
}

/// Condition items every nested condition of which is an OR tree.
pub open spec fn items_or_only(items: Seq<FlowConditionItem>) -> bool
    decreases items, items.len(),
{
    if items.len() == 0 {
        true
    } else {
        (match items[0] {
            FlowConditionItem::MethodName(_) => true,
            FlowConditionItem::Condition(sub) => or_only(sub),
        }) && items_or_only(items.drop_first())
    }
}

/// An OR tree either leaves the flags alone and does not fire, or marks the
/// listener fired and fires exactly when it had not fired before; a direct
/// trigger method always does the latter. Pending completions are untouched.
proof fn lemma_or_only_eval(fired: bool, p: Set<Seq<char>>, c: FlowCondition, m: Seq<char>)
    requires
        or_only(c),
    ensures
        eval_compound(fired, p, c, m) == (fired, p, false) || eval_compound(fired, p, c, m) == (true, p, !fired),
        names_set(c.methods@).contains(m) ==> eval_compound(fired, p, c, m) == (true, p, !fired),
    decreases c, 0nat,
{
    if cond_names(c).contains(m) {
        lemma_or_only_items(fired, p, c.conditions@, m);
    }
}

/// The items of an OR tree either decide nothing and change nothing, or
/// mark the listener fired and decide that it fires exactly when it had not
/// fired before.
proof fn lemma_or_only_items(fired: bool, p: Set<Seq<char>>, items: Seq<FlowConditionItem>, m: Seq<char>)
    requires
        items_or_only(items),
    ensures
        eval_items(fired, p, items, m) == (fired, p, None::<bool>) || eval_items(fired, p, items, m) == (
            true,
            p,
            Some(!fired),
        ),
    decreases items, items.len(),
{
    if items.len() > 0 {
        match items[0] {
            FlowConditionItem::MethodName(n) => {
                if n.0@ != m {
                    lemma_or_only_items(fired, p, items.drop_first(), m);
                }
            },
            FlowConditionItem::Condition(sub) => {
                lemma_or_only_eval(fired, p, sub, m);
                let (f, q, r) = eval_compound(fired, p, sub, m);
                if !r {
                    lemma_or_only_items(f, q, items.drop_first(), m);
                }
            },
        }
    }
}

/// A listener on a compound OR condition (every node of its tree an OR)
/// fires once: a completion of a direct trigger fires it exactly when it had
/// not fired and marks it fired; a second completion of any method then does
/// not fire it again, until the fired listeners are cleared, after which a
/// direct trigger fires it again.
pub proof fn lemma_compound_or_listener_fires_once(
    st: TriggerState,
    l: Seq<char>,
    c: FlowCondition,
    m1: Seq<char>,
    m2: Seq<char>,
)
    requires
        or_only(c),
        names_set(c.methods@).contains(m1),
    ensures
        ({
            let cond = ListenerCondition::Compound(c);
            let (st1, r1) = trigger_step(st, l, cond, m1);
            let (st2, r2) = trigger_step(st1, l, cond, m2);
            &&& r1 == !st.0.contains(l)
            &&& st1.0.contains(l)
            &&& !r2
            &&& st2.0.contains(l)
            &&& names_set(c.methods@).contains(m2) ==> trigger_step((Set::empty(), st2.1, st2.2), l, cond, m2).1
        }),
{
    let cond = ListenerCondition::Compound(c);
    let (st1, r1) = trigger_step(st, l, cond, m1);
    lemma_or_only_eval(st.0.contains(l), st.2[l], c, m1);
    assert(st1.0.contains(l));
    lemma_or_only_eval(true, st1.2[l], c, m2);
    let (st2, r2) = trigger_step(st1, l, cond, m2);
    lemma_or_only_eval(false, st2.2[l], c, m2);
}

/// Triggering a listener changes no other listener's state.
pub proof fn lemma_trigger_step_is_local(st: TriggerState, l: Seq<char>, c: ListenerCondition, m: Seq<char>, k: Seq<char>)
    requires
        k != l,
    ensures
        ({
            let (st1, _) = trigger_step(st, l, c, m);
            &&& st1.0.contains(k) == st.0.contains(k)
            &&& st1.1[k] == st.1[k]
            &&& st1.2[k] == st.2[k]
        }),
{
}

/// The results of feeding a sequence of completions to one listener.
pub open spec fn run_completions(st: TriggerState, l: Seq<char>, c: ListenerCondition, s: Seq<Seq<char>>) -> (TriggerState, Seq<bool>)
    decreases s.len(),
{
    if s.len() == 0 {
        (st, Seq::empty())
    } else {
        let (st1, rs) = run_completions(st, l, c, s.drop_last());
        let (st2, r) = trigger_step(st1, l, c, s.last());
        (st2, rs.push(r))
    }
}

/// The set of elements of a sequence.
pub open spec fn elems(s: Seq<Seq<char>>) -> Set<Seq<char>> {
    Set::new(|x: Seq<char>| s.contains(x))
}

proof fn lemma_and_prefix(st: TriggerState, l: Seq<char>, c: ListenerCondition, s: Seq<Seq<char>>, k: int)
    requires
        is_simple(c, FlowConditionType::AND),
        s.no_duplicates(),
        elems(s) == simple_methods(c),
        st.1.dom().contains(l),
        st.1[l] == Set::<Seq<char>>::empty(),
        0 <= k < s.len(),
    ensures
        ({
            let (st1, rs) = run_completions(st, l, c, s.take(k));
            &&& rs.len() == k
            &&& forall|i: int| 0 <= i < k ==> !#[trigger] rs[i]
            &&& st1.0 == st.0
            &&& st1.2 == st.2
            &&& st1.1 == st.1.insert(l, elems(s.take(k)))
        }),
    decreases k,
{
    if k == 0 {
        assert(s.take(0) =~= Seq::<Seq<char>>::empty());
        assert(elems(s.take(0)) =~= Set::<Seq<char>>::empty());
        assert(st.1.insert(l, Set::<Seq<char>>::empty()) =~= st.1);
    } else {
        lemma_and_prefix(st, l, c, s, k - 1);
        assert(s.take(k).drop_last() =~= s.take(k - 1));
        assert(s.take(k).last() == s[k - 1]);
        let (st1, rs) = run_completions(st, l, c, s.take(k - 1));
        if let ListenerCondition::Simple(sc) = c {
            assert(elems(s).contains(s[k - 1]));
            assert(names_view(sc.methods@).contains(s[k - 1]));
            let p = st1.1[l].insert(s[k - 1]);
            assert(p =~= elems(s.take(k))) by {
                assert forall|x: Seq<char>| p.contains(x) <==> s.take(k).contains(x) by {
                    if s.take(k - 1).contains(x) {
                        let j = choose|j: int| 0 <= j < k - 1 && #[trigger] s.take(k - 1)[j] == x;
                        assert(s.take(k)[j] == x);
                    }
                    if x == s[k - 1] {
                        assert(s.take(k)[k - 1] == x);
                    }
                    if s.take(k).contains(x) {
                        let j = choose|j: int| 0 <= j < k && #[trigger] s.take(k)[j] == x;
                        if j < k - 1 {
                            assert(s.take(k - 1)[j] == x);
                        }
                    }
                }
            }
            let last = s[s.len() - 1];
            assert(elems(s).contains(last));
            assert(!p.contains(last)) by {
                if s.take(k).contains(last) {
                    let j = choose|j: int| 0 <= j < k && #[trigger] s.take(k)[j] == last;
                    assert(s[j] == s[s.len() - 1]);
                }
            }
            assert(!names_set(sc.methods@).subset_of(p));
        }
        assert(st1.1.insert(l, elems(s.take(k))) =~= st.1.insert(l, elems(s.take(k))));
    }
}

/// An AND listener fed each of its trigger methods once, in any order,
/// starting with nothing pending, fires exactly on the last one and then
/// has nothing pending again.
pub proof fn lemma_and_listener_fires_on_last(st: TriggerState, l: Seq<char>, c: ListenerCondition, s: Seq<Seq<char>>)
    requires
        is_simple(c, FlowConditionType::AND),
        s.len() > 0,
        s.no_duplicates(),
        elems(s) == simple_methods(c),
        st.1.dom().contains(l),
        st.1[l] == Set::<Seq<char>>::empty(),
    ensures
        ({
            let (st1, rs) = run_completions(st, l, c, s);
            &&& rs.len() == s.len()
            &&& forall|i: int| 0 <= i < s.len() - 1 ==> !#[trigger] rs[i]
            &&& rs[s.len() - 1]
            &&& st1.1[l] == Set::<Seq<char>>::empty()
        }),
{
    let n = s.len() as int;
    lemma_and_prefix(st, l, c, s, n - 1);
    assert(s.drop_last() =~= s.take(n - 1));
    let (st1, rs) = run_completions(st, l, c, s.take(n - 1));
    if let ListenerCondition::Simple(sc) = c {
        assert(elems(s).contains(s[n - 1]));
        assert(names_view(sc.methods@).contains(s[n - 1]));
        let p = st1.1[l].insert(s[n - 1]);
        assert(names_set(sc.methods@).subset_of(p)) by {
            assert forall|x: Seq<char>| names_set(sc.methods@).contains(x) implies p.contains(x) by {
                assert(elems(s).contains(x));
                let j = choose|j: int| 0 <= j < n && #[trigger] s[j] == x;
                if j < n - 1 {
                    assert(s.take(n - 1)[j] == x);
                    assert(elems(s.take(n - 1)).contains(x));
                }
            }
        }
    }
}


/// Feeding a compound AND listener the first `k` of its methods, each once,
/// starting with nothing pending, never fires it and leaves exactly those
/// methods pending.
proof fn lemma_compound_and_prefix(st: TriggerState, l: Seq<char>, c: FlowCondition, s: Seq<Seq<char>>, k: int)
    requires
        c.condition_type == FlowConditionType::AND,
        s.no_duplicates(),
        elems(s) == cond_names(c),
        st.2.dom().contains(l),
        st.2[l] == Set::<Seq<char>>::empty(),
        0 <= k < s.len(),
    ensures
        ({
            let (st1, rs) = run_completions(st, l, ListenerCondition::Compound(c), s.take(k));
            &&& rs.len() == k
            &&& forall|i: int| 0 <= i < k ==> !#[trigger] rs[i]
            &&& st1.0 == st.0
            &&& st1.1 == st.1
            &&& st1.2 == st.2.insert(l, elems(s.take(k)))
        }),
    decreases k,
{
    let cond = ListenerCondition::Compound(c);
    if k == 0 {
        assert(s.take(0) =~= Seq::<Seq<char>>::empty());
        assert(elems(s.take(0)) =~= Set::<Seq<char>>::empty());
        assert(st.2.insert(l, Set::<Seq<char>>::empty()) =~= st.2);
    } else {
        lemma_compound_and_prefix(st, l, c, s, k - 1);
        assert(s.take(k).drop_last() =~= s.take(k - 1));
        assert(s.take(k).last() == s[k - 1]);
        let (st1, rs) = run_completions(st, l, cond, s.take(k - 1));
        assert(elems(s).contains(s[k - 1]));
        assert(cond_names(c).contains(s[k - 1]));
        let p = st1.2[l].insert(s[k - 1]);
        assert(p =~= elems(s.take(k))) by {
            assert forall|x: Seq<char>| p.contains(x) <==> s.take(k).contains(x) by {
                if s.take(k - 1).contains(x) {
                    let j = choose|j: int| 0 <= j < k - 1 && #[trigger] s.take(k - 1)[j] == x;
                    assert(s.take(k)[j] == x);
                }
                if x == s[k - 1] {
                    assert(s.take(k)[k - 1] == x);
                }
                if s.take(k).contains(x) {
                    let j = choose|j: int| 0 <= j < k && #[trigger] s.take(k)[j] == x;
                    if j < k - 1 {
                        assert(s.take(k - 1)[j] == x);
                    }
                }
            }
        }
        let last = s[s.len() - 1];
        assert(elems(s).contains(last));
        assert(!p.contains(last)) by {
            if s.take(k).contains(last) {
                let j = choose|j: int| 0 <= j < k && #[trigger] s.take(k)[j] == last;
                assert(s[j] == s[s.len() - 1]);
            }
        }
        assert(!cond_names(c).subset_of(p));
        assert((if st1.0.contains(l) { st1.0.insert(l) } else { st1.0 }) =~= st1.0);
        assert(st1.2.insert(l, elems(s.take(k))) =~= st.2.insert(l, elems(s.take(k))));
    }
}

/// A compound AND listener fed each method of its condition tree once, in
/// any order, starting with nothing pending, fires exactly on the last one
/// and then has nothing pending again.
pub proof fn lemma_compound_and_listener_fires_on_last(
    st: TriggerState,
    l: Seq<char>,
    c: FlowCondition,
    s: Seq<Seq<char>>,
)
    requires
        c.condition_type == FlowConditionType::AND,
        s.len() > 0,
        s.no_duplicates(),
        elems(s) == cond_names(c),
        st.2.dom().contains(l),
        st.2[l] == Set::<Seq<char>>::empty(),
    ensures
        ({
            let (st1, rs) = run_completions(st, l, ListenerCondition::Compound(c), s);
            &&& rs.len() == s.len()
            &&& forall|i: int| 0 <= i < s.len() - 1 ==> !#[trigger] rs[i]
            &&& rs[s.len() - 1]
            &&& st1.2[l] == Set::<Seq<char>>::empty()
        }),
{
    let cond = ListenerCondition::Compound(c);
    let n = s.len() as int;
    lemma_compound_and_prefix(st, l, c, s, n - 1);
    assert(s.drop_last() =~= s.take(n - 1));
    let (st1, rs) = run_completions(st, l, cond, s.take(n - 1));
    assert(elems(s).contains(s[n - 1]));
    assert(cond_names(c).contains(s[n - 1]));
    let p = st1.2[l].insert(s[n - 1]);
    assert(cond_names(c).subset_of(p)) by {
        assert forall|x: Seq<char>| cond_names(c).contains(x) implies p.contains(x) by {
            assert(elems(s).contains(x));
            let j = choose|j: int| 0 <= j < n && #[trigger] s[j] == x;
            if j < n - 1 {
                assert(s.take(n - 1)[j] == x);
                assert(elems(s.take(n - 1)).contains(x));
            }
        }
    }
}

/// A lowercase hexadecimal digit.
pub open spec fn is_lower_hex(c: char) -> bool {
    ('0' <= c && c <= '9') || ('a' <= c && c <= 'f')
}

/// `t` is the hyphenated lowercase text of a random (version 4, RFC 4122
/// variant) UUID: 36 characters, hyphens at 8, 13, 18 and 23, hexadecimal
/// digits elsewhere, the version digit `4` at 14 and a variant digit among
/// `8`, `9`, `a`, `b` at 19.
pub open spec fn uuid_v4_text(t: Seq<char>) -> bool {
    &&& t.len() == 36
    &&& forall|i: int| 0 <= i < 36 ==> if i == 8 || i == 13 || i == 18 || i == 23 {
        #[trigger] t[i] == '-'
    } else {
        is_lower_hex(t[i])
    }
    &&& t[14] == '4'
    &&& (t[19] == '8' || t[19] == '9' || t[19] == 'a' || t[19] == 'b')
}

/// A fresh state id: `uuid::Uuid::new_v4` written with `to_string`, the
/// hyphenated lowercase form of a random UUID. Claimed: the text has that
/// form (see `uuid_v4_text`); which id comes out is chance.
#[verifier::external_body]
fn new_state_id() -> (id: String)
    ensures
        uuid_v4_text(id@),
{
    uuid::Uuid::new_v4().to_string()
}

/// The entries of `data` whose key is not `key`, in order.
pub open spec fn without_key(data: Seq<(String, JsonValue)>, key: Seq<char>) -> Seq<(String, JsonValue)>
    decreases data.len(),
{
    if data.len() == 0 {
        data
    } else if data.last().0@ == key {
        without_key(data.drop_last(), key)
    } else {
        without_key(data.drop_last(), key).push(data.last())
    }
}

/// The id that initial state data names: a non-empty string under the
/// first `"id"` key.
pub open spec fn given_id(data: Seq<(String, JsonValue)>) -> Option<Seq<char>> {
    match member(data, "id"@) {
        Some(JsonValue::Str(t)) => if t@.len() > 0 {
            Some(t@)
        } else {
            None
        },
        _ => None,
    }
}

/// `s` is the state that initial data `d` makes: the entries not keyed
/// `"id"`, and the id `d` names (see `given_id`), else a new random one.
pub open spec fn state_read_from(d: Seq<(String, JsonValue)>, s: FlowState) -> bool {
    &&& s.data@ == without_key(d, "id"@)
    &&& given_id(d) matches Some(t) ==> s.id@ == t
    &&& given_id(d) is None ==> uuid_v4_text(s.id@)
}

/// `data` with `value` under `key`: the first entry keyed `key` takes the
/// value, or, without one, a new entry goes last.
pub open spec fn put_state_entry(data: Seq<(String, JsonValue)>, key: String, value: JsonValue) -> Seq<(String, JsonValue)> {
    if has_key(data, key@) {
        data.update(choose|i: int| first_key_at(data, key@, i), (key, value))
    } else {
        data.push((key, value))
    }
}

/// The data after setting each input in order, as `FlowState::set` does
/// (inputs keyed `"id"` leave the data alone).
pub open spec fn data_after_inputs(data: Seq<(String, JsonValue)>, inputs: Seq<(String, JsonValue)>) -> Seq<(String, JsonValue)>
    decreases inputs.len(),
{
    if inputs.len() == 0 {
        data
    } else {
        let d = data_after_inputs(data, inputs.drop_last());
        if inputs.last().0@ == "id"@ {
            d
        } else {
            put_state_entry(d, inputs.last().0, inputs.last().1)
        }
    }
}

/// The id after setting each input in order: the last string under `"id"`,
/// or `id` when there is none.
pub open spec fn id_after_inputs(id: Seq<char>, inputs: Seq<(String, JsonValue)>) -> Seq<char>
    decreases inputs.len(),
{
    if inputs.len() == 0 {
        id
    } else {
        let i = id_after_inputs(id, inputs.drop_last());
        if inputs.last().0@ == "id"@ {
            match inputs.last().1 {
                JsonValue::Str(s) => s@,
                _ => i,
            }
        } else {
            i
        }
    }
}

/// Inputs none of which is keyed `"id"` leave the id alone.
proof fn lemma_id_without_inputs(id: Seq<char>, inputs: Seq<(String, JsonValue)>)
    requires
        !has_key(inputs, "id"@),
    ensures
        id_after_inputs(id, inputs) == id,
    decreases inputs.len(),
{
    if inputs.len() > 0 {
        assert(!has_key(inputs.drop_last(), "id"@)) by {
            if has_key(inputs.drop_last(), "id"@) {
                let j = choose|j: int| 0 <= j < inputs.drop_last().len() && #[trigger] inputs.drop_last()[j].0@ == "id"@;
                assert(inputs[j] == inputs.drop_last()[j]);
            }
        }
        lemma_id_without_inputs(id, inputs.drop_last());
        assert(inputs[inputs.len() - 1] == inputs.last());
    }
}

/// Where the id goes in the dictionary form of `data`: the first entry
/// keyed `"id"`, or a new last entry.
pub open spec fn id_slot(data: Seq<(String, JsonValue)>) -> int {
    if has_key(data, "id"@) {
        choose|i: int| first_key_at(data, "id"@, i)
    } else {
        data.len() as int
    }
}

/// `r` is `data` with the id under `"id"`: the entries of `data` in order,
/// keys and values the same, but for the id's slot (see `id_slot`), which
/// holds `"id"` and the id as a string.
pub open spec fn dict_entries(data: Seq<(String, JsonValue)>, id: Seq<char>, r: Seq<(String, JsonValue)>) -> bool {
    &&& r.len() == (if has_key(data, "id"@) { data.len() as int } else { data.len() + 1int })
    &&& r[id_slot(data)].0@ == "id"@
    &&& r[id_slot(data)].1 matches JsonValue::Str(s) && s@ == id
    &&& forall|i: int|
        0 <= i < data.len() && i != id_slot(data) ==> r[i].0@ == data[i].0@ && same_json(
            #[trigger] data[i].1,
            r[i].1,
        )
}

/// The first entry with a key is the only first entry with it.
proof fn lemma_first_key_unique(data: Seq<(String, JsonValue)>, key: Seq<char>, i: int, j: int)
    requires
        first_key_at(data, key, i),
        first_key_at(data, key, j),
    ensures
        i == j,
{
    if i < j {
        assert(data[i].0@ != key);
    } else if j < i {
        assert(data[j].0@ != key);
    }
}

/// Removing a key's entries leaves the other entries and none with it.
proof fn lemma_without_key(data: Seq<(String, JsonValue)>, key: Seq<char>)
    ensures
        !has_key(without_key(data, key), key),
        unique_keys(data) ==> unique_keys(without_key(data, key)),
        forall|e: (String, JsonValue)| #[trigger] without_key(data, key).contains(e) ==> data.contains(e),
    decreases data.len(),
{
    if data.len() > 0 {
        let rest = data.drop_last();
        lemma_without_key(rest, key);
        if unique_keys(data) {
            assert(unique_keys(rest)) by {
                assert forall|a: int, b: int| 0 <= a < b < rest.len() implies #[trigger] rest[a].0@ != #[trigger] rest[b].0@ by {
                    assert(rest[a] == data[a] && rest[b] == data[b]);
                }
            }
        }
        let w = without_key(rest, key);
        if data.last().0@ != key {
            let w2 = w.push(data.last());
            assert forall|e: (String, JsonValue)| #[trigger] w2.contains(e) implies data.contains(e) by {
                let k = choose|k: int| 0 <= k < w2.len() && w2[k] == e;
                if k < w.len() {
                    assert(w.contains(e));
                    let m = choose|m: int| 0 <= m < rest.len() && rest[m] == e;
                    assert(data[m] == e);
                } else {
                    assert(data[data.len() - 1] == e);
                }
            }
            assert(!has_key(w2, key)) by {
                assert forall|k: int| 0 <= k < w2.len() implies #[trigger] w2[k].0@ != key by {
                    if k < w.len() {
                        assert(w[k] == w2[k]);
                    }
                }
            }
            if unique_keys(data) {
                assert forall|a: int, b: int| 0 <= a < b < w2.len() implies #[trigger] w2[a].0@ != #[trigger] w2[b].0@ by {
                    if b == w.len() {
                        assert(w.contains(w2[a]));
                        let m = choose|m: int| 0 <= m < rest.len() && rest[m] == w2[a];
                        assert(data[m] == w2[a]);
                        assert(data[data.len() - 1] == w2[b]);
                    } else {
                        assert(w[a] == w2[a] && w[b] == w2[b]);
                    }
                }
            }
        }
    }
}

/// A flow's state: a unique id and keyed data. Its well-formed states
/// (`wf`) hold each key once and keep the id out of the data.
#[derive(Debug)]
pub struct FlowState {
    /// The unique identifier.
    pub id: String,
    /// The state data, keyed.
    pub data: Vec<(String, JsonValue)>,
}

impl FlowState {
    /// Each data key once, and none of them `"id"`.
    pub open spec fn wf(&self) -> bool {
        &&& unique_keys(self.data@)
        &&& !has_key(self.data@, "id"@)
    }

    /// A fresh state: a new random id and no data.
    pub fn new() -> (s: FlowState)
        ensures
            uuid_v4_text(s.id@),
            s.data@.len() == 0,
            s.wf(),
    {
        FlowState { id: new_state_id(), data: Vec::new() }
    }

    /// A state with initial data: a non-empty string under `"id"` becomes
    /// the id (else a new random id), and the `"id"` entries leave the data.
    pub fn with_data(data: Vec<(String, JsonValue)>) -> (s: FlowState)
        ensures
            state_read_from(data@, s),
            unique_keys(data@) ==> s.wf(),
    {
        let ghost orig = data@;
        let n: usize = data.len();
        let mut rest = data;
        let mut kept: Vec<(String, JsonValue)> = Vec::new();
        let mut id_value: Option<JsonValue> = None;
        let mut k: usize = 0;
        while rest.len() > 0
            invariant
                k + rest@.len() == orig.len(),
                orig.len() == n,
                rest@ == orig.skip(k as int),
                kept@ == without_key(orig.take(k as int), "id"@),
                id_value == member(orig.take(k as int), "id"@),
            decreases rest@.len(),
        {
            let ghost pre = orig.take(k as int);
            assert(orig.take(k + 1) =~= pre.push(orig[k as int]));
            assert(orig.take(k + 1).drop_last() =~= pre);
            proof {
                lemma_member_push(pre, orig[k as int], "id"@);
            }
            let (key, value) = rest.remove(0);
            assert(rest@ =~= orig.skip(k + 1));
            if str_eq(key.as_str(), "id") {
                if id_value.is_none() {
                    id_value = Some(value);
                }
            } else {
                kept.push((key, value));
            }
            k += 1;
        }
        assert(orig.take(k as int) =~= orig);
        let id = match id_value {
            Some(JsonValue::Str(t)) => if t.as_str().unicode_len() > 0 {
                t
            } else {
                new_state_id()
            },
            _ => new_state_id(),
        };
        proof {
            lemma_without_key(orig, "id"@);
        }
        FlowState { id, data: kept }
    }

    /// Merge `inputs` into the state, setting each in order (see `set`), and
    /// keep the current id unless some input is keyed `"id"`.
    pub fn initialize(&mut self, inputs: Vec<(String, JsonValue)>)
        ensures
            final(self).data@ == data_after_inputs(old(self).data@, inputs@),
            final(self).id@ == if has_key(inputs@, "id"@) {
                id_after_inputs(old(self).id@, inputs@)
            } else {
                old(self).id@
            },
            old(self).wf() ==> final(self).wf(),
    {
        let ghost orig = inputs@;
        let ghost d0 = self.data@;
        let ghost id0 = self.id@;
        let ghost wf0 = self.wf();
        let mut has_id = false;
        let mut rest = inputs;
        let mut k: usize = 0;
        let n = rest.len();
        while rest.len() > 0
            invariant
                k + rest@.len() == orig.len(),
                orig.len() == n,
                rest@ == orig.skip(k as int),
                self.data@ == data_after_inputs(d0, orig.take(k as int)),
                self.id@ == id_after_inputs(id0, orig.take(k as int)),
                has_id == has_key(orig.take(k as int), "id"@),
                wf0 ==> self.wf(),
            decreases rest@.len(),
        {
            let ghost pre = orig.take(k as int);
            assert(orig.take(k + 1).drop_last() =~= pre);
            assert(orig.take(k + 1).last() == orig[k as int]);
            let (key, value) = rest.remove(0);
            assert(rest@ =~= orig.skip(k + 1));
            if str_eq(key.as_str(), "id") {
                has_id = true;
            }
            proof {
                assert(has_key(orig.take(k + 1), "id"@) == (has_key(pre, "id"@) || orig[k as int].0@ == "id"@)) by {
                    if has_key(orig.take(k + 1), "id"@) {
                        let j = choose|j: int| 0 <= j < orig.take(k + 1).len() && #[trigger] orig.take(k + 1)[j].0@ == "id"@;
                        if j < k {
                            assert(pre[j] == orig.take(k + 1)[j]);
                        }
                    }
                    if has_key(pre, "id"@) {
                        let j = choose|j: int| 0 <= j < pre.len() && #[trigger] pre[j].0@ == "id"@;
                        assert(orig.take(k + 1)[j] == pre[j]);
                    }
                    if orig[k as int].0@ == "id"@ {
                        assert(orig.take(k + 1)[k as int] == orig[k as int]);
                    }
                }
            }
            self.set(key, value);
            k += 1;
        }
        assert(orig.take(k as int) =~= orig);
        if !has_id {
            proof {
                lemma_id_without_inputs(id0, orig);
            }
        }
    }

    /// A state from its dictionary form (as `with_data`).
    pub fn from_dict(data: Vec<(String, JsonValue)>) -> (s: FlowState)
        ensures
            state_read_from(data@, s),
            unique_keys(data@) ==> s.wf(),
    {
        FlowState::with_data(data)
    }

    /// The value under `key`; the id is not among the values.
    pub fn get(&self, key: &str) -> (r: Option<&JsonValue>)
        ensures
            key@ == "id"@ ==> r is None,
            key@ != "id"@ ==> match r {
                Some(v) => member(self.data@, key@) == Some(*v),
                None => member(self.data@, key@) is None,
            },
    {
        if str_eq(key, "id") {
            return None;
        }
        get_member(&self.data, key)
    }

    /// Set a value: under `"id"` a string value becomes the id (another
    /// value changes nothing); under another key the value is put in the
    /// data (see `put_state_entry`).
    pub fn set(&mut self, key: String, value: JsonValue)
        ensures
            key@ == "id"@ ==> final(self).data@ == old(self).data@ && final(self).id@ == (match value {
                JsonValue::Str(s) => s@,
                _ => old(self).id@,
            }),
            key@ != "id"@ ==> final(self).id == old(self).id && final(self).data@ == put_state_entry(
                old(self).data@,
                key,
                value,
            ),
            old(self).wf() ==> final(self).wf(),
    {
        if str_eq(key.as_str(), "id") {
            if let JsonValue::Str(s) = value {
                self.id = s;
            }
        } else {
            match find_key(&self.data, key.as_str()) {
                Some(i) => {
                    proof {
                        assert forall|j: int| #[trigger] first_key_at(old(self).data@, key@, j) implies j == i by {
                            lemma_first_key_unique(old(self).data@, key@, i as int, j);
                        }
                    }
                    let ghost old_data = self.data@;
                    self.data.set(i, (key, value));
                    proof {
                        if unique_keys(old_data) && !has_key(old_data, "id"@) {
                            assert forall|a: int, b: int| 0 <= a < b < self.data@.len() implies #[trigger] self.data@[a].0@ != #[trigger] self.data@[b].0@ by {
                                assert(old_data[i as int].0@ == self.data@[i as int].0@);
                                if a != i && b != i {
                                    assert(old_data[a] == self.data@[a] && old_data[b] == self.data@[b]);
                                } else if a == i {
                                    assert(old_data[b] == self.data@[b]);
                                } else {
                                    assert(old_data[a] == self.data@[a]);
                                }
                            }
                            assert forall|j: int| 0 <= j < self.data@.len() implies #[trigger] self.data@[j].0@ != "id"@ by {
                                assert(old_data[j].0@ == self.data@[j].0@);
                            }
                        }
                    }
                },
                None => {
                    let ghost old_data = self.data@;
                    self.data.push((key, value));
                    proof {
                        if unique_keys(old_data) && !has_key(old_data, "id"@) {
                            assert forall|a: int, b: int| 0 <= a < b < self.data@.len() implies #[trigger] self.data@[a].0@ != #[trigger] self.data@[b].0@ by {
                                assert(old_data[a] == self.data@[a]);
                                if b < old_data.len() {
                                    assert(old_data[b] == self.data@[b]);
                                }
                            }
                            assert forall|j: int| 0 <= j < self.data@.len() implies #[trigger] self.data@[j].0@ != "id"@ by {
                                if j < old_data.len() {
                                    assert(old_data[j] == self.data@[j]);
                                }
                            }
                        }
                    }
                },
            }
        }
    }

    /// The state as one dictionary: the data with the id under `"id"`
    /// (see `dict_entries`).
    pub fn to_dict(&self) -> (r: Vec<(String, JsonValue)>)
        ensures
            dict_entries(self.data@, self.id@, r@),
    {
        let mut r = copy_members(&self.data);
        let ghost copy = r@;
        let entry = (String::from_str("id"), JsonValue::Str(self.id.clone()));
        proof {
            assert forall|i: int| 0 <= i < self.data@.len() implies #[trigger] copy[i].0@ == self.data@[i].0@ && same_json(self.data@[i].1, copy[i].1) by {
                lemma_same_members_at(self.data@, copy, i);
            }
        }
        let ghost data = self.data@;
        match find_key(&r, "id") {
            Some(i) => {
                proof {
                    assert(copy[i as int].0@ == data[i as int].0@);
                    assert forall|j: int| 0 <= j < i implies #[trigger] data[j].0@ != "id"@ by {
                        assert(copy[j].0@ == data[j].0@);
                    }
                    assert(first_key_at(data, "id"@, i as int));
                    assert(has_key(data, "id"@));
                    let j = choose|j: int| first_key_at(data, "id"@, j);
                    lemma_first_key_unique(data, "id"@, i as int, j);
                    assert(id_slot(data) == i);
                }
                r.set(i, entry);
                proof {
                    assert forall|k: int| 0 <= k < data.len() && k != id_slot(data) implies r@[k].0@ == data[k].0@
                        && same_json(#[trigger] data[k].1, r@[k].1) by {
                        assert(r@[k] == copy[k]);
                    }
                }
            },
            None => {
                proof {
                    if has_key(data, "id"@) {
                        let j = choose|j: int| 0 <= j < data.len() && #[trigger] data[j].0@ == "id"@;
                        assert(copy[j].0@ == "id"@);
                    }
                    assert(id_slot(data) == data.len());
                }
                r.push(entry);
                proof {
                    assert forall|k: int| 0 <= k < data.len() && k != id_slot(data) implies r@[k].0@ == data[k].0@
                        && same_json(#[trigger] data[k].1, r@[k].1) by {
                        assert(r@[k] == copy[k]);
                    }
                }
            },
        }
        r
    }
}

impl Default for FlowState {
    fn default() -> (s: FlowState)
        ensures
            uuid_v4_text(s.id@),
            s.data@.len() == 0,
            s.wf(),
    {
        FlowState::new()
    }
}


/// A key some entry has has a first entry.
proof fn lemma_first_key_exists(s: Seq<(String, JsonValue)>, key: Seq<char>)
    requires
        has_key(s, key),
    ensures
        exists|i: int| first_key_at(s, key, i),
    decreases s.len(),
{
    if s[0].0@ == key {
        assert(first_key_at(s, key, 0));
    } else {
        let j = choose|j: int| 0 <= j < s.len() && #[trigger] s[j].0@ == key;
        assert(s.drop_first()[j - 1] == s[j]);
        lemma_first_key_exists(s.drop_first(), key);
        let i = choose|i: int| first_key_at(s.drop_first(), key, i);
        assert forall|k: int| 0 <= k < i + 1 implies #[trigger] s[k].0@ != key by {
            if k > 0 {
                assert(s[k] == s.drop_first()[k - 1]);
            }
        }
        assert(s[i + 1] == s.drop_first()[i]);
        assert(first_key_at(s, key, i + 1));
    }
}

/// Changing the first entry with a key changes what that key reads, and
/// no other key.
proof fn lemma_member_update(s: Seq<(String, JsonValue)>, i: int, e: (String, JsonValue), k: Seq<char>)
    requires
        first_key_at(s, e.0@, i),
    ensures
        member(s.update(i, e), k) == (if k == e.0@ {
            Some(e.1)
        } else {
            member(s, k)
        }),
    decreases s.len(),
{
    let u = s.update(i, e);
    if i == 0 {
        assert(u[0] == e);
        assert(u.drop_first() =~= s.drop_first());
    } else {
        assert(u[0] == s[0]);
        assert(s[0].0@ != e.0@);
        assert(u.drop_first() =~= s.drop_first().update(i - 1, e));
        assert forall|j: int| 0 <= j < i - 1 implies #[trigger] s.drop_first()[j].0@ != e.0@ by {
            assert(s.drop_first()[j] == s[j + 1]);
        }
        assert(s.drop_first()[i - 1] == s[i]);
        lemma_member_update(s.drop_first(), i - 1, e, k);
    }
}

/// Entries with no `key` lose nothing when `key`'s entries are removed.
proof fn lemma_without_absent_key(s: Seq<(String, JsonValue)>, key: Seq<char>)
    requires
        !has_key(s, key),
    ensures
        without_key(s, key) == s,
    decreases s.len(),
{
    if s.len() > 0 {
        assert(s.last() == s[s.len() - 1]);
        assert(!has_key(s.drop_last(), key)) by {
            assert forall|j: int| 0 <= j < s.drop_last().len() implies #[trigger] s.drop_last()[j].0@ != key by {
                assert(s.drop_last()[j] == s[j]);
            }
        }
        lemma_without_absent_key(s.drop_last(), key);
        assert(s.drop_last().push(s.last()) =~= s);
    }
}

/// Reading a key after setting it gives the value set; every other key
/// reads as before.
pub proof fn lemma_set_then_get(data: Seq<(String, JsonValue)>, key: String, value: JsonValue, other: Seq<char>)
    ensures
        member(put_state_entry(data, key, value), key@) == Some(value),
        other != key@ ==> member(put_state_entry(data, key, value), other) == member(data, other),
{
    let e = (key, value);
    if has_key(data, key@) {
        lemma_first_key_exists(data, key@);
        let i = choose|i: int| first_key_at(data, key@, i);
        lemma_member_update(data, i, e, key@);
        lemma_member_update(data, i, e, other);
    } else {
        lemma_member_has_key(data, key@);
        lemma_member_push(data, e, key@);
        lemma_member_push(data, e, other);
    }
}

/// A well-formed state with a non-empty id, written to its dictionary form
/// and read back as initial data, keeps its id and its data.
pub proof fn lemma_state_dict_roundtrip(s: FlowState, d: Seq<(String, JsonValue)>, t: FlowState)
    requires
        s.wf(),
        s.id@.len() > 0,
        dict_entries(s.data@, s.id@, d),
        state_read_from(d, t),
    ensures
        t.id@ == s.id@,
        same_members(s.data@, t.data@),
{
    let data = s.data@;
    let n = data.len() as int;
    assert(id_slot(data) == n);
    let p = d.drop_last();
    assert forall|i: int| #![trigger p[i]] 0 <= i < n implies data[i].0@ == p[i].0@ && same_json(data[i].1, p[i].1) by {
        assert(p[i] == d[i]);
        assert(i != id_slot(data));
        assert(same_json(data[i].1, d[i].1));
    }
    assert(!has_key(p, "id"@)) by {
        assert forall|j: int| 0 <= j < p.len() implies #[trigger] p[j].0@ != "id"@ by {
            assert(p[j] == d[j]);
        }
    }
    assert(d.last() == d[n]);
    assert(without_key(d, "id"@) == without_key(p, "id"@));
    lemma_without_absent_key(p, "id"@);
    lemma_same_members_from_entries(data, p);
    assert(p.push(d[n]) =~= d);
    lemma_member_has_key(p, "id"@);
    lemma_member_push(p, d[n], "id"@);
}

} // verus!
