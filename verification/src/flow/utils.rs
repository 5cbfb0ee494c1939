//! Flow condition helpers and flow-structure analysis.

use vstd::prelude::*;
use vstd::string::*;

use crate::text::{str_eq, str_lt, str_lt_spec};

verus! {

/// A flow condition: a method name or a compound ("AND"/"OR") condition.
#[derive(Debug)]
pub enum FlowCondition {
    /// A single method name.
    MethodName(String),
    /// A compound condition with type ("AND"/"OR") and sub-conditions.
    Compound { condition_type: String, conditions: Vec<FlowCondition> },
}

/// A simple flow condition: `(condition_type, method names)`.
#[derive(Debug, Clone)]
pub struct SimpleFlowCondition {
    /// "AND" or "OR".
    pub condition_type: String,
    /// The method names.
    pub methods: Vec<String>,
}

/// A listener condition: the simple tuple form or a nested condition tree.
#[derive(Debug)]
pub enum ListenerCondition {
    /// Simple tuple condition.
    Simple(SimpleFlowCondition),
    /// Nested condition tree.
    Nested(FlowCondition),
}

/// The character views of a list of strings.
pub open spec fn str_views(v: Seq<String>) -> Seq<Seq<char>> {
    v.map_values(|s: String| s@)
}

/// Every method name of a condition tree, left to right, keeping only the
/// names in `known` when it is given.
pub open spec fn methods_of(c: FlowCondition, known: Option<Seq<Seq<char>>>) -> Seq<Seq<char>>
    decreases c, 0nat,
{
    match c {
        FlowCondition::MethodName(n) => {
            if known is None || known->0.contains(n@) {
                seq![n@]
            } else {
                Seq::empty()
            }
        },
        FlowCondition::Compound { conditions, .. } => methods_of_list(conditions@, known),
    }
}

/// The method names of a list of conditions, in order.
pub open spec fn methods_of_list(cs: Seq<FlowCondition>, known: Option<Seq<Seq<char>>>) -> Seq<Seq<char>>
    decreases cs, cs.len(),
{
    if cs.len() == 0 {
        Seq::empty()
    } else {
        methods_of_list(cs.drop_last(), known) + methods_of(cs.last(), known)
    }
}


/// Whether `x` is one of the names in `v`.
pub fn contains_str(v: &Vec<String>, x: &str) -> (r: bool)
    ensures
        r == str_views(v@).contains(x@),
{
    let mut i: usize = 0;
    while i < v.len()
        invariant
            i <= v@.len(),
            forall|j: int| 0 <= j < i ==> v@[j]@ != x@,
        decreases v@.len() - i,
    {
        if str_eq(v[i].as_str(), x) {
            assert(str_views(v@)[i as int] == x@);
            return true;
        }
        i += 1;
    }
    assert forall|j: int| 0 <= j < str_views(v@).len() implies str_views(v@)[j] != x@ by {}
    false
}

/// A copy of a list of strings.
pub fn copy_strings(v: &Vec<String>) -> (r: Vec<String>)
    ensures
        r@ == v@,
{
    let mut r: Vec<String> = Vec::new();
    let mut i: usize = 0;
    while i < v.len()
        invariant
            i <= v@.len(),
            r@ == v@.take(i as int),
        decreases v@.len() - i,
    {
        r.push(v[i].clone());
        assert(r@ =~= v@.take(i + 1));
        i += 1;
    }
    assert(v@.take(i as int) =~= v@);
    r
}

/// The condition `MethodName(m)` for each of `methods`.
pub open spec fn method_items(methods: Seq<String>) -> Seq<FlowCondition> {
    methods.map_values(|m: String| FlowCondition::MethodName(m))
}

fn method_conditions(methods: Vec<String>) -> (r: Vec<FlowCondition>)
    ensures
        r@ == method_items(methods@),
{
    let mut r: Vec<FlowCondition> = Vec::new();
    let mut i: usize = 0;
    while i < methods.len()
        invariant
            i <= methods@.len(),
            r@ == method_items(methods@.take(i as int)),
        decreases methods@.len() - i,
    {
        r.push(FlowCondition::MethodName(methods[i].clone()));
        assert(method_items(methods@.take(i + 1)) =~= method_items(methods@.take(i as int)).push(
            FlowCondition::MethodName(methods@[i as int]),
        ));
        i += 1;
    }
    assert(methods@.take(i as int) =~= methods@);
    r
}

impl FlowCondition {
    /// Create an OR condition from method names.
    pub fn or_condition(methods: Vec<String>) -> (c: FlowCondition)
        ensures
            c matches FlowCondition::Compound { condition_type, conditions } && condition_type@ == "OR"@
                && conditions@ == method_items(methods@),
    {
        FlowCondition::Compound { condition_type: String::from_str("OR"), conditions: method_conditions(methods) }
    }

    /// Create an AND condition from method names.
    pub fn and_condition(methods: Vec<String>) -> (c: FlowCondition)
        ensures
            c matches FlowCondition::Compound { condition_type, conditions } && condition_type@ == "AND"@
                && conditions@ == method_items(methods@),
    {
        FlowCondition::Compound { condition_type: String::from_str("AND"), conditions: method_conditions(methods) }
    }

    /// A deep copy of this condition.
    pub fn copy(&self) -> (r: FlowCondition)
        ensures
            same_condition(r, *self),
        decreases self,
    {
        match self {
            FlowCondition::MethodName(n) => FlowCondition::MethodName(n.clone()),
            FlowCondition::Compound { condition_type, conditions } => {
                let mut cs: Vec<FlowCondition> = Vec::new();
                let mut i: usize = 0;
                while i < conditions.len()
                    invariant
                        *self matches FlowCondition::Compound { conditions: cc, .. } && cc == *conditions,
                        i <= conditions@.len(),
                        same_list(cs@, conditions@.take(i as int)),
                    decreases conditions@.len() - i,
                {
                    let c = conditions[i].copy();
                    let ghost before = cs@;
                    cs.push(c);
                    assert(cs@.drop_last() =~= before);
                    assert(conditions@.take(i + 1).drop_last() =~= conditions@.take(i as int));
                    i += 1;
                }
                assert(conditions@.take(i as int) =~= conditions@);
                FlowCondition::Compound { condition_type: condition_type.clone(), conditions: cs }
            },
        }
    }
}

/// Two condition trees with the same shape, types and method names.
pub open spec fn same_condition(a: FlowCondition, b: FlowCondition) -> bool
    decreases a, 0nat,
{
    match a {
        FlowCondition::MethodName(x) => b matches FlowCondition::MethodName(y) && x@ == y@,
        FlowCondition::Compound { condition_type: t, conditions: cs } => match b {
            FlowCondition::Compound { condition_type: u, conditions: ds } => t@ == u@ && same_list(cs@, ds@),
            FlowCondition::MethodName(_) => false,
        },
    }
}

/// Two lists of condition trees that agree element by element.
pub open spec fn same_list(xs: Seq<FlowCondition>, ys: Seq<FlowCondition>) -> bool
    decreases xs, xs.len(),
{
    if xs.len() == 0 {
        ys.len() == 0
    } else {
        &&& ys.len() == xs.len()
        &&& same_list(xs.drop_last(), ys.drop_last())
        &&& same_condition(xs.last(), ys.last())
    }
}

/// Check if a string is a valid flow method name: it is non-empty.
pub fn is_flow_method_name(s: &str) -> (r: bool)
    ensures
        r == (s@.len() > 0),
{
    !s.is_empty()
}

/// Normalize a condition to compound form: a bare method name becomes an
/// OR condition over that name; compound conditions are kept.
pub fn normalize_condition(condition: &FlowCondition) -> (r: FlowCondition)
    ensures
        match *condition {
            FlowCondition::MethodName(n) => r matches FlowCondition::Compound { condition_type, conditions }
                && condition_type@ == "OR"@ && conditions@ == seq![FlowCondition::MethodName(n)],
            FlowCondition::Compound { .. } => same_condition(r, *condition),
        },
{
    match condition {
        FlowCondition::MethodName(name) => {
            let mut cs: Vec<FlowCondition> = Vec::new();
            cs.push(FlowCondition::MethodName(name.clone()));
            assert(cs@ =~= seq![FlowCondition::MethodName(*name)]);
            FlowCondition::Compound { condition_type: String::from_str("OR"), conditions: cs }
        },
        FlowCondition::Compound { .. } => condition.copy(),
    }
}

/// The optional known-method filter as characters.
pub open spec fn known_view(known: Option<&Vec<String>>) -> Option<Seq<Seq<char>>> {
    match known {
        Some(v) => Some(str_views(v@)),
        None => None,
    }
}

/// Extract every method name of a condition tree, left to right, keeping
/// only the names in `known_methods` when it is given.
pub fn extract_all_methods_recursive(condition: &FlowCondition, known_methods: Option<&Vec<String>>) -> (r: Vec<String>)
    ensures
        str_views(r@) == methods_of(*condition, known_view(known_methods)),
    decreases condition,
{
    match condition {
        FlowCondition::MethodName(name) => {
            let keep = match known_methods {
                Some(k) => contains_str(k, name.as_str()),
                None => true,
            };
            let mut r: Vec<String> = Vec::new();
            if keep {
                r.push(name.clone());
                assert(str_views(r@) =~= seq![name@]);
            } else {
                assert(str_views(r@) =~= Seq::<Seq<char>>::empty());
            }
            r
        },
        FlowCondition::Compound { conditions, .. } => {
            let mut result: Vec<String> = Vec::new();
            let mut i: usize = 0;
            assert(str_views(result@) =~= methods_of_list(conditions@.take(0), known_view(known_methods)));
            while i < conditions.len()
                invariant
                    *condition matches FlowCondition::Compound { conditions: cc, .. } && cc == *conditions,
                    i <= conditions@.len(),
                    str_views(result@) == methods_of_list(conditions@.take(i as int), known_view(known_methods)),
                decreases conditions@.len() - i,
            {
                let sub = extract_all_methods_recursive(&conditions[i], known_methods);
                let ghost before = str_views(result@);
                let mut j: usize = 0;
                while j < sub.len()
                    invariant
                        j <= sub@.len(),
                        str_views(result@) == before + str_views(sub@).take(j as int),
                    decreases sub@.len() - j,
                {
                    let item: String = sub[j].clone();
                    assert(item == sub@[j as int]);
                    let ghost old_result = result@;
                    result.push(item);
                    assert(str_views(result@) =~= str_views(old_result).push(item@));
                    assert(str_views(sub@).take(j + 1) =~= str_views(sub@).take(j as int).push(item@));
                    assert(str_views(result@) =~= before + str_views(sub@).take(j + 1));
                    j += 1;
                }
                assert(str_views(sub@).take(j as int) =~= str_views(sub@));
                assert(conditions@.take(i + 1).drop_last() =~= conditions@.take(i as int));
                i += 1;
            }
            assert(conditions@.take(i as int) =~= conditions@);
            result
        },
    }
}

/// The methods that must all complete for a condition: the name itself, or
/// the direct method names of an AND condition (none for OR conditions).
pub open spec fn required_methods(c: FlowCondition) -> Seq<Seq<char>> {
    match c {
        FlowCondition::MethodName(n) => seq![n@],
        FlowCondition::Compound { condition_type, conditions } => if condition_type@ == "AND"@ {
            direct_names(conditions@)
        } else {
            Seq::empty()
        },
    }
}

/// The direct method names among a list of conditions, in order.
pub open spec fn direct_names(cs: Seq<FlowCondition>) -> Seq<Seq<char>>
    decreases cs.len(),
{
    if cs.len() == 0 {
        Seq::empty()
    } else {
        direct_names(cs.drop_last()) + match cs.last() {
            FlowCondition::MethodName(n) => seq![n@],
            _ => Seq::empty(),
        }
    }
}

/// Extract the method names that must all complete for a condition.
pub fn extract_all_methods(condition: &FlowCondition) -> (r: Vec<String>)
    ensures
        str_views(r@) == required_methods(*condition),
{
    match condition {
        FlowCondition::MethodName(name) => {
            let mut r: Vec<String> = Vec::new();
            r.push(name.clone());
            assert(str_views(r@) =~= seq![name@]);
            r
        },
        FlowCondition::Compound { condition_type, conditions } => {
            let mut r: Vec<String> = Vec::new();
            if str_eq(condition_type.as_str(), "AND") {
                let mut i: usize = 0;
                while i < conditions.len()
                    invariant
                        i <= conditions@.len(),
                        str_views(r@) == direct_names(conditions@.take(i as int)),
                    decreases conditions@.len() - i,
                {
                    assert(conditions@.take(i + 1).drop_last() =~= conditions@.take(i as int));
                    let ghost before = str_views(r@);
                    match &conditions[i] {
                        FlowCondition::MethodName(name) => {
                            r.push(name.clone());
                            assert(str_views(r@) =~= before.push(name@));
                        },
                        _ => {},
                    }
                    assert(str_views(r@) =~= direct_names(conditions@.take(i + 1)));
                    i += 1;
                }
                assert(conditions@.take(i as int) =~= conditions@);
            } else {
                assert(str_views(r@) =~= Seq::<Seq<char>>::empty());
            }
            r
        },
    }
}

/// The trigger methods of a listener condition.
pub open spec fn listener_methods(l: ListenerCondition) -> Seq<Seq<char>> {
    match l {
        ListenerCondition::Simple(s) => str_views(s.methods@),
        ListenerCondition::Nested(c) => methods_of(c, None),
    }
}

/// The condition type of a listener condition ("OR" for a bare name).
pub open spec fn listener_type(l: ListenerCondition) -> Seq<char> {
    match l {
        ListenerCondition::Simple(s) => s.condition_type@,
        ListenerCondition::Nested(c) => match c {
            FlowCondition::Compound { condition_type, .. } => condition_type@,
            FlowCondition::MethodName(_) => "OR"@,
        },
    }
}

/// Extract the trigger method names of a listener condition.
pub fn extract_methods_from_listener(condition: &ListenerCondition) -> (r: Vec<String>)
    ensures
        str_views(r@) == listener_methods(*condition),
{
    match condition {
        ListenerCondition::Simple(simple) => {
            let r = copy_strings(&simple.methods);
            r
        },
        ListenerCondition::Nested(nested) => extract_all_methods_recursive(nested, None),
    }
}

/// Get the condition type of a listener condition.
pub fn get_condition_type(condition: &ListenerCondition) -> (r: &str)
    ensures
        r@ == listener_type(*condition),
{
    match condition {
        ListenerCondition::Simple(simple) => simple.condition_type.as_str(),
        ListenerCondition::Nested(nested) => match nested {
            FlowCondition::Compound { condition_type, .. } => condition_type.as_str(),
            FlowCondition::MethodName(_) => "OR",
        },
    }
}

/// How often `x` occurs in `s`.
pub open spec fn occurrences(s: Seq<Seq<char>>, x: Seq<char>) -> nat
    decreases s.len(),
{
    if s.len() == 0 {
        0
    } else {
        occurrences(s.drop_last(), x) + if s.last() == x {
            1nat
        } else {
            0nat
        }
    }
}

/// The number of listener edges that leave method `m`: how often `m`
/// occurs among the trigger methods of all listeners.
pub open spec fn edge_count(listeners: Seq<(String, ListenerCondition)>, m: Seq<char>) -> nat
    decreases listeners.len(),
{
    if listeners.len() == 0 {
        0
    } else {
        edge_count(listeners.drop_last(), m) + occurrences(listener_methods(listeners.last().1), m)
    }
}

/// `n`, or `usize::MAX` where `n` does not fit.
pub open spec fn capped(n: nat) -> nat {
    if n > usize::MAX {
        usize::MAX as nat
    } else {
        n
    }
}

/// How often `x` occurs in `v` (at most `usize::MAX`).
fn count_occurrences(v: &Vec<String>, x: &str) -> (r: usize)
    ensures
        r == capped(occurrences(str_views(v@), x@)),
{
    let mut n: usize = 0;
    let mut i: usize = 0;
    while i < v.len()
        invariant
            i <= v@.len(),
            n == capped(occurrences(str_views(v@.take(i as int)), x@)),
        decreases v@.len() - i,
    {
        assert(str_views(v@.take(i + 1)).drop_last() =~= str_views(v@.take(i as int)));
        assert(str_views(v@.take(i + 1)).last() == v@[i as int]@);
        if str_eq(v[i].as_str(), x) && n < usize::MAX {
            n += 1;
        }
        i += 1;
    }
    assert(v@.take(i as int) =~= v@);
    n
}

/// Count the outgoing edges of each method: for every method, in order,
/// the number of times it occurs among the trigger methods of the
/// listeners (at most `usize::MAX`).
pub fn count_outgoing_edges(methods: &Vec<String>, listeners: &Vec<(String, ListenerCondition)>) -> (r: Vec<(String, usize)>)
    ensures
        r@.len() == methods@.len(),
        forall|i: int|
            0 <= i < methods@.len() ==> #[trigger] r@[i].0@ == methods@[i]@ && r@[i].1 == capped(
                edge_count(listeners@, methods@[i]@),
            ),
{
    let mut r: Vec<(String, usize)> = Vec::new();
    let mut i: usize = 0;
    while i < methods.len()
        invariant
            i <= methods@.len(),
            r@.len() == i,
            forall|j: int|
                0 <= j < i ==> #[trigger] r@[j].0@ == methods@[j]@ && r@[j].1 == capped(
                    edge_count(listeners@, methods@[j]@),
                ),
        decreases methods@.len() - i,
    {
        let m = methods[i].as_str();
        let mut total: usize = 0;
        let mut k: usize = 0;
        while k < listeners.len()
            invariant
                k <= listeners@.len(),
                total == capped(edge_count(listeners@.take(k as int), m@)),
            decreases listeners@.len() - k,
        {
            assert(listeners@.take(k + 1).drop_last() =~= listeners@.take(k as int));
            let triggers = extract_methods_from_listener(&listeners[k].1);
            let c = count_occurrences(&triggers, m);
            if total > usize::MAX - c {
                total = usize::MAX;
            } else {
                total = total + c;
            }
            k += 1;
        }
        assert(listeners@.take(k as int) =~= listeners@);
        r.push((methods[i].clone(), total));
        i += 1;
    }
    r
}

/// `i` is the first entry of `entries` whose key is `key`.
pub open spec fn first_key_at<T>(entries: Seq<(String, T)>, key: Seq<char>, i: int) -> bool {
    &&& 0 <= i < entries.len()
    &&& entries[i].0@ == key
    &&& forall|j: int| 0 <= j < i ==> #[trigger] entries[j].0@ != key
}

/// Whether `key` is one of the keys of `entries`.
pub open spec fn has_key<T>(entries: Seq<(String, T)>, key: Seq<char>) -> bool {
    exists|i: int| 0 <= i < entries.len() && #[trigger] entries[i].0@ == key
}

/// The index of the first entry with the given key, if there is one.
pub(crate) fn find_key<T>(entries: &Vec<(String, T)>, key: &str) -> (r: Option<usize>)
    ensures
        match r {
            Some(i) => first_key_at(entries@, key@, i as int),
            None => !has_key(entries@, key@),
        },
{
    let mut i: usize = 0;
    while i < entries.len()
        invariant
            i <= entries@.len(),
            forall|j: int| 0 <= j < i ==> #[trigger] entries@[j].0@ != key@,
        decreases entries@.len() - i,
    {
        if str_eq(entries[i].0.as_str(), key) {
            return Some(i);
        }
        i += 1;
    }
    None
}

/// Whether `ancestor_candidate` is among the ancestors recorded for `node`
/// (the list under the first entry keyed `node`; false without one).
pub fn is_ancestor(node: &str, ancestor_candidate: &str, ancestors: &Vec<(String, Vec<String>)>) -> (r: bool)
    ensures
        r == exists|i: int|
            first_key_at(ancestors@, node@, i) && #[trigger] str_views(ancestors@[i].1@).contains(
                ancestor_candidate@,
            ),
{
    match find_key(ancestors, node) {
        Some(i) => {
            let r = contains_str(&ancestors[i].1, ancestor_candidate);
            assert forall|j: int| #[trigger] first_key_at(ancestors@, node@, j) implies j == i by {
                if j < i {
                    assert(ancestors@[j].0@ != node@);
                } else if j > i {
                    assert(ancestors@[i as int].0@ != node@);
                }
            }
            r
        },
        None => false,
    }
}

/// How many of the names in `s` order strictly before `x`.
pub open spec fn count_before(s: Seq<Seq<char>>, x: Seq<char>) -> nat
    decreases s.len(),
{
    if s.len() == 0 {
        0
    } else {
        count_before(s.drop_last(), x) + if str_lt_spec(s.last(), x) {
            1nat
        } else {
            0nat
        }
    }
}

/// The position of `child` in the sorted children of `parent`: the number
/// of its siblings that order before it. `None` when `parent` has no
/// entry or `child` is not among its children.
pub fn get_child_index(parent: &str, child: &str, parent_children: &Vec<(String, Vec<String>)>) -> (r: Option<usize>)
    ensures
        !has_key(parent_children@, parent@) ==> r is None,
        forall|i: int|
            #[trigger] first_key_at(parent_children@, parent@, i) ==> r == if str_views(
                parent_children@[i].1@,
            ).contains(child@) {
                Some(count_before(str_views(parent_children@[i].1@), child@) as usize)
            } else {
                None
            },
{
    match find_key(parent_children, parent) {
        Some(i) => {
            proof {
                assert forall|j: int| #[trigger] first_key_at(parent_children@, parent@, j) implies j == i by {
                    if j < i {
                        assert(parent_children@[j].0@ != parent@);
                    } else if j > i {
                        assert(parent_children@[i as int].0@ != parent@);
                    }
                }
            }
            let children = &parent_children[i].1;
            if !contains_str(children, child) {
                return None;
            }
            let mut n: usize = 0;
            let mut k: usize = 0;
            while k < children.len()
                invariant
                    k <= children@.len(),
                    n <= k,
                    n == count_before(str_views(children@.take(k as int)), child@),
                decreases children@.len() - k,
            {
                assert(str_views(children@.take(k + 1)).drop_last() =~= str_views(children@.take(k as int)));
                assert(str_views(children@.take(k + 1)).last() == children@[k as int]@);
                if str_lt(children[k].as_str(), child) {
                    n += 1;
                }
                k += 1;
            }
            assert(children@.take(k as int) =~= children@);
            Some(n)
        },
        None => None,
    }
}

/// Whether the entry of `parent` in `m` lists `child`.
pub open spec fn has_child(m: Seq<(String, Vec<String>)>, parent: Seq<char>, child: Seq<char>) -> bool {
    exists|i: int| 0 <= i < m.len() && #[trigger] m[i].0@ == parent && str_views(m[i].1@).contains(child)
}

/// No string repeats in the list.
pub open spec fn distinct_strs(v: Seq<String>) -> bool {
    forall|a: int, b: int| 0 <= a < b < v.len() ==> #[trigger] v[a]@ != #[trigger] v[b]@
}

/// A parent-children map: each parent once, each child once under it, and
/// every parent with at least one child.
pub open spec fn children_wf(m: Seq<(String, Vec<String>)>) -> bool {
    &&& set_map_wf(m)
    &&& all_nonempty(m)
}

/// A map from names to sets of names kept as lists: each key once, and each
/// name once in a list.
pub open spec fn set_map_wf(m: Seq<(String, Vec<String>)>) -> bool {
    &&& forall|a: int, b: int| 0 <= a < b < m.len() ==> #[trigger] m[a].0@ != #[trigger] m[b].0@
    &&& forall|i: int| 0 <= i < m.len() ==> distinct_strs(#[trigger] m[i].1@)
}

/// Every list of the map has an element.
pub open spec fn all_nonempty(m: Seq<(String, Vec<String>)>) -> bool {
    forall|i: int| 0 <= i < m.len() ==> (#[trigger] m[i].1@).len() > 0
}

/// The `(parent, child)` pairs a listener named `name` gives: one per
/// trigger method.
pub open spec fn trigger_pairs(name: Seq<char>, triggers: Seq<Seq<char>>) -> Seq<(Seq<char>, Seq<char>)> {
    triggers.map_values(|t: Seq<char>| (t, name))
}

/// The `(trigger, listener)` pairs of all listeners, in order.
pub open spec fn listener_pairs(ls: Seq<(String, ListenerCondition)>) -> Seq<(Seq<char>, Seq<char>)>
    decreases ls.len(),
{
    if ls.len() == 0 {
        Seq::empty()
    } else {
        listener_pairs(ls.drop_last()) + trigger_pairs(ls.last().0@, listener_methods(ls.last().1))
    }
}

/// The `(router, listener)` pairs for one router path: every listener that
/// the path triggers, in order.
pub open spec fn path_pairs(router: Seq<char>, path: Seq<char>, ls: Seq<(String, ListenerCondition)>) -> Seq<(Seq<char>, Seq<char>)>
    decreases ls.len(),
{
    if ls.len() == 0 {
        Seq::empty()
    } else {
        path_pairs(router, path, ls.drop_last()) + if listener_methods(ls.last().1).contains(path) {
            seq![(router, ls.last().0@)]
        } else {
            Seq::empty()
        }
    }
}

/// The `(router, listener)` pairs for all paths of one router.
pub open spec fn paths_pairs(router: Seq<char>, paths: Seq<Seq<char>>, ls: Seq<(String, ListenerCondition)>) -> Seq<(Seq<char>, Seq<char>)>
    decreases paths.len(),
{
    if paths.len() == 0 {
        Seq::empty()
    } else {
        paths_pairs(router, paths.drop_last(), ls) + path_pairs(router, paths.last(), ls)
    }
}

/// The `(router, listener)` pairs of all routers.
pub open spec fn router_pairs(rps: Seq<(String, Vec<String>)>, ls: Seq<(String, ListenerCondition)>) -> Seq<(Seq<char>, Seq<char>)>
    decreases rps.len(),
{
    if rps.len() == 0 {
        Seq::empty()
    } else {
        router_pairs(rps.drop_last(), ls) + paths_pairs(rps.last().0@, str_views(rps.last().1@), ls)
    }
}

/// The pairs of `m` are exactly those listed in `done`.
pub open spec fn pairs_match(m: Seq<(String, Vec<String>)>, done: Seq<(Seq<char>, Seq<char>)>) -> bool {
    forall|p: Seq<char>, c: Seq<char>| #[trigger] has_child(m, p, c) <==> done.contains((p, c))
}

/// Record `child` under `parent` (adding the parent when it is new).
pub(crate) fn add_child(m: &mut Vec<(String, Vec<String>)>, parent: &str, child: &str)
    requires
        set_map_wf(old(m)@),
    ensures
        set_map_wf(final(m)@),
        all_nonempty(old(m)@) ==> all_nonempty(final(m)@),
        forall|p: Seq<char>, c: Seq<char>| #[trigger] has_child(final(m)@, p, c) <==> (has_child(old(m)@, p, c) || (p
            == parent@ && c == child@)),
        forall|k: Seq<char>| #[trigger] has_key(final(m)@, k) <==> (has_key(old(m)@, k) || k == parent@),
{
    let mut i: usize = 0;
    while i < m.len()
        invariant
            *m == *old(m),
            set_map_wf(old(m)@),
            i <= m@.len(),
            forall|j: int| 0 <= j < i ==> #[trigger] m@[j].0@ != parent@,
        decreases m@.len() - i,
    {
        if str_eq(m[i].0.as_str(), parent) {
            let ghost old_m = m@;
            if !contains_str(&m[i].1, child) {
                let mut ch = copy_strings(&m[i].1);
                let ghost old_ch = ch@;
                ch.push(child.to_string());
                let k = m[i].0.clone();
                m.set(i, (k, ch));
                assert(str_views(m@[i as int].1@) =~= str_views(old_ch).push(child@));
                assert(distinct_strs(m@[i as int].1@)) by {
                    assert forall|a: int, b: int| 0 <= a < b < m@[i as int].1@.len() implies #[trigger] m@[i as int].1@[a]@
                        != #[trigger] m@[i as int].1@[b]@ by {
                        if b == old_ch.len() {
                            assert(str_views(old_ch)[a] == old_ch[a]@);
                        } else {
                            assert(old_m[i as int].1@[a]@ != old_m[i as int].1@[b]@);
                        }
                    }
                }
                assert forall|p: Seq<char>, c: Seq<char>| #[trigger] has_child(m@, p, c) <==> (has_child(old_m, p, c) || (p
                    == parent@ && c == child@)) by {
                    if has_child(m@, p, c) {
                        let j = choose|j: int| 0 <= j < m@.len() && #[trigger] m@[j].0@ == p && str_views(m@[j].1@).contains(c);
                        if j != i {
                            assert(old_m[j].0@ == p && str_views(old_m[j].1@).contains(c));
                        } else if c != child@ {
                            let q = choose|q: int| 0 <= q < str_views(m@[j].1@).len() && str_views(m@[j].1@)[q] == c;
                            assert(str_views(old_m[j].1@)[q] == c);
                            assert(old_m[j].0@ == p);
                        }
                    }
                    if has_child(old_m, p, c) {
                        let j = choose|j: int| 0 <= j < old_m.len() && #[trigger] old_m[j].0@ == p && str_views(old_m[j].1@).contains(c);
                        assert(m@[j].0@ == p);
                        if j == i {
                            let q = choose|q: int| 0 <= q < str_views(old_m[j].1@).len() && str_views(old_m[j].1@)[q] == c;
                            assert(str_views(m@[j].1@)[q] == c);
                        }
                        assert(str_views(m@[j].1@).contains(c));
                    }
                    if p == parent@ && c == child@ {
                        assert(m@[i as int].0@ == p);
                        assert(str_views(m@[i as int].1@)[old_ch.len() as int] == c);
                    }
                }
            } else {
                assert forall|p: Seq<char>, c: Seq<char>| #[trigger] has_child(m@, p, c) <==> (has_child(old_m, p, c) || (p
                    == parent@ && c == child@)) by {
                    if p == parent@ && c == child@ {
                        assert(m@[i as int].0@ == p);
                    }
                }
            }
            assert forall|j: int| 0 <= j < m@.len() implies #[trigger] m@[j].0@ == old_m[j].0@ by {}
            assert forall|k: Seq<char>| #[trigger] has_key(m@, k) <==> (has_key(old_m, k) || k == parent@) by {
                if has_key(m@, k) {
                    let j = choose|j: int| 0 <= j < m@.len() && #[trigger] m@[j].0@ == k;
                    assert(old_m[j].0@ == k);
                }
                if has_key(old_m, k) {
                    let j = choose|j: int| 0 <= j < old_m.len() && #[trigger] old_m[j].0@ == k;
                    assert(m@[j].0@ == k);
                }
                if k == parent@ {
                    assert(m@[i as int].0@ == k);
                }
            }
            return;
        }
        i += 1;
    }
    let ghost old_m = m@;
    let mut ch: Vec<String> = Vec::new();
    ch.push(child.to_string());
    m.push((parent.to_string(), ch));
    assert(str_views(m@.last().1@) =~= seq![child@]);
    assert forall|p: Seq<char>, c: Seq<char>| #[trigger] has_child(m@, p, c) <==> (has_child(old_m, p, c) || (p == parent@
        && c == child@)) by {
        if has_child(m@, p, c) {
            let j = choose|j: int| 0 <= j < m@.len() && #[trigger] m@[j].0@ == p && str_views(m@[j].1@).contains(c);
            if j < old_m.len() {
                assert(old_m[j].0@ == p && str_views(old_m[j].1@).contains(c));
            } else {
                assert(str_views(m@[j].1@)[0] == child@);
            }
        }
        if has_child(old_m, p, c) {
            let j = choose|j: int| 0 <= j < old_m.len() && #[trigger] old_m[j].0@ == p && str_views(old_m[j].1@).contains(c);
            assert(m@[j].0@ == p && str_views(m@[j].1@).contains(c));
        }
        if p == parent@ && c == child@ {
            assert(m@[old_m.len() as int].0@ == p);
            assert(str_views(m@[old_m.len() as int].1@)[0] == c);
        }
    }
    assert(set_map_wf(m@)) by {
        assert forall|a: int, b: int| 0 <= a < b < m@.len() implies #[trigger] m@[a].0@ != #[trigger] m@[b].0@ by {
            if b == old_m.len() {
                assert(old_m[a].0@ != parent@);
            }
        }
    }
    assert forall|k: Seq<char>| #[trigger] has_key(m@, k) <==> (has_key(old_m, k) || k == parent@) by {
        if has_key(m@, k) {
            let j = choose|j: int| 0 <= j < m@.len() && #[trigger] m@[j].0@ == k;
            if j < old_m.len() {
                assert(old_m[j].0@ == k);
            }
        }
        if has_key(old_m, k) {
            let j = choose|j: int| 0 <= j < old_m.len() && #[trigger] old_m[j].0@ == k;
            assert(m@[j].0@ == k);
        }
        if k == parent@ {
            assert(m@[old_m.len() as int].0@ == k);
        }
    }
}

proof fn lemma_pairs_push(
    m_old: Seq<(String, Vec<String>)>,
    m_new: Seq<(String, Vec<String>)>,
    done: Seq<(Seq<char>, Seq<char>)>,
    parent: Seq<char>,
    child: Seq<char>,
)
    requires
        pairs_match(m_old, done),
        forall|p: Seq<char>, c: Seq<char>| #[trigger] has_child(m_new, p, c) <==> (has_child(m_old, p, c) || (p
            == parent && c == child)),
    ensures
        pairs_match(m_new, done.push((parent, child))),
{
    assert forall|p: Seq<char>, c: Seq<char>| #[trigger] has_child(m_new, p, c) <==> done.push((parent, child)).contains(
        (p, c),
    ) by {
        if done.push((parent, child)).contains((p, c)) {
            let j = choose|j: int| 0 <= j < done.push((parent, child)).len() && done.push((parent, child))[j] == (p, c);
            if j < done.len() {
                assert(done[j] == (p, c));
                assert(done.contains((p, c)));
            }
        }
        if done.contains((p, c)) {
            let j = choose|j: int| 0 <= j < done.len() && done[j] == (p, c);
            assert(done.push((parent, child))[j] == (p, c));
        }
        if p == parent && c == child {
            assert(done.push((parent, child))[done.len() as int] == (p, c));
        }
    }
}

/// Map each parent to its children: every trigger method of a listener is
/// a parent of that listener, and every router is a parent of the
/// listeners its paths trigger. Each parent and each child under it appears
/// once.
pub fn build_parent_children_dict(listeners: &Vec<(String, ListenerCondition)>, router_paths: &Vec<(String, Vec<String>)>) -> (r: Vec<(String, Vec<String>)>)
    ensures
        children_wf(r@),
        pairs_match(r@, listener_pairs(listeners@) + router_pairs(router_paths@, listeners@)),
{
    let mut m: Vec<(String, Vec<String>)> = Vec::new();
    let ls = listeners;
    let mut k: usize = 0;
    while k < ls.len()
        invariant
            k <= ls@.len(),
            children_wf(m@),
            pairs_match(m@, listener_pairs(ls@.take(k as int))),
        decreases ls@.len() - k,
    {
        let trig = extract_methods_from_listener(&ls[k].1);
        let ghost name = ls@[k as int].0@;
        let ghost base = listener_pairs(ls@.take(k as int));
        let mut t: usize = 0;
        assert(base + trigger_pairs(name, str_views(trig@).take(0)) =~= base);
        while t < trig.len()
            invariant
                t <= trig@.len(),
                name == ls@[k as int].0@,
                k < ls@.len(),
                children_wf(m@),
                pairs_match(m@, base + trigger_pairs(name, str_views(trig@).take(t as int))),
            decreases trig@.len() - t,
        {
            let ghost m_old = m@;
            add_child(&mut m, trig[t].as_str(), ls[k].0.as_str());
            proof {
                lemma_pairs_push(m_old, m@, base + trigger_pairs(name, str_views(trig@).take(t as int)), trig@[t as int]@, name);
                assert(base + trigger_pairs(name, str_views(trig@).take(t + 1)) =~= (base + trigger_pairs(
                    name,
                    str_views(trig@).take(t as int),
                )).push((trig@[t as int]@, name)));
            }
            t += 1;
        }
        assert(str_views(trig@).take(t as int) =~= str_views(trig@));
        assert(ls@.take(k + 1).drop_last() =~= ls@.take(k as int));
        k += 1;
    }
    assert(ls@.take(k as int) =~= ls@);
    let ghost base = listener_pairs(ls@);
    let rps = router_paths;
    let mut r: usize = 0;
    assert(base + router_pairs(rps@.take(0), ls@) =~= base);
    while r < rps.len()
        invariant
            r <= rps@.len(),
            children_wf(m@),
            base == listener_pairs(ls@),
            pairs_match(m@, base + router_pairs(rps@.take(r as int), ls@)),
        decreases rps@.len() - r,
    {
        let ghost router = rps@[r as int].0@;
        let ghost paths = str_views(rps@[r as int].1@);
        let ghost done_r = base + router_pairs(rps@.take(r as int), ls@);
        let mut q: usize = 0;
        assert(done_r + paths_pairs(router, paths.take(0), ls@) =~= done_r);
        while q < rps[r].1.len()
            invariant
                r < rps@.len(),
                q <= rps@[r as int].1@.len(),
                router == rps@[r as int].0@,
                paths == str_views(rps@[r as int].1@),
                children_wf(m@),
                pairs_match(m@, done_r + paths_pairs(router, paths.take(q as int), ls@)),
            decreases rps@[r as int].1@.len() - q,
        {
            let path = rps[r].1[q].as_str();
            let ghost done_q = done_r + paths_pairs(router, paths.take(q as int), ls@);
            let mut j: usize = 0;
            assert(done_q + path_pairs(router, path@, ls@.take(0)) =~= done_q);
            while j < ls.len()
                invariant
                    r < rps@.len(),
                    q < rps@[r as int].1@.len(),
                    path@ == paths[q as int],
                    router == rps@[r as int].0@,
                    j <= ls@.len(),
                    children_wf(m@),
                    pairs_match(m@, done_q + path_pairs(router, path@, ls@.take(j as int))),
                decreases ls@.len() - j,
            {
                let trig = extract_methods_from_listener(&ls[j].1);
                assert(ls@.take(j + 1).drop_last() =~= ls@.take(j as int));
                assert(ls@.take(j + 1).last() == ls@[j as int]);
                if contains_str(&trig, path) {
                    let ghost m_old = m@;
                    add_child(&mut m, rps[r].0.as_str(), ls[j].0.as_str());
                    proof {
                        lemma_pairs_push(m_old, m@, done_q + path_pairs(router, path@, ls@.take(j as int)), router, ls@[j as int].0@);
                        assert(done_q + path_pairs(router, path@, ls@.take(j + 1)) =~= (done_q + path_pairs(
                            router,
                            path@,
                            ls@.take(j as int),
                        )).push((router, ls@[j as int].0@)));
                    }
                } else {
                    assert(done_q + path_pairs(router, path@, ls@.take(j + 1)) =~= done_q + path_pairs(
                        router,
                        path@,
                        ls@.take(j as int),
                    ));
                }
                j += 1;
            }
            assert(ls@.take(j as int) =~= ls@);
            assert(paths.take(q + 1).drop_last() =~= paths.take(q as int));
            assert(paths.take(q + 1).last() == path@);
            assert(done_r + paths_pairs(router, paths.take(q + 1), ls@) =~= done_q + path_pairs(router, path@, ls@));
            q += 1;
        }
        assert(paths.take(q as int) =~= paths);
        assert(rps@.take(r + 1).drop_last() =~= rps@.take(r as int));
        assert(base + router_pairs(rps@.take(r + 1), ls@) =~= done_r + paths_pairs(router, paths, ls@));
        r += 1;
    }
    assert(rps@.take(r as int) =~= rps@);
    m
}

/// A JSON value as the flow-condition helpers read it (numbers kept as
/// their text; object members in order, each key once).
#[derive(Debug)]
pub enum JsonValue {
    /// `null`.
    Null,
    /// A boolean.
    Bool(bool),
    /// A number, as written.
    Number(String),
    /// A string.
    Str(String),
    /// An array.
    Array(Vec<JsonValue>),
    /// An object: its members in order.
    Object(Vec<(String, JsonValue)>),
}

/// The member of an object keyed `key` (the first one), if any.
pub open spec fn member(members: Seq<(String, JsonValue)>, key: Seq<char>) -> Option<JsonValue>
    decreases members.len(),
{
    if members.len() == 0 {
        None
    } else if members[0].0@ == key {
        Some(members[0].1)
    } else {
        member(members.drop_first(), key)
    }
}

/// The member keyed `key`, if any.
pub(crate) fn get_member<'a>(members: &'a Vec<(String, JsonValue)>, key: &str) -> (r: Option<&'a JsonValue>)
    ensures
        match r {
            Some(v) => member(members@, key@) == Some(*v),
            None => member(members@, key@) is None,
        },
{
    let mut i: usize = 0;
    assert(members@.skip(0) =~= members@);
    while i < members.len()
        invariant
            i <= members@.len(),
            member(members@, key@) == member(members@.skip(i as int), key@),
        decreases members@.len() - i,
    {
        assert(members@.skip(i as int)[0] == members@[i as int]);
        if str_eq(members[i].0.as_str(), key) {
            return Some(&members[i].1);
        }
        assert(members@.skip(i as int).drop_first() =~= members@.skip(i + 1));
        i += 1;
    }
    None
}

/// `a` and `b` are the same JSON value: equal booleans, number texts and
/// strings, arrays of the same values, objects with the same keys and
/// member values in the same order.
pub open spec fn same_json(a: JsonValue, b: JsonValue) -> bool
    decreases a, 0nat,
{
    match a {
        JsonValue::Null => b is Null,
        JsonValue::Bool(x) => b matches JsonValue::Bool(y) && x == y,
        JsonValue::Number(x) => b matches JsonValue::Number(y) && x@ == y@,
        JsonValue::Str(x) => b matches JsonValue::Str(y) && x@ == y@,
        JsonValue::Array(xs) => b matches JsonValue::Array(ys) && {
            proof {
                assert(decreases_to!(a => xs));
                assert(decreases_to!(xs => xs@));
            }
            same_json_list(xs@, ys@)
        },
        JsonValue::Object(ms) => b matches JsonValue::Object(ns) && {
            proof {
                assert(decreases_to!(a => ms));
                assert(decreases_to!(ms => ms@));
            }
            same_members(ms@, ns@)
        },
    }
}

/// `xs` and `ys` hold the same JSON values, in order.
pub open spec fn same_json_list(xs: Seq<JsonValue>, ys: Seq<JsonValue>) -> bool
    decreases xs, xs.len(),
{
    &&& xs.len() == ys.len()
    &&& xs.len() > 0 ==> same_json_list(xs.drop_last(), ys.drop_last()) && same_json(xs.last(), ys.last())
}

/// `ms` and `ns` have the same keys with the same values, in order.
pub open spec fn same_members(ms: Seq<(String, JsonValue)>, ns: Seq<(String, JsonValue)>) -> bool
    decreases ms, ms.len(),
{
    &&& ms.len() == ns.len()
    &&& ms.len() > 0 ==> {
        &&& same_members(ms.drop_last(), ns.drop_last())
        &&& ms.last().0@ == ns.last().0@
        &&& {
            proof {
                assert(decreases_to!(ms => ms.last()));
                assert(decreases_to!(ms.last() => ms.last().1));
            }
            same_json(ms.last().1, ns.last().1)
        }
    }
}

/// The first `key` member of `s` followed by `e`: the first one of `s`, or
/// else `e`'s value when `e` has the key.
pub proof fn lemma_member_push(s: Seq<(String, JsonValue)>, e: (String, JsonValue), key: Seq<char>)
    ensures
        member(s.push(e), key) == (match member(s, key) {
            Some(v) => Some(v),
            None => if e.0@ == key {
                Some(e.1)
            } else {
                None
            },
        }),
    decreases s.len(),
{
    if s.len() > 0 {
        assert(s.push(e)[0] == s[0]);
        assert(s.push(e).drop_first() =~= s.drop_first().push(e));
        lemma_member_push(s.drop_first(), e, key);
    } else {
        assert(s.push(e)[0] == e);
        assert(s.push(e).drop_first() =~= s);
    }
}

/// A key has a member exactly when some entry has the key.
pub proof fn lemma_member_has_key(s: Seq<(String, JsonValue)>, key: Seq<char>)
    ensures
        member(s, key) is Some <==> has_key(s, key),
    decreases s.len(),
{
    if s.len() > 0 {
        lemma_member_has_key(s.drop_first(), key);
        if has_key(s, key) && s[0].0@ != key {
            let i = choose|i: int| 0 <= i < s.len() && #[trigger] s[i].0@ == key;
            assert(s.drop_first()[i - 1] == s[i]);
        }
        if has_key(s.drop_first(), key) {
            let i = choose|i: int| 0 <= i < s.drop_first().len() && #[trigger] s.drop_first()[i].0@ == key;
            assert(s[i + 1] == s.drop_first()[i]);
        }
    }
}

/// Members that are the same agree entry by entry.
pub proof fn lemma_same_members_at(ms: Seq<(String, JsonValue)>, ns: Seq<(String, JsonValue)>, i: int)
    requires
        same_members(ms, ns),
        0 <= i < ms.len(),
    ensures
        ns.len() == ms.len(),
        ms[i].0@ == ns[i].0@,
        same_json(ms[i].1, ns[i].1),
    decreases ms.len(),
{
    if i < ms.len() - 1 {
        lemma_same_members_at(ms.drop_last(), ns.drop_last(), i);
    }
}

/// Entries that agree one by one are the same members.
pub proof fn lemma_same_members_from_entries(ms: Seq<(String, JsonValue)>, ns: Seq<(String, JsonValue)>)
    requires
        ms.len() == ns.len(),
        forall|i: int| #![trigger ms[i]] 0 <= i < ms.len() ==> ms[i].0@ == ns[i].0@ && same_json(ms[i].1, ns[i].1),
    ensures
        same_members(ms, ns),
    decreases ms.len(),
{
    if ms.len() > 0 {
        let a = ms.drop_last();
        let b = ns.drop_last();
        assert forall|i: int| #![trigger a[i]] 0 <= i < a.len() implies a[i].0@ == b[i].0@ && same_json(a[i].1, b[i].1) by {
            assert(a[i] == ms[i] && b[i] == ns[i]);
        }
        lemma_same_members_from_entries(a, b);
        let n = ms.len() - 1;
        assert(ms.last() == ms[n] && ns.last() == ns[n]);
    }
}

/// Sameness of JSON values chains: a value the same as one the same as a
/// third is the same as the third.
pub proof fn lemma_same_json_trans(a: JsonValue, b: JsonValue, c: JsonValue)
    requires
        same_json(a, b),
        same_json(b, c),
    ensures
        same_json(a, c),
    decreases a, 0nat,
{
    match a {
        JsonValue::Array(xs) => {
            let ys = b->Array_0;
            let zs = c->Array_0;
            assert(decreases_to!(a => xs));
            assert(decreases_to!(xs => xs@));
            lemma_same_json_list_trans(xs@, ys@, zs@);
        },
        JsonValue::Object(ms) => {
            let ns = b->Object_0;
            let ps = c->Object_0;
            assert(decreases_to!(a => ms));
            assert(decreases_to!(ms => ms@));
            lemma_same_members_trans(ms@, ns@, ps@);
        },
        _ => {},
    }
}

/// Sameness of JSON lists chains.
pub proof fn lemma_same_json_list_trans(xs: Seq<JsonValue>, ys: Seq<JsonValue>, zs: Seq<JsonValue>)
    requires
        same_json_list(xs, ys),
        same_json_list(ys, zs),
    ensures
        same_json_list(xs, zs),
    decreases xs, xs.len(),
{
    if xs.len() > 0 {
        lemma_same_json_list_trans(xs.drop_last(), ys.drop_last(), zs.drop_last());
        lemma_same_json_trans(xs.last(), ys.last(), zs.last());
    }
}

/// Sameness of object members chains.
pub proof fn lemma_same_members_trans(
    ms: Seq<(String, JsonValue)>,
    ns: Seq<(String, JsonValue)>,
    ps: Seq<(String, JsonValue)>,
)
    requires
        same_members(ms, ns),
        same_members(ns, ps),
    ensures
        same_members(ms, ps),
    decreases ms, ms.len(),
{
    if ms.len() > 0 {
        lemma_same_members_trans(ms.drop_last(), ns.drop_last(), ps.drop_last());
        assert(decreases_to!(ms => ms.last()));
        assert(decreases_to!(ms.last() => ms.last().1));
        lemma_same_json_trans(ms.last().1, ns.last().1, ps.last().1);
    }
}

/// A copy of a JSON value.
pub fn copy_json(v: &JsonValue) -> (r: JsonValue)
    ensures
        same_json(*v, r),
    decreases v,
{
    match v {
        JsonValue::Null => JsonValue::Null,
        JsonValue::Bool(b) => JsonValue::Bool(*b),
        JsonValue::Number(n) => JsonValue::Number(n.clone()),
        JsonValue::Str(s) => JsonValue::Str(s.clone()),
        JsonValue::Array(xs) => {
            let mut out: Vec<JsonValue> = Vec::new();
            let mut i: usize = 0;
            while i < xs.len()
                invariant
                    i <= xs@.len(),
                    *v matches JsonValue::Array(a) && a == *xs,
                    same_json_list(xs@.take(i as int), out@),
                decreases xs@.len() - i,
            {
                proof {
                    assert(decreases_to!(*v => *xs));
                    assert(decreases_to!(*xs => xs@));
                }
                let c = copy_json(&xs[i]);
                let ghost before = out@;
                out.push(c);
                assert(xs@.take(i + 1).drop_last() =~= xs@.take(i as int));
                assert(out@.drop_last() =~= before);
                i += 1;
            }
            assert(xs@.take(i as int) =~= xs@);
            JsonValue::Array(out)
        },
        JsonValue::Object(ms) => JsonValue::Object(copy_members(ms)),
    }
}

/// A copy of an object's members.
pub fn copy_members(ms: &Vec<(String, JsonValue)>) -> (r: Vec<(String, JsonValue)>)
    ensures
        same_members(ms@, r@),
    decreases ms@, 1nat,
{
    let mut out: Vec<(String, JsonValue)> = Vec::new();
    let mut i: usize = 0;
    while i < ms.len()
        invariant
            i <= ms@.len(),
            same_members(ms@.take(i as int), out@),
        decreases ms@.len() - i,
    {
        proof {
            assert(decreases_to!(ms@ => ms@[i as int]));
            assert(decreases_to!(ms@[i as int] => ms@[i as int].1));
        }
        let c = copy_json(&ms[i].1);
        let ghost before = out@;
        out.push((ms[i].0.clone(), c));
        assert(ms@.take(i + 1).drop_last() =~= ms@.take(i as int));
        assert(out@.drop_last() =~= before);
        i += 1;
    }
    assert(ms@.take(i as int) =~= ms@);
    out
}

/// Whether a JSON value is a flow condition object: an object whose
/// `"type"` is `"AND"` or `"OR"`, whose `"conditions"`, if present, is an
/// array, and whose `"methods"`, if present, is an array of strings.
pub open spec fn is_flow_condition_dict_spec(v: JsonValue) -> bool {
    match v {
        JsonValue::Object(members) => {
            &&& (member(members@, "type"@) matches Some(JsonValue::Str(t)) && (t@ == "AND"@ || t@ == "OR"@))
            &&& (member(members@, "conditions"@) matches Some(c) ==> c is Array)
            &&& (member(members@, "methods"@) matches Some(m) ==> (m matches JsonValue::Array(items) && forall|i: int|
                0 <= i < items@.len() ==> #[trigger] items@[i] is Str))
        },
        _ => false,
    }
}

/// Whether a JSON value is a flow condition object (see
/// `is_flow_condition_dict_spec`).
pub fn is_flow_condition_dict(value: &JsonValue) -> (r: bool)
    ensures
        r == is_flow_condition_dict_spec(*value),
{
    match value {
        JsonValue::Object(members) => {
            let type_ok = match get_member(members, "type") {
                Some(JsonValue::Str(t)) => str_eq(t.as_str(), "AND") || str_eq(t.as_str(), "OR"),
                _ => false,
            };
            if !type_ok {
                return false;
            }
            match get_member(members, "conditions") {
                Some(JsonValue::Array(_)) => {},
                Some(_) => {
                    return false;
                },
                None => {},
            }
            match get_member(members, "methods") {
                Some(JsonValue::Array(items)) => {
                    let mut i: usize = 0;
                    while i < items.len()
                        invariant
                            i <= items@.len(),
                            *value matches JsonValue::Object(mm) && mm == *members,
                            member(members@, "methods"@) == Some(JsonValue::Array(*items)),
                            forall|j: int| 0 <= j < i ==> #[trigger] items@[j] is Str,
                        decreases items@.len() - i,
                    {
                        match &items[i] {
                            JsonValue::Str(_) => {},
                            _ => {
                                assert(!(items@[i as int] is Str));
                                return false;
                            },
                        }
                        i += 1;
                    }
                    true
                },
                Some(_) => false,
                None => true,
            }
        },
        _ => false,
    }
}

/// Whether a JSON value parses as a flow condition: a string, or an object
/// with a string `"type"` and an array under `"conditions"` (or, when that
/// key is absent, under `"methods"`).
pub open spec fn parses(v: JsonValue) -> bool {
    match v {
        JsonValue::Str(_) => true,
        JsonValue::Object(members) => {
            &&& member(members@, "type"@) matches Some(JsonValue::Str(_))
            &&& match member(members@, "conditions"@) {
                Some(c) => c is Array,
                None => member(members@, "methods"@) matches Some(JsonValue::Array(_)),
            }
        },
        _ => false,
    }
}

/// The array an object takes its sub-conditions from: its `"conditions"`
/// member, or, when that key is absent, its `"methods"` member; none when
/// that member is not an array.
pub open spec fn sub_array(members: Seq<(String, JsonValue)>) -> Option<Vec<JsonValue>> {
    match member(members, "conditions"@) {
        Some(JsonValue::Array(a)) => Some(a),
        Some(_) => None,
        None => match member(members, "methods"@) {
            Some(JsonValue::Array(a)) => Some(a),
            _ => None,
        },
    }
}

/// `c` is what `v` parses to: a method name for a string; for an object,
/// a compound condition of its type whose sub-conditions are those of its
/// array elements that parse, in order.
pub open spec fn parsed_as(v: JsonValue, c: FlowCondition) -> bool
    decreases v, 0nat,
{
    match v {
        JsonValue::Str(s) => c matches FlowCondition::MethodName(n) && n@ == s@,
        JsonValue::Object(members) => match c {
            FlowCondition::Compound { condition_type, conditions } => {
                &&& member(members@, "type"@) matches Some(JsonValue::Str(t)) && t@ == condition_type@
                &&& match sub_array(members@) {
                    Some(a) => {
                        proof {
                            lemma_sub_array_decreases(v);
                        }
                        parsed_list(a@, conditions@)
                    },
                    None => false,
                }
            },
            FlowCondition::MethodName(_) => false,
        },
        _ => false,
    }
}

/// `cs` holds, in order, what the elements of `vs` that parse parse to.
pub open spec fn parsed_list(vs: Seq<JsonValue>, cs: Seq<FlowCondition>) -> bool
    decreases vs, vs.len(),
{
    if vs.len() == 0 {
        cs.len() == 0
    } else if parses(vs.last()) {
        &&& cs.len() > 0
        &&& parsed_list(vs.drop_last(), cs.drop_last())
        &&& parsed_as(vs.last(), cs.last())
    } else {
        parsed_list(vs.drop_last(), cs)
    }
}

/// An object is larger than the array it takes sub-conditions from.
pub proof fn lemma_sub_array_decreases(v: JsonValue)
    ensures
        v matches JsonValue::Object(members) ==> (sub_array(members@) matches Some(a) ==> decreases_to!(v => a@)),
{
    if let JsonValue::Object(members) = v {
        assert(decreases_to!(v => members));
        assert(decreases_to!(members => members@));
        lemma_member_decreases(members@, "conditions"@);
        lemma_member_decreases(members@, "methods"@);
        match sub_array(members@) {
            Some(a) => {
                assert(decreases_to!(JsonValue::Array(a) => a));
                assert(decreases_to!(a => a@));
            },
            None => {},
        }
    }
}

/// An object's members are larger than each member value.
pub proof fn lemma_member_decreases(ms: Seq<(String, JsonValue)>, key: Seq<char>)
    ensures
        member(ms, key) matches Some(v) ==> decreases_to!(ms => v),
    decreases ms.len(),
{
    if ms.len() > 0 {
        if ms[0].0@ == key {
            assert(decreases_to!(ms => ms[0]));
            assert(decreases_to!(ms[0] => ms[0].1));
        } else {
            lemma_member_decreases(ms.drop_first(), key);
            assert(decreases_to!(ms => ms.drop_first()));
        }
    }
}

/// Parse a JSON value into a flow condition (see `parses` and `parsed_as`).
pub fn parse_flow_condition(value: &JsonValue) -> (r: Option<FlowCondition>)
    ensures
        r is Some <==> parses(*value),
        r matches Some(c) ==> parsed_as(*value, c),
    decreases value,
{
    match value {
        JsonValue::Str(s) => Some(FlowCondition::MethodName(s.clone())),
        JsonValue::Object(members) => {
            let condition_type = match get_member(members, "type") {
                Some(JsonValue::Str(t)) => t.clone(),
                _ => {
                    return None;
                },
            };
            let sub = match get_member(members, "conditions") {
                Some(c) => c,
                None => match get_member(members, "methods") {
                    Some(m) => m,
                    None => {
                        return None;
                    },
                },
            };
            let items = match sub {
                JsonValue::Array(a) => a,
                _ => {
                    return None;
                },
            };
            assert(sub_array(members@) == Some(*items));
            let mut conditions: Vec<FlowCondition> = Vec::new();
            let mut i: usize = 0;
            while i < items.len()
                invariant
                    i <= items@.len(),
                    sub_array(members@) == Some(*items),
                    *value matches JsonValue::Object(mm) && mm == *members,
                    parsed_list(items@.take(i as int), conditions@),
                decreases items@.len() - i,
            {
                proof {
                    assert(decreases_to!(*value => *members));
                    assert(decreases_to!(*members => members@));
                    lemma_member_decreases(members@, "conditions"@);
                    lemma_member_decreases(members@, "methods"@);
                }
                assert(items@.take(i + 1).drop_last() =~= items@.take(i as int));
                assert(items@.take(i + 1).last() == items@[i as int]);
                let ghost before = conditions@;
                match parse_flow_condition(&items[i]) {
                    Some(c) => {
                        conditions.push(c);
                        assert(conditions@.drop_last() =~= before);
                    },
                    None => {},
                }
                i += 1;
            }
            assert(items@.take(i as int) =~= items@);
            Some(FlowCondition::Compound { condition_type, conditions })
        },
        _ => None,
    }
}


/// The names of the listeners, in order.
pub open spec fn listener_names(ls: Seq<(String, ListenerCondition)>) -> Seq<Seq<char>> {
    ls.map_values(|p: (String, ListenerCondition)| p.0@)
}

/// Some listener named `b` has `a` among its trigger methods.
pub open spec fn trigger_edge(ls: Seq<(String, ListenerCondition)>, a: Seq<char>, b: Seq<char>) -> bool {
    exists|i: int| #![trigger ls[i]] 0 <= i < ls.len() && ls[i].0@ == b && listener_methods(ls[i].1).contains(a)
}

/// `a` is a router, and one of its paths (under its first entry in
/// `rps`) triggers the listener `b`.
pub open spec fn route_edge(
    ls: Seq<(String, ListenerCondition)>,
    routers: Seq<String>,
    rps: Seq<(String, Vec<String>)>,
    a: Seq<char>,
    b: Seq<char>,
) -> bool {
    &&& str_views(routers).contains(a)
    &&& exists|k: int, p: Seq<char>|
        #![trigger first_key_at(rps, a, k), trigger_edge(ls, p, b)]
        first_key_at(rps, a, k) && str_views(rps[k].1@).contains(p) && trigger_edge(ls, p, b)
}

/// An edge of the flow graph: a listener edge or a router-path edge.
pub open spec fn flow_edge(
    ls: Seq<(String, ListenerCondition)>,
    routers: Seq<String>,
    rps: Seq<(String, Vec<String>)>,
    a: Seq<char>,
    b: Seq<char>,
) -> bool {
    trigger_edge(ls, a, b) || route_edge(ls, routers, rps, a, b)
}

/// The step from `p[i]` to `p[i + 1]` is an edge of the flow graph.
pub open spec fn path_step(
    ls: Seq<(String, ListenerCondition)>,
    routers: Seq<String>,
    rps: Seq<(String, Vec<String>)>,
    p: Seq<Seq<char>>,
    i: int,
) -> bool {
    flow_edge(ls, routers, rps, p[i], p[i + 1])
}

/// `p` is a path of at least one edge through the flow graph.
pub open spec fn is_flow_path(
    ls: Seq<(String, ListenerCondition)>,
    routers: Seq<String>,
    rps: Seq<(String, Vec<String>)>,
    p: Seq<Seq<char>>,
) -> bool {
    &&& p.len() >= 2
    &&& forall|i: int| 0 <= i < p.len() - 1 ==> #[trigger] path_step(ls, routers, rps, p, i)
}

/// `x` can be reached from `a` along one or more edges of the flow graph.
pub open spec fn reaches(
    ls: Seq<(String, ListenerCondition)>,
    routers: Seq<String>,
    rps: Seq<(String, Vec<String>)>,
    a: Seq<char>,
    x: Seq<char>,
) -> bool {
    exists|p: Seq<Seq<char>>| #[trigger] is_flow_path(ls, routers, rps, p) && p[0] == a && p.last() == x
}

/// Every ancestor recorded for a node reaches that node.
pub open spec fn ancestors_sound(
    m: Seq<(String, Vec<String>)>,
    ls: Seq<(String, ListenerCondition)>,
    routers: Seq<String>,
    rps: Seq<(String, Vec<String>)>,
) -> bool {
    forall|x: Seq<char>, a: Seq<char>| #[trigger] has_child(m, x, a) ==> reaches(ls, routers, rps, a, x)
}

/// Every listener that `v` triggers records `v` among its ancestors.
pub open spec fn trigger_done(m: Seq<(String, Vec<String>)>, ls: Seq<(String, ListenerCondition)>, v: Seq<char>) -> bool {
    forall|i: int| 0 <= i < ls.len() && #[trigger] listener_methods(ls[i].1).contains(v) ==> has_child(m, ls[i].0@, v)
}

/// Every node of `vs` is done in `m`.
pub open spec fn all_done(m: Seq<(String, Vec<String>)>, ls: Seq<(String, ListenerCondition)>, vs: Set<Seq<char>>) -> bool {
    forall|v: Seq<char>| vs.contains(v) ==> #[trigger] trigger_done(m, ls, v)
}

/// Every recorded pair of `m1` is still recorded in `m2`.
pub open spec fn pairs_grow(m1: Seq<(String, Vec<String>)>, m2: Seq<(String, Vec<String>)>) -> bool {
    forall|p: Seq<char>, c: Seq<char>| #[trigger] has_child(m1, p, c) ==> has_child(m2, p, c)
}

/// Every key of `m1` is still a key of `m2`.
pub open spec fn keys_grow(m1: Seq<(String, Vec<String>)>, m2: Seq<(String, Vec<String>)>) -> bool {
    forall|k: Seq<char>| #[trigger] has_key(m1, k) ==> has_key(m2, k)
}

/// The names of a list of strings, as a set.
pub open spec fn name_set(v: Seq<String>) -> Set<Seq<char>> {
    str_views(v).to_set()
}

proof fn lemma_edge_reaches(
    ls: Seq<(String, ListenerCondition)>,
    routers: Seq<String>,
    rps: Seq<(String, Vec<String>)>,
    a: Seq<char>,
    b: Seq<char>,
)
    requires
        flow_edge(ls, routers, rps, a, b),
    ensures
        reaches(ls, routers, rps, a, b),
{
    let p = seq![a, b];
    assert(path_step(ls, routers, rps, p, 0));
    assert(is_flow_path(ls, routers, rps, p));
}

proof fn lemma_reaches_step(
    ls: Seq<(String, ListenerCondition)>,
    routers: Seq<String>,
    rps: Seq<(String, Vec<String>)>,
    a: Seq<char>,
    x: Seq<char>,
    y: Seq<char>,
)
    requires
        reaches(ls, routers, rps, a, x),
        flow_edge(ls, routers, rps, x, y),
    ensures
        reaches(ls, routers, rps, a, y),
{
    let p = choose|p: Seq<Seq<char>>| #[trigger] is_flow_path(ls, routers, rps, p) && p[0] == a && p.last() == x;
    let q = p.push(y);
    assert forall|i: int| 0 <= i < q.len() - 1 implies #[trigger] path_step(ls, routers, rps, q, i) by {
        if i < p.len() - 1 {
            assert(path_step(ls, routers, rps, p, i));
        }
    }
    assert(is_flow_path(ls, routers, rps, q));
}

proof fn lemma_sound_add(
    m1: Seq<(String, Vec<String>)>,
    m2: Seq<(String, Vec<String>)>,
    ls: Seq<(String, ListenerCondition)>,
    routers: Seq<String>,
    rps: Seq<(String, Vec<String>)>,
    parent: Seq<char>,
    child: Seq<char>,
)
    requires
        ancestors_sound(m1, ls, routers, rps),
        reaches(ls, routers, rps, child, parent),
        forall|p: Seq<char>, c: Seq<char>| #[trigger] has_child(m2, p, c) <==> (has_child(m1, p, c) || (p == parent
            && c == child)),
    ensures
        ancestors_sound(m2, ls, routers, rps),
        pairs_grow(m1, m2),
{
}

proof fn lemma_done_grows(m1: Seq<(String, Vec<String>)>, m2: Seq<(String, Vec<String>)>, ls: Seq<(String, ListenerCondition)>, vs: Set<Seq<char>>)
    requires
        all_done(m1, ls, vs),
        pairs_grow(m1, m2),
    ensures
        all_done(m2, ls, vs),
{
    assert forall|v: Seq<char>| vs.contains(v) implies #[trigger] trigger_done(m2, ls, v) by {
        assert(trigger_done(m1, ls, v));
        assert forall|i: int| 0 <= i < ls.len() && #[trigger] listener_methods(ls[i].1).contains(v) implies has_child(
            m2,
            ls[i].0@,
            v,
        ) by {
            assert(has_child(m1, ls[i].0@, v));
        }
    }
}

proof fn lemma_measure(u: Set<Seq<char>>, v0: Set<Seq<char>>, v1: Set<Seq<char>>, node: Seq<char>)
    requires
        u.finite(),
        u.contains(node),
        !v0.contains(node),
        v0.insert(node).subset_of(v1),
    ensures
        u.difference(v1).len() < u.difference(v0).len(),
{
    u.lemma_set_insert_diff_decreases(v0, node);
    vstd::set_lib::lemma_len_subset(u.difference(v1), u.difference(v0.insert(node)));
}

/// Add `key` with no children unless it is a key already.
fn ensure_key(m: &mut Vec<(String, Vec<String>)>, key: &str)
    requires
        set_map_wf(old(m)@),
    ensures
        set_map_wf(final(m)@),
        forall|p: Seq<char>, c: Seq<char>| #[trigger] has_child(final(m)@, p, c) <==> has_child(old(m)@, p, c),
        forall|k: Seq<char>| #[trigger] has_key(final(m)@, k) <==> (has_key(old(m)@, k) || k == key@),
{
    match find_key(m, key) {
        Some(i) => {
            assert(m@[i as int].0@ == key@);
        },
        None => {
            let ghost old_m = m@;
            m.push((key.to_string(), Vec::new()));
            assert(str_views(m@.last().1@) =~= Seq::<Seq<char>>::empty());
            assert forall|p: Seq<char>, c: Seq<char>| #[trigger] has_child(m@, p, c) <==> has_child(old_m, p, c) by {
                if has_child(m@, p, c) {
                    let j = choose|j: int| 0 <= j < m@.len() && #[trigger] m@[j].0@ == p && str_views(m@[j].1@).contains(c);
                    if j < old_m.len() {
                        assert(old_m[j].0@ == p && str_views(old_m[j].1@).contains(c));
                    }
                }
                if has_child(old_m, p, c) {
                    let j = choose|j: int| 0 <= j < old_m.len() && #[trigger] old_m[j].0@ == p && str_views(old_m[j].1@).contains(c);
                    assert(m@[j].0@ == p && str_views(m@[j].1@).contains(c));
                }
            }
            assert(set_map_wf(m@)) by {
                assert forall|a: int, b: int| 0 <= a < b < m@.len() implies #[trigger] m@[a].0@ != #[trigger] m@[b].0@ by {
                    if b == old_m.len() {
                        assert(old_m[a].0@ != key@);
                    }
                }
            }
            assert forall|k: Seq<char>| #[trigger] has_key(m@, k) <==> (has_key(old_m, k) || k == key@) by {
                if has_key(m@, k) {
                    let j = choose|j: int| 0 <= j < m@.len() && #[trigger] m@[j].0@ == k;
                    if j < old_m.len() {
                        assert(old_m[j].0@ == k);
                    }
                }
                if has_key(old_m, k) {
                    let j = choose|j: int| 0 <= j < old_m.len() && #[trigger] old_m[j].0@ == k;
                    assert(m@[j].0@ == k);
                }
                if k == key@ {
                    assert(m@[old_m.len() as int].0@ == k);
                }
            }
        },
    }
}

/// A copy of the list recorded under `key` (empty without an entry).
fn get_list(m: &Vec<(String, Vec<String>)>, key: &str) -> (r: Vec<String>)
    requires
        set_map_wf(m@),
    ensures
        forall|c: Seq<char>| #[trigger] str_views(r@).contains(c) <==> has_child(m@, key@, c),
{
    match find_key(m, key) {
        Some(i) => {
            let r = copy_strings(&m[i].1);
            assert forall|c: Seq<char>| #[trigger] str_views(r@).contains(c) <==> has_child(m@, key@, c) by {
                if has_child(m@, key@, c) {
                    let j = choose|j: int| 0 <= j < m@.len() && #[trigger] m@[j].0@ == key@ && str_views(m@[j].1@).contains(c);
                    if j != i {
                        if j < i {
                            assert(m@[j].0@ != key@);
                        } else {
                            assert(m@[i as int].0@ != m@[j].0@);
                        }
                    }
                }
            }
            r
        },
        None => {
            let r: Vec<String> = Vec::new();
            assert(str_views(r@) =~= Seq::<Seq<char>>::empty());
            r
        },
    }
}


proof fn lemma_grows_trans(m1: Seq<(String, Vec<String>)>, m2: Seq<(String, Vec<String>)>, m3: Seq<(String, Vec<String>)>)
    requires
        pairs_grow(m1, m2),
        pairs_grow(m2, m3),
        keys_grow(m1, m2),
        keys_grow(m2, m3),
    ensures
        pairs_grow(m1, m3),
        keys_grow(m1, m3),
{
    assert forall|p: Seq<char>, c: Seq<char>| #[trigger] has_child(m1, p, c) implies has_child(m3, p, c) by {
        assert(has_child(m2, p, c));
    }
    assert forall|k: Seq<char>| #[trigger] has_key(m1, k) implies has_key(m3, k) by {
        assert(has_key(m2, k));
    }
}

proof fn lemma_done_union(
    m: Seq<(String, Vec<String>)>,
    ls: Seq<(String, ListenerCondition)>,
    s1: Set<Seq<char>>,
    s2: Set<Seq<char>>,
    s3: Set<Seq<char>>,
)
    requires
        all_done(m, ls, s1),
        all_done(m, ls, s2),
        forall|v: Seq<char>| s3.contains(v) ==> s1.contains(v) || s2.contains(v),
    ensures
        all_done(m, ls, s3),
{
    assert forall|v: Seq<char>| s3.contains(v) implies #[trigger] trigger_done(m, ls, v) by {
        if s1.contains(v) {
            assert(trigger_done(m, ls, v));
        } else {
            assert(trigger_done(m, ls, v));
        }
    }
}

/// Record each of `children` under `parent`; each reaches `parent`.
fn add_children(
    m: &mut Vec<(String, Vec<String>)>,
    parent: &str,
    children: &Vec<String>,
    Ghost(ls): Ghost<Seq<(String, ListenerCondition)>>,
    Ghost(routers): Ghost<Seq<String>>,
    Ghost(rps): Ghost<Seq<(String, Vec<String>)>>,
)
    requires
        set_map_wf(old(m)@),
        ancestors_sound(old(m)@, ls, routers, rps),
        forall|c: Seq<char>| #[trigger] str_views(children@).contains(c) ==> reaches(ls, routers, rps, c, parent@),
    ensures
        set_map_wf(final(m)@),
        ancestors_sound(final(m)@, ls, routers, rps),
        pairs_grow(old(m)@, final(m)@),
        keys_grow(old(m)@, final(m)@),
        forall|k: Seq<char>| #[trigger] has_key(final(m)@, k) ==> has_key(old(m)@, k) || k == parent@,
        forall|p: Seq<char>, c: Seq<char>| #[trigger] has_child(final(m)@, p, c) <==> (has_child(old(m)@, p, c) || (p
            == parent@ && exists|j: int| 0 <= j < children@.len() && #[trigger] children@[j]@ == c)),
        forall|k: Seq<char>| #[trigger] has_key(final(m)@, k) <==> (has_key(old(m)@, k) || (k == parent@
            && children@.len() > 0)),
{
    let mut q: usize = 0;
    while q < children.len()
        invariant
            q <= children@.len(),
            set_map_wf(m@),
            ancestors_sound(m@, ls, routers, rps),
            pairs_grow(old(m)@, m@),
            keys_grow(old(m)@, m@),
            forall|k: Seq<char>| #[trigger] has_key(m@, k) ==> has_key(old(m)@, k) || k == parent@,
            forall|p: Seq<char>, c: Seq<char>| #[trigger] has_child(m@, p, c) <==> (has_child(old(m)@, p, c) || (p
                == parent@ && exists|j: int| 0 <= j < q && #[trigger] children@[j]@ == c)),
            forall|k: Seq<char>| #[trigger] has_key(m@, k) <==> (has_key(old(m)@, k) || (k == parent@ && q > 0)),
            forall|c: Seq<char>| #[trigger] str_views(children@).contains(c) ==> reaches(ls, routers, rps, c, parent@),
        decreases children@.len() - q,
    {
        let ghost m1 = m@;
        assert(str_views(children@)[q as int] == children@[q as int]@);
        assert(str_views(children@).contains(children@[q as int]@));
        add_child(m, parent, children[q].as_str());
        proof {
            lemma_sound_add(m1, m@, ls, routers, rps, parent@, children@[q as int]@);
            assert forall|p: Seq<char>, c: Seq<char>| #[trigger] has_child(m@, p, c) <==> (has_child(old(m)@, p, c) || (p
                == parent@ && exists|j: int| 0 <= j < q + 1 && #[trigger] children@[j]@ == c)) by {
                if p == parent@ && c == children@[q as int]@ {
                    assert(children@[q as int]@ == c);
                }
                if p == parent@ && exists|j: int| 0 <= j < q + 1 && #[trigger] children@[j]@ == c {
                    let j = choose|j: int| 0 <= j < q + 1 && #[trigger] children@[j]@ == c;
                    if j < q {
                        assert(has_child(m1, p, c));
                    }
                }
            }
        }
        q += 1;
    }
}

/// `k` is a method, or reached from one along edges of the flow graph.
pub open spec fn from_methods(
    ms: Seq<String>,
    ls: Seq<(String, ListenerCondition)>,
    routers: Seq<String>,
    rps: Seq<(String, Vec<String>)>,
    k: Seq<char>,
) -> bool {
    ||| str_views(ms).contains(k)
    ||| exists|i: int| 0 <= i < ms.len() && #[trigger] reaches(ls, routers, rps, ms[i]@, k)
}

/// Every key of `m` is a method or reached from one.
pub open spec fn keys_from_methods(
    m: Seq<(String, Vec<String>)>,
    ms: Seq<String>,
    ls: Seq<(String, ListenerCondition)>,
    routers: Seq<String>,
    rps: Seq<(String, Vec<String>)>,
) -> bool {
    forall|k: Seq<char>| #[trigger] has_key(m, k) ==> from_methods(ms, ls, routers, rps, k)
}

/// Every node of `vs` has each node it leads to as a key of `m` and in
/// `vis`.
pub open spec fn edges_closed(
    m: Seq<(String, Vec<String>)>,
    vis: Set<Seq<char>>,
    ls: Seq<(String, ListenerCondition)>,
    routers: Seq<String>,
    rps: Seq<(String, Vec<String>)>,
    vs: Set<Seq<char>>,
) -> bool {
    forall|v: Seq<char>, l: Seq<char>|
        vs.contains(v) && #[trigger] flow_edge(ls, routers, rps, v, l) ==> has_key(m, l) && vis.contains(l)
}

proof fn lemma_from_methods_step(
    ms: Seq<String>,
    ls: Seq<(String, ListenerCondition)>,
    routers: Seq<String>,
    rps: Seq<(String, Vec<String>)>,
    x: Seq<char>,
    l: Seq<char>,
)
    requires
        from_methods(ms, ls, routers, rps, x),
        flow_edge(ls, routers, rps, x, l),
    ensures
        from_methods(ms, ls, routers, rps, l),
{
    if str_views(ms).contains(x) {
        let i = choose|i: int| 0 <= i < str_views(ms).len() && str_views(ms)[i] == x;
        lemma_edge_reaches(ls, routers, rps, x, l);
        assert(reaches(ls, routers, rps, ms[i]@, l));
    } else {
        let i = choose|i: int| 0 <= i < ms.len() && #[trigger] reaches(ls, routers, rps, ms[i]@, x);
        lemma_reaches_step(ls, routers, rps, ms[i]@, x, l);
    }
}

proof fn lemma_closed_grows(
    m1: Seq<(String, Vec<String>)>,
    m2: Seq<(String, Vec<String>)>,
    vis1: Set<Seq<char>>,
    vis2: Set<Seq<char>>,
    ls: Seq<(String, ListenerCondition)>,
    routers: Seq<String>,
    rps: Seq<(String, Vec<String>)>,
    vs: Set<Seq<char>>,
)
    requires
        edges_closed(m1, vis1, ls, routers, rps, vs),
        keys_grow(m1, m2),
        vis1.subset_of(vis2),
    ensures
        edges_closed(m2, vis2, ls, routers, rps, vs),
{
    assert forall|v: Seq<char>, l: Seq<char>| vs.contains(v) && #[trigger] flow_edge(ls, routers, rps, v, l) implies has_key(m2, l)
        && vis2.contains(l) by {
        assert(has_key(m1, l));
    }
}

proof fn lemma_closed_union(
    m: Seq<(String, Vec<String>)>,
    vis: Set<Seq<char>>,
    ls: Seq<(String, ListenerCondition)>,
    routers: Seq<String>,
    rps: Seq<(String, Vec<String>)>,
    s1: Set<Seq<char>>,
    s2: Set<Seq<char>>,
    s3: Set<Seq<char>>,
)
    requires
        edges_closed(m, vis, ls, routers, rps, s1),
        edges_closed(m, vis, ls, routers, rps, s2),
        forall|v: Seq<char>| s3.contains(v) ==> s1.contains(v) || s2.contains(v),
    ensures
        edges_closed(m, vis, ls, routers, rps, s3),
{
}

/// The nodes that `node` leads to, checked listener by listener and path
/// by path.
proof fn lemma_node_closed(
    m: Seq<(String, Vec<String>)>,
    vis: Set<Seq<char>>,
    ls: Seq<(String, ListenerCondition)>,
    routers: Seq<String>,
    rps: Seq<(String, Vec<String>)>,
    node: Seq<char>,
)
    requires
        forall|i: int|
            0 <= i < ls.len() && #[trigger] listener_methods(ls[i].1).contains(node) ==> has_key(m, ls[i].0@) && vis.contains(ls[i].0@),
        str_views(routers).contains(node) ==> forall|k: int, p: Seq<char>, i: int|
            #![trigger first_key_at(rps, node, k), listener_methods(ls[i].1).contains(p)]
            first_key_at(rps, node, k) && str_views(rps[k].1@).contains(p) && 0 <= i < ls.len() && listener_methods(ls[i].1).contains(p)
                ==> has_key(m, ls[i].0@) && vis.contains(ls[i].0@),
    ensures
        edges_closed(m, vis, ls, routers, rps, set![node]),
{
    assert forall|v: Seq<char>, l: Seq<char>| set![node].contains(v) && #[trigger] flow_edge(ls, routers, rps, v, l) implies has_key(m, l)
        && vis.contains(l) by {
        if trigger_edge(ls, v, l) {
            let i = choose|i: int| #![trigger ls[i]] 0 <= i < ls.len() && ls[i].0@ == l && listener_methods(ls[i].1).contains(v);
            assert(listener_methods(ls[i].1).contains(node));
        } else {
            let (k, p) = choose|k: int, p: Seq<char>|
                #![trigger first_key_at(rps, v, k), trigger_edge(ls, p, l)]
                first_key_at(rps, v, k) && str_views(rps[k].1@).contains(p) && trigger_edge(ls, p, l);
            let i = choose|i: int| #![trigger ls[i]] 0 <= i < ls.len() && ls[i].0@ == l && listener_methods(ls[i].1).contains(p);
            assert(first_key_at(rps, node, k));
            assert(listener_methods(ls[i].1).contains(p));
        }
    }
}

/// Depth-first walk from `node`: record `node`, with what is recorded for
/// it so far, under each listener it triggers; pass what is recorded for a
/// router on to each listener that one of its paths triggers; walk on from
/// each such listener. Nodes already visited are left alone.
#[verifier::loop_isolation(false)]
fn dfs_ancestors(
    node: &str,
    ancestors: &mut Vec<(String, Vec<String>)>,
    visited: &mut Vec<String>,
    listeners: &Vec<(String, ListenerCondition)>,
    routers: &Vec<String>,
    router_paths: &Vec<(String, Vec<String>)>,
    Ghost(universe): Ghost<Set<Seq<char>>>,
    Ghost(ms): Ghost<Seq<String>>,
)
    requires
        universe.finite(),
        universe.contains(node@),
        forall|i: int| 0 <= i < listeners@.len() ==> universe.contains(#[trigger] listeners@[i].0@),
        set_map_wf(old(ancestors)@),
        ancestors_sound(old(ancestors)@, listeners@, routers@, router_paths@),
        from_methods(ms, listeners@, routers@, router_paths@, node@),
        keys_from_methods(old(ancestors)@, ms, listeners@, routers@, router_paths@),
    ensures
        set_map_wf(final(ancestors)@),
        ancestors_sound(final(ancestors)@, listeners@, routers@, router_paths@),
        pairs_grow(old(ancestors)@, final(ancestors)@),
        keys_grow(old(ancestors)@, final(ancestors)@),
        name_set(old(visited)@).insert(node@).subset_of(name_set(final(visited)@)),
        all_done(final(ancestors)@, listeners@, name_set(final(visited)@).difference(name_set(old(visited)@))),
        keys_from_methods(final(ancestors)@, ms, listeners@, routers@, router_paths@),
        edges_closed(
            final(ancestors)@,
            name_set(final(visited)@),
            listeners@,
            routers@,
            router_paths@,
            name_set(final(visited)@).difference(name_set(old(visited)@)),
        ),
    decreases universe.difference(name_set(old(visited)@)).len(),
{
    let ghost ls = listeners@;
    let ghost rts = routers@;
    let ghost rps = router_paths@;
    if contains_str(visited, node) {
        assert(name_set(visited@).difference(name_set(visited@)) =~= Set::empty());
        return;
    }
    let ghost v0 = name_set(visited@);
    let ghost a0 = ancestors@;
    visited.push(node.to_string());
    assert(str_views(visited@) =~= str_views(old(visited)@).push(node@));
    assert forall|x: Seq<char>| #[trigger] name_set(visited@).contains(x) <==> v0.insert(node@).contains(x) by {
        let sv = str_views(visited@);
        let so = str_views(old(visited)@);
        if sv.contains(x) {
            let i = choose|i: int| 0 <= i < sv.len() && sv[i] == x;
            if i < so.len() {
                assert(so[i] == x);
            }
        }
        if so.contains(x) {
            let i = choose|i: int| 0 <= i < so.len() && so[i] == x;
            assert(sv[i] == x);
        }
        if x == node@ {
            assert(sv[so.len() as int] == x);
        }
    }
    assert(name_set(visited@) =~= v0.insert(node@));
    assert(name_set(visited@).difference(v0).remove(node@) =~= Set::empty());
    let mut j: usize = 0;
    while j < listeners.len()
        invariant
            j <= ls.len(),
            v0.insert(node@).subset_of(name_set(visited@)),
            set_map_wf(ancestors@),
            ancestors_sound(ancestors@, ls, rts, rps),
            pairs_grow(a0, ancestors@),
            keys_grow(a0, ancestors@),
            all_done(ancestors@, ls, name_set(visited@).difference(v0).remove(node@)),
            forall|i: int|
                0 <= i < j && #[trigger] listener_methods(ls[i].1).contains(node@) ==> has_child(ancestors@, ls[i].0@, node@),
            keys_from_methods(ancestors@, ms, ls, rts, rps),
            edges_closed(ancestors@, name_set(visited@), ls, rts, rps, name_set(visited@).difference(v0).remove(node@)),
            forall|i: int|
                0 <= i < j && #[trigger] listener_methods(ls[i].1).contains(node@) ==> has_key(ancestors@, ls[i].0@) && name_set(
                    visited@,
                ).contains(ls[i].0@),
        decreases ls.len() - j,
    {
        let trig = extract_methods_from_listener(&listeners[j].1);
        if contains_str(&trig, node) {
            let ghost l = ls[j as int].0@;
            let node_anc = get_list(ancestors, node);
            let ghost a1 = ancestors@;
            add_child(ancestors, listeners[j].0.as_str(), node);
            proof {
                assert(keys_grow(a1, ancestors@));
                assert(trigger_edge(ls, node@, l));
                lemma_from_methods_step(ms, ls, rts, rps, node@, l);
                lemma_edge_reaches(ls, rts, rps, node@, l);
                lemma_sound_add(a1, ancestors@, ls, rts, rps, l, node@);
                assert forall|c: Seq<char>| #[trigger] str_views(node_anc@).contains(c) implies reaches(ls, rts, rps, c, l) by {
                    assert(has_child(a1, node@, c));
                    lemma_reaches_step(ls, rts, rps, c, node@, l);
                }
            }
            let ghost a2 = ancestors@;
            add_children(ancestors, listeners[j].0.as_str(), &node_anc, Ghost(ls), Ghost(rts), Ghost(rps));
            let ghost a3 = ancestors@;
            let ghost vb = name_set(visited@);
            proof {
                lemma_measure(universe, v0, vb, node@);
                assert forall|k: Seq<char>| #[trigger] has_key(a3, k) implies from_methods(ms, ls, rts, rps, k) by {
                    if has_key(a2, k) && !has_key(a1, k) {
                        assert(k == l);
                    }
                }
                lemma_grows_trans(a1, a2, a3);
                assert(edges_closed(a3, vb, ls, rts, rps, vb.difference(v0).remove(node@))) by {
                    lemma_closed_grows(a1, a3, vb, vb, ls, rts, rps, vb.difference(v0).remove(node@));
                }
            }
            dfs_ancestors(listeners[j].0.as_str(), ancestors, visited, listeners, routers, router_paths, Ghost(universe), Ghost(ms));
            proof {
                lemma_grows_trans(a1, a2, a3);
                lemma_grows_trans(a1, a3, ancestors@);
                lemma_grows_trans(a0, a1, ancestors@);
                let sb = vb.difference(v0).remove(node@);
                lemma_done_grows(a1, ancestors@, ls, sb);
                lemma_done_union(ancestors@, ls, sb, name_set(visited@).difference(vb), name_set(visited@).difference(v0).remove(node@));
                assert(has_child(a2, l, node@));
                lemma_closed_grows(a1, ancestors@, vb, name_set(visited@), ls, rts, rps, sb);
                lemma_closed_union(
                    ancestors@,
                    name_set(visited@),
                    ls,
                    rts,
                    rps,
                    sb,
                    name_set(visited@).difference(vb),
                    name_set(visited@).difference(v0).remove(node@),
                );
                assert(has_key(a2, l));
                assert forall|i: int|
                    0 <= i < j + 1 && #[trigger] listener_methods(ls[i].1).contains(node@) implies has_key(ancestors@, ls[i].0@)
                        && name_set(visited@).contains(ls[i].0@) by {
                    if i < j {
                        assert(has_key(a1, ls[i].0@) && vb.contains(ls[i].0@));
                    }
                }
            }
        }
        j += 1;
    }
    proof {
        assert(trigger_done(ancestors@, ls, node@));
        lemma_done_union(ancestors@, ls, name_set(visited@).difference(v0).remove(node@), set![node@], name_set(visited@).difference(v0));
    }
    if contains_str(routers, node) {
        match find_key(router_paths, node) {
            Some(k) => {
                let paths = &router_paths[k].1;
                let mut q: usize = 0;
                while q < paths.len()
                    invariant
                        q <= paths@.len(),
                        v0.insert(node@).subset_of(name_set(visited@)),
                        set_map_wf(ancestors@),
                        ancestors_sound(ancestors@, ls, rts, rps),
                        pairs_grow(a0, ancestors@),
                        keys_grow(a0, ancestors@),
                        all_done(ancestors@, ls, name_set(visited@).difference(v0)),
                        keys_from_methods(ancestors@, ms, ls, rts, rps),
                        edges_closed(ancestors@, name_set(visited@), ls, rts, rps, name_set(visited@).difference(v0).remove(node@)),
                        forall|i: int|
                            0 <= i < ls.len() && #[trigger] listener_methods(ls[i].1).contains(node@) ==> has_key(ancestors@, ls[i].0@)
                                && name_set(visited@).contains(ls[i].0@),
                        forall|qq: int, i: int|
                            0 <= qq < q && 0 <= i < ls.len() && #[trigger] listener_methods(ls[i].1).contains(#[trigger] paths@[qq]@)
                                ==> has_key(ancestors@, ls[i].0@) && name_set(visited@).contains(ls[i].0@),
                    decreases paths@.len() - q,
                {
                    let path = paths[q].as_str();
                    let mut j: usize = 0;
                    while j < listeners.len()
                        invariant
                            j <= ls.len(),
                            v0.insert(node@).subset_of(name_set(visited@)),
                            set_map_wf(ancestors@),
                            ancestors_sound(ancestors@, ls, rts, rps),
                            pairs_grow(a0, ancestors@),
                            keys_grow(a0, ancestors@),
                            all_done(ancestors@, ls, name_set(visited@).difference(v0)),
                            keys_from_methods(ancestors@, ms, ls, rts, rps),
                            edges_closed(ancestors@, name_set(visited@), ls, rts, rps, name_set(visited@).difference(v0).remove(node@)),
                            forall|i: int|
                                0 <= i < ls.len() && #[trigger] listener_methods(ls[i].1).contains(node@) ==> has_key(
                                    ancestors@,
                                    ls[i].0@,
                                ) && name_set(visited@).contains(ls[i].0@),
                            forall|qq: int, i: int|
                                0 <= qq < q && 0 <= i < ls.len() && #[trigger] listener_methods(ls[i].1).contains(#[trigger] paths@[qq]@)
                                    ==> has_key(ancestors@, ls[i].0@) && name_set(visited@).contains(ls[i].0@),
                            forall|i: int|
                                0 <= i < j && #[trigger] listener_methods(ls[i].1).contains(path@) ==> has_key(ancestors@, ls[i].0@)
                                    && name_set(visited@).contains(ls[i].0@),
                        decreases ls.len() - j,
                    {
                        let trig = extract_methods_from_listener(&listeners[j].1);
                        if contains_str(&trig, path) {
                            let ghost l = ls[j as int].0@;
                            proof {
                                assert(trigger_edge(ls, path@, l));
                                assert(str_views(paths@)[q as int] == path@);
                                assert(first_key_at(rps, node@, k as int));
                                assert(route_edge(ls, rts, rps, node@, l));
                                lemma_from_methods_step(ms, ls, rts, rps, node@, l);
                            }
                            let node_anc = get_list(ancestors, node);
                            let ghost a1 = ancestors@;
                            ensure_key(ancestors, listeners[j].0.as_str());
                            let ghost a2 = ancestors@;
                            proof {
                                assert(pairs_grow(a1, a2));
                                assert(keys_grow(a1, a2));
                                assert forall|c: Seq<char>| #[trigger] str_views(node_anc@).contains(c) implies reaches(ls, rts, rps, c, l) by {
                                    assert(has_child(a1, node@, c));
                                    lemma_reaches_step(ls, rts, rps, c, node@, l);
                                }
                            }
                            add_children(ancestors, listeners[j].0.as_str(), &node_anc, Ghost(ls), Ghost(rts), Ghost(rps));
                            let ghost a3 = ancestors@;
                            let ghost vb = name_set(visited@);
                            proof {
                                lemma_measure(universe, v0, vb, node@);
                                assert forall|kk: Seq<char>| #[trigger] has_key(a3, kk) implies from_methods(ms, ls, rts, rps, kk) by {
                                    if has_key(a2, kk) && !has_key(a1, kk) {
                                        assert(kk == l);
                                    }
                                }
                                lemma_grows_trans(a1, a2, a3);
                                assert(edges_closed(a3, vb, ls, rts, rps, vb.difference(v0).remove(node@))) by {
                                    lemma_closed_grows(a1, a3, vb, vb, ls, rts, rps, vb.difference(v0).remove(node@));
                                }
                            }
                            dfs_ancestors(listeners[j].0.as_str(), ancestors, visited, listeners, routers, router_paths, Ghost(universe), Ghost(ms));
                            proof {
                                lemma_grows_trans(a1, a2, a3);
                                lemma_grows_trans(a1, a3, ancestors@);
                                lemma_grows_trans(a0, a1, ancestors@);
                                let sb = vb.difference(v0);
                                lemma_done_grows(a1, ancestors@, ls, sb);
                                lemma_done_union(ancestors@, ls, sb, name_set(visited@).difference(vb), name_set(visited@).difference(v0));
                                let sr = vb.difference(v0).remove(node@);
                                lemma_closed_grows(a1, ancestors@, vb, name_set(visited@), ls, rts, rps, sr);
                                lemma_closed_union(
                                    ancestors@,
                                    name_set(visited@),
                                    ls,
                                    rts,
                                    rps,
                                    sr,
                                    name_set(visited@).difference(vb),
                                    name_set(visited@).difference(v0).remove(node@),
                                );
                                assert(has_key(a2, l));
                                assert forall|i: int|
                                    0 <= i < ls.len() && #[trigger] listener_methods(ls[i].1).contains(node@) implies has_key(
                                        ancestors@,
                                        ls[i].0@,
                                    ) && name_set(visited@).contains(ls[i].0@) by {
                                    assert(has_key(a1, ls[i].0@) && vb.contains(ls[i].0@));
                                }
                                assert forall|qq: int, i: int|
                                    0 <= qq < q && 0 <= i < ls.len() && #[trigger] listener_methods(ls[i].1).contains(
                                        #[trigger] paths@[qq]@,
                                    ) implies has_key(ancestors@, ls[i].0@) && name_set(visited@).contains(ls[i].0@) by {
                                    assert(has_key(a1, ls[i].0@) && vb.contains(ls[i].0@));
                                }
                                assert forall|i: int|
                                    0 <= i < j + 1 && #[trigger] listener_methods(ls[i].1).contains(path@) implies has_key(
                                        ancestors@,
                                        ls[i].0@,
                                    ) && name_set(visited@).contains(ls[i].0@) by {
                                    if i < j {
                                        assert(has_key(a1, ls[i].0@) && vb.contains(ls[i].0@));
                                    }
                                }
                            }
                        }
                        j += 1;
                    }
                    proof {
                        assert forall|qq: int, i: int|
                            0 <= qq < q + 1 && 0 <= i < ls.len() && #[trigger] listener_methods(ls[i].1).contains(#[trigger] paths@[qq]@)
                                implies has_key(ancestors@, ls[i].0@) && name_set(visited@).contains(ls[i].0@) by {
                            if qq == q {
                                assert(paths@[qq]@ == path@);
                            }
                        }
                    }
                    q += 1;
                }
                proof {
                    assert forall|kk: int, p: Seq<char>, i: int|
                        #![trigger first_key_at(rps, node@, kk), listener_methods(ls[i].1).contains(p)]
                        first_key_at(rps, node@, kk) && str_views(rps[kk].1@).contains(p) && 0 <= i < ls.len()
                            && listener_methods(ls[i].1).contains(p) implies has_key(ancestors@, ls[i].0@) && name_set(visited@).contains(
                        ls[i].0@,
                    ) by {
                        if kk < k {
                            assert(rps[kk].0@ != node@);
                        } else if kk > k {
                            assert(rps[k as int].0@ != node@);
                        }
                        let qq = choose|qq: int| 0 <= qq < str_views(paths@).len() && str_views(paths@)[qq] == p;
                        assert(listener_methods(ls[i].1).contains(paths@[qq]@));
                    }
                    lemma_node_closed(ancestors@, name_set(visited@), ls, rts, rps, node@);
                }
            },
            None => {
                proof {
                    assert forall|kk: int, p: Seq<char>, i: int|
                        #![trigger first_key_at(rps, node@, kk), listener_methods(ls[i].1).contains(p)]
                        first_key_at(rps, node@, kk) && str_views(rps[kk].1@).contains(p) && 0 <= i < ls.len()
                            && listener_methods(ls[i].1).contains(p) implies has_key(ancestors@, ls[i].0@) && name_set(visited@).contains(
                        ls[i].0@,
                    ) by {
                        assert(rps[kk].0@ == node@);
                    }
                    lemma_node_closed(ancestors@, name_set(visited@), ls, rts, rps, node@);
                }
            },
        }
    } else {
        proof {
            lemma_node_closed(ancestors@, name_set(visited@), ls, rts, rps, node@);
        }
    }
    proof {
        lemma_closed_union(
            ancestors@,
            name_set(visited@),
            ls,
            rts,
            rps,
            name_set(visited@).difference(v0).remove(node@),
            set![node@],
            name_set(visited@).difference(v0),
        );
    }
}


/// Map each method, and each node that the methods reach along listener
/// and router-path edges, to its ancestors: the entries are exactly those
/// nodes; every method is recorded under each listener it triggers; every
/// recorded ancestor reaches its node. What else a node collects depends
/// on the order of the walk.
#[verifier::loop_isolation(false)]
pub fn build_ancestor_dict(
    methods: &Vec<String>,
    listeners: &Vec<(String, ListenerCondition)>,
    routers: &Vec<String>,
    router_paths: &Vec<(String, Vec<String>)>,
) -> (r: Vec<(String, Vec<String>)>)
    ensures
        set_map_wf(r@),
        forall|i: int| 0 <= i < methods@.len() ==> has_key(r@, #[trigger] methods@[i]@),
        forall|k: Seq<char>| #[trigger] has_key(r@, k) <==> from_methods(methods@, listeners@, routers@, router_paths@, k),
        ancestors_sound(r@, listeners@, routers@, router_paths@),
        forall|i: int, j: int|
            0 <= i < methods@.len() && 0 <= j < listeners@.len() && #[trigger] listener_methods(listeners@[j].1).contains(
                #[trigger] methods@[i]@,
            ) ==> has_child(r@, listeners@[j].0@, methods@[i]@),
{
    let ghost ls = listeners@;
    let ghost rts = routers@;
    let ghost rps = router_paths@;
    let mut ancestors: Vec<(String, Vec<String>)> = Vec::new();
    let mut i: usize = 0;
    while i < methods.len()
        invariant
            i <= methods@.len(),
            set_map_wf(ancestors@),
            forall|k: int| 0 <= k < i ==> has_key(ancestors@, #[trigger] methods@[k]@),
            forall|x: Seq<char>, a: Seq<char>| !#[trigger] has_child(ancestors@, x, a),
            keys_from_methods(ancestors@, methods@, ls, rts, rps),
        decreases methods@.len() - i,
    {
        ensure_key(&mut ancestors, methods[i].as_str());
        assert(str_views(methods@)[i as int] == methods@[i as int]@);
        i += 1;
    }
    let ghost universe = (str_views(methods@) + listener_names(ls)).to_set();
    proof {
        vstd::seq_lib::seq_to_set_is_finite(str_views(methods@) + listener_names(ls));
        assert forall|k: int| 0 <= k < ls.len() implies universe.contains(#[trigger] ls[k].0@) by {
            let all = str_views(methods@) + listener_names(ls);
            assert(all[methods@.len() + k] == ls[k].0@);
            assert(all.contains(ls[k].0@));
        }
    }
    let mut visited: Vec<String> = Vec::new();
    assert(str_views(visited@) =~= Seq::<Seq<char>>::empty());
    assert(name_set(visited@) =~= Set::<Seq<char>>::empty());
    let mut i: usize = 0;
    while i < methods.len()
        invariant
            i <= methods@.len(),
            universe.finite(),
            universe == (str_views(methods@) + listener_names(ls)).to_set(),
            forall|k: int| 0 <= k < ls.len() ==> universe.contains(#[trigger] ls[k].0@),
            set_map_wf(ancestors@),
            forall|k: int| 0 <= k < methods@.len() ==> has_key(ancestors@, #[trigger] methods@[k]@),
            ancestors_sound(ancestors@, ls, rts, rps),
            all_done(ancestors@, ls, name_set(visited@)),
            forall|k: int| 0 <= k < i ==> name_set(visited@).contains(#[trigger] methods@[k]@),
            keys_from_methods(ancestors@, methods@, ls, rts, rps),
            edges_closed(ancestors@, name_set(visited@), ls, rts, rps, name_set(visited@)),
        decreases methods@.len() - i,
    {
        if !contains_str(&visited, methods[i].as_str()) {
            let ghost a0 = ancestors@;
            let ghost v0 = name_set(visited@);
            proof {
                let all = str_views(methods@) + listener_names(ls);
                assert(all[i as int] == methods@[i as int]@);
                assert(all.contains(methods@[i as int]@));
            }
            proof {
                assert(str_views(methods@)[i as int] == methods@[i as int]@);
            }
            dfs_ancestors(methods[i].as_str(), &mut ancestors, &mut visited, listeners, routers, router_paths, Ghost(universe), Ghost(methods@));
            proof {
                lemma_closed_grows(a0, ancestors@, v0, name_set(visited@), ls, rts, rps, v0);
                lemma_closed_union(ancestors@, name_set(visited@), ls, rts, rps, v0, name_set(visited@).difference(v0), name_set(visited@));
                lemma_done_grows(a0, ancestors@, ls, v0);
                lemma_done_union(ancestors@, ls, v0, name_set(visited@).difference(v0), name_set(visited@));
                assert forall|k: int| 0 <= k < methods@.len() implies has_key(ancestors@, #[trigger] methods@[k]@) by {
                    assert(has_key(a0, methods@[k]@));
                }
                assert forall|k: int| 0 <= k <= i implies name_set(visited@).contains(#[trigger] methods@[k]@) by {
                    if k < i {
                        assert(v0.contains(methods@[k]@));
                    }
                }
            }
        } else {
            assert(str_views(visited@).contains(methods@[i as int]@));
        }
        i += 1;
    }
    assert forall|i: int, j: int|
        0 <= i < methods@.len() && 0 <= j < ls.len() && #[trigger] listener_methods(ls[j].1).contains(
            #[trigger] methods@[i]@,
        ) implies has_child(ancestors@, ls[j].0@, methods@[i]@) by {
        assert(name_set(visited@).contains(methods@[i]@));
        assert(trigger_done(ancestors@, ls, methods@[i]@));
    }
    assert forall|k: Seq<char>| #[trigger] has_key(ancestors@, k) <==> from_methods(methods@, ls, rts, rps, k) by {
        if from_methods(methods@, ls, rts, rps, k) && !str_views(methods@).contains(k) {
            let i = choose|i: int| 0 <= i < methods@.len() && #[trigger] reaches(ls, rts, rps, methods@[i]@, k);
            lemma_reached_visited(ancestors@, name_set(visited@), ls, rts, rps, methods@[i]@, k);
        }
        if str_views(methods@).contains(k) {
            let i = choose|i: int| 0 <= i < str_views(methods@).len() && str_views(methods@)[i] == k;
            assert(has_key(ancestors@, methods@[i]@));
        }
    }
    ancestors
}

/// In a walk closed under the edges, everything reached from a visited
/// node is a key and visited.
proof fn lemma_reached_visited(
    m: Seq<(String, Vec<String>)>,
    vis: Set<Seq<char>>,
    ls: Seq<(String, ListenerCondition)>,
    routers: Seq<String>,
    rps: Seq<(String, Vec<String>)>,
    a: Seq<char>,
    x: Seq<char>,
)
    requires
        edges_closed(m, vis, ls, routers, rps, vis),
        vis.contains(a),
        reaches(ls, routers, rps, a, x),
    ensures
        has_key(m, x),
        vis.contains(x),
{
    let p = choose|p: Seq<Seq<char>>| #[trigger] is_flow_path(ls, routers, rps, p) && p[0] == a && p.last() == x;
    lemma_path_visited(m, vis, ls, routers, rps, p, p.len() - 1);
}

proof fn lemma_path_visited(
    m: Seq<(String, Vec<String>)>,
    vis: Set<Seq<char>>,
    ls: Seq<(String, ListenerCondition)>,
    routers: Seq<String>,
    rps: Seq<(String, Vec<String>)>,
    p: Seq<Seq<char>>,
    k: int,
)
    requires
        edges_closed(m, vis, ls, routers, rps, vis),
        is_flow_path(ls, routers, rps, p),
        vis.contains(p[0]),
        0 <= k < p.len(),
    ensures
        vis.contains(p[k]),
        k > 0 ==> has_key(m, p[k]),
    decreases k,
{
    if k > 0 {
        lemma_path_visited(m, vis, ls, routers, rps, p, k - 1);
        assert(path_step(ls, routers, rps, p, k - 1));
        assert(flow_edge(ls, routers, rps, p[k - 1], p[k]));
    }
}


/// The level recorded for `u`: the last entry keyed `u`, if any.
pub open spec fn lookup_level(levels: Seq<(String, usize)>, u: Seq<char>) -> Option<int>
    decreases levels.len(),
{
    if levels.len() == 0 {
        None
    } else if levels.last().0@ == u {
        Some(levels.last().1 as int)
    } else {
        lookup_level(levels.drop_last(), u)
    }
}

/// No key repeats among the levels.
pub open spec fn keys_distinct(levels: Seq<(String, usize)>) -> bool {
    forall|a: int, b: int| 0 <= a < b < levels.len() ==> #[trigger] levels[a].0@ != #[trigger] levels[b].0@
}

proof fn lemma_lookup_at(levels: Seq<(String, usize)>, u: Seq<char>, i: int)
    requires
        keys_distinct(levels),
        0 <= i < levels.len(),
        levels[i].0@ == u,
    ensures
        lookup_level(levels, u) == Some(levels[i].1 as int),
    decreases levels.len(),
{
    if i < levels.len() - 1 {
        assert(levels.last().0@ != u) by {
            assert(levels[i].0@ != levels[levels.len() - 1].0@);
        }
        assert(levels.drop_last()[i] == levels[i]);
        lemma_lookup_at(levels.drop_last(), u, i);
    }
}

proof fn lemma_lookup_none(levels: Seq<(String, usize)>, u: Seq<char>)
    requires
        !has_key(levels, u),
    ensures
        lookup_level(levels, u) is None,
    decreases levels.len(),
{
    if levels.len() > 0 {
        assert(levels[levels.len() - 1].0@ != u);
        assert forall|i: int| 0 <= i < levels.drop_last().len() implies #[trigger] levels.drop_last()[i].0@ != u by {
            assert(levels.drop_last()[i] == levels[i]);
        }
        lemma_lookup_none(levels.drop_last(), u);
    }
}

proof fn lemma_lookup_some(levels: Seq<(String, usize)>, u: Seq<char>)
    requires
        lookup_level(levels, u) is Some,
    ensures
        has_key(levels, u),
{
    if !has_key(levels, u) {
        lemma_lookup_none(levels, u);
    }
}

/// The level recorded for `key`.
fn get_level(levels: &Vec<(String, usize)>, key: &str) -> (r: Option<usize>)
    requires
        keys_distinct(levels@),
    ensures
        match r {
            Some(d) => lookup_level(levels@, key@) == Some(d as int),
            None => lookup_level(levels@, key@) is None,
        },
{
    match find_key(levels, key) {
        Some(i) => {
            proof {
                lemma_lookup_at(levels@, key@, i as int);
            }
            Some(levels[i].1)
        },
        None => {
            proof {
                lemma_lookup_none(levels@, key@);
            }
            None
        },
    }
}

/// Record level `d` for `key`, in place of any level it had.
fn set_level(levels: &mut Vec<(String, usize)>, key: &str, d: usize)
    requires
        keys_distinct(old(levels)@),
    ensures
        keys_distinct(final(levels)@),
        final(levels)@.len() == old(levels)@.len() + if has_key(old(levels)@, key@) {
            0int
        } else {
            1int
        },
        lookup_level(final(levels)@, key@) == Some(d as int),
        forall|u: Seq<char>| u != key@ ==> #[trigger] lookup_level(final(levels)@, u) == lookup_level(old(levels)@, u),
        forall|u: Seq<char>| #[trigger] has_key(final(levels)@, u) <==> (has_key(old(levels)@, u) || u == key@),
{
    let ghost old_l = levels@;
    match find_key(levels, key) {
        Some(i) => {
            let k = levels[i].0.clone();
            levels.set(i, (k, d));
            assert forall|a: int, b: int| 0 <= a < b < levels@.len() implies #[trigger] levels@[a].0@ != #[trigger] levels@[b].0@ by {
                assert(old_l[a].0@ != old_l[b].0@);
            }
            proof {
                lemma_lookup_at(levels@, key@, i as int);
                assert forall|u: Seq<char>| u != key@ implies #[trigger] lookup_level(levels@, u) == lookup_level(old_l, u) by {
                    if has_key(old_l, u) {
                        let j = choose|j: int| 0 <= j < old_l.len() && #[trigger] old_l[j].0@ == u;
                        assert(j != i);
                        assert(levels@[j] == old_l[j]);
                        lemma_lookup_at(levels@, u, j);
                        lemma_lookup_at(old_l, u, j);
                    } else {
                        assert forall|j: int| 0 <= j < levels@.len() implies #[trigger] levels@[j].0@ != u by {
                            if j != i {
                                assert(levels@[j] == old_l[j]);
                            }
                        }
                        lemma_lookup_none(levels@, u);
                        lemma_lookup_none(old_l, u);
                    }
                }
                assert forall|u: Seq<char>| #[trigger] has_key(levels@, u) <==> (has_key(old_l, u) || u == key@) by {
                    if has_key(levels@, u) {
                        let j = choose|j: int| 0 <= j < levels@.len() && #[trigger] levels@[j].0@ == u;
                        assert(old_l[j].0@ == u);
                    }
                    if has_key(old_l, u) {
                        let j = choose|j: int| 0 <= j < old_l.len() && #[trigger] old_l[j].0@ == u;
                        assert(levels@[j].0@ == u);
                    }
                    if u == key@ {
                        assert(levels@[i as int].0@ == u);
                    }
                }
            }
        },
        None => {
            levels.push((key.to_string(), d));
            let ghost n = old_l.len() as int;
            assert forall|a: int, b: int| 0 <= a < b < levels@.len() implies #[trigger] levels@[a].0@ != #[trigger] levels@[b].0@ by {
                if b == n {
                    assert(old_l[a].0@ != key@);
                } else {
                    assert(old_l[a].0@ != old_l[b].0@);
                }
            }
            assert(levels@.drop_last() =~= old_l);
            assert forall|u: Seq<char>| #[trigger] has_key(levels@, u) <==> (has_key(old_l, u) || u == key@) by {
                if has_key(levels@, u) {
                    let j = choose|j: int| 0 <= j < levels@.len() && #[trigger] levels@[j].0@ == u;
                    if j < n {
                        assert(old_l[j].0@ == u);
                    }
                }
                if has_key(old_l, u) {
                    let j = choose|j: int| 0 <= j < old_l.len() && #[trigger] old_l[j].0@ == u;
                    assert(levels@[j].0@ == u);
                }
                if u == key@ {
                    assert(levels@[n].0@ == u);
                }
            }
        },
    }
}

/// The weight of a node in the termination measure: its level, or one
/// more than any level when it has none.
pub open spec fn level_weight(levels: Seq<(String, usize)>, u: Seq<char>) -> int {
    match lookup_level(levels, u) {
        Some(d) => d,
        None => usize::MAX + 1,
    }
}

/// The sum of the weights of the names of `us`.
pub open spec fn level_potential(us: Seq<Seq<char>>, levels: Seq<(String, usize)>) -> int
    decreases us.len(),
{
    if us.len() == 0 {
        0
    } else {
        level_potential(us.drop_last(), levels) + level_weight(levels, us.last())
    }
}

proof fn lemma_weight_nonneg(levels: Seq<(String, usize)>, u: Seq<char>)
    ensures
        level_weight(levels, u) >= 0,
    decreases levels.len(),
{
    if levels.len() > 0 && levels.last().0@ != u {
        lemma_weight_nonneg(levels.drop_last(), u);
    }
}

proof fn lemma_potential_nonneg(us: Seq<Seq<char>>, levels: Seq<(String, usize)>)
    ensures
        level_potential(us, levels) >= 0,
    decreases us.len(),
{
    if us.len() > 0 {
        lemma_potential_nonneg(us.drop_last(), levels);
        lemma_weight_nonneg(levels, us.last());
    }
}

/// Lowering weights lowers the potential, strictly when a name of `us`
/// gets strictly lighter.
proof fn lemma_potential_lower(us: Seq<Seq<char>>, old_l: Seq<(String, usize)>, new_l: Seq<(String, usize)>, k: Seq<char>)
    requires
        forall|u: Seq<char>| #[trigger] level_weight(new_l, u) <= level_weight(old_l, u),
    ensures
        level_potential(us, new_l) <= level_potential(us, old_l),
        us.contains(k) && level_weight(new_l, k) < level_weight(old_l, k) ==> level_potential(us, new_l) < level_potential(
            us,
            old_l,
        ),
    decreases us.len(),
{
    if us.len() > 0 {
        lemma_potential_lower(us.drop_last(), old_l, new_l, k);
        assert(level_weight(new_l, us.last()) <= level_weight(old_l, us.last()));
        if us.contains(k) && level_weight(new_l, k) < level_weight(old_l, k) {
            if us.last() != k {
                let i = choose|i: int| 0 <= i < us.len() && us[i] == k;
                assert(us.drop_last()[i] == k);
            }
        }
    }
}


/// A level is justified: a start method at level 0, or one step after a
/// node whose level is lower.
pub open spec fn level_justified(
    levels: Seq<(String, usize)>,
    st: Seq<String>,
    ls: Seq<(String, ListenerCondition)>,
    routers: Seq<String>,
    rps: Seq<(String, Vec<String>)>,
    v: Seq<char>,
    d: int,
) -> bool {
    ||| (str_views(st).contains(v) && d == 0)
    ||| exists|p: Seq<char>|
        #[trigger] flow_edge(ls, routers, rps, p, v) && lookup_level(levels, p) is Some && lookup_level(levels, p)->0 < d
}

/// `v` is an "AND" listener placed at `d`, one more than the highest level
/// of its trigger methods (under its last "AND" condition), which all have
/// levels.
pub open spec fn and_placed(levels: Seq<(String, usize)>, ls: Seq<(String, ListenerCondition)>, v: Seq<char>, d: int) -> bool {
    &&& exists|t: Seq<char>| #[trigger] and_edge_upto(ls, ls.len() as int, v, t) && lookup_level(levels, t) == Some(d - 1)
    &&& forall|t: Seq<char>|
        #[trigger] and_edge_upto(ls, ls.len() as int, v, t) ==> lookup_level(levels, t) is Some && lookup_level(levels, t)->0 < d
}

/// Levels once recorded in `l0` are the same in `l1`.
pub open spec fn levels_frozen(l0: Seq<(String, usize)>, l1: Seq<(String, usize)>) -> bool {
    forall|u: Seq<char>| #[trigger] lookup_level(l0, u) is Some ==> lookup_level(l1, u) == lookup_level(l0, u)
}

/// No recorded level is above `c`.
pub open spec fn levels_at_most(levels: Seq<(String, usize)>, c: int) -> bool {
    forall|u: Seq<char>| #[trigger] lookup_level(levels, u) is Some ==> lookup_level(levels, u)->0 <= c
}

/// Why `v` sits at level `d`, by the kind of condition: a start method at
/// level 0; one step after a node that triggers it as an "OR" listener or
/// through a router path; or an "AND" listener one step after the highest
/// of its trigger methods, once all of them have levels.
pub open spec fn level_typed(
    levels: Seq<(String, usize)>,
    st: Seq<String>,
    ls: Seq<(String, ListenerCondition)>,
    routers: Seq<String>,
    rps: Seq<(String, Vec<String>)>,
    v: Seq<char>,
    d: int,
) -> bool {
    ||| (str_views(st).contains(v) && d == 0)
    ||| exists|p: Seq<char>| #[trigger] or_edge_upto(ls, ls.len() as int, p, v) && lookup_level(levels, p) == Some(d - 1)
    ||| exists|p: Seq<char>| #[trigger] route_edge(ls, routers, rps, p, v) && lookup_level(levels, p) == Some(d - 1)
    ||| and_placed(levels, ls, v, d)
}

/// Every recorded level has a reason of its kind (see `level_typed`).
pub open spec fn levels_typed(
    levels: Seq<(String, usize)>,
    st: Seq<String>,
    ls: Seq<(String, ListenerCondition)>,
    routers: Seq<String>,
    rps: Seq<(String, Vec<String>)>,
) -> bool {
    forall|v: Seq<char>|
        #[trigger] lookup_level(levels, v) is Some ==> level_typed(levels, st, ls, routers, rps, v, lookup_level(levels, v)->0)
}

/// Levels that are only added to keep every reason.
proof fn lemma_typed_kept(
    l0: Seq<(String, usize)>,
    l1: Seq<(String, usize)>,
    st: Seq<String>,
    ls: Seq<(String, ListenerCondition)>,
    routers: Seq<String>,
    rps: Seq<(String, Vec<String>)>,
    v: Seq<char>,
    d: int,
)
    requires
        level_typed(l0, st, ls, routers, rps, v, d),
        levels_frozen(l0, l1),
    ensures
        level_typed(l1, st, ls, routers, rps, v, d),
{
    if exists|p: Seq<char>| #[trigger] or_edge_upto(ls, ls.len() as int, p, v) && lookup_level(l0, p) == Some(d - 1) {
        let p = choose|p: Seq<char>| #[trigger] or_edge_upto(ls, ls.len() as int, p, v) && lookup_level(l0, p) == Some(d - 1);
        assert(lookup_level(l1, p) == lookup_level(l0, p));
    } else if exists|p: Seq<char>| #[trigger] route_edge(ls, routers, rps, p, v) && lookup_level(l0, p) == Some(d - 1) {
        let p = choose|p: Seq<char>| #[trigger] route_edge(ls, routers, rps, p, v) && lookup_level(l0, p) == Some(d - 1);
        assert(lookup_level(l1, p) == lookup_level(l0, p));
    } else if and_placed(l0, ls, v, d) {
        let t = choose|t: Seq<char>| #[trigger] and_edge_upto(ls, ls.len() as int, v, t) && lookup_level(l0, t) == Some(d - 1);
        assert(lookup_level(l1, t) == lookup_level(l0, t));
        assert forall|t: Seq<char>| #[trigger] and_edge_upto(ls, ls.len() as int, v, t) implies lookup_level(l1, t) is Some
            && lookup_level(l1, t)->0 < d by {
            assert(lookup_level(l1, t) == lookup_level(l0, t));
        }
    }
}

/// Every recorded level is justified.
pub open spec fn levels_justified(
    levels: Seq<(String, usize)>,
    st: Seq<String>,
    ls: Seq<(String, ListenerCondition)>,
    routers: Seq<String>,
    rps: Seq<(String, Vec<String>)>,
) -> bool {
    forall|v: Seq<char>|
        #[trigger] lookup_level(levels, v) is Some ==> level_justified(levels, st, ls, routers, rps, v, lookup_level(levels, v)->0)
}

/// `p` is a walk from a start method along edges of the flow graph.
pub open spec fn start_walk(
    st: Seq<String>,
    ls: Seq<(String, ListenerCondition)>,
    routers: Seq<String>,
    rps: Seq<(String, Vec<String>)>,
    p: Seq<Seq<char>>,
) -> bool {
    &&& p.len() >= 1
    &&& str_views(st).contains(p[0])
    &&& forall|i: int| 0 <= i < p.len() - 1 ==> #[trigger] path_step(ls, routers, rps, p, i)
}

/// A start method reaches `v` in at most `d` steps.
pub open spec fn reached_within(
    st: Seq<String>,
    ls: Seq<(String, ListenerCondition)>,
    routers: Seq<String>,
    rps: Seq<(String, Vec<String>)>,
    v: Seq<char>,
    d: int,
) -> bool {
    exists|p: Seq<Seq<char>>| #[trigger] start_walk(st, ls, routers, rps, p) && p.len() <= d + 1 && p.last() == v
}

/// The level of `v` is justified and has a reason of its kind (an "AND"
/// listener only once all its trigger methods have levels), or `v` is a
/// method placed at the top level, no lower than any other.
pub open spec fn node_level_ok(
    levels: Seq<(String, usize)>,
    methods: Seq<String>,
    st: Seq<String>,
    ls: Seq<(String, ListenerCondition)>,
    routers: Seq<String>,
    rps: Seq<(String, Vec<String>)>,
    v: Seq<char>,
    d: int,
) -> bool {
    ||| (level_justified(levels, st, ls, routers, rps, v, d) && level_typed(levels, st, ls, routers, rps, v, d))
    ||| (str_views(methods).contains(v) && forall|w: Seq<char>| #[trigger] lookup_level(levels, w) is Some ==> lookup_level(levels, w)->0 <= d)
}

/// A node with a level below some other node's is reached from a start
/// method in at most that many steps.
pub proof fn lemma_lower_levels_reached(
    levels: Seq<(String, usize)>,
    methods: Seq<String>,
    st: Seq<String>,
    ls: Seq<(String, ListenerCondition)>,
    routers: Seq<String>,
    rps: Seq<(String, Vec<String>)>,
    v: Seq<char>,
    w: Seq<char>,
)
    requires
        forall|u: Seq<char>| #[trigger] lookup_level(levels, u) is Some ==> node_level_ok(levels, methods, st, ls, routers, rps, u, lookup_level(levels, u)->0),
        lookup_level(levels, v) is Some,
        lookup_level(levels, w) is Some,
        lookup_level(levels, v)->0 < lookup_level(levels, w)->0,
    ensures
        reached_within(st, ls, routers, rps, v, lookup_level(levels, v)->0),
    decreases lookup_level(levels, v)->0,
{
    let d = lookup_level(levels, v)->0;
    assert(node_level_ok(levels, methods, st, ls, routers, rps, v, d));
    if str_views(st).contains(v) && d == 0 {
        let p = seq![v];
        assert(start_walk(st, ls, routers, rps, p));
    } else {
        assert(level_justified(levels, st, ls, routers, rps, v, d));
        let p = choose|p: Seq<char>|
            #[trigger] flow_edge(ls, routers, rps, p, v) && lookup_level(levels, p) is Some && lookup_level(levels, p)->0 < d;
        let dp = lookup_level(levels, p)->0;
        assert(dp >= 0) by {
            lemma_weight_nonneg(levels, p);
        }
        lemma_lower_levels_reached(levels, methods, st, ls, routers, rps, p, w);
        let q = choose|q: Seq<Seq<char>>| #[trigger] start_walk(st, ls, routers, rps, q) && q.len() <= dp + 1 && q.last() == p;
        let q2 = q.push(v);
        assert forall|i: int| 0 <= i < q2.len() - 1 implies #[trigger] path_step(ls, routers, rps, q2, i) by {
            if i < q.len() - 1 {
                assert(path_step(ls, routers, rps, q, i));
            }
        }
        assert(start_walk(st, ls, routers, rps, q2));
    }
}

/// Give `l` the level `cur + 1` when that is lower than its level, or it
/// has none; whether it did.
fn relax_level(levels: &mut Vec<(String, usize)>, l: &str, cur: usize) -> (improved: bool)
    requires
        keys_distinct(old(levels)@),
        cur < usize::MAX,
    ensures
        keys_distinct(final(levels)@),
        improved == match lookup_level(old(levels)@, l@) {
            Some(x) => x > cur + 1,
            None => true,
        },
        improved ==> lookup_level(final(levels)@, l@) == Some(cur + 1),
        improved ==> forall|u: Seq<char>| u != l@ ==> #[trigger] lookup_level(final(levels)@, u) == lookup_level(old(levels)@, u),
        improved ==> forall|u: Seq<char>| #[trigger] has_key(final(levels)@, u) <==> (has_key(old(levels)@, u) || u == l@),
        improved ==> final(levels)@.len() == old(levels)@.len() + if has_key(old(levels)@, l@) {
            0int
        } else {
            1int
        },
        !improved ==> final(levels)@ == old(levels)@,
{
    let nl = cur + 1;
    let better = match get_level(levels, l) {
        Some(x) => x > nl,
        None => true,
    };
    if better {
        set_level(levels, l, nl);
    }
    better
}


proof fn lemma_relax_effects(
    old_l: Seq<(String, usize)>,
    new_l: Seq<(String, usize)>,
    st: Seq<String>,
    ls: Seq<(String, ListenerCondition)>,
    routers: Seq<String>,
    rps: Seq<(String, Vec<String>)>,
    current: Seq<char>,
    cur: int,
    l: Seq<char>,
)
    requires
        levels_justified(old_l, st, ls, routers, rps),
        lookup_level(old_l, current) == Some(cur),
        flow_edge(ls, routers, rps, current, l),
        lookup_level(new_l, l) == Some(cur + 1),
        forall|u: Seq<char>| u != l ==> #[trigger] lookup_level(new_l, u) == lookup_level(old_l, u),
        match lookup_level(old_l, l) {
            Some(x) => x > cur + 1,
            None => true,
        },
    ensures
        levels_justified(new_l, st, ls, routers, rps),
        forall|u: Seq<char>| #[trigger] level_weight(new_l, u) <= level_weight(old_l, u),
        level_weight(new_l, l) < level_weight(old_l, l),
        lookup_level(new_l, current) == Some(cur),
{
    assert(current != l);
    assert(cur + 1 <= usize::MAX) by {
        if lookup_level(old_l, l) is None {
            assert(lookup_level(new_l, l) == Some(cur + 1));
        }
        lemma_weight_bound(new_l, l);
    }
    assert forall|v: Seq<char>| #[trigger] lookup_level(new_l, v) is Some implies level_justified(
        new_l,
        st,
        ls,
        routers,
        rps,
        v,
        lookup_level(new_l, v)->0,
    ) by {
        if v == l {
            assert(flow_edge(ls, routers, rps, current, v));
        } else {
            assert(lookup_level(old_l, v) is Some);
            let d = lookup_level(old_l, v)->0;
            if !(str_views(st).contains(v) && d == 0) {
                let p = choose|p: Seq<char>|
                    #[trigger] flow_edge(ls, routers, rps, p, v) && lookup_level(old_l, p) is Some && lookup_level(old_l, p)->0 < d;
                assert(flow_edge(ls, routers, rps, p, v));
                if p != l {
                    assert(lookup_level(new_l, p) == lookup_level(old_l, p));
                }
            }
        }
    }
    assert forall|u: Seq<char>| #[trigger] level_weight(new_l, u) <= level_weight(old_l, u) by {
        if u != l {
            assert(lookup_level(new_l, u) == lookup_level(old_l, u));
        }
    }
}

proof fn lemma_weight_bound(levels: Seq<(String, usize)>, u: Seq<char>)
    ensures
        lookup_level(levels, u) is Some ==> 0 <= lookup_level(levels, u)->0 <= usize::MAX,
    decreases levels.len(),
{
    if levels.len() > 0 && levels.last().0@ != u {
        lemma_weight_bound(levels.drop_last(), u);
    }
}

/// Whether the two lists hold the same names.
fn same_names(a: &Vec<String>, b: &Vec<String>) -> (r: bool)
    ensures
        r == (forall|x: Seq<char>| str_views(a@).contains(x) <==> str_views(b@).contains(x)),
{
    let mut i: usize = 0;
    while i < a.len()
        invariant
            i <= a@.len(),
            forall|k: int| 0 <= k < i ==> str_views(b@).contains(#[trigger] a@[k]@),
        decreases a@.len() - i,
    {
        if !contains_str(b, a[i].as_str()) {
            assert(str_views(a@)[i as int] == a@[i as int]@);
            return false;
        }
        i += 1;
    }
    let mut j: usize = 0;
    while j < b.len()
        invariant
            j <= b@.len(),
            forall|k: int| 0 <= k < a@.len() ==> str_views(b@).contains(#[trigger] a@[k]@),
            forall|k: int| 0 <= k < j ==> str_views(a@).contains(#[trigger] b@[k]@),
        decreases b@.len() - j,
    {
        if !contains_str(a, b[j].as_str()) {
            assert(str_views(b@)[j as int] == b@[j as int]@);
            return false;
        }
        j += 1;
    }
    assert forall|x: Seq<char>| str_views(a@).contains(x) <==> str_views(b@).contains(x) by {
        if str_views(a@).contains(x) {
            let k = choose|k: int| 0 <= k < str_views(a@).len() && str_views(a@)[k] == x;
            assert(str_views(b@).contains(a@[k]@));
        }
        if str_views(b@).contains(x) {
            let k = choose|k: int| 0 <= k < str_views(b@).len() && str_views(b@)[k] == x;
            assert(str_views(a@).contains(b@[k]@));
        }
    }
    true
}

/// The names of a list, each once, in order of first appearance.
fn distinct_names(v: &Vec<String>) -> (r: Vec<String>)
    ensures
        forall|x: Seq<char>| #[trigger] str_views(r@).contains(x) <==> str_views(v@).contains(x),
        distinct_strs(r@),
{
    let mut r: Vec<String> = Vec::new();
    let mut i: usize = 0;
    while i < v.len()
        invariant
            i <= v@.len(),
            distinct_strs(r@),
            forall|x: Seq<char>| #[trigger] str_views(r@).contains(x) <==> str_views(v@.take(i as int)).contains(x),
        decreases v@.len() - i,
    {
        let ghost r0 = r@;
        assert(str_views(v@.take(i + 1)) =~= str_views(v@.take(i as int)).push(v@[i as int]@));
        if !contains_str(&r, v[i].as_str()) {
            r.push(v[i].clone());
            assert(str_views(r@) =~= str_views(r0).push(v@[i as int]@));
            assert(distinct_strs(r@)) by {
                assert forall|a: int, b: int| 0 <= a < b < r@.len() implies #[trigger] r@[a]@ != #[trigger] r@[b]@ by {
                    if b == r0.len() {
                        assert(str_views(r0)[a] == r0[a]@);
                    } else {
                        assert(r0[a]@ != r0[b]@);
                    }
                }
            }
            assert(str_views(r@)[r0.len() as int] == v@[i as int]@);
            assert forall|x: Seq<char>| str_views(r0).contains(x) implies str_views(r@).contains(x) by {
                let q = choose|q: int| 0 <= q < str_views(r0).len() && str_views(r0)[q] == x;
                assert(str_views(r@)[q] == x);
            }
            assert forall|x: Seq<char>| str_views(r@).contains(x) implies str_views(r0).contains(x) || x == v@[i as int]@ by {
                let q = choose|q: int| 0 <= q < str_views(r@).len() && str_views(r@)[q] == x;
                if q < r0.len() {
                    assert(str_views(r0)[q] == x);
                }
            }
        }
        assert(str_views(r@).contains(v@[i as int]@));
        assert forall|x: Seq<char>| #[trigger] str_views(r@).contains(x) <==> str_views(v@.take(i + 1)).contains(x) by {
            let sv1 = str_views(v@.take(i + 1));
            let sv0 = str_views(v@.take(i as int));
            if sv1.contains(x) && !sv0.contains(x) {
                let q = choose|q: int| 0 <= q < sv1.len() && sv1[q] == x;
                if q < i {
                    assert(sv0[q] == x);
                }
                assert(x == v@[i as int]@);
            }
            if sv0.contains(x) {
                let q = choose|q: int| 0 <= q < sv0.len() && sv0[q] == x;
                assert(sv1[q] == x);
                assert(str_views(r0).contains(x));
            }
            if x == v@[i as int]@ {
                assert(sv1[i as int] == x);
            }
            if str_views(r@).contains(x) {
                assert(str_views(r0).contains(x) || x == v@[i as int]@);
            }
        }
        i += 1;
    }
    assert(v@.take(i as int) =~= v@);
    r
}

/// Record `list` under `key`, in place of what was recorded there.
fn put_list(m: &mut Vec<(String, Vec<String>)>, key: &str, list: Vec<String>)
    requires
        set_map_wf(old(m)@),
        distinct_strs(list@),
    ensures
        set_map_wf(final(m)@),
        forall|p: Seq<char>, c: Seq<char>| #[trigger] has_child(final(m)@, p, c) <==> (has_child(old(m)@, p, c) && p != key@) || (p
            == key@ && str_views(list@).contains(c)),
{
    let ghost old_m = m@;
    let ghost lv = str_views(list@);
    match find_key(m, key) {
        Some(i) => {
            let k = m[i].0.clone();
            m.set(i, (k, list));
            assert forall|a: int, b: int| 0 <= a < b < m@.len() implies #[trigger] m@[a].0@ != #[trigger] m@[b].0@ by {
                assert(old_m[a].0@ != old_m[b].0@);
            }
            assert forall|j: int| 0 <= j < m@.len() implies distinct_strs(#[trigger] m@[j].1@) by {
                if j != i {
                    assert(m@[j] == old_m[j]);
                }
            }
            assert forall|p: Seq<char>, c: Seq<char>| #[trigger] has_child(m@, p, c) implies (has_child(old_m, p, c) && p != key@) || (p
                == key@ && lv.contains(c)) by {
                let j = choose|j: int| 0 <= j < m@.len() && #[trigger] m@[j].0@ == p && str_views(m@[j].1@).contains(c);
                if j != i {
                    assert(m@[j] == old_m[j]);
                    assert(old_m[j].0@ != old_m[i as int].0@ || j == i) by {
                        if j < i {
                            assert(old_m[j].0@ != old_m[i as int].0@);
                        } else {
                            assert(old_m[i as int].0@ != old_m[j].0@);
                        }
                    }
                }
            }
            assert forall|p: Seq<char>, c: Seq<char>| (has_child(old_m, p, c) && p != key@) || (p == key@ && lv.contains(c))
                implies #[trigger] has_child(m@, p, c) by {
                if p == key@ && lv.contains(c) {
                    assert(m@[i as int].0@ == p && str_views(m@[i as int].1@).contains(c));
                } else {
                    let j = choose|j: int| 0 <= j < old_m.len() && #[trigger] old_m[j].0@ == p && str_views(old_m[j].1@).contains(c);
                    assert(j != i);
                    assert(m@[j] == old_m[j]);
                }
            }
        },
        None => {
            m.push((key.to_string(), list));
            let ghost n = old_m.len() as int;
            assert forall|a: int, b: int| 0 <= a < b < m@.len() implies #[trigger] m@[a].0@ != #[trigger] m@[b].0@ by {
                if b == n {
                    assert(old_m[a].0@ != key@);
                } else {
                    assert(old_m[a].0@ != old_m[b].0@);
                }
            }
            assert forall|j: int| 0 <= j < m@.len() implies distinct_strs(#[trigger] m@[j].1@) by {
                if j < n {
                    assert(m@[j] == old_m[j]);
                }
            }
            assert forall|p: Seq<char>, c: Seq<char>| #[trigger] has_child(m@, p, c) implies (has_child(old_m, p, c) && p != key@) || (p
                == key@ && lv.contains(c)) by {
                let j = choose|j: int| 0 <= j < m@.len() && #[trigger] m@[j].0@ == p && str_views(m@[j].1@).contains(c);
                if j < n {
                    assert(m@[j] == old_m[j]);
                    assert(old_m[j].0@ != key@);
                }
            }
            assert forall|p: Seq<char>, c: Seq<char>| (has_child(old_m, p, c) && p != key@) || (p == key@ && lv.contains(c))
                implies #[trigger] has_child(m@, p, c) by {
                if p == key@ && lv.contains(c) {
                    assert(m@[n].0@ == p && str_views(m@[n].1@).contains(c));
                } else {
                    let j = choose|j: int| 0 <= j < old_m.len() && #[trigger] old_m[j].0@ == p && str_views(old_m[j].1@).contains(c);
                    assert(m@[j] == old_m[j]);
                }
            }
        },
    }
}


/// The state kept by the level walk: each node once; every node a start
/// method or a listener; levels below the number of nodes; every queued
/// node with a level; start methods at 0; every level justified.
pub open spec fn level_walk_inv(
    levels: Seq<(String, usize)>,
    queue: Seq<String>,
    st: Seq<String>,
    ls: Seq<(String, ListenerCondition)>,
    routers: Seq<String>,
    rps: Seq<(String, Vec<String>)>,
) -> bool {
    &&& keys_distinct(levels)
    &&& forall|u: Seq<char>| #[trigger] has_key(levels, u) ==> (str_views(st) + listener_names(ls)).contains(u)
    &&& forall|u: Seq<char>| #[trigger] lookup_level(levels, u) is Some ==> lookup_level(levels, u)->0 < levels.len()
    &&& forall|k: int| 0 <= k < queue.len() ==> #[trigger] lookup_level(levels, queue[k]@) is Some
    &&& forall|k: int| 0 <= k < st.len() ==> #[trigger] lookup_level(levels, st[k]@) == Some(0int)
    &&& levels_justified(levels, st, ls, routers, rps)
}

/// The target of an edge of the flow graph is a listener.
proof fn lemma_edge_target_named(
    ls: Seq<(String, ListenerCondition)>,
    routers: Seq<String>,
    rps: Seq<(String, Vec<String>)>,
    st: Seq<String>,
    a: Seq<char>,
    b: Seq<char>,
)
    requires
        flow_edge(ls, routers, rps, a, b),
    ensures
        (str_views(st) + listener_names(ls)).contains(b),
{
    let all = str_views(st) + listener_names(ls);
    if trigger_edge(ls, a, b) {
        let i = choose|i: int| #![trigger ls[i]] 0 <= i < ls.len() && ls[i].0@ == b && listener_methods(ls[i].1).contains(a);
        assert(all[str_views(st).len() + i] == b);
    } else {
        let (k, p) = choose|k: int, p: Seq<char>|
            #![trigger first_key_at(rps, a, k), trigger_edge(ls, p, b)]
            first_key_at(rps, a, k) && str_views(rps[k].1@).contains(p) && trigger_edge(ls, p, b);
        let i = choose|i: int| #![trigger ls[i]] 0 <= i < ls.len() && ls[i].0@ == b && listener_methods(ls[i].1).contains(p);
        assert(all[str_views(st).len() + i] == b);
    }
}

/// Reaching `l` from a node at level `cur` improves its recorded level:
/// it has none, or one deeper than `cur + 1`.
pub open spec fn relax_improves(levels: Seq<(String, usize)>, l: Seq<char>, cur: int) -> bool {
    match lookup_level(levels, l) {
        Some(x) => x > cur + 1,
        None => true,
    }
}

/// Record `cur + 1` as the level of `l` when that improves it (see
/// `relax_improves`), and then queue `l` when asked to always, or when it
/// has not been visited.
#[verifier::rlimit(100)]
fn relax_and_queue(
    levels: &mut Vec<(String, usize)>,
    queue: &mut Vec<String>,
    l: &String,
    cur: usize,
    queue_always: bool,
    visited: &Vec<String>,
    Ghost(st): Ghost<Seq<String>>,
    Ghost(ls): Ghost<Seq<(String, ListenerCondition)>>,
    Ghost(routers): Ghost<Seq<String>>,
    Ghost(rps): Ghost<Seq<(String, Vec<String>)>>,
    Ghost(current): Ghost<Seq<char>>,
)
    requires
        step_state(old(levels)@, old(queue)@, st, ls, routers, rps, current, cur as int),
        flow_edge(ls, routers, rps, current, l@),
        forall|x: Seq<char>| #[trigger] str_views(visited@).contains(x) ==> lookup_level(old(levels)@, x) is Some,
        or_edge_upto(ls, ls.len() as int, current, l@) || route_edge(ls, routers, rps, current, l@) || and_placed(
            old(levels)@,
            ls,
            l@,
            cur + 1,
        ),
    ensures
        relax_step(old(levels)@, old(queue)@, final(levels)@, final(queue)@, st, ls, routers, rps, current, cur as int),
        lookup_level(final(levels)@, l@) is Some,
        relax_improves(old(levels)@, l@, cur as int) ==> lookup_level(final(levels)@, l@) == Some(cur + 1),
        !relax_improves(old(levels)@, l@, cur as int) ==> final(levels)@ == old(levels)@,
        forall|u: Seq<char>| u != l@ ==> #[trigger] lookup_level(final(levels)@, u) == lookup_level(old(levels)@, u),
        final(queue)@ == if relax_improves(old(levels)@, l@, cur as int) && (queue_always || !str_views(visited@).contains(l@)) {
            old(queue)@.push(*l)
        } else {
            old(queue)@
        },
{
    let ghost uni = str_views(st) + listener_names(ls);
    let ghost old_l = levels@;
    let ghost old_q = queue@;
    proof {
        reveal(step_state);
        reveal(walk_state);
    }
    let n = levels.len();
    assert(cur < n);
    let improved = relax_level(levels, l.as_str(), cur);
    if improved {
        proof {
            lemma_relax_effects(old_l, levels@, st, ls, routers, rps, current, cur as int, l@);
            lemma_edge_target_named(ls, routers, rps, st, current, l@);
            lemma_potential_lower(uni, old_l, levels@, l@);
            assert forall|u: Seq<char>| #[trigger] lookup_level(levels@, u) is Some implies lookup_level(levels@, u)->0 < levels@.len() by {
                if u != l@ {
                    assert(lookup_level(levels@, u) == lookup_level(old_l, u));
                } else if has_key(old_l, l@) {
                    assert(lookup_level(old_l, l@) is Some) by {
                        let j = choose|j: int| 0 <= j < old_l.len() && #[trigger] old_l[j].0@ == l@;
                        lemma_lookup_at(old_l, l@, j);
                    }
                }
            }
            assert forall|k: int| 0 <= k < st.len() implies #[trigger] lookup_level(levels@, st[k]@) == Some(0int) by {
                if st[k]@ == l@ {
                    assert(lookup_level(old_l, st[k]@) == Some(0int));
                }
            }
            assert forall|k: int| 0 <= k < queue@.len() implies #[trigger] lookup_level(levels@, queue@[k]@) is Some by {
                assert(lookup_level(old_l, queue@[k]@) is Some);
                if queue@[k]@ != l@ {
                    assert(lookup_level(levels@, queue@[k]@) == lookup_level(old_l, queue@[k]@));
                }
            }
        }
        if queue_always || !contains_str(visited, l.as_str()) {
            let ghost q0 = queue@;
            queue.push(l.clone());
            assert forall|k: int| 0 <= k < queue@.len() implies #[trigger] lookup_level(levels@, queue@[k]@) is Some by {
                if k < q0.len() {
                    assert(queue@[k] == q0[k]);
                }
            }
        }
    } else {
        proof {
            lemma_potential_lower(uni, old_l, levels@, l@);
        }
    }
    proof {
        lemma_relax_typed(old_l, levels@, st, ls, routers, rps, current, cur as int, l@);
        reveal(relax_step);
        reveal(step_state);
        reveal(walk_state);
        if improved {
            assert(!str_views(visited@).contains(l@));
            assert(queue@.len() == old_q.len() + 1);
            assert(queue@[old_q.len() as int] == *l);
        }
        assert(queue@.subrange(0, old_q.len() as int) =~= old_q);
    }
}


/// Giving `l`, which has no level, the level `cur + 1` from `current` at
/// `cur`, for a reason of its kind, keeps every level's reason and leaves
/// the other levels as they were.
proof fn lemma_relax_typed(
    l0: Seq<(String, usize)>,
    l1: Seq<(String, usize)>,
    st: Seq<String>,
    ls: Seq<(String, ListenerCondition)>,
    routers: Seq<String>,
    rps: Seq<(String, Vec<String>)>,
    current: Seq<char>,
    cur: int,
    l: Seq<char>,
)
    requires
        levels_typed(l0, st, ls, routers, rps),
        lookup_level(l0, current) == Some(cur),
        levels_at_most(l0, cur + 1),
        or_edge_upto(ls, ls.len() as int, current, l) || route_edge(ls, routers, rps, current, l) || and_placed(l0, ls, l, cur + 1),
        forall|u: Seq<char>| u != l ==> #[trigger] lookup_level(l1, u) == lookup_level(l0, u),
        lookup_level(l0, l) is Some ==> lookup_level(l1, l) == lookup_level(l0, l),
        lookup_level(l0, l) is None ==> lookup_level(l1, l) == Some(cur + 1),
    ensures
        levels_typed(l1, st, ls, routers, rps),
        levels_frozen(l0, l1),
        levels_at_most(l1, cur + 1),
{
    assert(levels_frozen(l0, l1)) by {
        assert forall|u: Seq<char>| #[trigger] lookup_level(l0, u) is Some implies lookup_level(l1, u) == lookup_level(l0, u) by {
            if u != l {
                assert(lookup_level(l1, u) == lookup_level(l0, u));
            }
        }
    }
    assert forall|v: Seq<char>| #[trigger] lookup_level(l1, v) is Some implies level_typed(l1, st, ls, routers, rps, v, lookup_level(l1, v)->0) by {
        if v == l && lookup_level(l0, l) is None {
            assert(lookup_level(l1, current) == Some(cur));
            if or_edge_upto(ls, ls.len() as int, current, l) {
            } else if route_edge(ls, routers, rps, current, l) {
            } else {
                let t = choose|t: Seq<char>| #[trigger] and_edge_upto(ls, ls.len() as int, v, t) && lookup_level(l0, t) == Some(cur);
                assert(lookup_level(l1, t) == lookup_level(l0, t));
                assert forall|t: Seq<char>| #[trigger] and_edge_upto(ls, ls.len() as int, v, t) implies lookup_level(l1, t) is Some
                    && lookup_level(l1, t)->0 < cur + 1 by {
                    assert(lookup_level(l1, t) == lookup_level(l0, t));
                }
            }
        } else {
            assert(lookup_level(l1, v) == lookup_level(l0, v));
            lemma_typed_kept(l0, l1, st, ls, routers, rps, v, lookup_level(l1, v)->0);
        }
    }
    assert forall|u: Seq<char>| #[trigger] lookup_level(l1, u) is Some implies lookup_level(l1, u)->0 <= cur + 1 by {
        if u != l {
            assert(lookup_level(l1, u) == lookup_level(l0, u));
        }
    }
}

/// The walk's state while `current` is visited at level `cur`: the walk's
/// invariant, a reason for every level, `current` at `cur`, and no level
/// above `cur + 1`.
#[verifier::opaque]
spec fn step_state(
    levels: Seq<(String, usize)>,
    queue: Seq<String>,
    st: Seq<String>,
    ls: Seq<(String, ListenerCondition)>,
    routers: Seq<String>,
    rps: Seq<(String, Vec<String>)>,
    current: Seq<char>,
    cur: int,
) -> bool {
    &&& walk_state(levels, queue, st, ls, routers, rps)
    &&& lookup_level(levels, current) == Some(cur)
    &&& levels_at_most(levels, cur + 1)
}

/// The walk's invariant, and a reason for every level.
#[verifier::opaque]
spec fn walk_state(
    levels: Seq<(String, usize)>,
    queue: Seq<String>,
    st: Seq<String>,
    ls: Seq<(String, ListenerCondition)>,
    routers: Seq<String>,
    rps: Seq<(String, Vec<String>)>,
) -> bool {
    &&& level_walk_inv(levels, queue, st, ls, routers, rps)
    &&& levels_typed(levels, st, ls, routers, rps)
}

/// One step of the walk from `current` at level `cur`, from levels `l0` and
/// queue `q0` to `l1` and `q1`: the walk's invariant and every level's
/// reason still hold, `current` keeps its level, no level was dropped, and
/// each newly queued name was paid for by a drop of the potential.
#[verifier::opaque]
spec fn relax_step(
    l0: Seq<(String, usize)>,
    q0: Seq<String>,
    l1: Seq<(String, usize)>,
    q1: Seq<String>,
    st: Seq<String>,
    ls: Seq<(String, ListenerCondition)>,
    routers: Seq<String>,
    rps: Seq<(String, Vec<String>)>,
    current: Seq<char>,
    cur: int,
) -> bool {
    &&& step_state(l1, q1, st, ls, routers, rps, current, cur)
    &&& q1.len() >= q0.len()
    &&& level_potential(str_views(st) + listener_names(ls), l1) + (q1.len() - q0.len()) <= level_potential(
        str_views(st) + listener_names(ls),
        l0,
    )
    &&& levels_frozen(l0, l1)
    &&& q1.subrange(0, q0.len() as int) == q0
    &&& forall|k: int| q0.len() <= k < q1.len() ==> #[trigger] lookup_level(l1, q1[k]@) == Some(cur + 1)
    &&& forall|u: Seq<char>|
        #[trigger] lookup_level(l1, u) is Some && lookup_level(l0, u) is None ==> exists|k: int|
            q0.len() <= k < q1.len() && #[trigger] q1[k]@ == u
}

/// What one step of the walk keeps.
proof fn lemma_relax_step_parts(
    l0: Seq<(String, usize)>,
    q0: Seq<String>,
    l1: Seq<(String, usize)>,
    q1: Seq<String>,
    st: Seq<String>,
    ls: Seq<(String, ListenerCondition)>,
    routers: Seq<String>,
    rps: Seq<(String, Vec<String>)>,
    current: Seq<char>,
    cur: int,
)
    requires
        relax_step(l0, q0, l1, q1, st, ls, routers, rps, current, cur),
    ensures
        step_state(l1, q1, st, ls, routers, rps, current, cur),
        q1.len() >= q0.len(),
        level_potential(str_views(st) + listener_names(ls), l1) + (q1.len() - q0.len()) <= level_potential(
            str_views(st) + listener_names(ls),
            l0,
        ),
        levels_frozen(l0, l1),
        q1.subrange(0, q0.len() as int) == q0,
        forall|k: int| q0.len() <= k < q1.len() ==> #[trigger] lookup_level(l1, q1[k]@) == Some(cur + 1),
        forall|u: Seq<char>|
            #[trigger] lookup_level(l1, u) is Some && lookup_level(l0, u) is None ==> exists|k: int|
                q0.len() <= k < q1.len() && #[trigger] q1[k]@ == u,
{
    reveal(relax_step);
}

/// A step that does nothing.
proof fn lemma_relax_step_none(
    l0: Seq<(String, usize)>,
    q0: Seq<String>,
    st: Seq<String>,
    ls: Seq<(String, ListenerCondition)>,
    routers: Seq<String>,
    rps: Seq<(String, Vec<String>)>,
    current: Seq<char>,
    cur: int,
)
    requires
        step_state(l0, q0, st, ls, routers, rps, current, cur),
    ensures
        relax_step(l0, q0, l0, q0, st, ls, routers, rps, current, cur),
{
    reveal(relax_step);
    assert(q0.subrange(0, q0.len() as int) =~= q0);
}

/// The node being visited keeps its level.
proof fn lemma_step_state_current(
    levels: Seq<(String, usize)>,
    queue: Seq<String>,
    st: Seq<String>,
    ls: Seq<(String, ListenerCondition)>,
    routers: Seq<String>,
    rps: Seq<(String, Vec<String>)>,
    current: Seq<char>,
    cur: int,
)
    requires
        step_state(levels, queue, st, ls, routers, rps, current, cur),
    ensures
        lookup_level(levels, current) == Some(cur),
{
    reveal(step_state);
}

/// No level is above `cur + 1` while `current` is visited.
proof fn lemma_step_state_bound(
    levels: Seq<(String, usize)>,
    queue: Seq<String>,
    st: Seq<String>,
    ls: Seq<(String, ListenerCondition)>,
    routers: Seq<String>,
    rps: Seq<(String, Vec<String>)>,
    current: Seq<char>,
    cur: int,
    u: Seq<char>,
)
    requires
        step_state(levels, queue, st, ls, routers, rps, current, cur),
        lookup_level(levels, u) is Some,
    ensures
        lookup_level(levels, u)->0 <= cur + 1,
{
    reveal(step_state);
}

/// The walk's invariant and a reason for every level hold while `current`
/// is visited.
proof fn lemma_step_state_walk(
    levels: Seq<(String, usize)>,
    queue: Seq<String>,
    st: Seq<String>,
    ls: Seq<(String, ListenerCondition)>,
    routers: Seq<String>,
    rps: Seq<(String, Vec<String>)>,
    current: Seq<char>,
    cur: int,
)
    requires
        step_state(levels, queue, st, ls, routers, rps, current, cur),
    ensures
        walk_state(levels, queue, st, ls, routers, rps),
{
    reveal(step_state);
}

/// The walk keeps one level per name.
proof fn lemma_walk_state_keys(
    levels: Seq<(String, usize)>,
    queue: Seq<String>,
    st: Seq<String>,
    ls: Seq<(String, ListenerCondition)>,
    routers: Seq<String>,
    rps: Seq<(String, Vec<String>)>,
)
    requires
        walk_state(levels, queue, st, ls, routers, rps),
    ensures
        keys_distinct(levels),
{
    reveal(walk_state);
}

/// Two steps of the walk from the same node make one.
proof fn lemma_relax_step_chain(
    l0: Seq<(String, usize)>,
    q0: Seq<String>,
    l1: Seq<(String, usize)>,
    q1: Seq<String>,
    l2: Seq<(String, usize)>,
    q2: Seq<String>,
    st: Seq<String>,
    ls: Seq<(String, ListenerCondition)>,
    routers: Seq<String>,
    rps: Seq<(String, Vec<String>)>,
    current: Seq<char>,
    cur: int,
)
    requires
        relax_step(l0, q0, l1, q1, st, ls, routers, rps, current, cur),
        relax_step(l1, q1, l2, q2, st, ls, routers, rps, current, cur),
    ensures
        relax_step(l0, q0, l2, q2, st, ls, routers, rps, current, cur),
{
    reveal(relax_step);
    assert forall|u: Seq<char>| #[trigger] lookup_level(l0, u) is Some implies lookup_level(l2, u) == lookup_level(l0, u) by {
        assert(lookup_level(l1, u) == lookup_level(l0, u));
    }
    assert forall|k: int| 0 <= k < q0.len() implies q2[k] == q0[k] by {
        assert(q2.subrange(0, q1.len() as int)[k] == q1[k]);
        assert(q1.subrange(0, q0.len() as int)[k] == q0[k]);
    }
    assert(q2.subrange(0, q0.len() as int) =~= q0);
    assert forall|k: int| q0.len() <= k < q2.len() implies #[trigger] lookup_level(l2, q2[k]@) == Some(cur + 1) by {
        if k < q1.len() {
            assert(q2.subrange(0, q1.len() as int)[k] == q1[k]);
            assert(lookup_level(l1, q1[k]@) == Some(cur + 1));
        }
    }
    assert forall|u: Seq<char>| #[trigger] lookup_level(l2, u) is Some && lookup_level(l0, u) is None implies exists|k: int|
        q0.len() <= k < q2.len() && #[trigger] q2[k]@ == u by {
        if lookup_level(l1, u) is Some {
            let k = choose|k: int| q0.len() <= k < q1.len() && #[trigger] q1[k]@ == u;
            assert(q2.subrange(0, q1.len() as int)[k] == q1[k]);
            assert(q2[k]@ == u);
        } else {
            let k = choose|k: int| q1.len() <= k < q2.len() && #[trigger] q2[k]@ == u;
        }
    }
}

/// An "OR" listener edge is an edge of the flow graph.
proof fn lemma_or_edge_flows(
    ls: Seq<(String, ListenerCondition)>,
    routers: Seq<String>,
    rps: Seq<(String, Vec<String>)>,
    a: Seq<char>,
    b: Seq<char>,
)
    requires
        or_edge_upto(ls, ls.len() as int, a, b),
    ensures
        flow_edge(ls, routers, rps, a, b),
{
    let i = choose|i: int| i < ls.len() && #[trigger] or_listener_at(ls, i, a, b);
    assert(ls[i].0@ == b);
}

/// An "AND" listener edge is an edge of the flow graph.
proof fn lemma_and_edge_flows(
    ls: Seq<(String, ListenerCondition)>,
    routers: Seq<String>,
    rps: Seq<(String, Vec<String>)>,
    l: Seq<char>,
    t: Seq<char>,
)
    requires
        and_edge_upto(ls, ls.len() as int, l, t),
    ensures
        flow_edge(ls, routers, rps, t, l),
{
    let i = choose|i: int| #[trigger] last_and_at(ls, ls.len() as int, i, l, t);
    assert(ls[i].0@ == l);
}

/// Every trigger method of the "AND" listener `l` is among `done`, or is
/// `extra`.
spec fn and_triggers_among(ls: Seq<(String, ListenerCondition)>, l: Seq<char>, done: Seq<String>, extra: Seq<char>) -> bool {
    forall|t: Seq<char>| #[trigger] and_edge_upto(ls, ls.len() as int, l, t) ==> str_views(done).contains(t) || t == extra
}

/// Every trigger method of the "AND" listener `l` is among `done`.
spec fn and_triggers_taken(ls: Seq<(String, ListenerCondition)>, l: Seq<char>, done: Seq<String>) -> bool {
    forall|t: Seq<char>| #[trigger] and_edge_upto(ls, ls.len() as int, l, t) ==> str_views(done).contains(t)
}

/// Every trigger method of the "AND" listener `l` has a level.
pub open spec fn and_triggers_placed(levels: Seq<(String, usize)>, ls: Seq<(String, ListenerCondition)>, l: Seq<char>) -> bool {
    forall|t: Seq<char>| #[trigger] and_edge_upto(ls, ls.len() as int, l, t) ==> lookup_level(levels, t) is Some
}

/// The names taken after `qa[ha]` are those taken before, and `qa[ha]`.
proof fn lemma_taken_step(qa: Seq<String>, q1: Seq<String>, ha: int)
    requires
        0 <= ha < qa.len(),
        qa.len() <= q1.len(),
        q1.subrange(0, qa.len() as int) == qa,
    ensures
        forall|b: Seq<char>|
            #[trigger] str_views(q1.subrange(0, ha + 1)).contains(b) <==> (str_views(qa.subrange(0, ha)).contains(b) || b == qa[ha]@),
{
    assert forall|k: int| 0 <= k < ha + 1 implies q1[k] == qa[k] by {
        assert(q1.subrange(0, qa.len() as int)[k] == qa[k]);
    }
    assert(q1.subrange(0, ha + 1) =~= qa.subrange(0, ha).push(qa[ha]));
    assert(str_views(q1.subrange(0, ha + 1)) =~= str_views(qa.subrange(0, ha)).push(qa[ha]@));
    assert forall|b: Seq<char>|
        #[trigger] str_views(q1.subrange(0, ha + 1)).contains(b) <==> (str_views(qa.subrange(0, ha)).contains(b) || b == qa[ha]@) by {
        let old_v = str_views(qa.subrange(0, ha));
        if old_v.contains(b) {
            let i = choose|i: int| 0 <= i < old_v.len() && old_v[i] == b;
            assert(old_v.push(qa[ha]@)[i] == b);
        }
        if b == qa[ha]@ {
            assert(old_v.push(qa[ha]@)[old_v.len() as int] == b);
        }
        if old_v.push(qa[ha]@).contains(b) {
            let i = choose|i: int| 0 <= i < old_v.len() + 1 && old_v.push(qa[ha]@)[i] == b;
            if i < old_v.len() {
                assert(old_v[i] == b);
            }
        }
    }
}

/// Relax every "OR" listener in `ors`, each triggered by `current`.
fn relax_or_listeners(
    levels: &mut Vec<(String, usize)>,
    queue: &mut Vec<String>,
    ors: &Vec<String>,
    cur: usize,
    visited: &Vec<String>,
    Ghost(st): Ghost<Seq<String>>,
    Ghost(ls): Ghost<Seq<(String, ListenerCondition)>>,
    Ghost(routers): Ghost<Seq<String>>,
    Ghost(rps): Ghost<Seq<(String, Vec<String>)>>,
    Ghost(current): Ghost<Seq<char>>,
)
    requires
        step_state(old(levels)@, old(queue)@, st, ls, routers, rps, current, cur as int),
        forall|x: Seq<char>| #[trigger] str_views(visited@).contains(x) ==> lookup_level(old(levels)@, x) is Some,
        forall|l: Seq<char>| #[trigger] str_views(ors@).contains(l) ==> or_edge_upto(ls, ls.len() as int, current, l),
    ensures
        relax_step(old(levels)@, old(queue)@, final(levels)@, final(queue)@, st, ls, routers, rps, current, cur as int),
        forall|l: Seq<char>| #[trigger] str_views(ors@).contains(l) ==> lookup_level(final(levels)@, l) is Some,
{
    let ghost l0 = levels@;
    let ghost q0 = queue@;
    proof {
        lemma_relax_step_none(l0, q0, st, ls, routers, rps, current, cur as int);
    }
    let mut t: usize = 0;
    while t < ors.len()
        invariant
            t <= ors@.len(),
            forall|l: Seq<char>| #[trigger] str_views(ors@).contains(l) ==> or_edge_upto(ls, ls.len() as int, current, l),
            forall|x: Seq<char>| #[trigger] str_views(visited@).contains(x) ==> lookup_level(l0, x) is Some,
            relax_step(l0, q0, levels@, queue@, st, ls, routers, rps, current, cur as int),
            forall|s: int| 0 <= s < t ==> #[trigger] lookup_level(levels@, ors@[s]@) is Some,
        decreases ors@.len() - t,
    {
        let ghost l1 = levels@;
        let ghost q1 = queue@;
        proof {
            lemma_relax_step_parts(l0, q0, l1, q1, st, ls, routers, rps, current, cur as int);
            assert(str_views(ors@)[t as int] == ors@[t as int]@);
            assert(str_views(ors@).contains(ors@[t as int]@));
            lemma_or_edge_flows(ls, routers, rps, current, ors@[t as int]@);
            assert forall|x: Seq<char>| #[trigger] str_views(visited@).contains(x) implies lookup_level(l1, x) is Some by {
                assert(lookup_level(l0, x) is Some);
            }
        }
        relax_and_queue(levels, queue, &ors[t], cur, false, visited, Ghost(st), Ghost(ls), Ghost(routers), Ghost(rps), Ghost(current));
        proof {
            lemma_relax_step_chain(l0, q0, l1, q1, levels@, queue@, st, ls, routers, rps, current, cur as int);
            lemma_relax_step_parts(l1, q1, levels@, queue@, st, ls, routers, rps, current, cur as int);
            assert forall|s: int| 0 <= s < t + 1 implies #[trigger] lookup_level(levels@, ors@[s]@) is Some by {
                if s < t {
                    assert(lookup_level(l1, ors@[s]@) is Some);
                }
            }
        }
        t += 1;
    }
    proof {
        assert forall|l: Seq<char>| #[trigger] str_views(ors@).contains(l) implies lookup_level(levels@, l) is Some by {
            let s = choose|s: int| 0 <= s < str_views(ors@).len() && str_views(ors@)[s] == l;
            assert(ors@[s]@ == l);
        }
    }
}

/// Record `current` as reached for every "AND" listener that waits on it,
/// and relax each whose trigger methods have now all been reached.
fn relax_and_listeners(
    levels: &mut Vec<(String, usize)>,
    queue: &mut Vec<String>,
    pending: &mut Vec<(String, Vec<String>)>,
    and_map: &Vec<(String, Vec<String>)>,
    current: &String,
    cur: usize,
    visited: &Vec<String>,
    Ghost(st): Ghost<Seq<String>>,
    Ghost(ls): Ghost<Seq<(String, ListenerCondition)>>,
    Ghost(routers): Ghost<Seq<String>>,
    Ghost(rps): Ghost<Seq<(String, Vec<String>)>>,
    Ghost(done): Ghost<Seq<String>>,
)
    requires
        step_state(old(levels)@, old(queue)@, st, ls, routers, rps, current@, cur as int),
        forall|a: Seq<char>, b: Seq<char>|
            #[trigger] has_child(old(pending)@, a, b) <==> (and_edge_upto(ls, ls.len() as int, a, b) && str_views(done).contains(b)),
        forall|x: Seq<char>| #[trigger] str_views(visited@).contains(x) ==> lookup_level(old(levels)@, x) is Some,
        set_map_wf(and_map@),
        set_map_wf(old(pending)@),
        forall|l: Seq<char>, t: Seq<char>| #[trigger] has_child(and_map@, l, t) <==> and_edge_upto(ls, ls.len() as int, l, t),
        forall|a: Seq<char>, b: Seq<char>| #[trigger] has_child(old(pending)@, a, b) ==> lookup_level(old(levels)@, b) is Some
            && lookup_level(old(levels)@, b)->0 <= cur,
    ensures
        relax_step(old(levels)@, old(queue)@, final(levels)@, final(queue)@, st, ls, routers, rps, current@, cur as int),
        set_map_wf(final(pending)@),
        forall|a: Seq<char>, b: Seq<char>| #[trigger] has_child(final(pending)@, a, b) ==> lookup_level(final(levels)@, b) is Some
            && lookup_level(final(levels)@, b)->0 <= cur,
        forall|a: Seq<char>, b: Seq<char>|
            #[trigger] has_child(final(pending)@, a, b) <==> (and_edge_upto(ls, ls.len() as int, a, b) && (str_views(done).contains(b)
                || b == current@)),
        forall|l: Seq<char>|
            #[trigger] and_edge_upto(ls, ls.len() as int, l, current@) && and_triggers_among(ls, l, done, current@) ==> lookup_level(
                final(levels)@,
                l,
            ) is Some,
{
    let ghost l0 = levels@;
    let ghost q0 = queue@;
    proof {
        lemma_relax_step_none(l0, q0, st, ls, routers, rps, current@, cur as int);
    }
    let mut k: usize = 0;
    while k < and_map.len()
        invariant
            k <= and_map@.len(),
            set_map_wf(and_map@),
            set_map_wf(pending@),
            forall|x: Seq<char>| #[trigger] str_views(visited@).contains(x) ==> lookup_level(l0, x) is Some,
            forall|l: Seq<char>, t: Seq<char>| #[trigger] has_child(and_map@, l, t) <==> and_edge_upto(ls, ls.len() as int, l, t),
            forall|a: Seq<char>, b: Seq<char>| #[trigger] has_child(pending@, a, b) ==> lookup_level(levels@, b) is Some
                && lookup_level(levels@, b)->0 <= cur,
            relax_step(l0, q0, levels@, queue@, st, ls, routers, rps, current@, cur as int),
            forall|a: Seq<char>, b: Seq<char>|
                #[trigger] has_child(pending@, a, b) <==> (and_edge_upto(ls, ls.len() as int, a, b) && (str_views(done).contains(b)
                    || (b == current@ && exists|i: int|
                    0 <= i < k && #[trigger] and_map@[i].0@ == a && str_views(and_map@[i].1@).contains(current@)))),
            forall|i: int|
                0 <= i < k && str_views(and_map@[i].1@).contains(current@) && and_triggers_among(ls, #[trigger] and_map@[i].0@, done, current@)
                    ==> lookup_level(levels@, and_map@[i].0@) is Some,
        decreases and_map@.len() - k,
    {
        proof {
            lemma_relax_step_parts(l0, q0, levels@, queue@, st, ls, routers, rps, current@, cur as int);
            lemma_step_state_current(levels@, queue@, st, ls, routers, rps, current@, cur as int);
        }
        let ghost lk = levels@;
        if contains_str(&and_map[k].1, current.as_str()) {
            let ghost name = and_map@[k as int].0@;
            let ghost pd0 = pending@;
            add_child(pending, and_map[k].0.as_str(), current.as_str());
            assert forall|a: Seq<char>, b: Seq<char>| #[trigger] has_child(pending@, a, b) implies lookup_level(levels@, b) is Some
                && lookup_level(levels@, b)->0 <= cur by {
                if !has_child(pd0, a, b) {
                    assert(b == current@);
                }
            }
            assert(has_child(and_map@, name, current@));
            assert forall|a: Seq<char>, b: Seq<char>|
                #[trigger] has_child(pending@, a, b) <==> (and_edge_upto(ls, ls.len() as int, a, b) && (str_views(done).contains(b)
                    || (b == current@ && exists|i: int|
                    0 <= i < k + 1 && #[trigger] and_map@[i].0@ == a && str_views(and_map@[i].1@).contains(current@)))) by {
                if a == name && b == current@ {
                    assert(and_map@[k as int].0@ == a);
                }
                if b == current@ && exists|i: int|
                    0 <= i < k + 1 && #[trigger] and_map@[i].0@ == a && str_views(and_map@[i].1@).contains(current@) {
                    let i = choose|i: int| 0 <= i < k + 1 && #[trigger] and_map@[i].0@ == a && str_views(and_map@[i].1@).contains(current@);
                    assert(has_child(and_map@, a, b));
                    assert(and_edge_upto(ls, ls.len() as int, a, b));
                    if i < k {
                        assert(has_child(pd0, a, b));
                    }
                }
            }
            let entry = get_list(pending, and_map[k].0.as_str());
            let same = same_names(&and_map[k].1, &entry);
            proof {
                if and_triggers_among(ls, name, done, current@) {
                    assert forall|x: Seq<char>| str_views(and_map@[k as int].1@).contains(x) <==> str_views(entry@).contains(x) by {
                        if str_views(and_map@[k as int].1@).contains(x) {
                            assert(has_child(and_map@, name, x));
                            assert(and_edge_upto(ls, ls.len() as int, name, x));
                            if x == current@ {
                                assert(and_map@[k as int].0@ == name);
                            }
                            assert(has_child(pending@, name, x));
                        }
                        if str_views(entry@).contains(x) {
                            assert(has_child(pending@, name, x));
                            assert(has_child(and_map@, name, x));
                            let i = choose|i: int|
                                0 <= i < and_map@.len() && #[trigger] and_map@[i].0@ == name && str_views(and_map@[i].1@).contains(x);
                            if i != k {
                                if i < k {
                                    assert(and_map@[i].0@ != and_map@[k as int].0@);
                                } else {
                                    assert(and_map@[k as int].0@ != and_map@[i].0@);
                                }
                            }
                        }
                    }
                    assert(same);
                }
            }
            if same {
                let ghost l1 = levels@;
                let ghost q1 = queue@;
                proof {
                    lemma_relax_step_parts(l0, q0, l1, q1, st, ls, routers, rps, current@, cur as int);
                    lemma_and_edge_flows(ls, routers, rps, name, current@);
                    assert forall|t: Seq<char>| #[trigger] and_edge_upto(ls, ls.len() as int, name, t) implies lookup_level(
                        l1,
                        t,
                    ) is Some && lookup_level(l1, t)->0 < cur + 1 by {
                        assert(has_child(and_map@, name, t));
                        let i = choose|i: int|
                            0 <= i < and_map@.len() && #[trigger] and_map@[i].0@ == name && str_views(and_map@[i].1@).contains(t);
                        if i != k {
                            if i < k {
                                assert(and_map@[i].0@ != and_map@[k as int].0@);
                            } else {
                                assert(and_map@[k as int].0@ != and_map@[i].0@);
                            }
                        }
                        assert(str_views(entry@).contains(t));
                        assert(has_child(pending@, name, t));
                    }
                    assert(and_edge_upto(ls, ls.len() as int, name, current@));
                    assert(and_placed(l1, ls, name, cur + 1));
                    assert forall|x: Seq<char>| #[trigger] str_views(visited@).contains(x) implies lookup_level(l1, x) is Some by {
                        assert(lookup_level(l0, x) is Some);
                    }
                }
                relax_and_queue(levels, queue, &and_map[k].0, cur, false, visited, Ghost(st), Ghost(ls), Ghost(routers), Ghost(rps), Ghost(current@));
                proof {
                    lemma_relax_step_chain(l0, q0, l1, q1, levels@, queue@, st, ls, routers, rps, current@, cur as int);
                    lemma_relax_step_parts(l1, q1, levels@, queue@, st, ls, routers, rps, current@, cur as int);
                    assert forall|a: Seq<char>, b: Seq<char>| #[trigger] has_child(pending@, a, b) implies lookup_level(levels@, b) is Some
                        && lookup_level(levels@, b)->0 <= cur by {
                        assert(lookup_level(l1, b) is Some);
                    }
                }
            }
        }
        assert(levels_frozen(lk, levels@));
        assert forall|i: int|
            0 <= i < k + 1 && str_views(and_map@[i].1@).contains(current@) && and_triggers_among(ls, #[trigger] and_map@[i].0@, done, current@)
                implies lookup_level(levels@, and_map@[i].0@) is Some by {
            if i < k {
                assert(lookup_level(lk, and_map@[i].0@) is Some);
            }
        }
        k += 1;
    }
    proof {
        assert forall|a: Seq<char>, b: Seq<char>|
            #[trigger] has_child(pending@, a, b) <==> (and_edge_upto(ls, ls.len() as int, a, b) && (str_views(done).contains(b)
                || b == current@)) by {
            if b == current@ && and_edge_upto(ls, ls.len() as int, a, b) {
                assert(has_child(and_map@, a, b));
                let i = choose|i: int| 0 <= i < and_map@.len() && #[trigger] and_map@[i].0@ == a && str_views(and_map@[i].1@).contains(b);
            }
        }
        assert forall|l: Seq<char>|
            #[trigger] and_edge_upto(ls, ls.len() as int, l, current@) && and_triggers_among(ls, l, done, current@) implies lookup_level(
                levels@,
                l,
            ) is Some by {
            assert(has_child(and_map@, l, current@));
            let i = choose|i: int| 0 <= i < and_map@.len() && #[trigger] and_map@[i].0@ == l && str_views(and_map@[i].1@).contains(current@);
        }
    }
}

/// Relax every listener that one of `paths`, the paths of the router
/// `current`, triggers.
fn relax_router_paths(
    levels: &mut Vec<(String, usize)>,
    queue: &mut Vec<String>,
    paths: &Vec<String>,
    listeners: &Vec<(String, ListenerCondition)>,
    cur: usize,
    visited: &Vec<String>,
    Ghost(st): Ghost<Seq<String>>,
    Ghost(routers): Ghost<Seq<String>>,
    Ghost(rps): Ghost<Seq<(String, Vec<String>)>>,
    Ghost(current): Ghost<Seq<char>>,
    Ghost(rk): Ghost<int>,
)
    requires
        step_state(old(levels)@, old(queue)@, st, listeners@, routers, rps, current, cur as int),
        forall|x: Seq<char>| #[trigger] str_views(visited@).contains(x) ==> lookup_level(old(levels)@, x) is Some,
        str_views(routers).contains(current),
        first_key_at(rps, current, rk),
        paths@ == rps[rk].1@,
    ensures
        relax_step(old(levels)@, old(queue)@, final(levels)@, final(queue)@, st, listeners@, routers, rps, current, cur as int),
        forall|v: Seq<char>| #[trigger] route_edge(listeners@, routers, rps, current, v) ==> lookup_level(final(levels)@, v) is Some,
{
    let ghost ls = listeners@;
    let ghost l0 = levels@;
    let ghost q0 = queue@;
    proof {
        lemma_relax_step_none(l0, q0, st, ls, routers, rps, current, cur as int);
    }
    let mut q: usize = 0;
    while q < paths.len()
        invariant
            q <= paths@.len(),
            ls == listeners@,
            str_views(routers).contains(current),
            first_key_at(rps, current, rk),
            paths@ == rps[rk].1@,
            forall|x: Seq<char>| #[trigger] str_views(visited@).contains(x) ==> lookup_level(l0, x) is Some,
            relax_step(l0, q0, levels@, queue@, st, ls, routers, rps, current, cur as int),
            forall|a: int, i: int|
                0 <= a < q && 0 <= i < ls.len() && listener_methods(ls[i].1).contains(#[trigger] paths@[a]@) ==> lookup_level(
                    levels@,
                    #[trigger] ls[i].0@,
                ) is Some,
        decreases paths@.len() - q,
    {
        let path = paths[q].as_str();
        let mut j: usize = 0;
        while j < listeners.len()
            invariant
                q < paths@.len(),
                path@ == paths@[q as int]@,
                j <= ls.len(),
                ls == listeners@,
                str_views(routers).contains(current),
                first_key_at(rps, current, rk),
                paths@ == rps[rk].1@,
                forall|x: Seq<char>| #[trigger] str_views(visited@).contains(x) ==> lookup_level(l0, x) is Some,
                relax_step(l0, q0, levels@, queue@, st, ls, routers, rps, current, cur as int),
                forall|a: int, i: int|
                    0 <= a < q && 0 <= i < ls.len() && listener_methods(ls[i].1).contains(#[trigger] paths@[a]@) ==> lookup_level(
                        levels@,
                        #[trigger] ls[i].0@,
                    ) is Some,
                forall|i: int|
                    0 <= i < j && listener_methods(ls[i].1).contains(path@) ==> lookup_level(levels@, #[trigger] ls[i].0@) is Some,
            decreases ls.len() - j,
        {
            let trig = extract_methods_from_listener(&listeners[j].1);
            if contains_str(&trig, path) {
                let ghost l1 = levels@;
                let ghost q1 = queue@;
                proof {
                    lemma_relax_step_parts(l0, q0, l1, q1, st, ls, routers, rps, current, cur as int);
                    assert(trigger_edge(ls, path@, ls[j as int].0@));
                    assert(str_views(paths@)[q as int] == path@);
                    assert(route_edge(ls, routers, rps, current, ls[j as int].0@));
                    assert forall|x: Seq<char>| #[trigger] str_views(visited@).contains(x) implies lookup_level(l1, x) is Some by {
                        assert(lookup_level(l0, x) is Some);
                    }
                }
                relax_and_queue(levels, queue, &listeners[j].0, cur, true, visited, Ghost(st), Ghost(ls), Ghost(routers), Ghost(rps), Ghost(current));
                proof {
                    lemma_relax_step_chain(l0, q0, l1, q1, levels@, queue@, st, ls, routers, rps, current, cur as int);
                    lemma_relax_step_parts(l1, q1, levels@, queue@, st, ls, routers, rps, current, cur as int);
                    assert forall|a: int, i: int|
                        0 <= a < q && 0 <= i < ls.len() && listener_methods(ls[i].1).contains(#[trigger] paths@[a]@) implies lookup_level(
                            levels@,
                            #[trigger] ls[i].0@,
                        ) is Some by {
                        assert(lookup_level(l1, ls[i].0@) is Some);
                    }
                    assert forall|i: int|
                        0 <= i < j + 1 && listener_methods(ls[i].1).contains(path@) implies lookup_level(levels@, #[trigger] ls[i].0@) is Some by {
                        if i < j {
                            assert(lookup_level(l1, ls[i].0@) is Some);
                        }
                    }
                }
            }
            j += 1;
        }
        proof {
            assert forall|a: int, i: int|
                0 <= a < q + 1 && 0 <= i < ls.len() && listener_methods(ls[i].1).contains(#[trigger] paths@[a]@) implies lookup_level(
                    levels@,
                    #[trigger] ls[i].0@,
                ) is Some by {
                if a == q {
                    assert(paths@[a]@ == path@);
                }
            }
        }
        q += 1;
    }
    proof {
        assert forall|v: Seq<char>| #[trigger] route_edge(ls, routers, rps, current, v) implies lookup_level(levels@, v) is Some by {
            let (k2, p) = choose|k2: int, p: Seq<char>|
                #![trigger first_key_at(rps, current, k2), trigger_edge(ls, p, v)]
                first_key_at(rps, current, k2) && str_views(rps[k2].1@).contains(p) && trigger_edge(ls, p, v);
            if k2 != rk {
                if k2 < rk {
                    assert(rps[k2].0@ != current);
                } else {
                    assert(rps[rk].0@ != current);
                }
            }
            let a = choose|a: int| 0 <= a < str_views(paths@).len() && str_views(paths@)[a] == p;
            assert(paths@[a]@ == p);
            let i = choose|i: int| #![trigger ls[i]] 0 <= i < ls.len() && ls[i].0@ == v && listener_methods(ls[i].1).contains(p);
            assert(listener_methods(ls[i].1).contains(paths@[a]@));
        }
    }
}

/// Every recorded `(trigger, listener)` pair is a listener edge.
pub open spec fn or_sound(m: Seq<(String, Vec<String>)>, ls: Seq<(String, ListenerCondition)>) -> bool {
    forall|t: Seq<char>, l: Seq<char>| #[trigger] has_child(m, t, l) ==> trigger_edge(ls, t, l)
}

/// Every recorded `(listener, trigger)` pair is a listener edge.
pub open spec fn and_sound(m: Seq<(String, Vec<String>)>, ls: Seq<(String, ListenerCondition)>) -> bool {
    forall|l: Seq<char>, t: Seq<char>| #[trigger] has_child(m, l, t) ==> trigger_edge(ls, t, l)
}

/// The `i`-th listener is an "OR" listener named `l` that `t` triggers.
pub open spec fn or_listener_at(ls: Seq<(String, ListenerCondition)>, i: int, t: Seq<char>, l: Seq<char>) -> bool {
    &&& 0 <= i < ls.len()
    &&& ls[i].0@ == l
    &&& listener_type(ls[i].1) == "OR"@
    &&& listener_methods(ls[i].1).contains(t)
}

/// One of the first `n` listeners is an "OR" listener named `l` that `t`
/// triggers.
pub open spec fn or_edge_upto(ls: Seq<(String, ListenerCondition)>, n: int, t: Seq<char>, l: Seq<char>) -> bool {
    exists|i: int| i < n && #[trigger] or_listener_at(ls, i, t, l)
}

/// The `i`-th listener, among the first `n`, is the last "AND" listener
/// named `l` there, and `t` is among its trigger methods.
pub open spec fn last_and_at(ls: Seq<(String, ListenerCondition)>, n: int, i: int, l: Seq<char>, t: Seq<char>) -> bool {
    &&& 0 <= i < n
    &&& i < ls.len()
    &&& ls[i].0@ == l
    &&& listener_type(ls[i].1) == "AND"@
    &&& listener_methods(ls[i].1).contains(t)
    &&& forall|k: int| i < k < n && k < ls.len() && #[trigger] ls[k].0@ == l ==> listener_type(ls[k].1) != "AND"@
}

/// Among the first `n` listeners, the last "AND" listener named `l` has `t`
/// among its trigger methods.
pub open spec fn and_edge_upto(ls: Seq<(String, ListenerCondition)>, n: int, l: Seq<char>, t: Seq<char>) -> bool {
    exists|i: int| #[trigger] last_and_at(ls, n, i, l, t)
}

proof fn lemma_or_upto_step(ls: Seq<(String, ListenerCondition)>, j: int, a: Seq<char>, b: Seq<char>)
    requires
        0 <= j < ls.len(),
    ensures
        or_edge_upto(ls, j + 1, a, b) <==> (or_edge_upto(ls, j, a, b) || or_listener_at(ls, j, a, b)),
{
    if or_edge_upto(ls, j + 1, a, b) {
        let i = choose|i: int| i < j + 1 && #[trigger] or_listener_at(ls, i, a, b);
        if i < j {
            assert(or_edge_upto(ls, j, a, b));
        }
    }
    if or_edge_upto(ls, j, a, b) {
        let i = choose|i: int| i < j && #[trigger] or_listener_at(ls, i, a, b);
        assert(or_edge_upto(ls, j + 1, a, b));
    }
    if or_listener_at(ls, j, a, b) {
        assert(or_edge_upto(ls, j + 1, a, b));
    }
}

proof fn lemma_and_upto_step(ls: Seq<(String, ListenerCondition)>, j: int, l: Seq<char>, t: Seq<char>)
    requires
        0 <= j < ls.len(),
    ensures
        !(listener_type(ls[j].1) == "AND"@ && ls[j].0@ == l) ==> (and_edge_upto(ls, j + 1, l, t) <==> and_edge_upto(ls, j, l, t)),
        (listener_type(ls[j].1) == "AND"@ && ls[j].0@ == l) ==> (and_edge_upto(ls, j + 1, l, t) <==> listener_methods(ls[j].1).contains(t)),
{
    let special = listener_type(ls[j].1) == "AND"@ && ls[j].0@ == l;
    if and_edge_upto(ls, j + 1, l, t) {
        let i = choose|i: int| #[trigger] last_and_at(ls, j + 1, i, l, t);
        if !special {
            assert(i != j);
            assert(last_and_at(ls, j, i, l, t));
        } else {
            if i < j {
                assert(ls[j].0@ == l);
                assert(false);
            }
        }
    }
    if !special && and_edge_upto(ls, j, l, t) {
        let i = choose|i: int| #[trigger] last_and_at(ls, j, i, l, t);
        assert(last_and_at(ls, j + 1, i, l, t));
    }
    if special && listener_methods(ls[j].1).contains(t) {
        assert(last_and_at(ls, j + 1, j, l, t));
    }
}

/// The "OR" listeners of each trigger method, and the trigger methods of
/// each "AND" listener (the last listener of a name wins).
fn listener_tables(listeners: &Vec<(String, ListenerCondition)>) -> (r: (Vec<(String, Vec<String>)>, Vec<(String, Vec<String>)>))
    ensures
        set_map_wf(r.0@),
        set_map_wf(r.1@),
        or_sound(r.0@, listeners@),
        and_sound(r.1@, listeners@),
        forall|t: Seq<char>, l: Seq<char>| #[trigger] has_child(r.0@, t, l) <==> or_edge_upto(listeners@, listeners@.len() as int, t, l),
        forall|l: Seq<char>, t: Seq<char>| #[trigger] has_child(r.1@, l, t) <==> and_edge_upto(listeners@, listeners@.len() as int, l, t),
{
    let ghost ls = listeners@;
    let mut or_map: Vec<(String, Vec<String>)> = Vec::new();
    let mut and_map: Vec<(String, Vec<String>)> = Vec::new();
    let mut j: usize = 0;
    while j < listeners.len()
        invariant
            ls == listeners@,
            j <= ls.len(),
            set_map_wf(or_map@),
            set_map_wf(and_map@),
            or_sound(or_map@, ls),
            and_sound(and_map@, ls),
            forall|a: Seq<char>, b: Seq<char>| #[trigger] has_child(or_map@, a, b) <==> or_edge_upto(ls, j as int, a, b),
            forall|a: Seq<char>, b: Seq<char>| #[trigger] has_child(and_map@, a, b) <==> and_edge_upto(ls, j as int, a, b),
        decreases ls.len() - j,
    {
        let ghost or0 = or_map@;
        let ghost and0 = and_map@;
        let ct = get_condition_type(&listeners[j].1);
        let trig = extract_methods_from_listener(&listeners[j].1);
        let ghost name = ls[j as int].0@;
        if str_eq(ct, "OR") {
            let mut t: usize = 0;
            while t < trig.len()
                invariant
                    ls == listeners@,
                    j < ls.len(),
                    name == ls[j as int].0@,
                    str_views(trig@) == listener_methods(ls[j as int].1),
                    t <= trig@.len(),
                    set_map_wf(or_map@),
                    or_sound(or_map@, ls),
                    and_map@ == and0,
                    forall|a: Seq<char>, b: Seq<char>| #[trigger] has_child(or_map@, a, b) <==> (has_child(or0, a, b) || (b
                        == name && exists|s: int| 0 <= s < t && #[trigger] trig@[s]@ == a)),
                decreases trig@.len() - t,
            {
                let ghost m0 = or_map@;
                add_child(&mut or_map, trig[t].as_str(), listeners[j].0.as_str());
                assert forall|a: Seq<char>, b: Seq<char>| #[trigger] has_child(or_map@, a, b) <==> (has_child(or0, a, b) || (b
                    == name && exists|s: int| 0 <= s < t + 1 && #[trigger] trig@[s]@ == a)) by {
                    if b == name && a == trig@[t as int]@ {
                        assert(trig@[t as int]@ == a);
                    }
                    if b == name && exists|s: int| 0 <= s < t + 1 && #[trigger] trig@[s]@ == a {
                        let s = choose|s: int| 0 <= s < t + 1 && #[trigger] trig@[s]@ == a;
                        if s < t {
                            assert(has_child(m0, a, b));
                        }
                    }
                }
                assert forall|a: Seq<char>, b: Seq<char>| #[trigger] has_child(or_map@, a, b) implies trigger_edge(ls, a, b) by {
                    if !has_child(m0, a, b) {
                        assert(str_views(trig@)[t as int] == trig@[t as int]@);
                        assert(listener_methods(ls[j as int].1).contains(a));
                        assert(ls[j as int].0@ == b);
                    }
                }
                t += 1;
            }
            proof {
                assert forall|a: Seq<char>, b: Seq<char>| #[trigger] has_child(or_map@, a, b) <==> or_edge_upto(ls, j + 1, a, b) by {
                    lemma_or_upto_step(ls, j as int, a, b);
                    if b == name && listener_methods(ls[j as int].1).contains(a) {
                        let s = choose|s: int| 0 <= s < str_views(trig@).len() && str_views(trig@)[s] == a;
                        assert(trig@[s]@ == a);
                    }
                    if b == name && exists|s: int| 0 <= s < trig@.len() && #[trigger] trig@[s]@ == a {
                        let s = choose|s: int| 0 <= s < trig@.len() && #[trigger] trig@[s]@ == a;
                        assert(str_views(trig@)[s] == a);
                        assert(listener_methods(ls[j as int].1).contains(a));
                    }
                }
                reveal_strlit("OR");
                reveal_strlit("AND");
                assert("OR"@.len() == 2 && "AND"@.len() == 3);
                assert(listener_type(ls[j as int].1) != "AND"@);
                assert forall|a: Seq<char>, b: Seq<char>| #[trigger] has_child(and_map@, a, b) <==> and_edge_upto(ls, j + 1, a, b) by {
                    lemma_and_upto_step(ls, j as int, a, b);
                }
            }
        } else if str_eq(ct, "AND") {
            let req = distinct_names(&trig);
            let ghost m0 = and_map@;
            put_list(&mut and_map, listeners[j].0.as_str(), req);
            assert forall|a: Seq<char>, b: Seq<char>| #[trigger] has_child(and_map@, a, b) implies trigger_edge(ls, b, a) by {
                if !has_child(m0, a, b) {
                    assert(str_views(trig@).contains(b));
                    assert(listener_methods(ls[j as int].1).contains(b));
                    assert(ls[j as int].0@ == a);
                }
            }
            proof {
                assert forall|a: Seq<char>, b: Seq<char>| #[trigger] has_child(and_map@, a, b) <==> and_edge_upto(ls, j + 1, a, b) by {
                    lemma_and_upto_step(ls, j as int, a, b);
                }
                assert forall|a: Seq<char>, b: Seq<char>| #[trigger] has_child(or_map@, a, b) <==> or_edge_upto(ls, j + 1, a, b) by {
                    lemma_or_upto_step(ls, j as int, a, b);
                }
            }
        } else {
            proof {
                assert forall|a: Seq<char>, b: Seq<char>| #[trigger] has_child(and_map@, a, b) <==> and_edge_upto(ls, j + 1, a, b) by {
                    lemma_and_upto_step(ls, j as int, a, b);
                }
                assert forall|a: Seq<char>, b: Seq<char>| #[trigger] has_child(or_map@, a, b) <==> or_edge_upto(ls, j + 1, a, b) by {
                    lemma_or_upto_step(ls, j as int, a, b);
                }
            }
        }
        j += 1;
    }
    (or_map, and_map)
}


/// The order of a breadth-first walk, with `queue[..head]` taken and the
/// last taken name at level `floor`: no level above `floor + 1`, the names
/// still queued at `floor` or above and in order of level, the taken ones
/// at `floor` or below, and every name with a level queued at some point.
spec fn walk_order(levels: Seq<(String, usize)>, queue: Seq<String>, head: int, floor: int) -> bool {
    &&& 0 <= floor
    &&& 0 <= head <= queue.len()
    &&& levels_at_most(levels, floor + 1)
    &&& forall|i: int| 0 <= i < queue.len() ==> #[trigger] lookup_level(levels, queue[i]@) is Some
    &&& forall|i: int| head <= i < queue.len() ==> floor <= #[trigger] lookup_level(levels, queue[i]@)->0
    &&& forall|i: int, j: int|
        head <= i <= j < queue.len() ==> #[trigger] lookup_level(levels, queue[i]@)->0 <= #[trigger] lookup_level(
            levels,
            queue[j]@,
        )->0
    &&& forall|k: int| 0 <= k < head ==> #[trigger] lookup_level(levels, queue[k]@)->0 <= floor
    &&& forall|u: Seq<char>| #[trigger] lookup_level(levels, u) is Some ==> exists|k: int| 0 <= k < queue.len() && #[trigger] queue[k]@ == u
}

/// Every listener that a taken name triggers as an "OR" listener or
/// through a router path has a level at most one more than that name's.
spec fn walk_covered(
    levels: Seq<(String, usize)>,
    queue: Seq<String>,
    head: int,
    ls: Seq<(String, ListenerCondition)>,
    routers: Seq<String>,
    rps: Seq<(String, Vec<String>)>,
) -> bool {
    &&& forall|k: int, v: Seq<char>|
        0 <= k < head && #[trigger] or_edge_upto(ls, ls.len() as int, queue[k]@, v) ==> lookup_level(levels, v) is Some
            && lookup_level(levels, v)->0 <= lookup_level(levels, queue[k]@)->0 + 1
    &&& forall|k: int, v: Seq<char>|
        0 <= k < head && #[trigger] route_edge(ls, routers, rps, queue[k]@, v) ==> lookup_level(levels, v) is Some
            && lookup_level(levels, v)->0 <= lookup_level(levels, queue[k]@)->0 + 1
}

/// Taking `qa[head]` at level `cur` and relaxing what it triggers keeps the
/// order of the walk, with `cur` as the new floor, and covers `qa[head]`.
#[verifier::rlimit(100)]
proof fn lemma_walk_advance(
    la: Seq<(String, usize)>,
    qa: Seq<String>,
    l1: Seq<(String, usize)>,
    q1: Seq<String>,
    head: int,
    floor: int,
    cur: int,
    st: Seq<String>,
    ls: Seq<(String, ListenerCondition)>,
    routers: Seq<String>,
    rps: Seq<(String, Vec<String>)>,
)
    requires
        walk_order(la, qa, head, floor),
        walk_covered(la, qa, head, ls, routers, rps),
        0 <= head < qa.len(),
        lookup_level(la, qa[head]@) == Some(cur),
        relax_step(la, qa, l1, q1, st, ls, routers, rps, qa[head]@, cur),
        forall|v: Seq<char>| #[trigger] or_edge_upto(ls, ls.len() as int, qa[head]@, v) ==> lookup_level(l1, v) is Some,
        forall|v: Seq<char>| #[trigger] route_edge(ls, routers, rps, qa[head]@, v) ==> lookup_level(l1, v) is Some,
    ensures
        walk_order(l1, q1, head + 1, cur),
        walk_covered(l1, q1, head + 1, ls, routers, rps),
        levels_frozen(la, l1),
        step_state(l1, q1, st, ls, routers, rps, qa[head]@, cur),
        q1.len() >= qa.len(),
        level_potential(str_views(st) + listener_names(ls), l1) + (q1.len() - qa.len()) <= level_potential(
            str_views(st) + listener_names(ls),
            la,
        ),
{
    lemma_relax_step_parts(la, qa, l1, q1, st, ls, routers, rps, qa[head]@, cur);
    assert(floor <= cur);
    assert forall|k: int| 0 <= k < qa.len() implies #[trigger] q1[k] == qa[k] by {
        assert(q1.subrange(0, qa.len() as int)[k] == qa[k]);
    }
    assert forall|i: int| 0 <= i < q1.len() implies #[trigger] lookup_level(l1, q1[i]@) is Some by {
        if i < qa.len() {
            assert(lookup_level(la, qa[i]@) is Some);
        }
    }
    assert forall|u: Seq<char>| #[trigger] lookup_level(l1, u) is Some implies lookup_level(l1, u)->0 <= cur + 1 by {
        lemma_step_state_bound(l1, q1, st, ls, routers, rps, qa[head]@, cur, u);
    }
    assert forall|i: int| head + 1 <= i < q1.len() implies cur <= #[trigger] lookup_level(l1, q1[i]@)->0 by {
        if i < qa.len() {
            assert(lookup_level(la, qa[head]@)->0 <= lookup_level(la, qa[i]@)->0);
            assert(lookup_level(l1, qa[i]@) == lookup_level(la, qa[i]@));
        }
    }
    assert forall|i: int, j: int|
        head + 1 <= i <= j < q1.len() implies #[trigger] lookup_level(l1, q1[i]@)->0 <= #[trigger] lookup_level(l1, q1[j]@)->0 by {
        if j < qa.len() {
            assert(lookup_level(la, qa[i]@)->0 <= lookup_level(la, qa[j]@)->0);
            assert(lookup_level(l1, qa[i]@) == lookup_level(la, qa[i]@));
            assert(lookup_level(l1, qa[j]@) == lookup_level(la, qa[j]@));
        } else if i < qa.len() {
            assert(lookup_level(l1, qa[i]@) == lookup_level(la, qa[i]@));
        }
    }
    assert forall|k: int| 0 <= k < head + 1 implies #[trigger] lookup_level(l1, q1[k]@)->0 <= cur by {
        assert(lookup_level(l1, qa[k]@) == lookup_level(la, qa[k]@));
    }
    assert forall|u: Seq<char>| #[trigger] lookup_level(l1, u) is Some implies exists|k: int| 0 <= k < q1.len() && #[trigger] q1[k]@ == u by {
        if lookup_level(la, u) is Some {
            let k = choose|k: int| 0 <= k < qa.len() && #[trigger] qa[k]@ == u;
            assert(q1[k]@ == u);
        }
    }
    assert forall|k: int, v: Seq<char>|
        0 <= k < head + 1 && #[trigger] or_edge_upto(ls, ls.len() as int, q1[k]@, v) implies lookup_level(l1, v) is Some
            && lookup_level(l1, v)->0 <= lookup_level(l1, q1[k]@)->0 + 1 by {
        assert(q1[k] == qa[k]);
        assert(lookup_level(l1, qa[k]@) == lookup_level(la, qa[k]@));
        if k < head {
            assert(lookup_level(l1, v) == lookup_level(la, v));
        }
    }
    assert forall|k: int, v: Seq<char>|
        0 <= k < head + 1 && #[trigger] route_edge(ls, routers, rps, q1[k]@, v) implies lookup_level(l1, v) is Some
            && lookup_level(l1, v)->0 <= lookup_level(l1, q1[k]@)->0 + 1 by {
        assert(q1[k] == qa[k]);
        assert(lookup_level(l1, qa[k]@) == lookup_level(la, qa[k]@));
        if k < head {
            assert(lookup_level(l1, v) == lookup_level(la, v));
        }
    }
}

/// Walk the flow breadth-first from the queued names: each name taken from
/// the queue relaxes the listeners it triggers ("OR" listeners at once,
/// "AND" listeners once all their trigger methods were taken, and, for a
/// router, the listeners of its paths). Levels are never lowered: each
/// name keeps the first level it gets, one more than the taken name that
/// reached it, and an "OR" or router-path listener is at most one level
/// below any name that triggers it.
#[verifier::rlimit(100)]
fn walk_levels(
    levels: &mut Vec<(String, usize)>,
    queue: &mut Vec<String>,
    listeners: &Vec<(String, ListenerCondition)>,
    routers: &Vec<String>,
    router_paths: &Vec<(String, Vec<String>)>,
    Ghost(st): Ghost<Seq<String>>,
)
    requires
        level_walk_inv(old(levels)@, old(queue)@, st, listeners@, routers@, router_paths@),
        levels_typed(old(levels)@, st, listeners@, routers@, router_paths@),
        forall|u: Seq<char>| #[trigger] lookup_level(old(levels)@, u) is Some ==> lookup_level(old(levels)@, u) == Some(0int)
            && exists|k: int| 0 <= k < old(queue)@.len() && #[trigger] old(queue)@[k]@ == u,
    ensures
        level_walk_inv(final(levels)@, final(queue)@, st, listeners@, routers@, router_paths@),
        levels_typed(final(levels)@, st, listeners@, routers@, router_paths@),
        forall|p: Seq<char>, v: Seq<char>|
            #[trigger] or_edge_upto(listeners@, listeners@.len() as int, p, v) && lookup_level(final(levels)@, p) is Some
                ==> lookup_level(final(levels)@, v) is Some && lookup_level(final(levels)@, v)->0 <= lookup_level(
                final(levels)@,
                p,
            )->0 + 1,
        forall|p: Seq<char>, v: Seq<char>|
            #[trigger] route_edge(listeners@, routers@, router_paths@, p, v) && lookup_level(final(levels)@, p) is Some
                ==> lookup_level(final(levels)@, v) is Some && lookup_level(final(levels)@, v)->0 <= lookup_level(
                final(levels)@,
                p,
            )->0 + 1,
        forall|l: Seq<char>, t0: Seq<char>|
            #[trigger] and_edge_upto(listeners@, listeners@.len() as int, l, t0) && and_triggers_placed(final(levels)@, listeners@, l)
                ==> lookup_level(final(levels)@, l) is Some,
{
    let ghost ls = listeners@;
    let ghost rts = routers@;
    let ghost rps = router_paths@;
    let ghost uni = str_views(st) + listener_names(ls);
    let (or_map, and_map) = listener_tables(listeners);
    let mut visited: Vec<String> = Vec::new();
    let mut pending: Vec<(String, Vec<String>)> = Vec::new();
    let mut head: usize = 0;
    let ghost mut floor: int = 0;
    proof {
        assert forall|i: int, j: int|
            0 <= i <= j < queue@.len() implies #[trigger] lookup_level(levels@, queue@[i]@)->0 <= #[trigger] lookup_level(
            levels@,
            queue@[j]@,
        )->0 by {
            assert(lookup_level(levels@, queue@[i]@) is Some);
            assert(lookup_level(levels@, queue@[j]@) is Some);
        }
        assert forall|i: int| 0 <= i < queue@.len() implies 0 <= #[trigger] lookup_level(levels@, queue@[i]@)->0 by {
            assert(lookup_level(levels@, queue@[i]@) is Some);
        }
        assert(walk_order(levels@, queue@, 0, 0));
        reveal(walk_state);
    }
    while head < queue.len()
        invariant
            ls == listeners@,
            rts == routers@,
            rps == router_paths@,
            uni == str_views(st) + listener_names(ls),
            set_map_wf(or_map@),
            set_map_wf(and_map@),
            forall|t: Seq<char>, l: Seq<char>| #[trigger] has_child(or_map@, t, l) <==> or_edge_upto(ls, ls.len() as int, t, l),
            forall|l: Seq<char>, t: Seq<char>| #[trigger] has_child(and_map@, l, t) <==> and_edge_upto(ls, ls.len() as int, l, t),
            walk_state(levels@, queue@, st, ls, rts, rps),
            walk_order(levels@, queue@, head as int, floor),
            walk_covered(levels@, queue@, head as int, ls, rts, rps),
            forall|x: Seq<char>| #[trigger] str_views(visited@).contains(x) ==> lookup_level(levels@, x) is Some,
            set_map_wf(pending@),
            forall|a: Seq<char>, b: Seq<char>| #[trigger] has_child(pending@, a, b) ==> lookup_level(levels@, b) is Some
                && lookup_level(levels@, b)->0 <= floor,
            forall|a: Seq<char>, b: Seq<char>|
                #[trigger] has_child(pending@, a, b) <==> (and_edge_upto(ls, ls.len() as int, a, b) && str_views(
                    queue@.subrange(0, head as int),
                ).contains(b)),
            forall|l: Seq<char>, t0: Seq<char>|
                #[trigger] and_edge_upto(ls, ls.len() as int, l, t0) && and_triggers_taken(ls, l, queue@.subrange(0, head as int))
                    ==> lookup_level(levels@, l) is Some,
        decreases level_potential(uni, levels@), queue@.len() - head,
    {
        let ghost la = levels@;
        let ghost qa = queue@;
        let ghost ha = head as int;
        let current = queue[head].clone();
        assert(lookup_level(levels@, queue@[ha]@) is Some);
        proof {
            lemma_walk_state_keys(levels@, queue@, st, ls, rts, rps);
        }
        let cur = match get_level(levels, current.as_str()) {
            Some(c) => c,
            None => 0,
        };
        assert(lookup_level(levels@, current@) == Some(cur as int));
        assert(floor <= cur);
        let ghost vis0 = visited@;
        if !contains_str(&visited, current.as_str()) {
            visited.push(current.clone());
        }
        proof {
            assert forall|x: Seq<char>| #[trigger] str_views(visited@).contains(x) implies lookup_level(la, x) is Some by {
                if x != current@ {
                    let i = choose|i: int| 0 <= i < str_views(visited@).len() && str_views(visited@)[i] == x;
                    assert(visited@[i]@ == x);
                    assert(i < vis0.len());
                    assert(visited@[i] == vis0[i]);
                    assert(str_views(vis0)[i] == x);
                    assert(str_views(vis0).contains(x));
                } else {
                    assert(lookup_level(la, current@) == Some(cur as int));
                }
            }
            reveal(step_state);
            assert(step_state(la, qa, st, ls, rts, rps, current@, cur as int));
            lemma_relax_step_none(la, qa, st, ls, rts, rps, current@, cur as int);
        }
        // "OR" listeners triggered by `current` alone.
        let ors = get_list(&or_map, current.as_str());
        relax_or_listeners(levels, queue, &ors, cur, &visited, Ghost(st), Ghost(ls), Ghost(rts), Ghost(rps), Ghost(current@));
        let ghost lb = levels@;
        let ghost qb = queue@;
        proof {
            lemma_relax_step_parts(la, qa, lb, qb, st, ls, rts, rps, current@, cur as int);
            assert forall|a: Seq<char>, b: Seq<char>| #[trigger] has_child(pending@, a, b) implies lookup_level(lb, b) is Some
                && lookup_level(lb, b)->0 <= cur by {
                assert(lookup_level(la, b) is Some);
            }
            assert forall|x: Seq<char>| #[trigger] str_views(visited@).contains(x) implies lookup_level(lb, x) is Some by {
                assert(lookup_level(la, x) is Some);
            }
        }
        // "AND" listeners, once all their trigger methods were reached.
        relax_and_listeners(levels, queue, &mut pending, &and_map, &current, cur, &visited, Ghost(st), Ghost(ls), Ghost(rts), Ghost(rps), Ghost(qa.subrange(0, ha)));
        let ghost lc = levels@;
        let ghost qc = queue@;
        proof {
            lemma_relax_step_chain(la, qa, lb, qb, lc, qc, st, ls, rts, rps, current@, cur as int);
            lemma_relax_step_parts(lb, qb, lc, qc, st, ls, rts, rps, current@, cur as int);
            assert forall|x: Seq<char>| #[trigger] str_views(visited@).contains(x) implies lookup_level(lc, x) is Some by {
                assert(lookup_level(lb, x) is Some);
            }
        }
        // Listeners of the paths of a router.
        let mut routed = false;
        if contains_str(routers, current.as_str()) {
            match find_key(router_paths, current.as_str()) {
                Some(rk) => {
                    assert(first_key_at(rps, current@, rk as int));
                    relax_router_paths(levels, queue, &router_paths[rk].1, listeners, cur, &visited, Ghost(st), Ghost(rts), Ghost(rps), Ghost(current@), Ghost(rk as int));
                    routed = true;
                },
                None => {},
            }
        }
        proof {
            if routed {
                lemma_relax_step_chain(la, qa, lc, qc, levels@, queue@, st, ls, rts, rps, current@, cur as int);
                lemma_relax_step_parts(lc, qc, levels@, queue@, st, ls, rts, rps, current@, cur as int);
            } else {
                assert forall|v: Seq<char>| #[trigger] route_edge(ls, rts, rps, current@, v) implies lookup_level(levels@, v) is Some by {
                    let (k2, p) = choose|k2: int, p: Seq<char>|
                        #![trigger first_key_at(rps, current@, k2), trigger_edge(ls, p, v)]
                        first_key_at(rps, current@, k2) && str_views(rps[k2].1@).contains(p) && trigger_edge(ls, p, v);
                    assert(rps[k2].0@ == current@);
                }
            }
            let l1 = levels@;
            assert forall|v: Seq<char>| #[trigger] or_edge_upto(ls, ls.len() as int, qa[ha]@, v) implies lookup_level(l1, v) is Some by {
                assert(has_child(or_map@, current@, v));
                assert(str_views(ors@).contains(v));
                assert(lookup_level(lb, v) is Some);
                assert(lookup_level(lc, v) is Some);
            }
            lemma_walk_advance(la, qa, l1, queue@, ha, floor, cur as int, st, ls, rts, rps);
            lemma_step_state_walk(l1, queue@, st, ls, rts, rps, current@, cur as int);
            assert forall|a: Seq<char>, b: Seq<char>| #[trigger] has_child(pending@, a, b) implies lookup_level(l1, b) is Some
                && lookup_level(l1, b)->0 <= cur by {
                assert(lookup_level(lc, b) is Some);
            }
            assert forall|x: Seq<char>| #[trigger] str_views(visited@).contains(x) implies lookup_level(l1, x) is Some by {
                assert(lookup_level(la, x) is Some);
            }
            lemma_relax_step_parts(la, qa, l1, queue@, st, ls, rts, rps, current@, cur as int);
            lemma_taken_step(qa, queue@, ha);
            assert forall|a: Seq<char>, b: Seq<char>|
                #[trigger] has_child(pending@, a, b) <==> (and_edge_upto(ls, ls.len() as int, a, b) && str_views(
                    queue@.subrange(0, ha + 1),
                ).contains(b)) by {}
            assert forall|l: Seq<char>, t0: Seq<char>|
                #[trigger] and_edge_upto(ls, ls.len() as int, l, t0) && and_triggers_taken(ls, l, queue@.subrange(0, ha + 1))
                    implies lookup_level(l1, l) is Some by {
                if and_edge_upto(ls, ls.len() as int, l, current@) {
                    assert(and_triggers_among(ls, l, qa.subrange(0, ha), current@)) by {
                        assert forall|t: Seq<char>| #[trigger] and_edge_upto(ls, ls.len() as int, l, t) implies str_views(
                            qa.subrange(0, ha),
                        ).contains(t) || t == current@ by {
                            assert(str_views(queue@.subrange(0, ha + 1)).contains(t));
                        }
                    }
                    assert(lookup_level(lc, l) is Some);
                } else {
                    assert(and_triggers_taken(ls, l, qa.subrange(0, ha))) by {
                        assert forall|t: Seq<char>| #[trigger] and_edge_upto(ls, ls.len() as int, l, t) implies str_views(
                            qa.subrange(0, ha),
                        ).contains(t) by {
                            assert(str_views(queue@.subrange(0, ha + 1)).contains(t));
                            if t == current@ {
                                assert(false);
                            }
                        }
                    }
                    assert(lookup_level(la, l) is Some);
                }
            }
            floor = cur as int;
            lemma_potential_nonneg(uni, levels@);
        }
        head += 1;
    }
    proof {
        reveal(walk_state);
        assert forall|p: Seq<char>, v: Seq<char>|
            #[trigger] or_edge_upto(ls, ls.len() as int, p, v) && lookup_level(levels@, p) is Some implies lookup_level(levels@, v) is Some
                && lookup_level(levels@, v)->0 <= lookup_level(levels@, p)->0 + 1 by {
            let k = choose|k: int| 0 <= k < queue@.len() && #[trigger] queue@[k]@ == p;
            assert(or_edge_upto(ls, ls.len() as int, queue@[k]@, v));
        }
        assert forall|p: Seq<char>, v: Seq<char>|
            #[trigger] route_edge(ls, rts, rps, p, v) && lookup_level(levels@, p) is Some implies lookup_level(levels@, v) is Some
                && lookup_level(levels@, v)->0 <= lookup_level(levels@, p)->0 + 1 by {
            let k = choose|k: int| 0 <= k < queue@.len() && #[trigger] queue@[k]@ == p;
            assert(route_edge(ls, rts, rps, queue@[k]@, v));
        }
        assert(queue@.subrange(0, head as int) =~= queue@);
        assert forall|l: Seq<char>, t0: Seq<char>|
            #[trigger] and_edge_upto(ls, ls.len() as int, l, t0) && and_triggers_placed(levels@, ls, l) implies lookup_level(levels@, l) is Some by {
            assert forall|t: Seq<char>| #[trigger] and_edge_upto(ls, ls.len() as int, l, t) implies str_views(queue@).contains(t) by {
                assert(lookup_level(levels@, t) is Some);
                let k = choose|k: int| 0 <= k < queue@.len() && #[trigger] queue@[k]@ == t;
                assert(str_views(queue@)[k] == t);
            }
            assert(and_triggers_taken(ls, l, queue@.subrange(0, head as int)));
        }
    }
}

/// Level 0 for every start method, each queued once for every time it is
/// listed.
fn start_levels(
    start_methods: &Vec<String>,
    Ghost(ls): Ghost<Seq<(String, ListenerCondition)>>,
    Ghost(rts): Ghost<Seq<String>>,
    Ghost(rps): Ghost<Seq<(String, Vec<String>)>>,
) -> (r: (Vec<(String, usize)>, Vec<String>))
    ensures
        level_walk_inv(r.0@, r.1@, start_methods@, ls, rts, rps),
        levels_typed(r.0@, start_methods@, ls, rts, rps),
        forall|u: Seq<char>| #[trigger] lookup_level(r.0@, u) is Some ==> lookup_level(r.0@, u) == Some(0int)
            && exists|k: int| 0 <= k < r.1@.len() && #[trigger] r.1@[k]@ == u,
{
    let ghost st = start_methods@;
    let ghost uni = str_views(st) + listener_names(ls);
    let mut levels: Vec<(String, usize)> = Vec::new();
    let mut queue: Vec<String> = Vec::new();
    let mut s: usize = 0;
    while s < start_methods.len()
        invariant
            st == start_methods@,
            s <= st.len(),
            keys_distinct(levels@),
            forall|u: Seq<char>| #[trigger] has_key(levels@, u) ==> str_views(st).contains(u),
            forall|u: Seq<char>| #[trigger] lookup_level(levels@, u) is Some ==> lookup_level(levels@, u)->0 == 0 && str_views(
                st,
            ).contains(u) && 0 < levels@.len(),
            forall|k: int| 0 <= k < queue@.len() ==> #[trigger] lookup_level(levels@, queue@[k]@) is Some,
            forall|k: int| 0 <= k < s ==> #[trigger] lookup_level(levels@, st[k]@) == Some(0int),
            forall|u: Seq<char>| #[trigger] lookup_level(levels@, u) is Some ==> exists|k: int| 0 <= k < queue@.len() && #[trigger] queue@[k]@ == u,
        decreases st.len() - s,
    {
        let ghost l0 = levels@;
        let ghost q0 = queue@;
        set_level(&mut levels, start_methods[s].as_str(), 0);
        queue.push(start_methods[s].clone());
        proof {
            assert(str_views(st)[s as int] == st[s as int]@);
            assert forall|u: Seq<char>| #[trigger] lookup_level(levels@, u) is Some implies lookup_level(levels@, u)->0 == 0
                && str_views(st).contains(u) && 0 < levels@.len() by {
                lemma_lookup_some(levels@, u);
                if u != st[s as int]@ {
                    assert(lookup_level(levels@, u) == lookup_level(l0, u));
                }
            }
            assert forall|k: int| 0 <= k < queue@.len() implies #[trigger] lookup_level(levels@, queue@[k]@) is Some by {
                if k < q0.len() {
                    assert(queue@[k] == q0[k]);
                    if queue@[k]@ != st[s as int]@ {
                        assert(lookup_level(levels@, queue@[k]@) == lookup_level(l0, queue@[k]@));
                    }
                }
            }
            assert forall|u: Seq<char>| #[trigger] lookup_level(levels@, u) is Some implies exists|k: int| 0 <= k < queue@.len() && #[trigger] queue@[k]@ == u by {
                if u == st[s as int]@ {
                    assert(queue@[q0.len() as int]@ == u);
                } else {
                    assert(lookup_level(levels@, u) == lookup_level(l0, u));
                    let k = choose|k: int| 0 <= k < q0.len() && #[trigger] q0[k]@ == u;
                    assert(queue@[k] == q0[k]);
                }
            }
            assert forall|k: int| 0 <= k < s + 1 implies #[trigger] lookup_level(levels@, st[k]@) == Some(0int) by {
                if st[k]@ != st[s as int]@ {
                    assert(lookup_level(levels@, st[k]@) == lookup_level(l0, st[k]@));
                }
            }
        }
        s += 1;
    }
    proof {
        assert forall|u: Seq<char>| #[trigger] has_key(levels@, u) implies uni.contains(u) by {
            let i = choose|i: int| 0 <= i < str_views(st).len() && str_views(st)[i] == u;
            assert(uni[i] == u);
        }
        assert forall|v: Seq<char>| #[trigger] lookup_level(levels@, v) is Some implies level_justified(
            levels@,
            st,
            ls,
            rts,
            rps,
            v,
            lookup_level(levels@, v)->0,
        ) by {}
    }
    proof {
        assert forall|v: Seq<char>| #[trigger] lookup_level(levels@, v) is Some implies level_typed(
            levels@,
            st,
            ls,
            rts,
            rps,
            v,
            lookup_level(levels@, v)->0,
        ) by {}
    }
    (levels, queue)
}

/// The highest recorded level (0 when there is none).
fn highest_level(levels: &Vec<(String, usize)>) -> (m: usize)
    requires
        keys_distinct(levels@),
        forall|u: Seq<char>| #[trigger] lookup_level(levels@, u) is Some ==> lookup_level(levels@, u)->0 < levels@.len(),
    ensures
        m < usize::MAX,
        forall|u: Seq<char>| #[trigger] lookup_level(levels@, u) is Some ==> lookup_level(levels@, u)->0 <= m,
        m == 0 || exists|w: Seq<char>| #[trigger] lookup_level(levels@, w) == Some(m as int),
{
    let mut max_level: usize = 0;
    let mut i: usize = 0;
    while i < levels.len()
        invariant
            i <= levels@.len(),
            keys_distinct(levels@),
            forall|u: Seq<char>| #[trigger] lookup_level(levels@, u) is Some ==> lookup_level(levels@, u)->0 < levels@.len(),
            levels@.len() == 0 ==> max_level == 0,
            levels@.len() > 0 ==> max_level < levels@.len(),
            forall|k: int| 0 <= k < i ==> levels@[k].1 <= max_level,
            max_level == 0 || exists|k: int| 0 <= k < i && #[trigger] levels@[k].1 == max_level,
        decreases levels@.len() - i,
    {
        proof {
            lemma_lookup_at(levels@, levels@[i as int].0@, i as int);
        }
        if levels[i].1 > max_level {
            max_level = levels[i].1;
            assert(levels@[i as int].1 == max_level);
        }
        i += 1;
    }
    proof {
        assert forall|u: Seq<char>| #[trigger] lookup_level(levels@, u) is Some implies lookup_level(levels@, u)->0 <= max_level by {
            lemma_lookup_some(levels@, u);
            let k = choose|k: int| 0 <= k < levels@.len() && #[trigger] levels@[k].0@ == u;
            lemma_lookup_at(levels@, u, k);
        }
        if max_level != 0 {
            let k = choose|k: int| 0 <= k < levels@.len() && #[trigger] levels@[k].1 == max_level;
            lemma_lookup_at(levels@, levels@[k].0@, k);
            assert(lookup_level(levels@, levels@[k].0@) == Some(max_level as int));
        }
    }
    max_level
}

/// Give each method without a level the level `top`.
fn place_unreached(levels: &mut Vec<(String, usize)>, methods: &Vec<String>, top: usize)
    requires
        keys_distinct(old(levels)@),
    ensures
        keys_distinct(final(levels)@),
        forall|u: Seq<char>| #[trigger] lookup_level(old(levels)@, u) is Some ==> lookup_level(final(levels)@, u) == lookup_level(old(levels)@, u),
        forall|u: Seq<char>|
            #[trigger] lookup_level(final(levels)@, u) is Some ==> lookup_level(old(levels)@, u) is Some || (lookup_level(final(levels)@, u)
                == Some(top as int) && str_views(methods@).contains(u)),
        forall|k: int| 0 <= k < methods@.len() ==> #[trigger] lookup_level(final(levels)@, methods@[k]@) is Some,
{
    let ghost walked = levels@;
    let mut m: usize = 0;
    while m < methods.len()
        invariant
            m <= methods@.len(),
            keys_distinct(levels@),
            forall|u: Seq<char>| #[trigger] lookup_level(walked, u) is Some ==> lookup_level(levels@, u) == lookup_level(walked, u),
            forall|u: Seq<char>|
                #[trigger] lookup_level(levels@, u) is Some ==> lookup_level(walked, u) is Some || (lookup_level(levels@, u)
                    == Some(top as int) && str_views(methods@).contains(u)),
            forall|k: int| 0 <= k < m ==> #[trigger] lookup_level(levels@, methods@[k]@) is Some,
        decreases methods@.len() - m,
    {
        if get_level(levels, methods[m].as_str()).is_none() {
            let ghost l0 = levels@;
            set_level(levels, methods[m].as_str(), top);
            proof {
                assert(str_views(methods@)[m as int] == methods@[m as int]@);
                assert forall|u: Seq<char>| #[trigger] lookup_level(walked, u) is Some implies lookup_level(levels@, u) == lookup_level(walked, u) by {
                    if u == methods@[m as int]@ {
                        assert(lookup_level(l0, u) == lookup_level(walked, u));
                    }
                }
                assert forall|k: int| 0 <= k < m + 1 implies #[trigger] lookup_level(levels@, methods@[k]@) is Some by {
                    if methods@[k]@ != methods@[m as int]@ {
                        assert(lookup_level(levels@, methods@[k]@) == lookup_level(l0, methods@[k]@));
                    }
                }
                assert forall|u: Seq<char>| #[trigger] lookup_level(levels@, u) is Some implies lookup_level(walked, u) is Some || (
                lookup_level(levels@, u) == Some(top as int) && str_views(methods@).contains(u)) by {
                    if u != methods@[m as int]@ {
                        assert(lookup_level(levels@, u) == lookup_level(l0, u));
                    }
                }
            }
        }
        m += 1;
    }
}

/// Every trigger method of the "AND" listener `l` has a level below `top`.
pub open spec fn and_triggers_below(levels: Seq<(String, usize)>, ls: Seq<(String, ListenerCondition)>, l: Seq<char>, top: int) -> bool {
    forall|t: Seq<char>|
        #[trigger] and_edge_upto(ls, ls.len() as int, l, t) ==> lookup_level(levels, t) is Some && lookup_level(levels, t)->0 < top
}

/// The top level `top` of the levels: one more than the highest level that
/// the walk from the start methods gave (1 when it gave none). Every level
/// below it is justified and has a reason of its kind; the names at it are
/// the methods that the walk did not reach; and the walk reached all it
/// could: the listeners that a node below the top triggers as an "OR"
/// listener or through a router path, and the "AND" listeners whose
/// trigger methods are all below the top.
pub open spec fn levels_on_top(
    levels: Seq<(String, usize)>,
    methods: Seq<String>,
    st: Seq<String>,
    ls: Seq<(String, ListenerCondition)>,
    routers: Seq<String>,
    rps: Seq<(String, Vec<String>)>,
    top: int,
) -> bool {
    &&& top >= 1
    &&& (top == 1 || exists|w: Seq<char>| #[trigger] lookup_level(levels, w) == Some(top - 1))
    &&& forall|v: Seq<char>|
        #[trigger] lookup_level(levels, v) is Some ==> ((lookup_level(levels, v)->0 < top && level_justified(
            levels,
            st,
            ls,
            routers,
            rps,
            v,
            lookup_level(levels, v)->0,
        ) && level_typed(levels, st, ls, routers, rps, v, lookup_level(levels, v)->0)) || (str_views(methods).contains(v)
            && lookup_level(levels, v)->0 == top))
    &&& forall|p: Seq<char>, v: Seq<char>|
        #[trigger] or_edge_upto(ls, ls.len() as int, p, v) && lookup_level(levels, p) is Some && lookup_level(levels, p)->0 < top
            ==> lookup_level(levels, v) is Some && lookup_level(levels, v)->0 < top
    &&& forall|p: Seq<char>, v: Seq<char>|
        #[trigger] route_edge(ls, routers, rps, p, v) && lookup_level(levels, p) is Some && lookup_level(levels, p)->0 < top
            ==> lookup_level(levels, v) is Some && lookup_level(levels, v)->0 < top
    &&& forall|l: Seq<char>, t0: Seq<char>|
        #[trigger] and_edge_upto(ls, ls.len() as int, l, t0) && and_triggers_below(levels, ls, l, top) ==> lookup_level(levels, l) is Some
            && lookup_level(levels, l)->0 < top
}

/// The level of each node of the flow: a breadth-first walk from the start
/// methods (level 0) that gives a listener one more than the node that
/// first reaches it ("OR" listeners at once, "AND" listeners once all their
/// trigger methods were reached, listeners of a router's paths when the
/// router is reached). Methods that the walk does not reach get one more
/// than the highest level. So a start method is at 0; an "OR" or
/// router-path listener is one more than the lowest node that triggers it;
/// an "AND" listener, reached only through its condition, is one more than
/// the highest of its trigger methods; and the unreached methods share the
/// top level.
pub fn calculate_node_levels(
    methods: &Vec<String>,
    start_methods: &Vec<String>,
    listeners: &Vec<(String, ListenerCondition)>,
    routers: &Vec<String>,
    router_paths: &Vec<(String, Vec<String>)>,
) -> (r: Vec<(String, usize)>)
    ensures
        keys_distinct(r@),
        forall|i: int| 0 <= i < methods@.len() ==> #[trigger] lookup_level(r@, methods@[i]@) is Some,
        forall|i: int| 0 <= i < start_methods@.len() ==> #[trigger] lookup_level(r@, start_methods@[i]@) == Some(0int),
        forall|v: Seq<char>|
            #[trigger] lookup_level(r@, v) is Some ==> node_level_ok(
                r@,
                methods@,
                start_methods@,
                listeners@,
                routers@,
                router_paths@,
                v,
                lookup_level(r@, v)->0,
            ),
        exists|top: int| levels_on_top(r@, methods@, start_methods@, listeners@, routers@, router_paths@, top),
        forall|p: Seq<char>, v: Seq<char>|
            #[trigger] or_edge_upto(listeners@, listeners@.len() as int, p, v) && lookup_level(r@, p) is Some && lookup_level(
                r@,
                v,
            ) is Some ==> lookup_level(r@, v)->0 <= lookup_level(r@, p)->0 + 1,
        forall|p: Seq<char>, v: Seq<char>|
            #[trigger] route_edge(listeners@, routers@, router_paths@, p, v) && lookup_level(r@, p) is Some && lookup_level(
                r@,
                v,
            ) is Some ==> lookup_level(r@, v)->0 <= lookup_level(r@, p)->0 + 1,
{
    let ghost st = start_methods@;
    let ghost ls = listeners@;
    let ghost rts = routers@;
    let ghost rps = router_paths@;
    let (mut levels, mut queue) = start_levels(start_methods, Ghost(ls), Ghost(rts), Ghost(rps));
    walk_levels(&mut levels, &mut queue, listeners, routers, router_paths, Ghost(st));
    let ghost walked = levels@;
    // The highest level reached.
    let max_level = highest_level(&levels);
    // Unreached methods go one level below everything else.
    place_unreached(&mut levels, methods, max_level + 1);
    proof {
        lemma_place_unreached(walked, queue@, levels@, methods@, st, ls, rts, rps, max_level as int);
    }
    levels
}

/// Placing the methods that the walk did not reach at one more than the
/// highest level it gave keeps every walked level and its reason, and puts
/// the new ones on top.
proof fn lemma_place_unreached(
    walked: Seq<(String, usize)>,
    queue: Seq<String>,
    levels: Seq<(String, usize)>,
    methods: Seq<String>,
    st: Seq<String>,
    ls: Seq<(String, ListenerCondition)>,
    rts: Seq<String>,
    rps: Seq<(String, Vec<String>)>,
    max_level: int,
)
    requires
        level_walk_inv(walked, queue, st, ls, rts, rps),
        levels_typed(walked, st, ls, rts, rps),
        forall|p: Seq<char>, v: Seq<char>|
            #[trigger] or_edge_upto(ls, ls.len() as int, p, v) && lookup_level(walked, p) is Some ==> lookup_level(walked, v) is Some
                && lookup_level(walked, v)->0 <= lookup_level(walked, p)->0 + 1,
        forall|p: Seq<char>, v: Seq<char>|
            #[trigger] route_edge(ls, rts, rps, p, v) && lookup_level(walked, p) is Some ==> lookup_level(walked, v) is Some
                && lookup_level(walked, v)->0 <= lookup_level(walked, p)->0 + 1,
        forall|l: Seq<char>, t0: Seq<char>|
            #[trigger] and_edge_upto(ls, ls.len() as int, l, t0) && and_triggers_placed(walked, ls, l) ==> lookup_level(walked, l) is Some,
        0 <= max_level,
        forall|u: Seq<char>| #[trigger] lookup_level(walked, u) is Some ==> lookup_level(walked, u)->0 <= max_level,
        max_level == 0 || exists|w: Seq<char>| #[trigger] lookup_level(walked, w) == Some(max_level),
        forall|u: Seq<char>| #[trigger] lookup_level(walked, u) is Some ==> lookup_level(levels, u) == lookup_level(walked, u),
        forall|u: Seq<char>|
            #[trigger] lookup_level(levels, u) is Some ==> lookup_level(walked, u) is Some || (lookup_level(levels, u) == Some(
                max_level + 1,
            ) && str_views(methods).contains(u)),
    ensures
        forall|k: int| 0 <= k < st.len() ==> #[trigger] lookup_level(levels, st[k]@) == Some(0int),
        forall|v: Seq<char>|
            #[trigger] lookup_level(levels, v) is Some ==> node_level_ok(levels, methods, st, ls, rts, rps, v, lookup_level(levels, v)->0),
        levels_on_top(levels, methods, st, ls, rts, rps, max_level + 1),
        forall|p: Seq<char>, v: Seq<char>|
            #[trigger] or_edge_upto(ls, ls.len() as int, p, v) && lookup_level(levels, p) is Some && lookup_level(levels, v) is Some
                ==> lookup_level(levels, v)->0 <= lookup_level(levels, p)->0 + 1,
        forall|p: Seq<char>, v: Seq<char>|
            #[trigger] route_edge(ls, rts, rps, p, v) && lookup_level(levels, p) is Some && lookup_level(levels, v) is Some
                ==> lookup_level(levels, v)->0 <= lookup_level(levels, p)->0 + 1,
{
    let top = max_level + 1;
    assert(levels_frozen(walked, levels));
    assert forall|k: int| 0 <= k < st.len() implies #[trigger] lookup_level(levels, st[k]@) == Some(0int) by {
        assert(lookup_level(walked, st[k]@) == Some(0int));
    }
    assert forall|v: Seq<char>| #[trigger] lookup_level(levels, v) is Some implies ((lookup_level(levels, v)->0 < top
        && level_justified(levels, st, ls, rts, rps, v, lookup_level(levels, v)->0) && level_typed(
        levels,
        st,
        ls,
        rts,
        rps,
        v,
        lookup_level(levels, v)->0,
    )) || (str_views(methods).contains(v) && lookup_level(levels, v)->0 == top)) by {
        let d = lookup_level(levels, v)->0;
        if lookup_level(walked, v) is Some {
            assert(level_justified(walked, st, ls, rts, rps, v, d));
            assert(level_typed(walked, st, ls, rts, rps, v, d));
            lemma_typed_kept(walked, levels, st, ls, rts, rps, v, d);
            if !(str_views(st).contains(v) && d == 0) {
                let p = choose|p: Seq<char>|
                    #[trigger] flow_edge(ls, rts, rps, p, v) && lookup_level(walked, p) is Some && lookup_level(walked, p)->0 < d;
                assert(lookup_level(levels, p) == lookup_level(walked, p));
            }
        }
    }
    if max_level != 0 {
        let w = choose|w: Seq<char>| #[trigger] lookup_level(walked, w) == Some(max_level);
        assert(lookup_level(levels, w) == Some(top - 1));
    }
    assert forall|p: Seq<char>, v: Seq<char>|
        #[trigger] or_edge_upto(ls, ls.len() as int, p, v) && lookup_level(levels, p) is Some && lookup_level(levels, p)->0 < top
            implies lookup_level(levels, v) is Some && lookup_level(levels, v)->0 < top by {
        assert(lookup_level(walked, p) is Some);
        assert(lookup_level(walked, v)->0 <= max_level);
    }
    assert forall|p: Seq<char>, v: Seq<char>|
        #[trigger] route_edge(ls, rts, rps, p, v) && lookup_level(levels, p) is Some && lookup_level(levels, p)->0 < top
            implies lookup_level(levels, v) is Some && lookup_level(levels, v)->0 < top by {
        assert(lookup_level(walked, p) is Some);
        assert(lookup_level(walked, v)->0 <= max_level);
    }
    assert forall|l: Seq<char>, t0: Seq<char>|
        #[trigger] and_edge_upto(ls, ls.len() as int, l, t0) && and_triggers_below(levels, ls, l, top) implies lookup_level(levels, l) is Some
            && lookup_level(levels, l)->0 < top by {
        assert forall|t: Seq<char>| #[trigger] and_edge_upto(ls, ls.len() as int, l, t) implies lookup_level(walked, t) is Some by {
            assert(lookup_level(levels, t) is Some);
        }
        assert(lookup_level(walked, l) is Some);
        assert(lookup_level(walked, l)->0 <= max_level);
    }
    assert forall|v: Seq<char>| #[trigger] lookup_level(levels, v) is Some implies node_level_ok(
        levels,
        methods,
        st,
        ls,
        rts,
        rps,
        v,
        lookup_level(levels, v)->0,
    ) by {
        let d = lookup_level(levels, v)->0;
        if lookup_level(walked, v) is None {
            assert forall|w: Seq<char>| #[trigger] lookup_level(levels, w) is Some implies lookup_level(levels, w)->0 <= d by {
                if lookup_level(walked, w) is Some {
                    assert(lookup_level(walked, w)->0 <= max_level);
                }
            }
        }
    }
    assert forall|p: Seq<char>, v: Seq<char>|
        #[trigger] or_edge_upto(ls, ls.len() as int, p, v) && lookup_level(levels, p) is Some && lookup_level(levels, v) is Some
            implies lookup_level(levels, v)->0 <= lookup_level(levels, p)->0 + 1 by {
        if lookup_level(walked, v) is Some {
            assert(lookup_level(walked, v)->0 <= max_level);
        }
    }
    assert forall|p: Seq<char>, v: Seq<char>|
        #[trigger] route_edge(ls, rts, rps, p, v) && lookup_level(levels, p) is Some && lookup_level(levels, v) is Some
            implies lookup_level(levels, v)->0 <= lookup_level(levels, p)->0 + 1 by {
        if lookup_level(walked, v) is Some {
            assert(lookup_level(walked, v)->0 <= max_level);
        }
    }
}

} // verus!
