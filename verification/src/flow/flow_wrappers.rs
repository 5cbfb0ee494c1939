//! Wrapper types for flow methods with type-safe metadata.

use vstd::prelude::*;
use vstd::std_specs::cmp::PartialEqSpecImpl;

verus! {

/// A type-safe method name for flow methods.
#[derive(Debug, Clone, Hash)]
pub struct FlowMethodName(pub String);

impl FlowMethodName {
    /// Create a new FlowMethodName.
    pub fn new(name: String) -> (n: FlowMethodName)
        ensures
            n.0 == name,
    {
        FlowMethodName(name)
    }

    /// The name as a string slice.
    pub fn as_str(&self) -> (s: &str)
        ensures
            s@ == self.0@,
    {
        self.0.as_str()
    }

    /// A copy of this name.
    pub fn copy(&self) -> (r: FlowMethodName)
        ensures
            r == *self,
    {
        FlowMethodName(self.0.clone())
    }
}

impl PartialEq for FlowMethodName {
    fn eq(&self, other: &Self) -> (r: bool) {
        self.0 == other.0
    }
}

impl PartialEqSpecImpl for FlowMethodName {
    open spec fn obeys_eq_spec() -> bool {
        true
    }

    open spec fn eq_spec(&self, other: &FlowMethodName) -> bool {
        self.0@ == other.0@
    }
}

impl Eq for FlowMethodName {

}

/// How trigger conditions combine.
#[derive(Debug, Clone, Copy, PartialEq, Eq, Structural, Hash)]
pub enum FlowConditionType {
    /// Any trigger firing will activate the method.
    OR,
    /// All triggers must fire before the method activates.
    AND,
}

impl FlowConditionType {
    /// The textual form of the condition type.
    pub fn as_str(&self) -> (s: &'static str)
        ensures
            s@ == (match self {
                FlowConditionType::OR => "OR"@,
                FlowConditionType::AND => "AND"@,
            }),
    {
        match self {
            FlowConditionType::OR => "OR",
            FlowConditionType::AND => "AND",
        }
    }
}

/// A simple flow condition (type + method names).
#[derive(Debug, Clone)]
pub struct SimpleFlowCondition {
    /// The condition type (OR/AND).
    pub condition_type: FlowConditionType,
    /// The method names that form the condition.
    pub methods: Vec<FlowMethodName>,
}

/// A flow trigger condition: nested conditions and direct method triggers.
#[derive(Debug)]
pub struct FlowCondition {
    /// The type of the condition (OR/AND).
    pub condition_type: FlowConditionType,
    /// Nested conditions (method names or sub-conditions).
    pub conditions: Vec<FlowConditionItem>,
    /// Direct method name triggers.
    pub methods: Vec<FlowMethodName>,
}

/// An item in a FlowCondition's conditions list.
#[derive(Debug)]
pub enum FlowConditionItem {
    /// A method name reference.
    MethodName(FlowMethodName),
    /// A nested flow condition.
    Condition(FlowCondition),
}

/// Metadata for a flow method registration.
#[derive(Debug)]
pub struct FlowMethodMeta {
    /// Whether this is a start method.
    pub is_start_method: bool,
    /// Trigger methods.
    pub trigger_methods: Option<Vec<FlowMethodName>>,
    /// Condition type.
    pub condition_type: Option<FlowConditionType>,
    /// Full trigger condition (for nested conditions).
    pub trigger_condition: Option<FlowCondition>,
    /// Whether this is a router method.
    pub is_router: bool,
    /// Possible router paths.
    pub router_paths: Option<Vec<String>>,
    /// Human feedback config name (if any).
    pub human_feedback_config: Option<String>,
}

/// Metadata with every flag off and every option empty.
pub open spec fn is_default_meta(m: FlowMethodMeta) -> bool {
    &&& !m.is_start_method
    &&& m.trigger_methods is None
    &&& m.condition_type is None
    &&& m.trigger_condition is None
    &&& !m.is_router
    &&& m.router_paths is None
    &&& m.human_feedback_config is None
}

impl Default for FlowMethodMeta {
    fn default() -> (m: Self)
        ensures
            is_default_meta(m),
    {
        FlowMethodMeta {
            is_start_method: false,
            trigger_methods: None,
            condition_type: None,
            trigger_condition: None,
            is_router: false,
            router_paths: None,
            human_feedback_config: None,
        }
    }
}

/// StartMethod metadata builder.
pub fn start_method_meta() -> (m: FlowMethodMeta)
    ensures
        m.is_start_method,
        m.trigger_methods is None,
        m.condition_type is None,
        m.trigger_condition is None,
        !m.is_router,
        m.router_paths is None,
        m.human_feedback_config is None,
{
    let mut m = FlowMethodMeta::default();
    m.is_start_method = true;
    m
}

/// ListenMethod metadata builder.
pub fn listen_method_meta(trigger_methods: Vec<FlowMethodName>, condition_type: FlowConditionType) -> (m: FlowMethodMeta)
    ensures
        !m.is_start_method,
        m.trigger_methods == Some(trigger_methods),
        m.condition_type == Some(condition_type),
        m.trigger_condition is None,
        !m.is_router,
        m.router_paths is None,
        m.human_feedback_config is None,
{
    let mut m = FlowMethodMeta::default();
    m.trigger_methods = Some(trigger_methods);
    m.condition_type = Some(condition_type);
    m
}

/// RouterMethod metadata builder.
pub fn router_method_meta(
    trigger_methods: Vec<FlowMethodName>,
    condition_type: FlowConditionType,
    router_paths: Option<Vec<String>>,
) -> (m: FlowMethodMeta)
    ensures
        !m.is_start_method,
        m.trigger_methods == Some(trigger_methods),
        m.condition_type == Some(condition_type),
        m.trigger_condition is None,
        m.is_router,
        m.router_paths == router_paths,
        m.human_feedback_config is None,
{
    let mut m = FlowMethodMeta::default();
    m.is_router = true;
    m.trigger_methods = Some(trigger_methods);
    m.condition_type = Some(condition_type);
    m.router_paths = router_paths;
    m
}

/// Helper to create an OR condition over direct method triggers.
pub fn or_(methods: Vec<FlowMethodName>) -> (c: FlowCondition)
    ensures
        c.condition_type == FlowConditionType::OR,
        c.conditions@.len() == 0,
        c.methods == methods,
{
    FlowCondition { condition_type: FlowConditionType::OR, conditions: Vec::new(), methods }
}

/// Helper to create an AND condition over direct method triggers.
pub fn and_(methods: Vec<FlowMethodName>) -> (c: FlowCondition)
    ensures
        c.condition_type == FlowConditionType::AND,
        c.conditions@.len() == 0,
        c.methods == methods,
{
    FlowCondition { condition_type: FlowConditionType::AND, conditions: Vec::new(), methods }
}

/// The method names of a list, as characters.
pub open spec fn names_view(s: Seq<FlowMethodName>) -> Seq<Seq<char>> {
    s.map_values(|n: FlowMethodName| n.0@)
}

/// The set of method names in a list.
pub open spec fn names_set(s: Seq<FlowMethodName>) -> Set<Seq<char>> {
    Set::new(|x: Seq<char>| names_view(s).contains(x))
}

/// The method names of an optional list, as characters.
pub open spec fn opt_names_view(s: Option<Vec<FlowMethodName>>) -> Option<Seq<Seq<char>>> {
    match s {
        Some(v) => Some(names_view(v@)),
        None => None,
    }
}

/// A copy of a list of method names.
pub fn copy_names(v: &Vec<FlowMethodName>) -> (r: Vec<FlowMethodName>)
    ensures
        names_view(r@) == names_view(v@),
{
    let mut r: Vec<FlowMethodName> = Vec::new();
    let mut i: usize = 0;
    while i < v.len()
        invariant
            i <= v@.len(),
            names_view(r@) == names_view(v@.take(i as int)),
        decreases v@.len() - i,
    {
        let ghost before = r@;
        r.push(v[i].copy());
        assert(names_view(r@) =~= names_view(before).push(v@[i as int].0@));
        assert(names_view(v@.take(i + 1)) =~= names_view(v@.take(i as int)).push(v@[i as int].0@));
        i += 1;
    }
    assert(v@.take(i as int) =~= v@);
    r
}

/// Whether `x` names one of the methods in `v`.
pub fn contains_name(v: &Vec<FlowMethodName>, x: &FlowMethodName) -> (r: bool)
    ensures
        r == names_view(v@).contains(x.0@),
{
    let mut i: usize = 0;
    while i < v.len()
        invariant
            i <= v@.len(),
            forall|j: int| 0 <= j < i ==> #[trigger] v@[j].0@ != x.0@,
        decreases v@.len() - i,
    {
        if v[i] == *x {
            assert(names_view(v@)[i as int] == x.0@);
            return true;
        }
        i += 1;
    }
    assert forall|j: int| 0 <= j < names_view(v@).len() implies names_view(v@)[j] != x.0@ by {
        assert(v@[j].0@ != x.0@);
    }
    false
}

/// Two conditions with the same type, items and direct methods.
pub open spec fn same_cond(a: FlowCondition, b: FlowCondition) -> bool
    decreases a, 0nat,
{
    &&& a.condition_type == b.condition_type
    &&& names_view(a.methods@) == names_view(b.methods@)
    &&& same_items(a.conditions@, b.conditions@)
}

/// Two lists of condition items that agree element by element.
pub open spec fn same_items(xs: Seq<FlowConditionItem>, ys: Seq<FlowConditionItem>) -> bool
    decreases xs, xs.len(),
{
    if xs.len() == 0 {
        ys.len() == 0
    } else {
        &&& ys.len() == xs.len()
        &&& same_items(xs.drop_last(), ys.drop_last())
        &&& match xs.last() {
            FlowConditionItem::MethodName(n) => ys.last() matches FlowConditionItem::MethodName(m) && n.0@
                == m.0@,
            FlowConditionItem::Condition(c) => match ys.last() {
                FlowConditionItem::Condition(d) => same_cond(c, d),
                FlowConditionItem::MethodName(_) => false,
            },
        }
    }
}

/// Two optional conditions that are both absent or the same.
pub open spec fn same_opt_cond(a: Option<FlowCondition>, b: Option<FlowCondition>) -> bool {
    match a {
        Some(x) => b matches Some(y) && same_cond(x, y),
        None => b is None,
    }
}

impl FlowCondition {
    /// A deep copy of this condition.
    pub fn copy(&self) -> (r: FlowCondition)
        ensures
            same_cond(r, *self),
        decreases self,
    {
        let mut items: Vec<FlowConditionItem> = Vec::new();
        let mut i: usize = 0;
        while i < self.conditions.len()
            invariant
                i <= self.conditions@.len(),
                same_items(items@, self.conditions@.take(i as int)),
            decreases self.conditions@.len() - i,
        {
            proof {
                assert(decreases_to!(*self => self.conditions));
            }
            let item = match &self.conditions[i] {
                FlowConditionItem::MethodName(n) => FlowConditionItem::MethodName(n.copy()),
                FlowConditionItem::Condition(c) => FlowConditionItem::Condition(c.copy()),
            };
            let ghost before = items@;
            items.push(item);
            assert(items@.drop_last() =~= before);
            assert(self.conditions@.take(i + 1).drop_last() =~= self.conditions@.take(i as int));
            i += 1;
        }
        assert(self.conditions@.take(i as int) =~= self.conditions@);
        FlowCondition { condition_type: self.condition_type, conditions: items, methods: copy_names(&self.methods) }
    }
}

/// A copy of an optional condition.
pub fn copy_opt_condition(c: &Option<FlowCondition>) -> (r: Option<FlowCondition>)
    ensures
        same_opt_cond(r, *c),
{
    match c {
        Some(x) => Some(x.copy()),
        None => None,
    }
}

} // verus!
