//! Flow structure types for visualization.

use vstd::prelude::*;

use crate::flow::flow::{copy_opt_strings, opt_strings_view, FlowMethodRegistration, FlowMethodType};
use crate::flow::flow_wrappers::{names_view, FlowConditionType, FlowMethodName};
use crate::text::str_eq;
use crate::flow::utils::{add_child, contains_str, copy_strings, find_key, first_key_at, has_child, has_key, set_map_wf, str_views};

verus! {

/// A connection between two nodes of a flow structure.
#[derive(Debug, Clone)]
pub struct StructureEdge {
    /// Source node name.
    pub source: String,
    /// Target node name.
    pub target: String,
    /// Edge label (such as "listens_to", or a router path).
    pub label: Option<String>,
    /// Condition type on the edge, if any.
    pub condition_type: Option<String>,
    /// Whether the edge is a router path.
    pub is_router_path: Option<bool>,
    /// Label of the router path.
    pub router_path_label: Option<String>,
}

impl Default for StructureEdge {
    fn default() -> (e: Self)
        ensures
            e.source@.len() == 0,
            e.target@.len() == 0,
            e.label is None,
            e.condition_type is None,
            e.is_router_path is None,
            e.router_path_label is None,
    {
        StructureEdge {
            source: String::new(),
            target: String::new(),
            label: None,
            condition_type: None,
            is_router_path: None,
            router_path_label: None,
        }
    }
}


/// Metadata of one node of the flow structure.
#[derive(Debug, Clone)]
pub struct NodeMetadata {
    /// Identifier of the node (the method name).
    pub id: String,
    /// Display label of the node.
    pub label: String,
    /// Type of the node ("start", "listen" or "router").
    pub node_type: Option<String>,
    /// Whether the node is a start method.
    pub is_start: bool,
    /// Whether the node is a router.
    pub is_router: Option<bool>,
    /// The router's possible paths.
    pub router_paths: Option<Vec<String>>,
    /// Condition type ("OR"/"AND").
    pub condition_type: Option<String>,
    /// Trigger condition type.
    pub trigger_condition_type: Option<String>,
    /// Methods that trigger the node.
    pub trigger_methods: Option<Vec<String>>,
    /// Full trigger condition.
    pub trigger_condition: Option<std::collections::HashMap<String, serde_json::Value>>,
    /// Method signature information.
    pub method_signature: Option<std::collections::HashMap<String, serde_json::Value>>,
    /// Source code of the method.
    pub source_code: Option<String>,
    /// Source code lines.
    pub source_lines: Option<Vec<String>>,
    /// First line of the source.
    pub source_start_line: Option<i32>,
    /// Source file path.
    pub source_file: Option<String>,
    /// Class signature.
    pub class_signature: Option<String>,
    /// Class name.
    pub class_name: Option<String>,
    /// Line of the class.
    pub class_line_number: Option<i32>,
    /// Depth of the node in the graph (breadth-first from the start nodes).
    pub level: usize,
}

/// Every optional field of the metadata is unset.
pub open spec fn extras_unset(m: NodeMetadata) -> bool {
    &&& m.trigger_condition_type is None
    &&& m.trigger_condition is None
    &&& m.method_signature is None
    &&& m.source_code is None
    &&& m.source_lines is None
    &&& m.source_start_line is None
    &&& m.source_file is None
    &&& m.class_signature is None
    &&& m.class_name is None
    &&& m.class_line_number is None
}

impl Default for NodeMetadata {
    fn default() -> (m: Self)
        ensures
            m.id@.len() == 0,
            m.label@.len() == 0,
            m.node_type is None,
            !m.is_start,
            m.is_router is None,
            m.router_paths is None,
            m.condition_type is None,
            m.trigger_methods is None,
            extras_unset(m),
            m.level == 0,
    {
        NodeMetadata {
            id: String::new(),
            label: String::new(),
            node_type: None,
            is_start: false,
            is_router: None,
            router_paths: None,
            condition_type: None,
            trigger_condition_type: None,
            trigger_methods: None,
            trigger_condition: None,
            method_signature: None,
            source_code: None,
            source_lines: None,
            source_start_line: None,
            source_file: None,
            class_signature: None,
            class_name: None,
            class_line_number: None,
            level: 0,
        }
    }
}

/// The structure of a flow: nodes keyed by method name, edges, start and
/// router methods.
#[derive(Debug, Clone)]
pub struct FlowStructure {
    /// Nodes keyed by method name, each key once.
    pub nodes: Vec<(String, NodeMetadata)>,
    /// Edges between nodes.
    pub edges: Vec<StructureEdge>,
    /// Names of the start methods.
    pub start_methods: Vec<String>,
    /// Names of the router methods.
    pub router_methods: Vec<String>,
    /// Name of the flow.
    pub flow_name: String,
}

impl FlowStructure {
    /// An empty structure for the flow of the given name.
    pub fn new(flow_name: &str) -> (s: Self)
        ensures
            s.flow_name@ == flow_name@,
            s.nodes@.len() == 0,
            s.edges@.len() == 0,
            s.start_methods@.len() == 0,
            s.router_methods@.len() == 0,
    {
        FlowStructure {
            nodes: Vec::new(),
            edges: Vec::new(),
            start_methods: Vec::new(),
            router_methods: Vec::new(),
            flow_name: flow_name.to_string(),
        }
    }
}

impl Default for FlowStructure {
    fn default() -> (s: Self)
        ensures
            s.flow_name@.len() == 0,
            s.nodes@.len() == 0,
            s.edges@.len() == 0,
            s.start_methods@.len() == 0,
            s.router_methods@.len() == 0,
    {
        FlowStructure {
            nodes: Vec::new(),
            edges: Vec::new(),
            start_methods: Vec::new(),
            router_methods: Vec::new(),
            flow_name: String::new(),
        }
    }
}

/// `v` is listed under the first entry of `u` in the adjacency list.
pub open spec fn adj_edge(adj: Seq<(String, Vec<String>)>, u: Seq<char>, v: Seq<char>) -> bool {
    exists|k: int| #[trigger] first_key_at(adj, u, k) && str_views(adj[k].1@).contains(v)
}

/// The step from `p[i]` to `p[i + 1]` follows the adjacency list.
pub open spec fn adj_step(adj: Seq<(String, Vec<String>)>, p: Seq<Seq<char>>, i: int) -> bool {
    adj_edge(adj, p[i], p[i + 1])
}

/// `p` begins at a start node and follows the adjacency list.
pub open spec fn start_path(starts: Seq<String>, adj: Seq<(String, Vec<String>)>, p: Seq<Seq<char>>) -> bool {
    &&& p.len() >= 1
    &&& str_views(starts).contains(p[0])
    &&& forall|i: int| 0 <= i < p.len() - 1 ==> #[trigger] adj_step(adj, p, i)
}

/// `v` can be reached from a start node in exactly `d` steps.
pub open spec fn reachable_in(starts: Seq<String>, adj: Seq<(String, Vec<String>)>, v: Seq<char>, d: int) -> bool {
    exists|p: Seq<Seq<char>>| #[trigger] start_path(starts, adj, p) && p.len() == d + 1 && p.last() == v
}

/// `levels` records level `d` for `v`.
pub open spec fn has_level(levels: Seq<(String, usize)>, v: Seq<char>, d: int) -> bool {
    exists|j: int| #![trigger levels[j]] 0 <= j < levels.len() && levels[j].0@ == v && levels[j].1 == d
}

/// `levels` records a level of at most `b` for `v`.
pub open spec fn level_le(levels: Seq<(String, usize)>, v: Seq<char>, b: int) -> bool {
    exists|j: int| #![trigger levels[j]] 0 <= j < levels.len() && levels[j].0@ == v && levels[j].1 <= b
}

/// No key repeats.
pub open spec fn unique_keys<T>(m: Seq<(String, T)>) -> bool {
    forall|a: int, b: int| 0 <= a < b < m.len() ==> #[trigger] m[a].0@ != #[trigger] m[b].0@
}

/// `levels` gives each node reachable from a start node its breadth-first
/// depth: each node once, start nodes at 0, each recorded level the length
/// of a path from a start node, and along every edge from a recorded node
/// the next node recorded at most one level deeper.
pub open spec fn bfs_levels(starts: Seq<String>, adj: Seq<(String, Vec<String>)>, levels: Seq<(String, usize)>) -> bool {
    &&& unique_keys(levels)
    &&& forall|i: int| 0 <= i < starts.len() ==> has_level(levels, #[trigger] starts[i]@, 0)
    &&& forall|j: int| 0 <= j < levels.len() ==> reachable_in(starts, adj, #[trigger] levels[j].0@, levels[j].1 as int)
    &&& forall|j: int, v: Seq<char>|
        0 <= j < levels.len() && #[trigger] adj_edge(adj, levels[j].0@, v) ==> level_le(levels, v, levels[j].1 + 1)
}

/// Breadth-first levels never exceed the length of a path: the node a path
/// from a start node ends at is recorded, at most as deep as the path is
/// long.
pub proof fn lemma_level_at_most_path(
    starts: Seq<String>,
    adj: Seq<(String, Vec<String>)>,
    levels: Seq<(String, usize)>,
    p: Seq<Seq<char>>,
)
    requires
        bfs_levels(starts, adj, levels),
        start_path(starts, adj, p),
    ensures
        level_le(levels, p.last(), p.len() - 1),
    decreases p.len(),
{
    if p.len() == 1 {
        let i = choose|i: int| 0 <= i < str_views(starts).len() && str_views(starts)[i] == p[0];
        assert(has_level(levels, starts[i]@, 0));
    } else {
        let q = p.drop_last();
        assert forall|i: int| 0 <= i < q.len() - 1 implies #[trigger] adj_step(adj, q, i) by {
            assert(adj_step(adj, p, i));
        }
        lemma_level_at_most_path(starts, adj, levels, q);
        assert(adj_step(adj, p, p.len() - 2));
        let j = choose|j: int| #![trigger levels[j]] 0 <= j < levels.len() && levels[j].0@ == q.last() && levels[j].1 <= q.len() - 1;
        assert(adj_edge(adj, levels[j].0@, p.last()));
        let k = choose|k: int| #![trigger levels[k]] 0 <= k < levels.len() && levels[k].0@ == p.last() && levels[k].1 <= levels[j].1 + 1;
        assert(levels[k].1 <= p.len() - 1);
    }
}

/// Breadth-first levels are shortest distances: a recorded node's level is
/// the fewest steps in which a start node reaches it, and a node without a
/// level is not reached at all.
pub proof fn lemma_levels_are_distances(
    starts: Seq<String>,
    adj: Seq<(String, Vec<String>)>,
    levels: Seq<(String, usize)>,
    v: Seq<char>,
    d: int,
)
    requires
        bfs_levels(starts, adj, levels),
        reachable_in(starts, adj, v, d),
    ensures
        has_key(levels, v),
        forall|e: int| has_level(levels, v, e) ==> e <= d && reachable_in(starts, adj, v, e),
{
    let p = choose|p: Seq<Seq<char>>| #[trigger] start_path(starts, adj, p) && p.len() == d + 1 && p.last() == v;
    lemma_level_at_most_path(starts, adj, levels, p);
    let j = choose|j: int| #![trigger levels[j]] 0 <= j < levels.len() && levels[j].0@ == v && levels[j].1 <= d;
    assert(levels[j].0@ == v);
    assert forall|e: int| has_level(levels, v, e) implies e <= d && reachable_in(starts, adj, v, e) by {
        let i = choose|i: int| #![trigger levels[i]] 0 <= i < levels.len() && levels[i].0@ == v && levels[i].1 == e;
        if i != j {
            if i < j {
                assert(levels[i].0@ != levels[j].0@);
            } else {
                assert(levels[j].0@ != levels[i].0@);
            }
        }
        assert(reachable_in(starts, adj, levels[i].0@, levels[i].1 as int));
    }
}

proof fn lemma_path_extend(
    starts: Seq<String>,
    adj: Seq<(String, Vec<String>)>,
    u: Seq<char>,
    d: int,
    v: Seq<char>,
)
    requires
        reachable_in(starts, adj, u, d),
        adj_edge(adj, u, v),
    ensures
        reachable_in(starts, adj, v, d + 1),
{
    let p = choose|p: Seq<Seq<char>>| #[trigger] start_path(starts, adj, p) && p.len() == d + 1 && p.last() == u;
    let q = p.push(v);
    assert forall|i: int| 0 <= i < q.len() - 1 implies #[trigger] adj_step(adj, q, i) by {
        if i < p.len() - 1 {
            assert(adj_step(adj, p, i));
        }
    }
    assert(start_path(starts, adj, q));
}

proof fn lemma_levels_grow(old: Seq<(String, usize)>, new: Seq<(String, usize)>)
    requires
        old.len() <= new.len(),
        forall|j: int| 0 <= j < old.len() ==> new[j] == old[j],
    ensures
        forall|v: Seq<char>, d: int| #[trigger] has_level(old, v, d) ==> has_level(new, v, d),
        forall|v: Seq<char>, b: int| #[trigger] level_le(old, v, b) ==> level_le(new, v, b),
{
    assert forall|v: Seq<char>, d: int| #[trigger] has_level(old, v, d) implies has_level(new, v, d) by {
        let j = choose|j: int| #![trigger old[j]] 0 <= j < old.len() && old[j].0@ == v && old[j].1 == d;
        assert(new[j] == old[j]);
    }
    assert forall|v: Seq<char>, b: int| #[trigger] level_le(old, v, b) implies level_le(new, v, b) by {
        let j = choose|j: int| #![trigger old[j]] 0 <= j < old.len() && old[j].0@ == v && old[j].1 <= b;
        assert(new[j] == old[j]);
    }
}

/// The level recorded for `key`, if any.
fn level_of(levels: &Vec<(String, usize)>, key: &str) -> (r: Option<usize>)
    requires
        unique_keys(levels@),
    ensures
        match r {
            Some(d) => has_level(levels@, key@, d as int),
            None => !has_key(levels@, key@),
        },
        forall|d: int| #[trigger] has_level(levels@, key@, d) ==> r == Some(d as usize),
{
    match find_key(levels, key) {
        Some(i) => {
            assert(levels@[i as int].0@ == key@);
            assert forall|d: int| #[trigger] has_level(levels@, key@, d) implies Some(levels@[i as int].1) == Some(d as usize) by {
                let j = choose|j: int| #![trigger levels@[j]] 0 <= j < levels@.len() && levels@[j].0@ == key@ && levels@[j].1 == d;
                if j < i {
                    assert(levels@[j].0@ != key@);
                } else if j > i {
                    assert(levels@[i as int].0@ != levels@[j].0@);
                }
            }
            Some(levels[i].1)
        },
        None => {
            assert forall|d: int| #[trigger] has_level(levels@, key@, d) implies false by {
                let j = choose|j: int| #![trigger levels@[j]] 0 <= j < levels@.len() && levels@[j].0@ == key@ && levels@[j].1 == d;
                assert(levels@[j].0@ == key@);
            }
            None
        },
    }
}


/// Every start node has level 0.
#[verifier::opaque]
pub open spec fn starts_at_zero(st: Seq<String>, levels: Seq<(String, usize)>) -> bool {
    forall|i: int| 0 <= i < st.len() ==> has_level(levels, #[trigger] st[i]@, 0)
}

/// Each queued node has the level recorded beside it in `qlv`.
#[verifier::opaque]
pub open spec fn queue_levels(levels: Seq<(String, usize)>, queue: Seq<String>, qlv: Seq<int>) -> bool {
    forall|i: int| 0 <= i < queue.len() ==> has_level(levels, #[trigger] queue[i]@, qlv[i])
}

/// Queue levels are at most their position, and do not decrease from
/// `head` on.
#[verifier::opaque]
pub open spec fn queue_order(qlv: Seq<int>, head: int) -> bool {
    &&& forall|i: int| 0 <= i < qlv.len() ==> 0 <= #[trigger] qlv[i] <= i
    &&& forall|i: int, j: int| head <= i < j < qlv.len() ==> #[trigger] qlv[i] <= #[trigger] qlv[j]
}

/// No recorded level exceeds `cap`.
#[verifier::opaque]
pub open spec fn levels_capped(levels: Seq<(String, usize)>, cap: int) -> bool {
    forall|j: int| 0 <= j < levels.len() ==> #[trigger] levels[j].1 <= cap
}

/// Each node before `head` has every neighbour recorded at most one level
/// deeper.
#[verifier::opaque]
pub open spec fn visited_closed(
    adj: Seq<(String, Vec<String>)>,
    levels: Seq<(String, usize)>,
    queue: Seq<String>,
    qlv: Seq<int>,
    head: int,
) -> bool {
    forall|i: int, v: Seq<char>| 0 <= i < head && #[trigger] adj_edge(adj, queue[i]@, v) ==> level_le(levels, v, qlv[i] + 1)
}

/// Every node with a level is queued.
#[verifier::opaque]
pub open spec fn keys_queued(levels: Seq<(String, usize)>, queue: Seq<String>) -> bool {
    forall|j: int|
        #![trigger levels[j]]
        0 <= j < levels.len() ==> exists|i: int| 0 <= i < queue.len() && #[trigger] queue[i]@ == levels[j].0@
}

/// Each queued node is reached from a start node in as many steps as its
/// level.
#[verifier::opaque]
pub open spec fn queue_reachable(st: Seq<String>, adj: Seq<(String, Vec<String>)>, queue: Seq<String>, qlv: Seq<int>) -> bool {
    forall|i: int| 0 <= i < queue.len() ==> reachable_in(st, adj, #[trigger] queue[i]@, qlv[i])
}

/// No key repeats among the levels.
#[verifier::opaque]
pub open spec fn levels_unique(levels: Seq<(String, usize)>) -> bool {
    unique_keys(levels)
}

/// The state of a breadth-first walk: `queue` holds every node given a
/// level, in order, `qlv` their levels, and the nodes before `head` have
/// had their neighbours visited.
pub open spec fn bfs_state(
    st: Seq<String>,
    adj: Seq<(String, Vec<String>)>,
    levels: Seq<(String, usize)>,
    queue: Seq<String>,
    qlv: Seq<int>,
    head: int,
) -> bool {
    &&& 0 <= head <= queue.len()
    &&& queue.len() == qlv.len()
    &&& levels_unique(levels)
    &&& starts_at_zero(st, levels)
    &&& queue_levels(levels, queue, qlv)
    &&& queue_order(qlv, head)
    &&& head < queue.len() ==> levels_capped(levels, qlv[head] + 1)
    &&& visited_closed(adj, levels, queue, qlv, head)
    &&& keys_queued(levels, queue)
    &&& queue_reachable(st, adj, queue, qlv)
}

proof fn lemma_enqueue_state(
    st: Seq<String>,
    adj: Seq<(String, Vec<String>)>,
    levels: Seq<(String, usize)>,
    queue: Seq<String>,
    qlv: Seq<int>,
    h: int,
    v: String,
    d: usize,
)
    requires
        bfs_state(st, adj, levels, queue, qlv, h),
        h < queue.len(),
        qlv[h] == d,
        adj_edge(adj, queue[h]@, v@),
        !has_key(levels, v@),
        queue.len() <= usize::MAX,
    ensures
        bfs_state(st, adj, levels.push((v, (d + 1) as usize)), queue.push(v), qlv.push(d + 1), h),
{
    assert(qlv[h] <= h) by {
        reveal(queue_order);
    }
    let nl = levels.push((v, (d + 1) as usize));
    let nq = queue.push(v);
    let nv = qlv.push(d + 1);
    let n = levels.len() as int;
    let m = queue.len() as int;
    lemma_levels_grow(levels, nl);
    assert(nl[n].0@ == v@ && nl[n].1 == d + 1);
    assert(nq[m]@ == v@);
    assert(levels_unique(nl)) by {
        reveal(levels_unique);
        assert forall|a: int, b: int| 0 <= a < b < nl.len() implies #[trigger] nl[a].0@ != #[trigger] nl[b].0@ by {
            if b == n {
                assert(levels[a].0@ != v@);
            } else {
                assert(levels[a].0@ != levels[b].0@);
            }
        }
    }
    assert(starts_at_zero(st, nl)) by {
        reveal(starts_at_zero);
        assert forall|i: int| 0 <= i < st.len() implies has_level(nl, #[trigger] st[i]@, 0) by {
            assert(has_level(levels, st[i]@, 0));
        }
    }
    assert(queue_levels(nl, nq, nv)) by {
        reveal(queue_levels);
        assert forall|i: int| 0 <= i < nq.len() implies has_level(nl, #[trigger] nq[i]@, nv[i]) by {
            if i < m {
                assert(nq[i] == queue[i]);
                assert(has_level(levels, queue[i]@, qlv[i]));
            } else {
                assert(nl[n].0@ == nq[i]@);
            }
        }
    }
    assert(levels_capped(levels, d + 1));
    assert(queue_order(nv, h)) by {
        reveal(queue_order);
        reveal(queue_levels);
        reveal(levels_capped);
        assert(qlv[h] <= h);
        assert forall|i: int| 0 <= i < nv.len() implies 0 <= #[trigger] nv[i] <= i by {
            if i < m {
                assert(nv[i] == qlv[i]);
            }
        }
        assert forall|i: int, j: int| h <= i < j < nv.len() implies #[trigger] nv[i] <= #[trigger] nv[j] by {
            if j == m {
                assert(has_level(levels, queue[i]@, qlv[i]));
                let w = choose|w: int| #![trigger levels[w]] 0 <= w < levels.len() && levels[w].0@ == queue[i]@ && levels[w].1 == qlv[i];
                assert(levels[w].1 <= d + 1);
            } else {
                assert(nv[i] == qlv[i] && nv[j] == qlv[j]);
            }
        }
    }
    assert(levels_capped(nl, nv[h] + 1)) by {
        reveal(levels_capped);
        assert forall|j: int| 0 <= j < nl.len() implies #[trigger] nl[j].1 <= nv[h] + 1 by {
            if j < n {
                assert(nl[j] == levels[j]);
            }
        }
    }
    assert(visited_closed(adj, nl, nq, nv, h)) by {
        reveal(visited_closed);
        assert forall|i: int, w: Seq<char>| 0 <= i < h && #[trigger] adj_edge(adj, nq[i]@, w) implies level_le(nl, w, nv[i] + 1) by {
            assert(nq[i] == queue[i]);
            assert(level_le(levels, w, qlv[i] + 1));
        }
    }
    assert(keys_queued(nl, nq)) by {
        reveal(keys_queued);
        assert forall|j: int| #![trigger nl[j]] 0 <= j < nl.len() implies exists|i: int| 0 <= i < nq.len() && #[trigger] nq[i]@ == nl[j].0@ by {
            if j < n {
                assert(nl[j] == levels[j]);
                let i = choose|i: int| 0 <= i < queue.len() && #[trigger] queue[i]@ == levels[j].0@;
                assert(nq[i] == queue[i]);
            } else {
                assert(nq[m]@ == nl[j].0@);
            }
        }
    }
    assert(queue_reachable(st, adj, nq, nv)) by {
        reveal(queue_reachable);
        assert(reachable_in(st, adj, queue[h]@, qlv[h]));
        lemma_path_extend(st, adj, queue[h]@, d as int, v@);
        assert forall|i: int| 0 <= i < nq.len() implies reachable_in(st, adj, #[trigger] nq[i]@, nv[i]) by {
            if i < m {
                assert(nq[i] == queue[i]);
            }
        }
    }
}

/// The start nodes at level 0, queued in order.
fn bfs_start(start_nodes: &Vec<String>, Ghost(adj): Ghost<Seq<(String, Vec<String>)>>) -> (r: (Vec<(String, usize)>, Vec<String>, Ghost<Seq<int>>))
    ensures
        bfs_state(start_nodes@, adj, r.0@, r.1@, r.2@, 0),
{
    let ghost st = start_nodes@;
    let mut levels: Vec<(String, usize)> = Vec::new();
    let mut queue: Vec<String> = Vec::new();
    let ghost mut qlv: Seq<int> = Seq::empty();
    assert(keys_queued(levels@, queue@)) by {
        reveal(keys_queued);
    }
    let mut s: usize = 0;
    while s < start_nodes.len()
        invariant
            st == start_nodes@,
            s <= st.len(),
            unique_keys(levels@),
            queue@.len() == qlv.len() == s,
            forall|i: int| 0 <= i < s ==> has_level(levels@, #[trigger] st[i]@, 0),
            forall|i: int| 0 <= i < s ==> #[trigger] queue@[i]@ == st[i]@,
            forall|i: int| 0 <= i < s ==> #[trigger] qlv[i] == 0,
            forall|j: int| 0 <= j < levels@.len() ==> #[trigger] levels@[j].1 == 0,
            keys_queued(levels@, queue@),
        decreases st.len() - s,
    {
        let ghost old_levels = levels@;
        let ghost old_queue = queue@;
        if find_key(&levels, start_nodes[s].as_str()).is_none() {
            levels.push((start_nodes[s].clone(), 0));
            proof {
                assert(levels@[old_levels.len() as int].0@ == st[s as int]@);
                assert(unique_keys(levels@)) by {
                    assert forall|a: int, b: int| 0 <= a < b < levels@.len() implies #[trigger] levels@[a].0@
                        != #[trigger] levels@[b].0@ by {
                        if b == old_levels.len() {
                            assert(old_levels[a].0@ != st[s as int]@);
                        }
                    }
                }
            }
        }
        queue.push(start_nodes[s].clone());
        proof {
            qlv = qlv.push(0);
            lemma_levels_grow(old_levels, levels@);
            assert(has_level(levels@, st[s as int]@, 0)) by {
                let i = choose|i: int| 0 <= i < levels@.len() && #[trigger] levels@[i].0@ == st[s as int]@;
                assert(levels@[i].1 == 0);
            }
            assert forall|i: int| 0 <= i < s + 1 implies #[trigger] queue@[i]@ == st[i]@ by {
                if i < s {
                    assert(queue@[i] == old_queue[i]);
                }
            }
            assert(keys_queued(levels@, queue@)) by {
                reveal(keys_queued);
                assert forall|j: int| #![trigger levels@[j]] 0 <= j < levels@.len() implies exists|i: int|
                    0 <= i < queue@.len() && #[trigger] queue@[i]@ == levels@[j].0@ by {
                    if j < old_levels.len() {
                        let i = choose|i: int| 0 <= i < old_queue.len() && #[trigger] old_queue[i]@ == old_levels[j].0@;
                        assert(queue@[i] == old_queue[i]);
                    } else {
                        assert(queue@[s as int]@ == levels@[j].0@);
                    }
                }
            }
        }
        s += 1;
    }
    proof {
        reveal(levels_unique);
        reveal(starts_at_zero);
        reveal(queue_levels);
        reveal(queue_order);
        reveal(levels_capped);
        reveal(visited_closed);
        reveal(keys_queued);
        reveal(queue_reachable);
        assert forall|i: int| 0 <= i < queue@.len() implies has_level(levels@, #[trigger] queue@[i]@, qlv[i]) by {
            assert(queue@[i]@ == st[i]@);
            assert(qlv[i] == 0);
        }
        assert forall|i: int| 0 <= i < queue@.len() implies reachable_in(st, adj, #[trigger] queue@[i]@, qlv[i]) by {
            assert(queue@[i]@ == st[i]@);
            assert(qlv[i] == 0);
            let p = seq![st[i]@];
            assert(str_views(st)[i] == st[i]@);
            assert(start_path(st, adj, p));
        }
        assert forall|i: int, j: int| 0 <= i < j < qlv.len() implies #[trigger] qlv[i] <= #[trigger] qlv[j] by {}
        assert forall|i: int| 0 <= i < qlv.len() implies 0 <= #[trigger] qlv[i] <= i by {}
        if 0 < queue@.len() {
            assert(qlv[0] == 0);
            assert forall|j: int| 0 <= j < levels@.len() implies #[trigger] levels@[j].1 <= qlv[0] + 1 by {}
            assert(levels_capped(levels@, qlv[0] + 1));
        }
        assert(levels_unique(levels@));
        assert(starts_at_zero(st, levels@));
        assert(queue_levels(levels@, queue@, qlv));
        assert(queue_order(qlv, 0));
        assert(visited_closed(adj, levels@, queue@, qlv, 0));
        assert(queue_reachable(st, adj, queue@, qlv));
    }
    (levels, queue, Ghost(qlv))
}

/// Visit the neighbours of the node at `head`, giving each one not yet
/// reached the next level.
fn bfs_visit(
    levels: &mut Vec<(String, usize)>,
    queue: &mut Vec<String>,
    head: usize,
    adjacency: &Vec<(String, Vec<String>)>,
    Ghost(st): Ghost<Seq<String>>,
    Ghost(qlv): Ghost<Seq<int>>,
) -> (new_qlv: Ghost<Seq<int>>)
    requires
        bfs_state(st, adjacency@, old(levels)@, old(queue)@, qlv, head as int),
        head < old(queue)@.len(),
    ensures
        bfs_state(st, adjacency@, final(levels)@, final(queue)@, new_qlv@, head + 1),
{
    let ghost adj = adjacency@;
    let ghost h = head as int;
    let u = queue[head].clone();
    assert(has_level(levels@, queue@[h]@, qlv[h])) by {
        reveal(queue_levels);
    }
    assert(unique_keys(levels@)) by {
        reveal(levels_unique);
    }
    let d = match level_of(levels, u.as_str()) {
        Some(d) => d,
        None => {
            proof {
                let w = choose|w: int| #![trigger levels@[w]] 0 <= w < levels@.len() && levels@[w].0@ == queue@[h]@ && levels@[w].1 == qlv[h];
                assert(levels@[w].0@ == u@);
            }
            return Ghost(qlv);
        },
    };
    assert(d == qlv[h]);
    let ghost mut nq = qlv;
    match find_key(adjacency, u.as_str()) {
        Some(k) => {
            let nbrs = &adjacency[k].1;
            let mut t: usize = 0;
            while t < nbrs.len()
                invariant
                    adj == adjacency@,
                    nbrs == adjacency@[k as int].1,
                    first_key_at(adj, u@, k as int),
                    t <= nbrs@.len(),
                    h < queue@.len(),
                    bfs_state(st, adj, levels@, queue@, nq, h),
                    d == nq[h],
                    queue@[h]@ == u@,
                    forall|q: int| 0 <= q < t ==> level_le(levels@, #[trigger] nbrs@[q]@, d + 1),
                decreases nbrs@.len() - t,
            {
                let v = &nbrs[t];
                let ghost old_levels = levels@;
                let ghost old_queue = queue@;
                proof {
                    assert(str_views(nbrs@)[t as int] == v@);
                    assert(adj_edge(adj, u@, v@));
                }
                if find_key(levels, v.as_str()).is_none() {
                    let qn = queue.len();
                    assert(nq[h] <= h) by {
                        reveal(queue_order);
                    }
                    assert(h < qn);
                    proof {
                        lemma_enqueue_state(st, adj, old_levels, old_queue, nq, h, *v, d);
                    }
                    levels.push((v.clone(), d + 1));
                    queue.push(v.clone());
                    proof {
                        nq = nq.push(d + 1);
                        lemma_levels_grow(old_levels, levels@);
                        assert(levels@[old_levels.len() as int].0@ == v@);
                        assert(level_le(levels@, nbrs@[t as int]@, d + 1));
                    }
                } else {
                    proof {
                        reveal(levels_capped);
                        let w = choose|w: int| 0 <= w < levels@.len() && #[trigger] levels@[w].0@ == v@;
                        assert(levels@[w].1 <= nq[h] + 1);
                        assert(level_le(levels@, nbrs@[t as int]@, d + 1));
                    }
                }
                t += 1;
            }
            proof {
                assert forall|v: Seq<char>| #[trigger] adj_edge(adj, queue@[h]@, v) implies level_le(levels@, v, nq[h] + 1) by {
                    let k2 = choose|k2: int| #[trigger] first_key_at(adj, u@, k2) && str_views(adj[k2].1@).contains(v);
                    if k2 < k {
                        assert(adj[k2].0@ != u@);
                    } else if k2 > k {
                        assert(adj[k as int].0@ != u@);
                    }
                    let q = choose|q: int| 0 <= q < str_views(nbrs@).len() && str_views(nbrs@)[q] == v;
                    assert(level_le(levels@, nbrs@[q]@, d + 1));
                }
            }
        },
        None => {
            proof {
                assert forall|v: Seq<char>| #[trigger] adj_edge(adj, queue@[h]@, v) implies level_le(levels@, v, nq[h] + 1) by {
                    let k2 = choose|k2: int| #[trigger] first_key_at(adj, u@, k2) && str_views(adj[k2].1@).contains(v);
                    assert(adj[k2].0@ == u@);
                }
            }
        },
    }
    proof {
        assert(visited_closed(adj, levels@, queue@, nq, h + 1)) by {
            reveal(visited_closed);
            assert forall|i: int, v: Seq<char>| 0 <= i < h + 1 && #[trigger] adj_edge(adj, queue@[i]@, v) implies level_le(
                levels@,
                v,
                nq[i] + 1,
            ) by {}
        }
        assert(queue_order(nq, h + 1)) by {
            reveal(queue_order);
        }
        if h + 1 < queue@.len() {
            assert(levels_capped(levels@, nq[h + 1] + 1)) by {
                reveal(queue_order);
                reveal(levels_capped);
                assert(nq[h] <= nq[h + 1]);
            }
        }
    }
    Ghost(nq)
}

/// Breadth-first levels from the start nodes along the adjacency list:
/// start nodes at 0, every node first reached from a node at level `d` at
/// `d + 1`. Nodes not reached get no level.
fn calculate_node_levels(start_nodes: &Vec<String>, adjacency: &Vec<(String, Vec<String>)>) -> (levels: Vec<(String, usize)>)
    ensures
        bfs_levels(start_nodes@, adjacency@, levels@),
{
    let ghost st = start_nodes@;
    let ghost adj = adjacency@;
    let (mut levels, mut queue, Ghost(q0)) = bfs_start(start_nodes, Ghost(adj));
    let ghost mut qlv = q0;
    let mut head: usize = 0;
    while head < queue.len()
        invariant
            st == start_nodes@,
            adj == adjacency@,
            bfs_state(st, adj, levels@, queue@, qlv, head as int),
        decreases usize::MAX - head,
    {
        let Ghost(q2) = bfs_visit(&mut levels, &mut queue, head, adjacency, Ghost(st), Ghost(qlv));
        proof {
            qlv = q2;
        }
        head += 1;
    }
    proof {
        reveal(levels_unique);
        reveal(starts_at_zero);
        reveal(queue_levels);
        reveal(visited_closed);
        reveal(keys_queued);
        reveal(queue_reachable);
        assert forall|j: int| 0 <= j < levels@.len() implies reachable_in(st, adj, #[trigger] levels@[j].0@, levels@[j].1 as int) by {
            let i = choose|i: int| 0 <= i < queue@.len() && #[trigger] queue@[i]@ == levels@[j].0@;
            assert(has_level(levels@, queue@[i]@, qlv[i]));
            let w = choose|w: int| #![trigger levels@[w]] 0 <= w < levels@.len() && levels@[w].0@ == queue@[i]@ && levels@[w].1 == qlv[i];
            if w < j {
                assert(levels@[w].0@ != levels@[j].0@);
            } else if w > j {
                assert(levels@[j].0@ != levels@[w].0@);
            }
        }
        assert forall|j: int, v: Seq<char>|
            0 <= j < levels@.len() && #[trigger] adj_edge(adj, levels@[j].0@, v) implies level_le(levels@, v, levels@[j].1 + 1) by {
            let i = choose|i: int| 0 <= i < queue@.len() && #[trigger] queue@[i]@ == levels@[j].0@;
            assert(has_level(levels@, queue@[i]@, qlv[i]));
            let w = choose|w: int| #![trigger levels@[w]] 0 <= w < levels@.len() && levels@[w].0@ == queue@[i]@ && levels@[w].1 == qlv[i];
            if w < j {
                assert(levels@[w].0@ != levels@[j].0@);
            } else if w > j {
                assert(levels@[j].0@ != levels@[w].0@);
            }
            assert(adj_edge(adj, queue@[i]@, v));
        }
    }
    levels
}


/// An edge that one registered method gives: from each of its trigger
/// methods to it, and, for a router, from it to each of its paths.
pub open spec fn method_edge(m: FlowMethodRegistration, u: Seq<char>, v: Seq<char>) -> bool {
    ||| (triggers_of(m).contains(u) && v == m.name.0@)
    ||| (u == m.name.0@ && paths_of(m).contains(v))
}

/// The trigger method names of a registration (none when unset).
pub open spec fn triggers_of(m: FlowMethodRegistration) -> Seq<Seq<char>> {
    match m.trigger_methods {
        Some(ts) => names_view(ts@),
        None => Seq::empty(),
    }
}

/// The router paths of a registration (none unless it is a router with
/// paths).
pub open spec fn paths_of(m: FlowMethodRegistration) -> Seq<Seq<char>> {
    if m.is_router {
        match m.router_paths {
            Some(ps) => str_views(ps@),
            None => Seq::empty(),
        }
    } else {
        Seq::empty()
    }
}

/// An edge that one of the first `n` registered methods gives.
pub open spec fn edge_among(ms: Seq<FlowMethodRegistration>, n: int, u: Seq<char>, v: Seq<char>) -> bool {
    exists|i: int| 0 <= i < n && #[trigger] method_edge(ms[i], u, v)
}

/// An edge of the flow graph of the registered methods.
pub open spec fn registration_edge(ms: Seq<FlowMethodRegistration>, u: Seq<char>, v: Seq<char>) -> bool {
    edge_among(ms, ms.len() as int, u, v)
}

/// The names of the start methods, in order.
pub open spec fn start_names(ms: Seq<FlowMethodRegistration>) -> Seq<Seq<char>>
    decreases ms.len(),
{
    if ms.len() == 0 {
        Seq::empty()
    } else {
        start_names(ms.drop_last()) + if ms.last().is_start_method {
            seq![ms.last().name.0@]
        } else {
            Seq::empty()
        }
    }
}

/// The names of the router methods, in order.
pub open spec fn router_names(ms: Seq<FlowMethodRegistration>) -> Seq<Seq<char>>
    decreases ms.len(),
{
    if ms.len() == 0 {
        Seq::empty()
    } else {
        router_names(ms.drop_last()) + if ms.last().is_router {
            seq![ms.last().name.0@]
        } else {
            Seq::empty()
        }
    }
}

/// The step from `p[i]` to `p[i + 1]` is an edge of the flow graph.
pub open spec fn flow_step(ms: Seq<FlowMethodRegistration>, p: Seq<Seq<char>>, i: int) -> bool {
    registration_edge(ms, p[i], p[i + 1])
}

/// `p` begins at a start method and follows edges of the flow graph.
pub open spec fn flow_path(ms: Seq<FlowMethodRegistration>, p: Seq<Seq<char>>) -> bool {
    &&& p.len() >= 1
    &&& start_names(ms).contains(p[0])
    &&& forall|i: int| 0 <= i < p.len() - 1 ==> #[trigger] flow_step(ms, p, i)
}

/// A start method reaches `v` in exactly `d` steps.
pub open spec fn flow_reachable_in(ms: Seq<FlowMethodRegistration>, v: Seq<char>, d: int) -> bool {
    exists|p: Seq<Seq<char>>| #[trigger] flow_path(ms, p) && p.len() == d + 1 && p.last() == v
}

/// `l` is the level of `v`: the fewest steps in which a start method
/// reaches it, or 0 when none does.
pub open spec fn flow_level(ms: Seq<FlowMethodRegistration>, v: Seq<char>, l: int) -> bool {
    if exists|d: int| flow_reachable_in(ms, v, d) {
        &&& flow_reachable_in(ms, v, l)
        &&& forall|e: int| 0 <= e < l ==> !flow_reachable_in(ms, v, e)
    } else {
        l == 0
    }
}

proof fn lemma_same_reach(
    ms: Seq<FlowMethodRegistration>,
    st: Seq<String>,
    adj: Seq<(String, Vec<String>)>,
    v: Seq<char>,
    d: int,
)
    requires
        str_views(st) == start_names(ms),
        forall|u: Seq<char>, w: Seq<char>| #[trigger] adj_edge(adj, u, w) <==> registration_edge(ms, u, w),
    ensures
        reachable_in(st, adj, v, d) <==> flow_reachable_in(ms, v, d),
{
    if reachable_in(st, adj, v, d) {
        let p = choose|p: Seq<Seq<char>>| #[trigger] start_path(st, adj, p) && p.len() == d + 1 && p.last() == v;
        assert forall|i: int| 0 <= i < p.len() - 1 implies #[trigger] flow_step(ms, p, i) by {
            assert(adj_step(adj, p, i));
            assert(adj_edge(adj, p[i], p[i + 1]));
        }
        assert(flow_path(ms, p));
    }
    if flow_reachable_in(ms, v, d) {
        let p = choose|p: Seq<Seq<char>>| #[trigger] flow_path(ms, p) && p.len() == d + 1 && p.last() == v;
        assert forall|i: int| 0 <= i < p.len() - 1 implies #[trigger] adj_step(adj, p, i) by {
            assert(flow_step(ms, p, i));
            assert(registration_edge(ms, p[i], p[i + 1]));
        }
        assert(start_path(st, adj, p));
    }
}

/// What the breadth-first levels give a method: its level there, or 0.
proof fn lemma_level_or_zero(
    ms: Seq<FlowMethodRegistration>,
    st: Seq<String>,
    adj: Seq<(String, Vec<String>)>,
    levels: Seq<(String, usize)>,
    v: Seq<char>,
    r: Option<usize>,
)
    requires
        bfs_levels(st, adj, levels),
        str_views(st) == start_names(ms),
        forall|u: Seq<char>, w: Seq<char>| #[trigger] adj_edge(adj, u, w) <==> registration_edge(ms, u, w),
        match r {
            Some(l) => has_level(levels, v, l as int),
            None => !has_key(levels, v),
        },
    ensures
        flow_level(
            ms,
            v,
            match r {
                Some(l) => l as int,
                None => 0,
            },
        ),
{
    match r {
        Some(l) => {
            let j = choose|j: int| #![trigger levels[j]] 0 <= j < levels.len() && levels[j].0@ == v && levels[j].1 == l;
            assert(reachable_in(st, adj, levels[j].0@, levels[j].1 as int));
            lemma_same_reach(ms, st, adj, v, l as int);
            assert forall|e: int| 0 <= e < l implies !flow_reachable_in(ms, v, e) by {
                if flow_reachable_in(ms, v, e) {
                    lemma_same_reach(ms, st, adj, v, e);
                    lemma_levels_are_distances(st, adj, levels, v, e);
                }
            }
        },
        None => {
            if exists|d: int| flow_reachable_in(ms, v, d) {
                let d = choose|d: int| flow_reachable_in(ms, v, d);
                lemma_same_reach(ms, st, adj, v, d);
                lemma_levels_are_distances(st, adj, levels, v, d);
            }
        },
    }
}

/// With each key once, the adjacency edges are the recorded pairs.
proof fn lemma_adj_is_child(adj: Seq<(String, Vec<String>)>)
    requires
        set_map_wf(adj),
    ensures
        forall|u: Seq<char>, v: Seq<char>| #[trigger] adj_edge(adj, u, v) <==> has_child(adj, u, v),
{
    assert forall|u: Seq<char>, v: Seq<char>| #[trigger] adj_edge(adj, u, v) <==> has_child(adj, u, v) by {
        if has_child(adj, u, v) {
            let i = choose|i: int| 0 <= i < adj.len() && #[trigger] adj[i].0@ == u && str_views(adj[i].1@).contains(v);
            assert forall|j: int| 0 <= j < i implies #[trigger] adj[j].0@ != u by {
                assert(adj[j].0@ != adj[i].0@);
            }
            assert(first_key_at(adj, u, i));
        }
        if adj_edge(adj, u, v) {
            let k = choose|k: int| #[trigger] first_key_at(adj, u, k) && str_views(adj[k].1@).contains(v);
            assert(adj[k].0@ == u);
        }
    }
}

/// The adjacency of the flow graph and the names of its start methods.
fn flow_adjacency(methods: &Vec<FlowMethodRegistration>) -> (r: (Vec<(String, Vec<String>)>, Vec<String>))
    ensures
        set_map_wf(r.0@),
        forall|u: Seq<char>, v: Seq<char>| #[trigger] adj_edge(r.0@, u, v) <==> registration_edge(methods@, u, v),
        str_views(r.1@) == start_names(methods@),
{
    let ghost ms = methods@;
    let mut adj: Vec<(String, Vec<String>)> = Vec::new();
    let mut starts: Vec<String> = Vec::new();
    let mut i: usize = 0;
    assert(str_views(starts@) =~= start_names(ms.take(0)));
    while i < methods.len()
        invariant
            ms == methods@,
            i <= ms.len(),
            set_map_wf(adj@),
            forall|u: Seq<char>, v: Seq<char>| #[trigger] has_child(adj@, u, v) <==> edge_among(ms, i as int, u, v),
            str_views(starts@) == start_names(ms.take(i as int)),
        decreases ms.len() - i,
    {
        let m = &methods[i];
        let ghost name = m.name.0@;
        assert(ms.take(i + 1).drop_last() =~= ms.take(i as int));
        assert(ms.take(i + 1).last() == ms[i as int]);
        if m.is_start_method {
            starts.push(m.name.0.clone());
            assert(str_views(starts@) =~= start_names(ms.take(i + 1)));
        } else {
            assert(str_views(starts@) =~= start_names(ms.take(i + 1)));
        }
        let ghost before = adj@;
        match &m.trigger_methods {
            Some(ts) => {
                let mut t: usize = 0;
                while t < ts.len()
                    invariant
                        ms == methods@,
                        i < ms.len(),
                        m == ms[i as int],
                        m.trigger_methods == Some(*ts),
                        name == m.name.0@,
                        t <= ts@.len(),
                        set_map_wf(adj@),
                        forall|u: Seq<char>, v: Seq<char>| #[trigger] has_child(adj@, u, v) <==> (edge_among(ms, i as int, u, v)
                            || (v == name && names_view(ts@).take(t as int).contains(u))),
                    decreases ts@.len() - t,
                {
                    let ghost a0 = adj@;
                    add_child(&mut adj, ts[t].0.as_str(), m.name.0.as_str());
                    assert forall|u: Seq<char>, v: Seq<char>| #[trigger] has_child(adj@, u, v) <==> (edge_among(ms, i as int, u, v)
                        || (v == name && names_view(ts@).take(t + 1).contains(u))) by {
                        let nt1 = names_view(ts@).take(t + 1);
                        let nt0 = names_view(ts@).take(t as int);
                        assert(nt1 =~= nt0.push(ts@[t as int].0@));
                        if nt1.contains(u) && !nt0.contains(u) {
                            let q = choose|q: int| 0 <= q < nt1.len() && #[trigger] nt1[q] == u;
                            if q < t {
                                assert(nt0[q] == u);
                            }
                        }
                        if nt0.contains(u) {
                            let q = choose|q: int| 0 <= q < nt0.len() && #[trigger] nt0[q] == u;
                            assert(nt1[q] == u);
                        }
                        if u == ts@[t as int].0@ {
                            assert(nt1[t as int] == u);
                        }
                    }
                    t += 1;
                }
                assert(names_view(ts@).take(t as int) =~= names_view(ts@));
            },
            None => {},
        }
        let ghost mid = adj@;
        assert forall|u: Seq<char>, v: Seq<char>| #[trigger] has_child(adj@, u, v) <==> (edge_among(ms, i as int, u, v)
            || (triggers_of(ms[i as int]).contains(u) && v == name)) by {}
        if m.is_router {
            match &m.router_paths {
                Some(ps) => {
                    let mut q: usize = 0;
                    while q < ps.len()
                        invariant
                            ms == methods@,
                            i < ms.len(),
                            m == ms[i as int],
                            m.is_router,
                            m.router_paths == Some(*ps),
                            name == m.name.0@,
                            q <= ps@.len(),
                            set_map_wf(adj@),
                            forall|u: Seq<char>, v: Seq<char>| #[trigger] has_child(adj@, u, v) <==> (edge_among(ms, i as int, u, v)
                                || (triggers_of(ms[i as int]).contains(u) && v == name)
                                || (u == name && str_views(ps@).take(q as int).contains(v))),
                        decreases ps@.len() - q,
                    {
                        add_child(&mut adj, m.name.0.as_str(), ps[q].as_str());
                        assert forall|u: Seq<char>, v: Seq<char>| #[trigger] has_child(adj@, u, v) <==> (edge_among(ms, i as int, u, v)
                            || (triggers_of(ms[i as int]).contains(u) && v == name)
                            || (u == name && str_views(ps@).take(q + 1).contains(v))) by {
                            let np1 = str_views(ps@).take(q + 1);
                            let np0 = str_views(ps@).take(q as int);
                            assert(np1 =~= np0.push(ps@[q as int]@));
                            if np1.contains(v) && !np0.contains(v) {
                                let w = choose|w: int| 0 <= w < np1.len() && #[trigger] np1[w] == v;
                                if w < q {
                                    assert(np0[w] == v);
                                }
                            }
                            if np0.contains(v) {
                                let w = choose|w: int| 0 <= w < np0.len() && #[trigger] np0[w] == v;
                                assert(np1[w] == v);
                            }
                            if v == ps@[q as int]@ {
                                assert(np1[q as int] == v);
                            }
                        }
                        q += 1;
                    }
                    assert(str_views(ps@).take(q as int) =~= str_views(ps@));
                },
                None => {},
            }
        }
        if !m.is_router || m.router_paths.is_none() {
            assert(paths_of(ms[i as int]) =~= Seq::<Seq<char>>::empty());
        }
        assert forall|u: Seq<char>, v: Seq<char>| #[trigger] has_child(adj@, u, v) <==> edge_among(ms, i + 1, u, v) by {
            if edge_among(ms, i + 1, u, v) && !edge_among(ms, i as int, u, v) {
                let j = choose|j: int| 0 <= j < i + 1 && #[trigger] method_edge(ms[j], u, v);
                assert(j == i);
            }
            if method_edge(ms[i as int], u, v) {
                assert(edge_among(ms, i + 1, u, v));
            }
            if edge_among(ms, i as int, u, v) {
                let j = choose|j: int| 0 <= j < i && #[trigger] method_edge(ms[j], u, v);
                assert(edge_among(ms, i + 1, u, v));
            }
        }
        i += 1;
    }
    assert(ms.take(i as int) =~= ms);
    proof {
        lemma_adj_is_child(adj@);
    }
    (adj, starts)
}


/// The view of an optional string.
pub open spec fn opt_str_view(o: Option<String>) -> Option<Seq<char>> {
    match o {
        Some(s) => Some(s@),
        None => None,
    }
}

/// The views of an optional list of strings.
pub open spec fn opt_str_views(o: Option<Vec<String>>) -> Option<Seq<Seq<char>>> {
    match o {
        Some(v) => Some(str_views(v@)),
        None => None,
    }
}

/// The names of an optional list of method names.
pub open spec fn opt_name_views(o: Option<Vec<FlowMethodName>>) -> Option<Seq<Seq<char>>> {
    match o {
        Some(v) => Some(names_view(v@)),
        None => None,
    }
}

/// The text of an optional condition type.
pub open spec fn condition_view(c: Option<FlowConditionType>) -> Option<Seq<char>> {
    match c {
        Some(FlowConditionType::OR) => Some("OR"@),
        Some(FlowConditionType::AND) => Some("AND"@),
        None => None,
    }
}

/// The text of a method type.
pub open spec fn method_type_view(t: FlowMethodType) -> Seq<char> {
    match t {
        FlowMethodType::Start => "start"@,
        FlowMethodType::Listen => "listen"@,
        FlowMethodType::Router => "router"@,
    }
}

/// An edge as plain values: source, target, label, condition type,
/// whether it is a router path, and the router path's label.
pub open spec fn edge_view(e: StructureEdge) -> (
    Seq<char>,
    Seq<char>,
    Option<Seq<char>>,
    Option<Seq<char>>,
    Option<bool>,
    Option<Seq<char>>,
) {
    (e.source@, e.target@, opt_str_view(e.label), opt_str_view(e.condition_type), e.is_router_path, opt_str_view(e.router_path_label))
}

/// The views of a list of edges.
pub open spec fn edge_views(es: Seq<StructureEdge>) -> Seq<
    (Seq<char>, Seq<char>, Option<Seq<char>>, Option<Seq<char>>, Option<bool>, Option<Seq<char>>),
> {
    es.map_values(|e: StructureEdge| edge_view(e))
}

/// The edges a registration gives: one "listens_to" edge from each trigger
/// method, then, for a router, one edge to each path, labelled by the path.
pub open spec fn method_edges(m: FlowMethodRegistration) -> Seq<
    (Seq<char>, Seq<char>, Option<Seq<char>>, Option<Seq<char>>, Option<bool>, Option<Seq<char>>),
> {
    triggers_of(m).map_values(
        |t: Seq<char>|
            (t, m.name.0@, Some("listens_to"@), condition_view(m.condition_type), Some(false), None::<Seq<char>>),
    ) + paths_of(m).map_values(
        |p: Seq<char>| (m.name.0@, p, Some(p), None::<Seq<char>>, Some(true), Some(p)),
    )
}

/// The edges of all registrations, in order.
pub open spec fn all_edges(ms: Seq<FlowMethodRegistration>) -> Seq<
    (Seq<char>, Seq<char>, Option<Seq<char>>, Option<Seq<char>>, Option<bool>, Option<Seq<char>>),
>
    decreases ms.len(),
{
    if ms.len() == 0 {
        Seq::empty()
    } else {
        all_edges(ms.drop_last()) + method_edges(ms.last())
    }
}

/// The metadata describes the registration.
pub open spec fn node_matches(meta: NodeMetadata, m: FlowMethodRegistration) -> bool {
    &&& meta.id@ == m.name.0@
    &&& meta.label@ == m.name.0@
    &&& opt_str_view(meta.node_type) == Some(method_type_view(m.method_type))
    &&& meta.is_start == m.is_start_method
    &&& meta.is_router == Some(m.is_router)
    &&& opt_str_views(meta.router_paths) == opt_str_views(m.router_paths)
    &&& opt_str_view(meta.condition_type) == condition_view(m.condition_type)
    &&& opt_str_views(meta.trigger_methods) == opt_name_views(m.trigger_methods)
    &&& extras_unset(meta)
}

/// `j` is the last of the first `n` registrations named `name`.
pub open spec fn last_named(ms: Seq<FlowMethodRegistration>, n: int, name: Seq<char>, j: int) -> bool {
    &&& 0 <= j < n
    &&& ms[j].name.0@ == name
    &&& forall|k: int| j < k < n ==> #[trigger] ms[k].name.0@ != name
}

/// Each node describes the last registration of its name among the first
/// `n`, at that name's level; every one of their names has a node.
pub open spec fn nodes_describe(nodes: Seq<(String, NodeMetadata)>, ms: Seq<FlowMethodRegistration>, n: int) -> bool {
    &&& unique_keys(nodes)
    &&& forall|j: int| 0 <= j < n ==> has_key(nodes, #[trigger] ms[j].name.0@)
    &&& forall|e: int| 0 <= e < nodes.len() ==> #[trigger] entry_describes(nodes[e], ms, n)
}

/// The entry describes the last registration of its name among the first
/// `n`, at that name's level.
pub open spec fn entry_describes(entry: (String, NodeMetadata), ms: Seq<FlowMethodRegistration>, n: int) -> bool {
    exists|j: int|
        #[trigger] last_named(ms, n, entry.0@, j) && node_matches(entry.1, ms[j]) && flow_level(ms, entry.0@, entry.1.level as int)
}

fn condition_text(c: &Option<FlowConditionType>) -> (r: Option<String>)
    ensures
        opt_str_view(r) == condition_view(*c),
{
    match c {
        Some(t) => Some(t.as_str().to_string()),
        None => None,
    }
}

fn names_to_strings(ts: &Vec<FlowMethodName>) -> (r: Vec<String>)
    ensures
        str_views(r@) == names_view(ts@),
{
    let mut r: Vec<String> = Vec::new();
    let mut i: usize = 0;
    while i < ts.len()
        invariant
            i <= ts@.len(),
            str_views(r@) == names_view(ts@).take(i as int),
        decreases ts@.len() - i,
    {
        let ghost r0 = r@;
        assert(str_views(r0).len() == r0.len());
        assert(names_view(ts@).take(i as int).len() == i);
        assert(r0.len() == i);
        let c = ts[i].0.clone();
        assert(c@ == ts@[i as int].0@);
        r.push(c);
        assert forall|k: int| 0 <= k < i + 1 implies #[trigger] str_views(r@)[k] == names_view(ts@).take(i + 1)[k] by {
            if k < i {
                assert(r@[k] == r0[k]);
                assert(str_views(r0)[k] == names_view(ts@).take(i as int)[k]);
            }
        }
        assert(str_views(r@) =~= names_view(ts@).take(i + 1));
        i += 1;
    }
    assert(names_view(ts@).take(i as int) =~= names_view(ts@));
    r
}

/// The metadata of a registration at the given level.
fn node_metadata(m: &FlowMethodRegistration, level: usize) -> (meta: NodeMetadata)
    ensures
        node_matches(meta, *m),
        meta.level == level,
{
    let router_paths = match &m.router_paths {
        Some(ps) => Some(copy_strings(ps)),
        None => None,
    };
    let trigger_methods = match &m.trigger_methods {
        Some(ts) => Some(names_to_strings(ts)),
        None => None,
    };
    NodeMetadata {
        id: m.name.0.clone(),
        label: m.name.0.clone(),
        node_type: Some(m.method_type.as_str().to_string()),
        is_start: m.is_start_method,
        is_router: Some(m.is_router),
        router_paths,
        condition_type: condition_text(&m.condition_type),
        trigger_condition_type: None,
        trigger_methods,
        trigger_condition: None,
        method_signature: None,
        source_code: None,
        source_lines: None,
        source_start_line: None,
        source_file: None,
        class_signature: None,
        class_name: None,
        class_line_number: None,
        level,
    }
}

/// Record `meta` under `name`, replacing what was recorded there.
fn put_node(nodes: &mut Vec<(String, NodeMetadata)>, name: String, meta: NodeMetadata)
    requires
        unique_keys(old(nodes)@),
    ensures
        unique_keys(final(nodes)@),
        forall|k: Seq<char>| #[trigger] has_key(final(nodes)@, k) <==> (has_key(old(nodes)@, k) || k == name@),
        forall|e: int|
            0 <= e < final(nodes)@.len() ==> if #[trigger] final(nodes)@[e].0@ == name@ {
                final(nodes)@[e].1 == meta
            } else {
                e < old(nodes)@.len() && final(nodes)@[e] == old(nodes)@[e]
            },
{
    let ghost old_nodes = nodes@;
    match find_key(nodes, name.as_str()) {
        Some(i) => {
            nodes.set(i, (name, meta));
            assert forall|e: int| 0 <= e < nodes@.len() && e != i implies #[trigger] nodes@[e].0@ != nodes@[i as int].0@ by {
                if e < i {
                    assert(old_nodes[e].0@ != old_nodes[i as int].0@);
                } else {
                    assert(old_nodes[i as int].0@ != old_nodes[e].0@);
                }
            }
            assert(unique_keys(nodes@)) by {
                assert forall|a: int, b: int| 0 <= a < b < nodes@.len() implies #[trigger] nodes@[a].0@ != #[trigger] nodes@[b].0@ by {
                    if a != i && b != i {
                        assert(old_nodes[a].0@ != old_nodes[b].0@);
                    }
                }
            }
            assert forall|k: Seq<char>| #[trigger] has_key(nodes@, k) <==> (has_key(old_nodes, k) || k == name@) by {
                if has_key(nodes@, k) {
                    let j = choose|j: int| 0 <= j < nodes@.len() && #[trigger] nodes@[j].0@ == k;
                    assert(old_nodes[j].0@ == k);
                }
                if has_key(old_nodes, k) {
                    let j = choose|j: int| 0 <= j < old_nodes.len() && #[trigger] old_nodes[j].0@ == k;
                    assert(nodes@[j].0@ == k);
                }
                if k == name@ {
                    assert(nodes@[i as int].0@ == k);
                }
            }
        },
        None => {
            let ghost nm = name@;
            nodes.push((name, meta));
            let ghost n = old_nodes.len() as int;
            assert(unique_keys(nodes@)) by {
                assert forall|a: int, b: int| 0 <= a < b < nodes@.len() implies #[trigger] nodes@[a].0@ != #[trigger] nodes@[b].0@ by {
                    if b == n {
                        assert(old_nodes[a].0@ != nm);
                    } else {
                        assert(old_nodes[a].0@ != old_nodes[b].0@);
                    }
                }
            }
            assert forall|k: Seq<char>| #[trigger] has_key(nodes@, k) <==> (has_key(old_nodes, k) || k == nm) by {
                if has_key(nodes@, k) {
                    let j = choose|j: int| 0 <= j < nodes@.len() && #[trigger] nodes@[j].0@ == k;
                    if j < n {
                        assert(old_nodes[j].0@ == k);
                    }
                }
                if has_key(old_nodes, k) {
                    let j = choose|j: int| 0 <= j < old_nodes.len() && #[trigger] old_nodes[j].0@ == k;
                    assert(nodes@[j].0@ == k);
                }
                if k == nm {
                    assert(nodes@[n].0@ == k);
                }
            }
            assert forall|e: int| 0 <= e < n implies #[trigger] nodes@[e].0@ != nm by {
                assert(old_nodes[e].0@ != nm);
            }
        },
    }
}

/// Append the edges of one registration.
fn push_method_edges(edges: &mut Vec<StructureEdge>, m: &FlowMethodRegistration)
    ensures
        edge_views(final(edges)@) == edge_views(old(edges)@) + method_edges(*m),
{
    let ghost base = edge_views(edges@);
    let ghost tr = triggers_of(*m).map_values(
        |t: Seq<char>| (t, m.name.0@, Some("listens_to"@), condition_view(m.condition_type), Some(false), None::<Seq<char>>),
    );
    let ghost rt = paths_of(*m).map_values(|p: Seq<char>| (m.name.0@, p, Some(p), None::<Seq<char>>, Some(true), Some(p)));
    match &m.trigger_methods {
        Some(ts) => {
            let mut t: usize = 0;
            while t < ts.len()
                invariant
                    m.trigger_methods == Some(*ts),
                    tr == triggers_of(*m).map_values(
                        |t: Seq<char>|
                            (t, m.name.0@, Some("listens_to"@), condition_view(m.condition_type), Some(false), None::<Seq<char>>),
                    ),
                    t <= ts@.len(),
                    edge_views(edges@) == base + tr.take(t as int),
                decreases ts@.len() - t,
            {
                let ghost e0 = edges@;
                edges.push(StructureEdge {
                    source: ts[t].0.clone(),
                    target: m.name.0.clone(),
                    label: Some("listens_to".to_string()),
                    condition_type: condition_text(&m.condition_type),
                    is_router_path: Some(false),
                    router_path_label: None,
                });
                assert(edge_views(edges@) =~= edge_views(e0).push(edge_view(edges@.last())));
                assert(tr.take(t + 1) =~= tr.take(t as int).push(tr[t as int]));
                t += 1;
            }
            assert(tr.take(t as int) =~= tr);
        },
        None => {
            assert(tr =~= Seq::empty());
        },
    }
    let ghost mid = edges@;
    if m.is_router {
        match &m.router_paths {
            Some(ps) => {
                let mut q: usize = 0;
                while q < ps.len()
                    invariant
                        m.is_router,
                        m.router_paths == Some(*ps),
                        rt == paths_of(*m).map_values(
                            |p: Seq<char>| (m.name.0@, p, Some(p), None::<Seq<char>>, Some(true), Some(p)),
                        ),
                        q <= ps@.len(),
                        edge_views(edges@) == base + tr + rt.take(q as int),
                    decreases ps@.len() - q,
                {
                    let ghost e0 = edges@;
                    edges.push(StructureEdge {
                        source: m.name.0.clone(),
                        target: ps[q].clone(),
                        label: Some(ps[q].clone()),
                        condition_type: None,
                        is_router_path: Some(true),
                        router_path_label: Some(ps[q].clone()),
                    });
                    assert(edge_views(edges@) =~= edge_views(e0).push(edge_view(edges@.last())));
                    assert(rt.take(q + 1) =~= rt.take(q as int).push(rt[q as int]));
                    q += 1;
                }
                assert(rt.take(q as int) =~= rt);
            },
            None => {
                assert(rt =~= Seq::empty());
                assert(edge_views(edges@) =~= base + tr + rt);
            },
        }
    } else {
        assert(rt =~= Seq::empty());
        assert(edge_views(edges@) =~= base + tr + rt);
    }
    assert(base + tr + rt =~= base + method_edges(*m));
}


/// Build the structure of a flow from its registered methods: a node per
/// method name (the last registration of a name wins) with its metadata
/// and its level (the fewest steps from a start method along trigger and
/// router-path edges, 0 when no start method reaches it), the edges each
/// registration gives in order, and the start and router methods in order.
#[verifier::loop_isolation(false)]
pub fn build_flow_structure(methods: &Vec<FlowMethodRegistration>) -> (s: FlowStructure)
    ensures
        s.flow_name@.len() == 0,
        nodes_describe(s.nodes@, methods@, methods@.len() as int),
        edge_views(s.edges@) == all_edges(methods@),
        str_views(s.start_methods@) == start_names(methods@),
        str_views(s.router_methods@) == router_names(methods@),
{
    let ghost ms = methods@;
    let (adjacency, start_nodes) = flow_adjacency(methods);
    let node_levels = calculate_node_levels(&start_nodes, &adjacency);
    let mut nodes: Vec<(String, NodeMetadata)> = Vec::new();
    let mut edges: Vec<StructureEdge> = Vec::new();
    let mut starts: Vec<String> = Vec::new();
    let mut routers: Vec<String> = Vec::new();
    assert(str_views(starts@) =~= start_names(ms.take(0)));
    assert(str_views(routers@) =~= router_names(ms.take(0)));
    assert(edge_views(edges@) =~= all_edges(ms.take(0)));
    let mut i: usize = 0;
    while i < methods.len()
        invariant
            i <= ms.len(),
            nodes_describe(nodes@, ms, i as int),
            edge_views(edges@) == all_edges(ms.take(i as int)),
            str_views(starts@) == start_names(ms.take(i as int)),
            str_views(routers@) == router_names(ms.take(i as int)),
        decreases ms.len() - i,
    {
        let m = &methods[i];
        let ghost name = m.name.0@;
        assert(unique_keys(node_levels@));
        let r = level_of(&node_levels, m.name.0.as_str());
        let level = match r {
            Some(l) => l,
            None => 0,
        };
        proof {
            lemma_level_or_zero(ms, start_nodes@, adjacency@, node_levels@, name, r);
        }
        let meta = node_metadata(m, level);
        let ghost old_nodes = nodes@;
        put_node(&mut nodes, m.name.0.clone(), meta);
        assert(ms.take(i + 1).drop_last() =~= ms.take(i as int));
        assert(ms.take(i + 1).last() == ms[i as int]);
        if m.is_start_method {
            starts.push(m.name.0.clone());
        }
        assert(str_views(starts@) =~= start_names(ms.take(i + 1)));
        if m.is_router {
            routers.push(m.name.0.clone());
        }
        assert(str_views(routers@) =~= router_names(ms.take(i + 1)));
        push_method_edges(&mut edges, m);
        proof {
            let n1: int = i + 1;
            assert forall|j: int| 0 <= j < n1 implies has_key(nodes@, #[trigger] ms[j].name.0@) by {
                if j < i {
                    assert(has_key(old_nodes, ms[j].name.0@));
                }
            }
            assert forall|e: int| 0 <= e < nodes@.len() implies #[trigger] entry_describes(nodes@[e], ms, n1) by {
                if nodes@[e].0@ == name {
                    assert(last_named(ms, n1, nodes@[e].0@, i as int));
                } else {
                    assert(nodes@[e] == old_nodes[e]);
                    assert(entry_describes(old_nodes[e], ms, i as int));
                    let j = choose|j: int|
                        #[trigger] last_named(ms, i as int, old_nodes[e].0@, j) && node_matches(old_nodes[e].1, ms[j])
                            && flow_level(ms, old_nodes[e].0@, old_nodes[e].1.level as int);
                    assert(last_named(ms, n1, nodes@[e].0@, j));
                }
            }
        }
        i += 1;
    }
    assert(ms.take(i as int) =~= ms);
    FlowStructure { nodes, edges, start_methods: starts, router_methods: routers, flow_name: String::new() }
}


/// The targets of the edges leaving `u` that are not on `path`, in edge
/// order.
pub open spec fn fresh_targets(es: Seq<StructureEdge>, u: Seq<char>, path: Seq<Seq<char>>) -> Seq<Seq<char>>
    decreases es.len(),
{
    if es.len() == 0 {
        Seq::empty()
    } else {
        fresh_targets(es.drop_last(), u, path) + if es.last().source@ == u && !path.contains(es.last().target@) {
            seq![es.last().target@]
        } else {
            Seq::empty()
        }
    }
}

/// The targets of all edges.
pub open spec fn edge_targets(es: Seq<StructureEdge>) -> Seq<Seq<char>> {
    es.map_values(|e: StructureEdge| e.target@)
}

/// A path that a walk from a start node can hold: no node twice, and every
/// node after the first the target of some edge.
pub open spec fn walk_ok(es: Seq<StructureEdge>, path: Seq<Seq<char>>) -> bool {
    &&& path.len() >= 1
    &&& path.no_duplicates()
    &&& forall|i: int| 1 <= i < path.len() ==> edge_targets(es).contains(#[trigger] path[i])
}

/// How many more nodes a walk can still take.
pub open spec fn walk_room(es: Seq<StructureEdge>, path: Seq<Seq<char>>) -> int {
    edge_targets(es).to_set().len() + 1 - path.len()
}

/// A fresh neighbour is an edge target not yet on the path.
pub proof fn lemma_fresh_target(es: Seq<StructureEdge>, u: Seq<char>, path: Seq<Seq<char>>, c: Seq<char>)
    requires
        fresh_targets(es, u, path).contains(c),
    ensures
        edge_targets(es).contains(c),
        !path.contains(c),
    decreases es.len(),
{
    let rest = fresh_targets(es.drop_last(), u, path);
    if rest.contains(c) {
        lemma_fresh_target(es.drop_last(), u, path, c);
        let i = choose|i: int| 0 <= i < edge_targets(es.drop_last()).len() && edge_targets(es.drop_last())[i] == c;
        assert(edge_targets(es)[i] == c);
    } else {
        let w = choose|w: int| 0 <= w < fresh_targets(es, u, path).len() && fresh_targets(es, u, path)[w] == c;
        assert(fresh_targets(es, u, path)[w] == c);
        assert(w >= rest.len());
        assert(c == es.last().target@);
        assert(edge_targets(es)[es.len() - 1] == c);
    }
}

/// A walk never holds more nodes than there are edge targets, plus one.
pub proof fn lemma_walk_room(es: Seq<StructureEdge>, path: Seq<Seq<char>>)
    requires
        walk_ok(es, path),
    ensures
        walk_room(es, path) >= 0,
{
    let t = edge_targets(es).to_set();
    let rest = path.drop_first();
    assert(rest.no_duplicates()) by {
        assert forall|i: int, j: int| 0 <= i < rest.len() && 0 <= j < rest.len() && i != j implies rest[i] != rest[j] by {
            assert(rest[i] == path[i + 1] && rest[j] == path[j + 1]);
        }
    }
    rest.unique_seq_to_set();
    assert(rest.to_set().subset_of(t)) by {
        assert forall|x: Seq<char>| rest.to_set().contains(x) implies t.contains(x) by {
            let i = choose|i: int| 0 <= i < rest.len() && rest[i] == x;
            assert(path[i + 1] == x);
            assert(edge_targets(es).contains(path[i + 1]));
        }
    }
    vstd::seq_lib::seq_to_set_is_finite(edge_targets(es));
    vstd::set_lib::lemma_len_subset(rest.to_set(), t);
}

/// Stepping to a fresh neighbour keeps a walk valid and uses up room.
pub proof fn lemma_walk_extend(es: Seq<StructureEdge>, path: Seq<Seq<char>>, c: Seq<char>)
    requires
        walk_ok(es, path),
        fresh_targets(es, path.last(), path).contains(c),
    ensures
        walk_ok(es, path.push(c)),
        0 <= walk_room(es, path.push(c)) < walk_room(es, path),
{
    lemma_fresh_target(es, path.last(), path, c);
    let q = path.push(c);
    assert(q.no_duplicates()) by {
        assert forall|i: int, j: int| 0 <= i < q.len() && 0 <= j < q.len() && i != j implies q[i] != q[j] by {
            if i < path.len() && j < path.len() {
                assert(q[i] == path[i] && q[j] == path[j]);
            } else if i == path.len() {
                assert(path[j] == q[j]);
            } else {
                assert(path[i] == q[i]);
            }
        }
    }
    assert forall|i: int| 1 <= i < q.len() implies edge_targets(es).contains(#[trigger] q[i]) by {
        if i < path.len() {
            assert(q[i] == path[i]);
        }
    }
    lemma_walk_room(es, q);
}

/// Every walk from `path` to a node with no fresh neighbour, taking the
/// fresh neighbours of each node from the last to the first.
pub open spec fn execution_paths_from(es: Seq<StructureEdge>, path: Seq<Seq<char>>) -> Seq<Seq<Seq<char>>>
    decreases walk_room(es, path), 1int, 0int,
    when walk_ok(es, path)
{
    let cs = fresh_targets(es, path.last(), path);
    if cs.len() == 0 {
        seq![path]
    } else {
        paths_through(es, path, cs.len() as int)
    }
}

/// The walks from `path` through its first `n` fresh neighbours, the
/// `n`-th first.
pub open spec fn paths_through(es: Seq<StructureEdge>, path: Seq<Seq<char>>, n: int) -> Seq<Seq<Seq<char>>>
    decreases walk_room(es, path), 0int, n,
    when walk_ok(es, path) && n <= fresh_targets(es, path.last(), path).len()
{
    if n <= 0 {
        Seq::empty()
    } else {
        let c = fresh_targets(es, path.last(), path)[n - 1];
        proof {
            lemma_walk_extend(es, path, c);
        }
        execution_paths_from(es, path.push(c)) + paths_through(es, path, n - 1)
    }
}

/// The walks from every start node, in order.
pub open spec fn all_execution_paths(es: Seq<StructureEdge>, starts: Seq<String>) -> Seq<Seq<Seq<char>>>
    decreases starts.len(),
{
    if starts.len() == 0 {
        Seq::empty()
    } else {
        all_execution_paths(es, starts.drop_last()) + execution_paths_from(es, seq![starts.last()@])
    }
}

/// The views of a list of paths.
pub open spec fn paths_views(ps: Seq<Vec<String>>) -> Seq<Seq<Seq<char>>> {
    ps.map_values(|p: Vec<String>| str_views(p@))
}

/// The fresh neighbours of the last node of `path`.
fn fresh_children(edges: &Vec<StructureEdge>, path: &Vec<String>) -> (r: Vec<String>)
    requires
        path@.len() >= 1,
    ensures
        str_views(r@) == fresh_targets(edges@, path@.last()@, str_views(path@)),
{
    let last = &path[path.len() - 1];
    let ghost pv = str_views(path@);
    assert(pv.last() == last@);
    let mut r: Vec<String> = Vec::new();
    let mut i: usize = 0;
    assert(str_views(r@) =~= fresh_targets(edges@.take(0), last@, pv));
    while i < edges.len()
        invariant
            i <= edges@.len(),
            pv == str_views(path@),
            last@ == path@.last()@,
            str_views(r@) == fresh_targets(edges@.take(i as int), last@, pv),
        decreases edges@.len() - i,
    {
        let ghost es = edges@.take(i + 1);
        assert(es.drop_last() =~= edges@.take(i as int));
        assert(es.last() == edges@[i as int]);
        let ghost r0 = r@;
        if str_eq(edges[i].source.as_str(), last.as_str()) && !contains_str(path, edges[i].target.as_str()) {
            r.push(edges[i].target.clone());
            assert(str_views(r@) =~= str_views(r0).push(edges@[i as int].target@));
        }
        assert(str_views(r@) =~= fresh_targets(es, last@, pv));
        i += 1;
    }
    assert(edges@.take(i as int) =~= edges@);
    r
}

/// Append the walks from `path` to `out`.
fn collect_paths(edges: &Vec<StructureEdge>, path: Vec<String>, out: &mut Vec<Vec<String>>)
    requires
        walk_ok(edges@, str_views(path@)),
    ensures
        paths_views(final(out)@) == paths_views(old(out)@) + execution_paths_from(edges@, str_views(path@)),
    decreases walk_room(edges@, str_views(path@)), 1int,
{
    let ghost pv = str_views(path@);
    let ghost es = edges@;
    let children = fresh_children(edges, &path);
    if children.len() == 0 {
        let ghost o0 = out@;
        out.push(path);
        assert(paths_views(out@) =~= paths_views(o0).push(pv));
        assert(paths_views(out@) =~= paths_views(o0) + seq![pv]);
    } else {
        let ghost n = children@.len() as int;
        let mut k: usize = children.len();
        assert(paths_views(out@) + paths_through(es, pv, k as int) =~= paths_views(old(out)@) + paths_through(es, pv, n));
        while k > 0
            invariant
                es == edges@,
                pv == str_views(path@),
                walk_ok(es, pv),
                str_views(children@) == fresh_targets(es, pv.last(), pv),
                n == children@.len(),
                k <= n,
                paths_views(out@) + paths_through(es, pv, k as int) == paths_views(old(out)@) + paths_through(es, pv, n),
            decreases k,
        {
            k -= 1;
            let ghost c = children@[k as int]@;
            assert(str_views(children@)[k as int] == c);
            proof {
                lemma_walk_extend(es, pv, c);
            }
            let mut next = copy_strings(&path);
            next.push(children[k].clone());
            assert(str_views(next@) =~= pv.push(c));
            let ghost o0 = out@;
            collect_paths(edges, next, out);
            assert(paths_through(es, pv, k + 1) == execution_paths_from(es, pv.push(c)) + paths_through(es, pv, k as int));
            assert(paths_views(out@) + paths_through(es, pv, k as int) =~= paths_views(o0) + paths_through(es, pv, k + 1));
        }
        assert(execution_paths_from(es, pv) == paths_through(es, pv, n));
    }
}

/// Every execution path through the flow: for each start method in order,
/// every walk along the edges that visits no node twice and stops where no
/// unvisited neighbour is left; the neighbours of a node are taken from
/// its last edge to its first.
pub fn calculate_execution_paths(structure: &FlowStructure) -> (r: Vec<Vec<String>>)
    ensures
        paths_views(r@) == all_execution_paths(structure.edges@, structure.start_methods@),
{
    let ghost es = structure.edges@;
    let ghost st = structure.start_methods@;
    let mut paths: Vec<Vec<String>> = Vec::new();
    let mut i: usize = 0;
    assert(paths_views(paths@) =~= all_execution_paths(es, st.take(0)));
    while i < structure.start_methods.len()
        invariant
            es == structure.edges@,
            st == structure.start_methods@,
            i <= st.len(),
            paths_views(paths@) == all_execution_paths(es, st.take(i as int)),
        decreases st.len() - i,
    {
        let mut start: Vec<String> = Vec::new();
        start.push(structure.start_methods[i].clone());
        assert(str_views(start@) =~= seq![st[i as int]@]);
        assert(walk_ok(es, str_views(start@)));
        let ghost p0 = paths@;
        collect_paths(&structure.edges, start, &mut paths);
        assert(st.take(i + 1).drop_last() =~= st.take(i as int));
        assert(st.take(i + 1).last() == st[i as int]);
        assert(paths_views(paths@) =~= all_execution_paths(es, st.take(i + 1)));
        i += 1;
    }
    assert(st.take(i as int) =~= st);
    paths
}


/// Some edge leads from `u` to `v`.
pub open spec fn has_edge(es: Seq<StructureEdge>, u: Seq<char>, v: Seq<char>) -> bool {
    exists|k: int| 0 <= k < es.len() && #[trigger] es[k].source@ == u && es[k].target@ == v
}

/// A complete walk extending `path`: it begins with `path`, visits no node
/// twice, steps along edges after `path`, and ends at a node with no
/// unvisited neighbour.
pub open spec fn complete_walk(es: Seq<StructureEdge>, path: Seq<Seq<char>>, p: Seq<Seq<char>>) -> bool {
    &&& path.len() <= p.len()
    &&& p.take(path.len() as int) == path
    &&& walk_ok(es, p)
    &&& forall|i: int| path.len() - 1 <= i < p.len() - 1 ==> #[trigger] has_edge(es, p[i], p[i + 1])
    &&& fresh_targets(es, p.last(), p).len() == 0
}

/// A fresh neighbour is the target of an edge from the node.
pub proof fn lemma_fresh_is_edge(es: Seq<StructureEdge>, u: Seq<char>, path: Seq<Seq<char>>, c: Seq<char>)
    requires
        fresh_targets(es, u, path).contains(c),
    ensures
        has_edge(es, u, c),
    decreases es.len(),
{
    let rest = fresh_targets(es.drop_last(), u, path);
    if rest.contains(c) {
        lemma_fresh_is_edge(es.drop_last(), u, path, c);
        let k = choose|k: int| 0 <= k < es.drop_last().len() && #[trigger] es.drop_last()[k].source@ == u && es.drop_last()[k].target@ == c;
        assert(es[k] == es.drop_last()[k]);
    } else {
        let w = choose|w: int| 0 <= w < fresh_targets(es, u, path).len() && fresh_targets(es, u, path)[w] == c;
        assert(w >= rest.len());
        assert(es[es.len() - 1].source@ == u);
    }
}

/// Every execution path from `path` is a complete walk extending it.
pub proof fn lemma_execution_paths_complete(es: Seq<StructureEdge>, path: Seq<Seq<char>>, p: Seq<Seq<char>>)
    requires
        walk_ok(es, path),
        execution_paths_from(es, path).contains(p),
    ensures
        complete_walk(es, path, p),
    decreases walk_room(es, path), 1int, 0int,
{
    let cs = fresh_targets(es, path.last(), path);
    if cs.len() == 0 {
        assert(execution_paths_from(es, path) == seq![path]);
        assert(p == path);
        assert(p.take(path.len() as int) =~= path);
    } else {
        lemma_paths_through_complete(es, path, cs.len() as int, p);
    }
}

/// Every path from the first `n` fresh neighbours of `path` is a complete
/// walk extending it.
pub proof fn lemma_paths_through_complete(es: Seq<StructureEdge>, path: Seq<Seq<char>>, n: int, p: Seq<Seq<char>>)
    requires
        walk_ok(es, path),
        0 <= n <= fresh_targets(es, path.last(), path).len(),
        paths_through(es, path, n).contains(p),
    ensures
        complete_walk(es, path, p),
    decreases walk_room(es, path), 0int, n,
{
    if n > 0 {
        let c = fresh_targets(es, path.last(), path)[n - 1];
        lemma_walk_extend(es, path, c);
        let left = execution_paths_from(es, path.push(c));
        let right = paths_through(es, path, n - 1);
        assert(paths_through(es, path, n) == left + right);
        let w = choose|w: int| 0 <= w < (left + right).len() && (left + right)[w] == p;
        if w < left.len() {
            assert(left[w] == p);
            assert(left.contains(p));
            lemma_execution_paths_complete(es, path.push(c), p);
            let q = path.push(c);
            assert(p.take(path.len() as int) =~= path) by {
                assert(p.take(q.len() as int) == q);
                assert forall|i: int| 0 <= i < path.len() implies p[i] == path[i] by {
                    assert(p.take(q.len() as int)[i] == q[i]);
                }
            }
            assert(fresh_targets(es, path.last(), path).contains(c));
            lemma_fresh_is_edge(es, path.last(), path, c);
            assert forall|i: int| path.len() - 1 <= i < p.len() - 1 implies #[trigger] has_edge(es, p[i], p[i + 1]) by {
                if i == path.len() - 1 {
                    assert(p.take(q.len() as int)[i] == q[i]);
                    assert(p.take(q.len() as int)[i + 1] == q[i + 1]);
                }
            }
        } else {
            assert(right[w - left.len()] == p);
            assert(right.contains(p));
            lemma_paths_through_complete(es, path, n - 1, p);
        }
    }
}


/// Every path that `calculate_execution_paths` lists begins at a start
/// method and is a complete walk from it.
pub proof fn lemma_all_execution_paths_complete(es: Seq<StructureEdge>, starts: Seq<String>, p: Seq<Seq<char>>)
    requires
        all_execution_paths(es, starts).contains(p),
    ensures
        exists|i: int| 0 <= i < starts.len() && #[trigger] complete_walk(es, seq![starts[i]@], p),
    decreases starts.len(),
{
    let left = all_execution_paths(es, starts.drop_last());
    let right = execution_paths_from(es, seq![starts.last()@]);
    let w = choose|w: int| 0 <= w < (left + right).len() && (left + right)[w] == p;
    if w < left.len() {
        assert(left[w] == p);
        assert(left.contains(p));
        lemma_all_execution_paths_complete(es, starts.drop_last(), p);
        let i = choose|i: int| 0 <= i < starts.drop_last().len() && #[trigger] complete_walk(es, seq![starts.drop_last()[i]@], p);
        assert(starts[i] == starts.drop_last()[i]);
        assert(complete_walk(es, seq![starts[i]@], p));
    } else {
        assert(right[w - left.len()] == p);
        assert(right.contains(p));
        assert(walk_ok(es, seq![starts.last()@]));
        lemma_execution_paths_complete(es, seq![starts.last()@], p);
        assert(complete_walk(es, seq![starts[starts.len() - 1]@], p));
    }
}


/// Node `a` comes before node `b` in level order: a lower level, or the
/// same level and an earlier place.
pub open spec fn level_before(nodes: Seq<(String, NodeMetadata)>, a: int, b: int) -> bool {
    nodes[a].1.level < nodes[b].1.level || (nodes[a].1.level == nodes[b].1.level && a < b)
}

/// The places of the nodes ordered by level, nodes of one level in their
/// order in the structure (a stable sort by level).
pub fn nodes_by_level(structure: &FlowStructure) -> (r: Vec<usize>)
    ensures
        r@.len() == structure.nodes@.len(),
        forall|k: int| 0 <= k < r@.len() ==> #[trigger] r@[k] < structure.nodes@.len(),
        forall|a: int, b: int| 0 <= a < b < r@.len() ==> level_before(structure.nodes@, #[trigger] r@[a] as int, #[trigger] r@[b] as int),
{
    let ghost ns = structure.nodes@;
    let n = structure.nodes.len();
    let mut r: Vec<usize> = Vec::new();
    let mut i: usize = 0;
    while i < n
        invariant
            ns == structure.nodes@,
            n == ns.len(),
            i <= n,
            r@.len() == i,
            forall|k: int| 0 <= k < r@.len() ==> #[trigger] r@[k] < i,
            forall|a: int, b: int| 0 <= a < b < r@.len() ==> level_before(ns, #[trigger] r@[a] as int, #[trigger] r@[b] as int),
        decreases n - i,
    {
        let lv = structure.nodes[i].1.level;
        let mut p: usize = 0;
        while p < r.len() && structure.nodes[r[p]].1.level <= lv
            invariant
                ns == structure.nodes@,
                n == ns.len(),
                i < n,
                lv == ns[i as int].1.level,
                p <= r@.len(),
                forall|k: int| 0 <= k < r@.len() ==> #[trigger] r@[k] < i,
                forall|k: int| 0 <= k < p ==> ns[#[trigger] r@[k] as int].1.level <= lv,
            decreases r@.len() - p,
        {
            p += 1;
        }
        let ghost r0 = r@;
        proof {
            assert forall|k: int| p <= k < r0.len() implies ns[#[trigger] r0[k] as int].1.level > lv by {
                if p < r0.len() {
                    assert(ns[r0[p as int] as int].1.level > lv);
                    if k > p {
                        assert(level_before(ns, r0[p as int] as int, r0[k] as int));
                    }
                }
            }
        }
        r.insert(p, i);
        assert forall|k: int| 0 <= k < r@.len() implies #[trigger] r@[k] < i + 1 by {
            if k < p {
                assert(r@[k] == r0[k]);
            } else if k > p {
                assert(r@[k] == r0[k - 1]);
            }
        }
        assert forall|a: int, b: int| 0 <= a < b < r@.len() implies level_before(ns, #[trigger] r@[a] as int, #[trigger] r@[b] as int) by {
            if b < p {
                assert(r@[a] == r0[a] && r@[b] == r0[b]);
            } else if b == p {
                assert(r@[a] == r0[a]);
            } else if a < p {
                assert(r@[a] == r0[a] && r@[b] == r0[b - 1]);
            } else if a == p {
                assert(r@[b] == r0[b - 1]);
            } else {
                assert(r@[a] == r0[a - 1] && r@[b] == r0[b - 1]);
            }
        }
        i += 1;
    }
    r
}

} // verus!
