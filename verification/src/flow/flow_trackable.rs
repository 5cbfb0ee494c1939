//! Flow context tracking for objects created within flows.

use vstd::prelude::*;

verus! {

/// Tracks the flow execution context of objects created within flows.
#[derive(Debug, Clone)]
pub struct FlowTrackable {
    /// The request ID from the current flow context.
    pub request_id: Option<String>,
    /// The flow ID from the current flow context.
    pub flow_id: Option<String>,
}

impl FlowTrackable {
    /// Create an untracked value.
    pub fn new() -> (t: FlowTrackable)
        ensures
            t.request_id is None,
            t.flow_id is None,
    {
        FlowTrackable { request_id: None, flow_id: None }
    }

    /// Create a value tracked within the given flow and request.
    pub fn with_context(flow_id: String, request_id: String) -> (t: FlowTrackable)
        ensures
            t.request_id == Some(request_id),
            t.flow_id == Some(flow_id),
    {
        FlowTrackable { request_id: Some(request_id), flow_id: Some(flow_id) }
    }

    /// Adopt the flow context when a request ID is present; otherwise keep
    /// the current context.
    pub fn set_flow_context(&mut self, flow_id: Option<String>, request_id: Option<String>)
        ensures
            request_id is Some ==> final(self).request_id == request_id && final(self).flow_id == flow_id,
            request_id is None ==> *final(self) == *old(self),
    {
        if let Some(rid) = request_id {
            self.request_id = Some(rid);
            self.flow_id = flow_id;
        }
    }

    /// Whether this object is tracked within a flow.
    pub fn is_in_flow(&self) -> (r: bool)
        ensures
            r == self.flow_id is Some,
    {
        self.flow_id.is_some()
    }
}

impl Default for FlowTrackable {
    fn default() -> (t: Self)
        ensures
            t.request_id is None,
            t.flow_id is None,
    {
        FlowTrackable::new()
    }
}

/// The current flow and request of an execution context (one per thread or
/// task).
#[derive(Debug, Clone)]
pub struct FlowContextVars {
    /// The current flow ID.
    pub flow_id: Option<String>,
    /// The current flow request ID.
    pub request_id: Option<String>,
}

impl FlowContextVars {
    /// A context outside any flow.
    pub fn new() -> (v: FlowContextVars)
        ensures
            v.flow_id is None,
            v.request_id is None,
    {
        FlowContextVars { flow_id: None, request_id: None }
    }
}

/// Get the current flow ID.
pub fn current_flow_id(vars: &FlowContextVars) -> (r: Option<String>)
    ensures
        r == vars.flow_id,
{
    match &vars.flow_id {
        Some(s) => Some(s.clone()),
        None => None,
    }
}

/// Set the current flow ID.
pub fn set_current_flow_id(vars: &mut FlowContextVars, id: Option<String>)
    ensures
        final(vars).flow_id == id,
        final(vars).request_id == old(vars).request_id,
{
    vars.flow_id = id;
}

/// Get the current flow request ID.
pub fn current_flow_request_id(vars: &FlowContextVars) -> (r: Option<String>)
    ensures
        r == vars.request_id,
{
    match &vars.request_id {
        Some(s) => Some(s.clone()),
        None => None,
    }
}

/// Set the current flow request ID.
pub fn set_current_flow_request_id(vars: &mut FlowContextVars, id: Option<String>)
    ensures
        final(vars).request_id == id,
        final(vars).flow_id == old(vars).flow_id,
{
    vars.request_id = id;
}

} // verus!
