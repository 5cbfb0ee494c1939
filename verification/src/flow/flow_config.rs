//! Flow configuration.

use vstd::prelude::*;

verus! {

/// Configuration for Flow execution: the human-in-the-loop provider name
/// (console input when unset).
#[derive(Debug, Clone)]
pub struct FlowConfig {
    hitl_provider: Option<String>,
}

impl FlowConfig {
    /// The configured HITL provider name.
    pub closed spec fn provider_view(&self) -> Option<Seq<char>> {
        match self.hitl_provider {
            Some(s) => Some(s@),
            None => None,
        }
    }

    /// Create a configuration without a provider.
    pub fn new() -> (c: FlowConfig)
        ensures
            c.provider_view() is None,
    {
        FlowConfig { hitl_provider: None }
    }

    /// Get the configured HITL provider name.
    pub fn hitl_provider(&self) -> (r: Option<&str>)
        ensures
            match r {
                Some(s) => self.provider_view() == Some(s@),
                None => self.provider_view() is None,
            },
    {
        match &self.hitl_provider {
            Some(s) => Some(s.as_str()),
            None => None,
        }
    }

    /// Set the HITL provider name.
    pub fn set_hitl_provider(&mut self, provider: Option<String>)
        ensures
            final(self).provider_view() == match provider {
                Some(s) => Some(s@),
                None => None::<Seq<char>>,
            },
    {
        self.hitl_provider = provider;
    }
}

impl Default for FlowConfig {
    fn default() -> (c: Self)
        ensures
            c.provider_view() is None,
    {
        FlowConfig::new()
    }
}

} // verus!
