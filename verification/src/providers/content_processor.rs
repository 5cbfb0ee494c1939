//! Content processing before content is used.

use std::collections::HashMap;

use vstd::prelude::*;

verus! {

/// Processes content before it is used.
pub trait ContentProcessorProvider {
    /// The processed form of `content`.
    fn process(&self, content: &str, context: Option<&HashMap<String, String>>) -> String;
}

/// A processor that returns content unchanged.
#[derive(Debug)]
pub struct NoOpContentProcessor;

impl ContentProcessorProvider for NoOpContentProcessor {
    fn process(&self, content: &str, context: Option<&HashMap<String, String>>) -> (r: String)
        ensures
            r@ == content@,
    {
        content.to_string()
    }
}

/// The processor in use: the registered one, or the no-op default.
#[derive(Debug)]
pub enum ProcessorInUse<'a, P> {
    /// The processor that was set.
    Registered(&'a P),
    /// The default, which returns content unchanged.
    Default(NoOpContentProcessor),
}

impl<'a, P: ContentProcessorProvider> ContentProcessorProvider for ProcessorInUse<'a, P> {
    fn process(&self, content: &str, context: Option<&HashMap<String, String>>) -> (r: String)
        ensures
            match self {
                ProcessorInUse::Registered(p) => call_ensures(P::process, (*p, content, context), r),
                ProcessorInUse::Default(_) => r@ == content@,
            },
    {
        match self {
            ProcessorInUse::Registered(p) => p.process(content, context),
            ProcessorInUse::Default(d) => d.process(content, context),
        }
    }
}

/// The processor in use: the one set, or the no-op default when none is.
pub fn get_processor<P>(slot: &Option<P>) -> (r: ProcessorInUse<'_, P>)
    ensures
        match slot {
            Some(p) => r matches ProcessorInUse::Registered(q) && *q == p,
            None => r is Default,
        },
{
    match slot {
        Some(p) => ProcessorInUse::Registered(p),
        None => ProcessorInUse::Default(NoOpContentProcessor),
    }
}

/// Make `processor` the processor in use.
pub fn set_processor<P>(slot: &mut Option<P>, processor: P)
    ensures
        *final(slot) == Some(processor),
{
    *slot = Some(processor);
}

/// Process content with the processor in use; without one, the content is
/// returned unchanged.
pub fn process_content<P: ContentProcessorProvider>(slot: &Option<P>, content: &str, context: Option<&HashMap<String, String>>) -> (r: String)
    ensures
        slot is None ==> r@ == content@,
        slot matches Some(p) ==> call_ensures(P::process, (&p, content, context), r),
{
    match slot {
        Some(p) => p.process(content, context),
        None => NoOpContentProcessor.process(content, context),
    }
}

} // verus!
