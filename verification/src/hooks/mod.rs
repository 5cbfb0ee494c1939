//! Hook contexts, hook registries and the rules that combine hook results.

pub mod lifecycle;

use std::collections::HashMap;

use vstd::prelude::*;

verus! {

/// A JSON value, carried through hook contexts and actions unread.
#[verifier::external_type_specification]
#[verifier::external_body]
pub struct ExJsonValue(serde_json::Value);

/// Context passed to LLM call hooks.
#[derive(Debug, Clone)]
pub struct LLMCallHookContext {
    /// The messages of the call.
    pub messages: Vec<HashMap<String, String>>,
    /// Agent role or identifier.
    pub agent: Option<String>,
    /// Task description.
    pub task: Option<String>,
    /// Crew identifier.
    pub crew: Option<String>,
    /// LLM model identifier.
    pub llm: Option<String>,
    /// Current iteration count (0 for direct LLM calls).
    pub iterations: usize,
    /// LLM response (set for after-call hooks).
    pub response: Option<String>,
}

impl LLMCallHookContext {
    /// An empty context: no messages, nothing set, iteration 0.
    pub fn new() -> (c: LLMCallHookContext)
        ensures
            c.messages@.len() == 0,
            c.agent is None,
            c.task is None,
            c.crew is None,
            c.llm is None,
            c.iterations == 0,
            c.response is None,
    {
        LLMCallHookContext {
            messages: Vec::new(),
            agent: None,
            task: None,
            crew: None,
            llm: None,
            iterations: 0,
            response: None,
        }
    }
}

impl Default for LLMCallHookContext {
    fn default() -> (c: Self)
        ensures
            c.messages@.len() == 0,
            c.agent is None,
            c.task is None,
            c.crew is None,
            c.llm is None,
            c.iterations == 0,
            c.response is None,
    {
        LLMCallHookContext::new()
    }
}

/// Context passed to tool call hooks.
#[derive(Debug, Clone)]
pub struct ToolCallHookContext {
    /// Name of the tool being called.
    pub tool_name: String,
    /// Tool input parameters.
    pub tool_input: HashMap<String, serde_json::Value>,
    /// Agent role or identifier.
    pub agent: Option<String>,
    /// Task description.
    pub task: Option<String>,
    /// Crew identifier.
    pub crew: Option<String>,
    /// Tool result (set for after-call hooks).
    pub tool_result: Option<String>,
}

impl ToolCallHookContext {
    /// A context for calling `tool_name`, with no input and nothing set.
    pub fn new(tool_name: String) -> (c: ToolCallHookContext)
        ensures
            c.tool_name == tool_name,
            c.agent is None,
            c.task is None,
            c.crew is None,
            c.tool_result is None,
    {
        ToolCallHookContext {
            tool_name,
            tool_input: HashMap::new(),
            agent: None,
            task: None,
            crew: None,
            tool_result: None,
        }
    }
}

/// The four hook lists: before and after LLM calls, before and after tool
/// calls, each in registration order. The runners call a hook with the
/// context and take the context back from it, with its answer.
pub struct GlobalHooks<BL, AL, BT, AT> {
    /// Before-LLM-call hooks.
    pub before_llm: Vec<BL>,
    /// After-LLM-call hooks.
    pub after_llm: Vec<AL>,
    /// Before-tool-call hooks.
    pub before_tool: Vec<BT>,
    /// After-tool-call hooks.
    pub after_tool: Vec<AT>,
}

impl<BL, AL, BT, AT> GlobalHooks<BL, AL, BT, AT> {
    /// No hooks registered.
    pub fn new() -> (g: Self)
        ensures
            g.before_llm@.len() == 0,
            g.after_llm@.len() == 0,
            g.before_tool@.len() == 0,
            g.after_tool@.len() == 0,
    {
        GlobalHooks { before_llm: Vec::new(), after_llm: Vec::new(), before_tool: Vec::new(), after_tool: Vec::new() }
    }
}

/// Register a before-LLM-call hook; it runs after those already registered.
pub fn register_before_llm_call_hook<BL, AL, BT, AT>(hooks: &mut GlobalHooks<BL, AL, BT, AT>, hook: BL)
    ensures
        final(hooks).before_llm@ == old(hooks).before_llm@.push(hook),
        final(hooks).after_llm == old(hooks).after_llm,
        final(hooks).before_tool == old(hooks).before_tool,
        final(hooks).after_tool == old(hooks).after_tool,
{
    hooks.before_llm.push(hook);
}

/// Register an after-LLM-call hook; it runs after those already registered.
pub fn register_after_llm_call_hook<BL, AL, BT, AT>(hooks: &mut GlobalHooks<BL, AL, BT, AT>, hook: AL)
    ensures
        final(hooks).after_llm@ == old(hooks).after_llm@.push(hook),
        final(hooks).before_llm == old(hooks).before_llm,
        final(hooks).before_tool == old(hooks).before_tool,
        final(hooks).after_tool == old(hooks).after_tool,
{
    hooks.after_llm.push(hook);
}

/// Register a before-tool-call hook; it runs after those already registered.
pub fn register_before_tool_call_hook<BL, AL, BT, AT>(hooks: &mut GlobalHooks<BL, AL, BT, AT>, hook: BT)
    ensures
        final(hooks).before_tool@ == old(hooks).before_tool@.push(hook),
        final(hooks).before_llm == old(hooks).before_llm,
        final(hooks).after_llm == old(hooks).after_llm,
        final(hooks).after_tool == old(hooks).after_tool,
{
    hooks.before_tool.push(hook);
}

/// Register an after-tool-call hook; it runs after those already registered.
pub fn register_after_tool_call_hook<BL, AL, BT, AT>(hooks: &mut GlobalHooks<BL, AL, BT, AT>, hook: AT)
    ensures
        final(hooks).after_tool@ == old(hooks).after_tool@.push(hook),
        final(hooks).before_llm == old(hooks).before_llm,
        final(hooks).after_llm == old(hooks).after_llm,
        final(hooks).before_tool == old(hooks).before_tool,
{
    hooks.after_tool.push(hook);
}

/// The number of before-LLM-call hooks.
pub fn before_llm_call_hook_count<BL, AL, BT, AT>(hooks: &GlobalHooks<BL, AL, BT, AT>) -> (n: usize)
    ensures
        n == hooks.before_llm@.len(),
{
    hooks.before_llm.len()
}

/// The number of after-LLM-call hooks.
pub fn after_llm_call_hook_count<BL, AL, BT, AT>(hooks: &GlobalHooks<BL, AL, BT, AT>) -> (n: usize)
    ensures
        n == hooks.after_llm@.len(),
{
    hooks.after_llm.len()
}

/// Remove every before-LLM-call hook; returns how many there were.
pub fn clear_before_llm_call_hooks<BL, AL, BT, AT>(hooks: &mut GlobalHooks<BL, AL, BT, AT>) -> (n: usize)
    ensures
        n == old(hooks).before_llm@.len(),
        final(hooks).before_llm@.len() == 0,
        final(hooks).after_llm == old(hooks).after_llm,
        final(hooks).before_tool == old(hooks).before_tool,
        final(hooks).after_tool == old(hooks).after_tool,
{
    let n = hooks.before_llm.len();
    hooks.before_llm.clear();
    n
}

/// Remove every after-LLM-call hook; returns how many there were.
pub fn clear_after_llm_call_hooks<BL, AL, BT, AT>(hooks: &mut GlobalHooks<BL, AL, BT, AT>) -> (n: usize)
    ensures
        n == old(hooks).after_llm@.len(),
        final(hooks).after_llm@.len() == 0,
        final(hooks).before_llm == old(hooks).before_llm,
        final(hooks).before_tool == old(hooks).before_tool,
        final(hooks).after_tool == old(hooks).after_tool,
{
    let n = hooks.after_llm.len();
    hooks.after_llm.clear();
    n
}

/// Remove every before-tool-call hook; returns how many there were.
pub fn clear_before_tool_call_hooks<BL, AL, BT, AT>(hooks: &mut GlobalHooks<BL, AL, BT, AT>) -> (n: usize)
    ensures
        n == old(hooks).before_tool@.len(),
        final(hooks).before_tool@.len() == 0,
        final(hooks).before_llm == old(hooks).before_llm,
        final(hooks).after_llm == old(hooks).after_llm,
        final(hooks).after_tool == old(hooks).after_tool,
{
    let n = hooks.before_tool.len();
    hooks.before_tool.clear();
    n
}

/// Remove every after-tool-call hook; returns how many there were.
pub fn clear_after_tool_call_hooks<BL, AL, BT, AT>(hooks: &mut GlobalHooks<BL, AL, BT, AT>) -> (n: usize)
    ensures
        n == old(hooks).after_tool@.len(),
        final(hooks).after_tool@.len() == 0,
        final(hooks).before_llm == old(hooks).before_llm,
        final(hooks).after_llm == old(hooks).after_llm,
        final(hooks).before_tool == old(hooks).before_tool,
{
    let n = hooks.after_tool.len();
    hooks.after_tool.clear();
    n
}

/// Remove every hook; returns the counts removed as
/// `(before_llm, after_llm, before_tool, after_tool)`.
pub fn clear_all_global_hooks<BL, AL, BT, AT>(hooks: &mut GlobalHooks<BL, AL, BT, AT>) -> (r: (usize, usize, usize, usize))
    ensures
        r == (
            old(hooks).before_llm@.len() as usize,
            old(hooks).after_llm@.len() as usize,
            old(hooks).before_tool@.len() as usize,
            old(hooks).after_tool@.len() as usize,
        ),
        final(hooks).before_llm@.len() == 0,
        final(hooks).after_llm@.len() == 0,
        final(hooks).before_tool@.len() == 0,
        final(hooks).after_tool@.len() == 0,
{
    let bl = clear_before_llm_call_hooks(hooks);
    let al = clear_after_llm_call_hooks(hooks);
    let bt = clear_before_tool_call_hooks(hooks);
    let at = clear_after_tool_call_hooks(hooks);
    (bl, al, bt, at)
}

/// Whether a before-call hook's answer lets execution go on: only an
/// explicit `Some(false)` blocks.
pub fn before_hook_allows(outcome: Option<bool>) -> (r: bool)
    ensures
        r == (outcome != Some(false)),
{
    match outcome {
        Some(false) => false,
        _ => true,
    }
}

/// The verdict of running before-call hooks in order: execution goes on
/// unless some hook answers `Some(false)` (hooks after it are not run).
pub open spec fn before_hooks_verdict(outcomes: Seq<Option<bool>>) -> bool {
    !outcomes.contains(Some(false))
}

/// The response after an after-call hook: its replacement, if it gives one.
pub fn after_hook_response(current: Option<String>, replacement: Option<String>) -> (r: Option<String>)
    ensures
        r == after_hook_response_spec(current, replacement),
{
    match replacement {
        Some(s) => Some(s),
        None => current,
    }
}

/// A hook's replacement, or the current response when it gives none.
pub open spec fn after_hook_response_spec(current: Option<String>, replacement: Option<String>) -> Option<String> {
    match replacement {
        Some(s) => Some(s),
        None => current,
    }
}

/// The response after running after-call hooks in order: the last
/// replacement given, or the initial response when none is.
pub open spec fn after_hooks_response(initial: Option<String>, outcomes: Seq<Option<String>>) -> Option<String>
    decreases outcomes.len(),
{
    if outcomes.len() == 0 {
        initial
    } else {
        match outcomes.last() {
            Some(s) => Some(s),
            None => after_hooks_response(initial, outcomes.drop_last()),
        }
    }
}

/// After-call hooks: the last replacement given is the response, whatever
/// earlier hooks gave; with no replacement the initial response stays.
pub proof fn lemma_last_replacement_wins(initial: Option<String>, outcomes: Seq<Option<String>>)
    ensures
        (forall|j: int| 0 <= j < outcomes.len() ==> #[trigger] outcomes[j] is None) ==> after_hooks_response(
            initial,
            outcomes,
        ) == initial,
        forall|k: int|
            0 <= k < outcomes.len() && #[trigger] outcomes[k] is Some && (forall|j: int|
                k < j < outcomes.len() ==> #[trigger] outcomes[j] is None) ==> after_hooks_response(initial, outcomes)
                == outcomes[k],
    decreases outcomes.len(),
{
    if outcomes.len() > 0 {
        let prev = outcomes.drop_last();
        let n = outcomes.len() - 1;
        lemma_last_replacement_wins(initial, prev);
        assert(outcomes.last() == outcomes[n]);
        assert(forall|j: int| 0 <= j < n ==> outcomes[j] == #[trigger] prev[j]);
        if outcomes[n] is None {
            assert forall|k: int|
                0 <= k < outcomes.len() && #[trigger] outcomes[k] is Some && (forall|j: int|
                    k < j < outcomes.len() ==> #[trigger] outcomes[j] is None) implies after_hooks_response(
                initial,
                outcomes,
            ) == outcomes[k] by {
                assert(k < n);
                assert(prev[k] is Some);
                assert forall|j: int| k < j < prev.len() implies #[trigger] prev[j] is None by {
                    assert(outcomes[j] is None);
                }
            }
            if forall|j: int| 0 <= j < outcomes.len() ==> #[trigger] outcomes[j] is None {
                assert forall|j: int| 0 <= j < prev.len() implies #[trigger] prev[j] is None by {
                    assert(outcomes[j] is None);
                }
            }
        } else {
            assert forall|k: int|
                0 <= k < outcomes.len() && #[trigger] outcomes[k] is Some && (forall|j: int|
                    k < j < outcomes.len() ==> #[trigger] outcomes[j] is None) implies after_hooks_response(
                initial,
                outcomes,
            ) == outcomes[k] by {
                if k < n {
                    assert(outcomes[n] is None);
                }
            }
        }
    }
}

/// Running before-call hooks step by step with `before_hook_allows`, and
/// stopping at the first block, gives `before_hooks_verdict`.
pub proof fn lemma_before_hooks_stepwise(outcomes: Seq<Option<bool>>, k: int)
    requires
        0 <= k <= outcomes.len(),
        forall|i: int| 0 <= i < k ==> #[trigger] outcomes[i] != Some(false),
    ensures
        before_hooks_verdict(outcomes.take(k)),
        k < outcomes.len() && outcomes[k] == Some(false) ==> !before_hooks_verdict(outcomes),
{
    if k < outcomes.len() && outcomes[k] == Some(false) {
        assert(outcomes.contains(outcomes[k]));
    }
}

/// Folding `after_hook_response` over the hooks' replacements, in order,
/// gives `after_hooks_response`.
pub proof fn lemma_after_hooks_stepwise(initial: Option<String>, outcomes: Seq<Option<String>>, k: int)
    requires
        0 < k <= outcomes.len(),
    ensures
        after_hooks_response(initial, outcomes.take(k)) == match outcomes[k - 1] {
            Some(s) => Some(s),
            None => after_hooks_response(initial, outcomes.take(k - 1)),
        },
{
    assert(outcomes.take(k).drop_last() =~= outcomes.take(k - 1));
}


/// Every before-hook of the list may be called on any context.
pub open spec fn before_hooks_callable<H: Fn(C) -> (C, Option<bool>), C>(hooks: Seq<H>) -> bool {
    forall|i: int, c: C| 0 <= i < hooks.len() ==> #[trigger] hooks[i].requires((c,))
}

/// Every after-hook of the list may be called on any context.
pub open spec fn after_hooks_callable<H: Fn(C) -> (C, Option<String>), C>(hooks: Seq<H>) -> bool {
    forall|i: int, c: C| 0 <= i < hooks.len() ==> #[trigger] hooks[i].requires((c,))
}

/// No before-hook of the list can ever answer `Some(false)`.
pub open spec fn before_hooks_never_block<H: Fn(C) -> (C, Option<bool>), C>(hooks: Seq<H>) -> bool {
    forall|i: int, c: C, out: (C, Option<bool>)| 0 <= i < hooks.len() && #[trigger] hooks[i].ensures((c,), out) ==> out.1 != Some(false)
}

/// Some before-hook of the list can answer `Some(false)`.
pub open spec fn before_hooks_may_block<H: Fn(C) -> (C, Option<bool>), C>(hooks: Seq<H>) -> bool {
    exists|i: int, c: C, d: C| 0 <= i < hooks.len() && #[trigger] hooks[i].ensures((c,), (d, Some(false)))
}

/// `answers` could be the answers of before-hooks run in order from the
/// first, ending with verdict `r`: none but the last blocks (`Some(false)`);
/// with `r` all `n` hooks answered and none blocked, without it the last
/// answer is the block.
pub open spec fn before_verdict_of(n: int, answers: Seq<Option<bool>>, r: bool) -> bool {
    &&& answers.len() <= n
    &&& forall|j: int| 0 <= j < answers.len() - 1 ==> #[trigger] answers[j] != Some(false)
    &&& r ==> answers.len() == n && (answers.len() > 0 ==> answers.last() != Some(false))
    &&& !r ==> answers.len() > 0 && answers.last() == Some(false)
}

/// A run of the before-hooks from the context `ctxs[0]`: hook `j` takes the
/// context `ctxs[j]` that the hook before it left and gives back
/// `ctxs[j + 1]` with the answer `answers[j]`, and the answers give the
/// verdict `r` (see `before_verdict_of`).
pub open spec fn before_run<H: Fn(C) -> (C, Option<bool>), C>(
    hooks: Seq<H>,
    answers: Seq<Option<bool>>,
    ctxs: Seq<C>,
    r: bool,
) -> bool {
    &&& before_verdict_of(hooks.len() as int, answers, r)
    &&& ctxs.len() == answers.len() + 1
    &&& forall|j: int| 0 <= j < answers.len() ==> #[trigger] hooks[j].ensures((ctxs[j],), (ctxs[j + 1], answers[j]))
}

/// Run before-call hooks in order from the context `ctx`, stopping at the
/// first that answers `Some(false)`; whether the call may go on, and the
/// context left behind (see `before_run`).
fn run_before_hooks<H: Fn(C) -> (C, Option<bool>), C>(hooks: &Vec<H>, ctx: C) -> (r: (bool, C))
    requires
        before_hooks_callable(hooks@),
    ensures
        exists|answers: Seq<Option<bool>>, ctxs: Seq<C>|
            #[trigger] before_run(hooks@, answers, ctxs, r.0) && ctxs[0] == ctx && ctxs.last() == r.1,
        before_hooks_never_block(hooks@) ==> r.0,
        !r.0 ==> before_hooks_may_block(hooks@),
{
    let ghost mut answers: Seq<Option<bool>> = Seq::empty();
    let ghost mut ctxs: Seq<C> = seq![ctx];
    let mut c = ctx;
    let mut i: usize = 0;
    while i < hooks.len()
        invariant
            i <= hooks@.len(),
            before_hooks_callable(hooks@),
            answers.len() == i,
            ctxs.len() == i + 1,
            ctxs[0] == ctx,
            ctxs.last() == c,
            forall|k: int| 0 <= k < i ==> #[trigger] answers[k] != Some(false),
            forall|k: int| 0 <= k < i ==> #[trigger] hooks@[k].ensures((ctxs[k],), (ctxs[k + 1], answers[k])),
        decreases hooks@.len() - i,
    {
        let ghost old_answers = answers;
        let ghost old_ctxs = ctxs;
        let ghost pre = c;
        let (next, answer) = (hooks[i])(c);
        c = next;
        proof {
            answers = answers.push(answer);
            ctxs = ctxs.push(c);
            assert(hooks@[i as int].ensures((pre,), (c, answer)));
            assert forall|k: int| 0 <= k < i + 1 implies #[trigger] hooks@[k].ensures((ctxs[k],), (ctxs[k + 1], answers[k])) by {
                if k < i {
                    assert(answers[k] == old_answers[k]);
                    assert(ctxs[k] == old_ctxs[k]);
                    assert(ctxs[k + 1] == old_ctxs[k + 1]);
                } else {
                    assert(ctxs[k] == pre);
                }
            }
        }
        if !before_hook_allows(answer) {
            proof {
                assert forall|k: int| 0 <= k < answers.len() - 1 implies #[trigger] answers[k] != Some(false) by {
                    assert(answers[k] == old_answers[k]);
                }
                assert(before_run(hooks@, answers, ctxs, false));
                assert(ctxs[0] == ctx);
                assert(ctxs.last() == c);
                assert(exists|answers: Seq<Option<bool>>, ctxs: Seq<C>|
                    #[trigger] before_run(hooks@, answers, ctxs, false) && ctxs[0] == ctx && ctxs.last() == c);
            }
            let res = (false, c);
            assert(res.0 == false && res.1 == ctxs.last());
            return res;
        }
        proof {
            assert forall|k: int| 0 <= k < i + 1 implies #[trigger] answers[k] != Some(false) by {
                if k < i {
                    assert(answers[k] == old_answers[k]);
                }
            }
        }
        i += 1;
    }
    proof {
        assert(before_run(hooks@, answers, ctxs, true));
        assert(ctxs[0] == ctx);
        assert(ctxs.last() == c);
        assert(exists|answers: Seq<Option<bool>>, ctxs: Seq<C>|
            #[trigger] before_run(hooks@, answers, ctxs, true) && ctxs[0] == ctx && ctxs.last() == c);
    }
    let res = (true, c);
    assert(res.0 == true && res.1 == ctxs.last());
    res
}

/// Run the before-LLM-call hooks in order, stopping at the first that
/// answers `Some(false)`; whether the call may go on. A hook takes the
/// context and gives it back, possibly changed, with its answer; each hook
/// gets the context the one before gave back, and the context ends as the
/// last hook run gave it back: there are answers and contexts `ctxs`, from
/// the context given to the one left behind, that make a run of the hooks
/// with this verdict (see `before_run`). With no hooks the call goes on and
/// the context is untouched; hooks that never block let it go on; a
/// refusal comes from a hook that can block.
pub fn run_before_llm_call_hooks<BL, AL, BT, AT>(hooks: &GlobalHooks<BL, AL, BT, AT>, ctx: &mut LLMCallHookContext) -> (r: bool)
    where
        BL: Fn(LLMCallHookContext) -> (LLMCallHookContext, Option<bool>),
    requires
        before_hooks_callable(hooks.before_llm@),
    ensures
        exists|answers: Seq<Option<bool>>, ctxs: Seq<LLMCallHookContext>|
            #[trigger] before_run(hooks.before_llm@, answers, ctxs, r) && ctxs[0] == *old(ctx) && ctxs.last() == *final(ctx),
        hooks.before_llm@.len() == 0 ==> r && *final(ctx) == *old(ctx),
        before_hooks_never_block(hooks.before_llm@) ==> r,
        !r ==> before_hooks_may_block(hooks.before_llm@),
{
    let mut c = LLMCallHookContext::new();
    std::mem::swap(&mut c, ctx);
    let (r, left) = run_before_hooks(&hooks.before_llm, c);
    *ctx = left;
    r
}

/// Run the before-tool-call hooks in order, stopping at the first that
/// answers `Some(false)`; whether the tool may run (as for LLM calls: each
/// hook gets the context the one before gave back).
pub fn run_before_tool_call_hooks<BL, AL, BT, AT>(hooks: &GlobalHooks<BL, AL, BT, AT>, ctx: &mut ToolCallHookContext) -> (r: bool)
    where
        BT: Fn(ToolCallHookContext) -> (ToolCallHookContext, Option<bool>),
    requires
        before_hooks_callable(hooks.before_tool@),
    ensures
        exists|answers: Seq<Option<bool>>, ctxs: Seq<ToolCallHookContext>|
            #[trigger] before_run(hooks.before_tool@, answers, ctxs, r) && ctxs[0] == *old(ctx) && ctxs.last() == *final(ctx),
        hooks.before_tool@.len() == 0 ==> r && *final(ctx) == *old(ctx),
        before_hooks_never_block(hooks.before_tool@) ==> r,
        !r ==> before_hooks_may_block(hooks.before_tool@),
{
    let mut c = ToolCallHookContext::new(String::new());
    std::mem::swap(&mut c, ctx);
    let (r, left) = run_before_hooks(&hooks.before_tool, c);
    *ctx = left;
    r
}

/// A run of the after-LLM-call hooks from the context `ctxs[0]`: hook `j`
/// takes the context `ctxs[j]`, gives back `outs[j]` with the answer
/// `answers[j]`, and the next context `ctxs[j + 1]` is `outs[j]` with the
/// answer, when it is a replacement, as its response.
pub open spec fn after_llm_run<H: Fn(LLMCallHookContext) -> (LLMCallHookContext, Option<String>)>(
    hooks: Seq<H>,
    answers: Seq<Option<String>>,
    outs: Seq<LLMCallHookContext>,
    ctxs: Seq<LLMCallHookContext>,
) -> bool {
    &&& answers.len() == hooks.len()
    &&& outs.len() == hooks.len()
    &&& ctxs.len() == hooks.len() + 1
    &&& forall|j: int|
        0 <= j < hooks.len() ==> #[trigger] hooks[j].ensures((ctxs[j],), (outs[j], answers[j])) && ctxs[j + 1] == (LLMCallHookContext {
            response: after_hook_response_spec(outs[j].response, answers[j]),
            ..outs[j]
        })
}

/// A run of the after-tool-call hooks (as for LLM calls, with the tool
/// result in place of the response).
pub open spec fn after_tool_run<H: Fn(ToolCallHookContext) -> (ToolCallHookContext, Option<String>)>(
    hooks: Seq<H>,
    answers: Seq<Option<String>>,
    outs: Seq<ToolCallHookContext>,
    ctxs: Seq<ToolCallHookContext>,
) -> bool {
    &&& answers.len() == hooks.len()
    &&& outs.len() == hooks.len()
    &&& ctxs.len() == hooks.len() + 1
    &&& forall|j: int|
        0 <= j < hooks.len() ==> #[trigger] hooks[j].ensures((ctxs[j],), (outs[j], answers[j])) && ctxs[j + 1] == (ToolCallHookContext {
            tool_result: after_hook_response_spec(outs[j].tool_result, answers[j]),
            ..outs[j]
        })
}

/// Run the after-LLM-call hooks in order. A hook takes the context and
/// gives it back, possibly changed, with its answer; a replacement it
/// answers becomes the response before the next hook runs, and each hook
/// gets the context so left by the one before (see `after_llm_run`). When
/// no hook changes the response itself, the final response is the last
/// replacement any hook answered, or the response the context had before
/// when none did. With no hooks the context is untouched.
pub fn run_after_llm_call_hooks<BL, AL, BT, AT>(hooks: &GlobalHooks<BL, AL, BT, AT>, ctx: &mut LLMCallHookContext)
    where
        AL: Fn(LLMCallHookContext) -> (LLMCallHookContext, Option<String>),
    requires
        after_hooks_callable(hooks.after_llm@),
    ensures
        exists|answers: Seq<Option<String>>, outs: Seq<LLMCallHookContext>, ctxs: Seq<LLMCallHookContext>|
            {
                &&& #[trigger] after_llm_run(hooks.after_llm@, answers, outs, ctxs)
                &&& ctxs[0] == *old(ctx)
                &&& ctxs.last() == *final(ctx)
                &&& (forall|j: int, c: LLMCallHookContext, out: (LLMCallHookContext, Option<String>)|
                    0 <= j < hooks.after_llm@.len() && #[trigger] hooks.after_llm@[j].ensures((c,), out) ==> out.0.response
                        == c.response) ==> final(ctx).response == after_hooks_response(old(ctx).response, answers)
            },
        hooks.after_llm@.len() == 0 ==> *final(ctx) == *old(ctx),
{
    let mut c = LLMCallHookContext::new();
    std::mem::swap(&mut c, ctx);
    let ghost start = c;
    let ghost mut answers: Seq<Option<String>> = Seq::empty();
    let ghost mut outs: Seq<LLMCallHookContext> = Seq::empty();
    let ghost mut ctxs: Seq<LLMCallHookContext> = seq![c];
    let mut i: usize = 0;
    while i < hooks.after_llm.len()
        invariant
            i <= hooks.after_llm@.len(),
            after_hooks_callable(hooks.after_llm@),
            answers.len() == i,
            outs.len() == i,
            ctxs.len() == i + 1,
            ctxs[0] == start,
            ctxs.last() == c,
            forall|k: int|
                0 <= k < i ==> #[trigger] hooks.after_llm@[k].ensures((ctxs[k],), (outs[k], answers[k])) && ctxs[k + 1] == (
                LLMCallHookContext { response: after_hook_response_spec(outs[k].response, answers[k]), ..outs[k] }),
            (forall|j: int, c: LLMCallHookContext, out: (LLMCallHookContext, Option<String>)|
                0 <= j < hooks.after_llm@.len() && #[trigger] hooks.after_llm@[j].ensures((c,), out) ==> out.0.response
                    == c.response) ==> c.response == after_hooks_response(start.response, answers),
        decreases hooks.after_llm@.len() - i,
    {
        let ghost old_answers = answers;
        let ghost old_outs = outs;
        let ghost old_ctxs = ctxs;
        let ghost pre = c;
        let (mut next, replacement) = (hooks.after_llm[i])(c);
        let ghost out = next;
        let current = next.response.take();
        next.response = after_hook_response(current, replacement);
        c = next;
        proof {
            answers = answers.push(replacement);
            outs = outs.push(out);
            ctxs = ctxs.push(c);
            assert(c == (LLMCallHookContext { response: after_hook_response_spec(out.response, replacement), ..out }));
            assert forall|k: int|
                0 <= k < i + 1 implies #[trigger] hooks.after_llm@[k].ensures((ctxs[k],), (outs[k], answers[k])) && ctxs[k + 1] == (
                LLMCallHookContext { response: after_hook_response_spec(outs[k].response, answers[k]), ..outs[k] }) by {
                if k < i {
                    assert(answers[k] == old_answers[k]);
                    assert(outs[k] == old_outs[k]);
                    assert(ctxs[k] == old_ctxs[k]);
                    assert(ctxs[k + 1] == old_ctxs[k + 1]);
                } else {
                    assert(ctxs[k] == pre);
                }
            }
            assert(answers.drop_last() =~= old_answers);
        }
        i += 1;
    }
    *ctx = c;
    proof {
        assert(answers.len() == hooks.after_llm@.len());
        assert(outs.len() == hooks.after_llm@.len());
        assert(ctxs.len() == hooks.after_llm@.len() + 1);
        assert(i == hooks.after_llm@.len());
        assert(forall|j: int|
            0 <= j < hooks.after_llm@.len() ==> #[trigger] hooks.after_llm@[j].ensures((ctxs[j],), (outs[j], answers[j])) && ctxs[j + 1] == (
            LLMCallHookContext { response: after_hook_response_spec(outs[j].response, answers[j]), ..outs[j] }));
        assert(after_llm_run(hooks.after_llm@, answers, outs, ctxs));
    }
}

/// Run the after-tool-call hooks in order (as for LLM calls: a replacement
/// a hook answers becomes the tool result before the next hook runs; see
/// `after_tool_run`). When no hook changes the tool result itself, the
/// final result is the last replacement any hook answered, or the result
/// the context had before when none did. With no hooks the context is
/// untouched.
pub fn run_after_tool_call_hooks<BL, AL, BT, AT>(hooks: &GlobalHooks<BL, AL, BT, AT>, ctx: &mut ToolCallHookContext)
    where
        AT: Fn(ToolCallHookContext) -> (ToolCallHookContext, Option<String>),
    requires
        after_hooks_callable(hooks.after_tool@),
    ensures
        exists|answers: Seq<Option<String>>, outs: Seq<ToolCallHookContext>, ctxs: Seq<ToolCallHookContext>|
            {
                &&& #[trigger] after_tool_run(hooks.after_tool@, answers, outs, ctxs)
                &&& ctxs[0] == *old(ctx)
                &&& ctxs.last() == *final(ctx)
                &&& (forall|j: int, c: ToolCallHookContext, out: (ToolCallHookContext, Option<String>)|
                    0 <= j < hooks.after_tool@.len() && #[trigger] hooks.after_tool@[j].ensures((c,), out) ==> out.0.tool_result
                        == c.tool_result) ==> final(ctx).tool_result == after_hooks_response(old(ctx).tool_result, answers)
            },
        hooks.after_tool@.len() == 0 ==> *final(ctx) == *old(ctx),
{
    let mut c = ToolCallHookContext::new(String::new());
    std::mem::swap(&mut c, ctx);
    let ghost start = c;
    let ghost mut answers: Seq<Option<String>> = Seq::empty();
    let ghost mut outs: Seq<ToolCallHookContext> = Seq::empty();
    let ghost mut ctxs: Seq<ToolCallHookContext> = seq![c];
    let mut i: usize = 0;
    while i < hooks.after_tool.len()
        invariant
            i <= hooks.after_tool@.len(),
            after_hooks_callable(hooks.after_tool@),
            answers.len() == i,
            outs.len() == i,
            ctxs.len() == i + 1,
            ctxs[0] == start,
            ctxs.last() == c,
            forall|k: int|
                0 <= k < i ==> #[trigger] hooks.after_tool@[k].ensures((ctxs[k],), (outs[k], answers[k])) && ctxs[k + 1] == (
                ToolCallHookContext { tool_result: after_hook_response_spec(outs[k].tool_result, answers[k]), ..outs[k] }),
            (forall|j: int, c: ToolCallHookContext, out: (ToolCallHookContext, Option<String>)|
                0 <= j < hooks.after_tool@.len() && #[trigger] hooks.after_tool@[j].ensures((c,), out) ==> out.0.tool_result
                    == c.tool_result) ==> c.tool_result == after_hooks_response(start.tool_result, answers),
        decreases hooks.after_tool@.len() - i,
    {
        let ghost old_answers = answers;
        let ghost old_outs = outs;
        let ghost old_ctxs = ctxs;
        let ghost pre = c;
        let (mut next, replacement) = (hooks.after_tool[i])(c);
        let ghost out = next;
        let current = next.tool_result.take();
        next.tool_result = after_hook_response(current, replacement);
        c = next;
        proof {
            answers = answers.push(replacement);
            outs = outs.push(out);
            ctxs = ctxs.push(c);
            assert(c == (ToolCallHookContext { tool_result: after_hook_response_spec(out.tool_result, replacement), ..out }));
            assert forall|k: int|
                0 <= k < i + 1 implies #[trigger] hooks.after_tool@[k].ensures((ctxs[k],), (outs[k], answers[k])) && ctxs[k + 1] == (
                ToolCallHookContext { tool_result: after_hook_response_spec(outs[k].tool_result, answers[k]), ..outs[k] }) by {
                if k < i {
                    assert(answers[k] == old_answers[k]);
                    assert(outs[k] == old_outs[k]);
                    assert(ctxs[k] == old_ctxs[k]);
                    assert(ctxs[k + 1] == old_ctxs[k + 1]);
                } else {
                    assert(ctxs[k] == pre);
                }
            }
            assert(answers.drop_last() =~= old_answers);
        }
        i += 1;
    }
    *ctx = c;
    proof {
        assert(answers.len() == hooks.after_tool@.len());
        assert(outs.len() == hooks.after_tool@.len());
        assert(ctxs.len() == hooks.after_tool@.len() + 1);
        assert(i == hooks.after_tool@.len());
        assert(forall|j: int|
            0 <= j < hooks.after_tool@.len() ==> #[trigger] hooks.after_tool@[j].ensures((ctxs[j],), (outs[j], answers[j])) && ctxs[j + 1] == (
            ToolCallHookContext { tool_result: after_hook_response_spec(outs[j].tool_result, answers[j]), ..outs[j] }));
        assert(after_tool_run(hooks.after_tool@, answers, outs, ctxs));
    }
}

} // verus!
