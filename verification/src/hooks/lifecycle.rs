//! Lifecycle hook actions and errors, and the rules that combine the
//! answers of several hooks.

use vstd::prelude::*;
use vstd::std_specs::convert::FromSpecImpl;
use vstd::string::*;

verus! {

/// What should happen to an intercepted tool call.
#[derive(Debug)]
pub enum ToolAction {
    /// Let the tool call proceed.
    Allow,
    /// Refuse the tool call, with a reason.
    Deny(String),
    /// Proceed with these arguments instead.
    Modify(serde_json::Value),
    /// Wait for human approval.
    RequireApproval,
}

/// What should happen to an intercepted step.
#[derive(Debug)]
pub enum StepAction {
    /// Run the step as planned.
    Continue,
    /// Skip the step.
    Skip,
    /// Run the step on this input instead.
    ReplaceInput(serde_json::Value),
}

/// An error reported by a hook.
#[derive(Debug, Clone)]
pub struct HookError {
    /// What went wrong.
    pub message: String,
}

impl HookError {
    /// An error with the given message.
    pub fn new(message: &str) -> (e: HookError)
        ensures
            e.message@ == message@,
    {
        HookError { message: message.to_string() }
    }

    /// The error as text: `"HookError: "` followed by the message.
    pub fn to_string(&self) -> (s: String)
        ensures
            s@ == "HookError: "@ + self.message@,
    {
        let mut s = String::from_str("HookError: ");
        proof {
            reveal_strlit("HookError: ");
        }
        s.append(self.message.as_str());
        s
    }
}

impl From<String> for HookError {
    fn from(s: String) -> (e: HookError) {
        HookError { message: s }
    }
}

impl FromSpecImpl<String> for HookError {
    open spec fn obeys_from_spec() -> bool {
        true
    }

    open spec fn from_spec(s: String) -> HookError {
        HookError { message: s }
    }
}

impl<'a> From<&'a str> for HookError {
    fn from(s: &'a str) -> (e: HookError)
        ensures
            e.message@ == s@,
    {
        HookError::new(s)
    }
}

impl<'a> FromSpecImpl<&'a str> for HookError {
    open spec fn obeys_from_spec() -> bool {
        false
    }

    open spec fn from_spec(s: &'a str) -> HookError {
        HookError { message: arbitrary() }
    }
}

/// Combining tool-request answers: the action so far and one more hook's
/// answer give the new action and whether to stop asking. A denial wins at
/// once; approval outranks a modification, which outranks allowing; an
/// error or an `Allow` changes nothing.
pub open spec fn tool_action_spec(so_far: ToolAction, answer: Result<ToolAction, HookError>) -> (ToolAction, bool) {
    match answer {
        Ok(ToolAction::Deny(reason)) => (ToolAction::Deny(reason), true),
        Ok(ToolAction::RequireApproval) => (ToolAction::RequireApproval, false),
        Ok(ToolAction::Modify(args)) => if so_far is Allow {
            (ToolAction::Modify(args), false)
        } else {
            (so_far, false)
        },
        _ => (so_far, false),
    }
}

/// One step of combining tool-request answers (see `tool_action_spec`).
pub fn tool_action_step(so_far: ToolAction, answer: Result<ToolAction, HookError>) -> (r: (ToolAction, bool))
    ensures
        r == tool_action_spec(so_far, answer),
{
    match answer {
        Ok(ToolAction::Deny(reason)) => (ToolAction::Deny(reason), true),
        Ok(ToolAction::RequireApproval) => (ToolAction::RequireApproval, false),
        Ok(ToolAction::Modify(args)) => {
            if let ToolAction::Allow = so_far {
                (ToolAction::Modify(args), false)
            } else {
                (so_far, false)
            }
        },
        _ => (so_far, false),
    }
}

/// The combined action of every hook's answer, in order, starting from
/// `Allow` and stopping at the first denial.
pub open spec fn tool_actions_combined(answers: Seq<Result<ToolAction, HookError>>) -> ToolAction
    decreases answers.len(),
{
    if answers.len() == 0 {
        ToolAction::Allow
    } else {
        let prev = tool_actions_combined(answers.drop_last());
        if prev is Deny {
            prev
        } else {
            tool_action_spec(prev, answers.last()).0
        }
    }
}

/// Combine the answers of every hook to a tool request.
pub fn invoke_on_tool_request_answers(answers: Vec<Result<ToolAction, HookError>>) -> (r: ToolAction)
    ensures
        r == tool_actions_combined(answers@),
{
    let ghost all = answers@;
    let mut result = ToolAction::Allow;
    let mut rest = answers;
    let n = rest.len();
    let mut i: usize = 0;
    assert(all.skip(0) =~= all);
    while rest.len() > 0
        invariant
            n == all.len(),
            all == answers@,
            rest@ == all.skip(i as int),
            i <= all.len(),
            rest@.len() == all.len() - i,
            result == tool_actions_combined(all.take(i as int)),
            !(result is Deny),
        decreases rest@.len(),
    {
        let answer = rest.remove(0);
        assert(answer == all[i as int]);
        assert(all.take(i + 1).drop_last() =~= all.take(i as int));
        assert(all.take(i + 1).last() == all[i as int]);
        let (next, stop) = tool_action_step(result, answer);
        assert(tool_actions_combined(all.take(i + 1)) == next);
        if stop {
            proof {
                lemma_deny_stays(all, i as int + 1);
            }
            return next;
        }
        result = next;
        i += 1;
        assert(rest@ =~= all.skip(i as int));
    }
    assert(all.take(i as int) =~= all);
    result
}

/// Once the combination is a denial, later answers do not change it.
pub proof fn lemma_deny_stays(answers: Seq<Result<ToolAction, HookError>>, k: int)
    requires
        0 <= k <= answers.len(),
        tool_actions_combined(answers.take(k)) is Deny,
    ensures
        tool_actions_combined(answers) == tool_actions_combined(answers.take(k)),
    decreases answers.len() - k,
{
    if k < answers.len() {
        assert(answers.take(k + 1).drop_last() =~= answers.take(k));
        lemma_deny_stays(answers, k + 1);
    } else {
        assert(answers.take(k) =~= answers);
    }
}

/// Once the combined answer is a modification, a later modification leaves
/// it as it was: the first modification wins.
pub proof fn lemma_later_modify_keeps_first(
    answers: Seq<Result<ToolAction, HookError>>,
    args: serde_json::Value,
)
    requires
        tool_actions_combined(answers) is Modify,
    ensures
        tool_actions_combined(answers.push(Ok(ToolAction::Modify(args)))) == tool_actions_combined(answers),
{
    assert(answers.push(Ok(ToolAction::Modify(args))).drop_last() =~= answers);
}

/// The combined answer is `Allow` only when every hook allowed or failed.
pub proof fn lemma_combined_allow_all_allowed(answers: Seq<Result<ToolAction, HookError>>)
    requires
        tool_actions_combined(answers) is Allow,
    ensures
        forall|k: int|
            0 <= k < answers.len() ==> (#[trigger] answers[k] is Err || answers[k] matches Ok(
                ToolAction::Allow,
            )),
    decreases answers.len(),
{
    if answers.len() > 0 {
        let prev_answers = answers.drop_last();
        let prev = tool_actions_combined(prev_answers);
        let n = answers.len() - 1;
        assert(answers.last() == answers[n]);
        assert(prev is Allow);
        lemma_combined_allow_all_allowed(prev_answers);
        assert forall|k: int| 0 <= k < answers.len() implies (#[trigger] answers[k] is Err || answers[k] matches Ok(
            ToolAction::Allow,
        )) by {
            if k < n {
                assert(answers[k] == prev_answers[k]);
            }
        }
    }
}

/// The combined answer is `Modify(x)` only when no hook denied or asked for
/// approval and the first modification among the answers carries `x`.
pub proof fn lemma_combined_modify_is_first(answers: Seq<Result<ToolAction, HookError>>, x: serde_json::Value)
    requires
        tool_actions_combined(answers) == ToolAction::Modify(x),
    ensures
        forall|k: int|
            0 <= k < answers.len() ==> !(#[trigger] answers[k] matches Ok(ToolAction::Deny(_)))
                && !(answers[k] matches Ok(ToolAction::RequireApproval)),
        exists|k: int|
            0 <= k < answers.len() && #[trigger] answers[k] == Ok::<ToolAction, HookError>(ToolAction::Modify(x))
                && forall|j: int| 0 <= j < k ==> !(#[trigger] answers[j] matches Ok(ToolAction::Modify(_))),
    decreases answers.len(),
{
    let prev_answers = answers.drop_last();
    let prev = tool_actions_combined(prev_answers);
    let n = answers.len() - 1;
    assert(answers.last() == answers[n]);
    assert(forall|k: int| 0 <= k < n ==> answers[k] == #[trigger] prev_answers[k]);
    if prev is Allow {
        lemma_combined_allow_all_allowed(prev_answers);
        assert(answers[n] == Ok::<ToolAction, HookError>(ToolAction::Modify(x)));
        assert forall|j: int| 0 <= j < n implies !(#[trigger] answers[j] matches Ok(ToolAction::Modify(_))) by {
            assert(prev_answers[j] is Err || prev_answers[j] matches Ok(ToolAction::Allow));
        }
        assert forall|k: int| 0 <= k < answers.len() implies !(#[trigger] answers[k] matches Ok(
            ToolAction::Deny(_),
        )) && !(answers[k] matches Ok(ToolAction::RequireApproval)) by {
            if k < n {
                assert(prev_answers[k] is Err || prev_answers[k] matches Ok(ToolAction::Allow));
            }
        }
    } else {
        assert(prev == ToolAction::Modify(x));
        lemma_combined_modify_is_first(prev_answers, x);
        let k0 = choose|k: int|
            0 <= k < prev_answers.len() && #[trigger] prev_answers[k] == Ok::<ToolAction, HookError>(
                ToolAction::Modify(x),
            ) && forall|j: int| 0 <= j < k ==> !(#[trigger] prev_answers[j] matches Ok(ToolAction::Modify(_)));
        assert(answers[k0] == prev_answers[k0]);
        assert forall|j: int| 0 <= j < k0 implies !(#[trigger] answers[j] matches Ok(ToolAction::Modify(_))) by {
            assert(answers[j] == prev_answers[j]);
        }
        assert forall|k: int| 0 <= k < answers.len() implies !(#[trigger] answers[k] matches Ok(
            ToolAction::Deny(_),
        )) && !(answers[k] matches Ok(ToolAction::RequireApproval)) by {
            if k < n {
                assert(answers[k] == prev_answers[k]);
            }
        }
    }
}

/// The combined answer is a denial only with the reason of the first denial
/// among the answers.
pub proof fn lemma_combined_deny_is_first(answers: Seq<Result<ToolAction, HookError>>, reason: String)
    requires
        tool_actions_combined(answers) == ToolAction::Deny(reason),
    ensures
        exists|k: int|
            0 <= k < answers.len() && #[trigger] answers[k] == Ok::<ToolAction, HookError>(ToolAction::Deny(reason))
                && forall|j: int| 0 <= j < k ==> !(#[trigger] answers[j] matches Ok(ToolAction::Deny(_))),
    decreases answers.len(),
{
    let prev_answers = answers.drop_last();
    let prev = tool_actions_combined(prev_answers);
    let n = answers.len() - 1;
    assert(answers.last() == answers[n]);
    assert(forall|k: int| 0 <= k < n ==> answers[k] == #[trigger] prev_answers[k]);
    if prev is Deny {
        lemma_combined_deny_is_first(prev_answers, reason);
        let k0 = choose|k: int|
            0 <= k < prev_answers.len() && #[trigger] prev_answers[k] == Ok::<ToolAction, HookError>(
                ToolAction::Deny(reason),
            ) && forall|j: int| 0 <= j < k ==> !(#[trigger] prev_answers[j] matches Ok(ToolAction::Deny(_)));
        assert(answers[k0] == prev_answers[k0]);
        assert forall|j: int| 0 <= j < k0 implies !(#[trigger] answers[j] matches Ok(ToolAction::Deny(_))) by {
            assert(answers[j] == prev_answers[j]);
        }
    } else {
        assert(answers[n] == Ok::<ToolAction, HookError>(ToolAction::Deny(reason)));
        lemma_no_deny_before(prev_answers);
        assert forall|j: int| 0 <= j < n implies !(#[trigger] answers[j] matches Ok(ToolAction::Deny(_))) by {
            assert(answers[j] == prev_answers[j]);
        }
    }
}

/// A combination that is not a denial saw no denial.
proof fn lemma_no_deny_before(answers: Seq<Result<ToolAction, HookError>>)
    requires
        !(tool_actions_combined(answers) is Deny),
    ensures
        forall|k: int| 0 <= k < answers.len() ==> !(#[trigger] answers[k] matches Ok(ToolAction::Deny(_))),
    decreases answers.len(),
{
    if answers.len() > 0 {
        let prev_answers = answers.drop_last();
        let n = answers.len() - 1;
        assert(answers.last() == answers[n]);
        lemma_no_deny_before(prev_answers);
        assert forall|k: int| 0 <= k < answers.len() implies !(#[trigger] answers[k] matches Ok(
            ToolAction::Deny(_),
        )) by {
            if k < n {
                assert(answers[k] == prev_answers[k]);
            }
        }
    }
}

/// Any denial among the answers makes the combination a denial.
pub proof fn lemma_any_deny_denies(answers: Seq<Result<ToolAction, HookError>>, k: int)
    requires
        0 <= k < answers.len(),
        answers[k] matches Ok(ToolAction::Deny(_)),
    ensures
        tool_actions_combined(answers) is Deny,
{
    if !(tool_actions_combined(answers) is Deny) {
        lemma_no_deny_before(answers);
    }
}

/// With no denial, any request for approval makes the combination
/// `RequireApproval`, whatever modifications come before or after it.
pub proof fn lemma_approval_outranks_modify(answers: Seq<Result<ToolAction, HookError>>, k: int)
    requires
        0 <= k < answers.len(),
        answers[k] matches Ok(ToolAction::RequireApproval),
        forall|j: int| 0 <= j < answers.len() ==> !(#[trigger] answers[j] matches Ok(ToolAction::Deny(_))),
    ensures
        tool_actions_combined(answers) is RequireApproval,
{
    let c = tool_actions_combined(answers);
    if c is Deny {
        let reason = c->Deny_0;
        lemma_combined_deny_is_first(answers, reason);
    } else if c is Allow {
        lemma_combined_allow_all_allowed(answers);
        assert(answers[k] is Err || answers[k] matches Ok(ToolAction::Allow));
    } else if c is Modify {
        lemma_combined_modify_is_first(answers, c->Modify_0);
        assert(!(answers[k] matches Ok(ToolAction::RequireApproval)));
    }
}

/// With neither a denial nor a request for approval, the first modification
/// among the answers is the combination.
pub proof fn lemma_first_modify_wins(answers: Seq<Result<ToolAction, HookError>>, k: int, x: serde_json::Value)
    requires
        0 <= k < answers.len(),
        answers[k] == Ok::<ToolAction, HookError>(ToolAction::Modify(x)),
        forall|j: int| 0 <= j < k ==> !(#[trigger] answers[j] matches Ok(ToolAction::Modify(_))),
        forall|j: int|
            0 <= j < answers.len() ==> !(#[trigger] answers[j] matches Ok(ToolAction::Deny(_))) && !(
            answers[j] matches Ok(ToolAction::RequireApproval)),
    ensures
        tool_actions_combined(answers) == ToolAction::Modify(x),
{
    let c = tool_actions_combined(answers);
    if c is Deny {
        lemma_combined_deny_is_first(answers, c->Deny_0);
    } else if c is Allow {
        lemma_combined_allow_all_allowed(answers);
        assert(answers[k] is Err || answers[k] matches Ok(ToolAction::Allow));
    } else if c is RequireApproval {
        lemma_combined_approval_asked(answers);
    } else {
        let y = c->Modify_0;
        lemma_combined_modify_is_first(answers, y);
        let k0 = choose|k0: int|
            0 <= k0 < answers.len() && #[trigger] answers[k0] == Ok::<ToolAction, HookError>(ToolAction::Modify(y))
                && forall|j: int| 0 <= j < k0 ==> !(#[trigger] answers[j] matches Ok(ToolAction::Modify(_)));
        if k0 < k {
            assert(answers[k0] matches Ok(ToolAction::Modify(_)));
        } else if k < k0 {
            assert(answers[k] matches Ok(ToolAction::Modify(_)));
        }
    }
}

/// A combination that is `RequireApproval` saw a request for approval.
proof fn lemma_combined_approval_asked(answers: Seq<Result<ToolAction, HookError>>)
    requires
        tool_actions_combined(answers) is RequireApproval,
    ensures
        exists|k: int| 0 <= k < answers.len() && #[trigger] answers[k] matches Ok(ToolAction::RequireApproval),
    decreases answers.len(),
{
    let prev_answers = answers.drop_last();
    let n = answers.len() - 1;
    assert(answers.last() == answers[n]);
    if tool_actions_combined(prev_answers) is RequireApproval {
        lemma_combined_approval_asked(prev_answers);
        let k0 = choose|k: int| 0 <= k < prev_answers.len() && #[trigger] prev_answers[k] matches Ok(
            ToolAction::RequireApproval,
        );
        assert(answers[k0] == prev_answers[k0]);
    } else {
        assert(answers[n] matches Ok(ToolAction::RequireApproval));
    }
}

/// The first input replacement among step-hook answers, if any.
pub open spec fn first_replacement(answers: Seq<Result<StepAction, HookError>>) -> Option<StepAction>
    decreases answers.len(),
{
    if answers.len() == 0 {
        None
    } else {
        match first_replacement(answers.drop_last()) {
            Some(d) => Some(d),
            None => match answers.last() {
                Ok(StepAction::ReplaceInput(v)) => Some(StepAction::ReplaceInput(v)),
                _ => None,
            },
        }
    }
}

/// The first input replacement is an input replacement.
proof fn lemma_first_replacement_replaces(answers: Seq<Result<StepAction, HookError>>)
    ensures
        first_replacement(answers) is Some ==> first_replacement(answers)->0 is ReplaceInput,
    decreases answers.len(),
{
    if answers.len() > 0 {
        lemma_first_replacement_replaces(answers.drop_last());
    }
}

/// `answers` are the answers of the first `answers.len()` of `n` step hooks,
/// asked in order through `ask`, each one an answer `ask` can give for that
/// hook, and none but the last a `Skip`. If the last is a `Skip`, `r` is
/// `Skip`; otherwise all `n` hooks were asked and `r` is the first input
/// replacement among the answers, or `Continue` when there is none.
pub open spec fn step_answers_give<F: Fn(usize) -> Result<StepAction, HookError>>(
    ask: F,
    n: int,
    answers: Seq<Result<StepAction, HookError>>,
    r: StepAction,
) -> bool {
    &&& answers.len() <= n
    &&& forall|j: int| 0 <= j < answers.len() ==> #[trigger] ask.ensures((j as usize,), answers[j])
    &&& forall|j: int| 0 <= j < answers.len() - 1 ==> !(#[trigger] answers[j] matches Ok(StepAction::Skip))
    &&& if answers.len() > 0 && answers.last() matches Ok(StepAction::Skip) {
        r is Skip
    } else {
        &&& answers.len() == n
        &&& match first_replacement(answers) {
            Some(d) => r == d,
            None => r is Continue,
        }
    }
}

/// Asking the step hooks in order can end with `r` (see `step_answers_give`).
pub open spec fn step_hooks_ran<F: Fn(usize) -> Result<StepAction, HookError>>(ask: F, n: int, r: StepAction) -> bool {
    exists|answers: Seq<Result<StepAction, HookError>>| #[trigger] step_answers_give(ask, n, answers, r)
}

/// Ask `hook_count` step hooks before a step, in order, through `ask` (which
/// asks hook `i`): the step is skipped if any hook skips it, and the hooks
/// after that one are not asked; otherwise the first replaced input wins,
/// and with none the step runs as planned. Errors and `Continue` change
/// nothing.
pub fn invoke_before_step<F: Fn(usize) -> Result<StepAction, HookError>>(hook_count: usize, ask: F) -> (r: StepAction)
    requires
        forall|i: usize| i < hook_count ==> #[trigger] ask.requires((i,)),
    ensures
        step_hooks_ran(ask, hook_count as int, r),
        r is Skip ==> exists|answers: Seq<Result<StepAction, HookError>>|
            #[trigger] step_answers_give(ask, hook_count as int, answers, r) && answers.len() > 0 && answers.last() matches Ok(
                StepAction::Skip,
            ),
{
    let ghost mut answers: Seq<Result<StepAction, HookError>> = Seq::empty();
    let mut replaced: Option<StepAction> = None;
    let mut i: usize = 0;
    while i < hook_count
        invariant
            i <= hook_count,
            forall|i: usize| i < hook_count ==> #[trigger] ask.requires((i,)),
            answers.len() == i,
            forall|j: int| 0 <= j < i ==> #[trigger] ask.ensures((j as usize,), answers[j]),
            forall|j: int| 0 <= j < i ==> !(#[trigger] answers[j] matches Ok(StepAction::Skip)),
            replaced == first_replacement(answers),
        decreases hook_count - i,
    {
        let ghost old_answers = answers;
        let answer = ask(i);
        proof {
            answers = answers.push(answer);
            assert(answers.drop_last() =~= old_answers);
            assert forall|j: int| 0 <= j < i + 1 implies #[trigger] ask.ensures((j as usize,), answers[j]) by {
                if j < i {
                    assert(answers[j] == old_answers[j]);
                }
            }
            assert forall|j: int| 0 <= j < answers.len() - 1 implies !(#[trigger] answers[j] matches Ok(StepAction::Skip)) by {
                assert(answers[j] == old_answers[j]);
            }
        }
        match answer {
            Ok(StepAction::Skip) => {
                proof {
                    assert(step_answers_give(ask, hook_count as int, answers, StepAction::Skip));
                }
                return StepAction::Skip;
            },
            Ok(StepAction::ReplaceInput(v)) => {
                if replaced.is_none() {
                    replaced = Some(StepAction::ReplaceInput(v));
                }
            },
            _ => {},
        }
        i += 1;
    }
    let r = match replaced {
        Some(d) => d,
        None => StepAction::Continue,
    };
    proof {
        lemma_first_replacement_replaces(answers);
        assert(step_answers_give(ask, hook_count as int, answers, r));
    }
    r
}

/// A chat message as the hooks see it: named fields such as role and content.
pub type LLMMessage = std::collections::HashMap<String, String>;

/// Observes and intercepts agent thinking and tool use.
pub trait AgentHook: Send + Sync + 'static {
    /// Before the agent sends messages to the LLM.
    fn before_think(&self, _agent_id: &str, _messages: &[LLMMessage]) -> (r: Result<(), HookError>)
        default_ensures
            r is Ok,
    {
        Ok(())
    }
    /// After the agent receives an LLM response.
    fn after_think(&self, _agent_id: &str, _response: &str) -> (r: Result<(), HookError>)
        default_ensures
            r is Ok,
    {
        Ok(())
    }
    /// When the agent requests a tool call.
    fn on_tool_request(&self, _agent_id: &str, _tool_name: &str, _tool_args: &serde_json::Value) -> (r: Result<ToolAction, HookError>)
        default_ensures
            r matches Ok(ToolAction::Allow),
    {
        Ok(ToolAction::Allow)
    }
    /// After a tool call completes.
    fn after_tool_call(&self, _agent_id: &str, _tool_name: &str, _result: &serde_json::Value, _success: bool) -> (r: Result<(), HookError>)
        default_ensures
            r is Ok,
    {
        Ok(())
    }
    /// When an agent starts a task.
    fn on_task_start(&self, _agent_id: &str, _task_description: &str) -> (r: Result<(), HookError>)
        default_ensures
            r is Ok,
    {
        Ok(())
    }
    /// When an agent finishes a task.
    fn on_task_complete(&self, _agent_id: &str, _task_description: &str, _output: &str) -> (r: Result<(), HookError>)
        default_ensures
            r is Ok,
    {
        Ok(())
    }
    /// When an agent delegates to another agent.
    fn on_delegation(&self, _from_agent: &str, _to_agent: &str, _task_description: &str) -> (r: Result<(), HookError>)
        default_ensures
            r is Ok,
    {
        Ok(())
    }
    /// When a streaming chunk is produced.
    fn on_stream_chunk(&self, _agent_id: &str, _chunk: &str, _is_final: bool) -> (r: Result<(), HookError>)
        default_ensures
            r is Ok,
    {
        Ok(())
    }
}

/// Observes memory operations.
pub trait MemoryHook: Send + Sync + 'static {
    /// When a memory entry is stored.
    fn on_store(&self, _category: &str, _content: &str, _metadata: &std::collections::HashMap<String, serde_json::Value>) -> (r: Result<(), HookError>)
        default_ensures
            r is Ok,
    {
        Ok(())
    }
    /// When memories are recalled.
    fn on_recall(&self, _query: &str, _results: &[serde_json::Value]) -> (r: Result<(), HookError>)
        default_ensures
            r is Ok,
    {
        Ok(())
    }
}

/// Observes and intercepts execution steps.
pub trait StepHook: Send + Sync + 'static {
    /// Before a step runs.
    fn before_step(&self, _step_type: &str, _step_name: &str, _input: &serde_json::Value) -> (r: Result<StepAction, HookError>)
        default_ensures
            r matches Ok(StepAction::Continue),
    {
        Ok(StepAction::Continue)
    }
    /// After a step completes.
    fn after_step(&self, _step_type: &str, _step_name: &str, _output: &serde_json::Value, _success: bool) -> (r: Result<(), HookError>)
        default_ensures
            r is Ok,
    {
        Ok(())
    }
}

/// Observes model provider operations.
pub trait ModelHook: Send + Sync + 'static {
    /// Before an LLM API call.
    fn before_llm_call(&self, _model: &str, _provider: &str, _message_count: usize) -> (r: Result<(), HookError>)
        default_ensures
            r is Ok,
    {
        Ok(())
    }
    /// After an LLM API call.
    fn after_llm_call(&self, _model: &str, _provider: &str, _prompt_tokens: i64, _completion_tokens: i64, _success: bool) -> (r: Result<(), HookError>)
        default_ensures
            r is Ok,
    {
        Ok(())
    }
    /// When a provider fails over to another.
    fn on_provider_failover(&self, _from_provider: &str, _to_provider: &str, _reason: &str) -> (r: Result<(), HookError>)
        default_ensures
            r is Ok,
    {
        Ok(())
    }
}

} // verus!
