//! Human feedback decisions: resuming a paused flow, the console fallback,
//! and the checks on a stored pending-feedback record.

use vstd::prelude::*;
use vstd::string::*;

use chrono::{DateTime, Utc};

use crate::flow::utils::{
    copy_json, copy_members, get_member, lemma_member_has_key, lemma_member_push, lemma_same_json_trans,
    lemma_same_members_trans, member, same_json, same_members, str_views, JsonValue,
};
use crate::flow::visualization::{opt_str_view, opt_str_views, unique_keys};
use crate::text::{is_blank, trim, trim_spec};

verus! {

/// Console-based human feedback provider.
#[derive(Debug)]
pub struct ConsoleProvider;

impl ConsoleProvider {
    /// The feedback the console provider returns: the trimmed line read, or,
    /// when reading failed, the default outcome (empty without one).
    pub fn feedback_from_input(line: Option<&str>, default_outcome: Option<&String>) -> (r: String)
        ensures
            r@ == match line {
                Some(l) => trim_spec(l@),
                None => match default_outcome {
                    Some(d) => d@,
                    None => Seq::<char>::empty(),
                },
            },
    {
        match line {
            Some(l) => trim(l),
            None => match default_outcome {
                Some(d) => d.clone(),
                None => String::new(),
            },
        }
    }
}

/// The outcome a resumed flow routes on. Blank feedback takes the default
/// outcome, else the first emit option; non-blank feedback takes the first
/// emit option; without emit options (and, for blank feedback, without a
/// default) there is none.
pub open spec fn collapse_outcome_spec(feedback: Seq<char>, default_outcome: Option<Seq<char>>, emit: Option<Seq<Seq<char>>>) -> Option<Seq<char>> {
    let first = match emit {
        Some(e) => if e.len() > 0 {
            Some(e[0])
        } else {
            None
        },
        None => None,
    };
    if trim_spec(feedback).len() == 0 {
        match default_outcome {
            Some(d) => Some(d),
            None => first,
        }
    } else {
        first
    }
}

/// The outcome of resumed feedback is always one that was offered: the
/// default outcome, and only for blank feedback, or the first emit option;
/// with emit options there always is one.
pub proof fn lemma_outcome_is_offered(feedback: Seq<char>, default_outcome: Option<Seq<char>>, emit: Option<Seq<Seq<char>>>)
    ensures
        collapse_outcome_spec(feedback, default_outcome, emit) matches Some(o) ==> (trim_spec(feedback).len() == 0
            && default_outcome == Some(o)) || (emit matches Some(e) && e.len() > 0 && o == e[0]),
        (emit matches Some(e) && e.len() > 0) ==> collapse_outcome_spec(feedback, default_outcome, emit) is Some,
        trim_spec(feedback).len() > 0 ==> collapse_outcome_spec(feedback, default_outcome, emit) == match emit {
            Some(e) => if e.len() > 0 {
                Some(e[0])
            } else {
                None
            },
            None => None,
        },
{
}

/// The character views of optional strings.
pub open spec fn opt_view(s: Option<&String>) -> Option<Seq<char>> {
    match s {
        Some(x) => Some(x@),
        None => None,
    }
}

/// The character views of an optional list of strings.
pub open spec fn opt_list_view(s: Option<&Vec<String>>) -> Option<Seq<Seq<char>>> {
    match s {
        Some(v) => Some(v@.map_values(|x: String| x@)),
        None => None,
    }
}

/// Decide the outcome of resumed feedback (see `collapse_outcome_spec`).
pub fn collapse_outcome(feedback: &str, default_outcome: Option<&String>, emit: Option<&Vec<String>>) -> (r: Option<String>)
    ensures
        match r {
            Some(s) => collapse_outcome_spec(feedback@, opt_view(default_outcome), opt_list_view(emit)) == Some(s@),
            None => collapse_outcome_spec(feedback@, opt_view(default_outcome), opt_list_view(emit)) is None,
        },
{
    let first = match emit {
        Some(e) => if e.len() > 0 {
            Some(e[0].clone())
        } else {
            None
        },
        None => None,
    };
    if is_blank(feedback) {
        match default_outcome {
            Some(d) => Some(d.clone()),
            None => first,
        }
    } else {
        first
    }
}

/// The name whose listeners a resumed flow triggers: the outcome when there
/// are emit options and an outcome, else the method that asked.
pub fn resume_trigger(emit_given: bool, outcome: Option<&String>, method_name: &String) -> (r: String)
    ensures
        r@ == match outcome {
            Some(o) => if emit_given {
                o@
            } else {
                method_name@
            },
            None => method_name@,
        },
{
    match outcome {
        Some(o) => if emit_given {
            o.clone()
        } else {
            method_name.clone()
        },
        None => method_name.clone(),
    }
}

/// The error for a stored pending-feedback record that lacks a required
/// text field, checked in the order flow id, flow class, method name.
pub fn missing_required_field(flow_id: Option<&str>, flow_class: Option<&str>, method_name: Option<&str>) -> (r: Option<&'static str>)
    ensures
        r matches Some(m) ==> m@ == if flow_id is None {
            "Missing flow_id"@
        } else if flow_class is None {
            "Missing flow_class"@
        } else {
            "Missing method_name"@
        },
        r is None <==> (flow_id is Some && flow_class is Some && method_name is Some),
{
    if flow_id.is_none() {
        Some("Missing flow_id")
    } else if flow_class.is_none() {
        Some("Missing flow_class")
    } else if method_name.is_none() {
        Some("Missing method_name")
    } else {
        None
    }
}

/// The default message of a pending feedback request.
pub fn pending_feedback_message(flow_id: &str, method_name: &str) -> (m: String)
    ensures
        m@ == "Human feedback pending for flow '"@ + flow_id@ + "' at method '"@ + method_name@ + "'"@,
{
    let mut m = String::from_str("Human feedback pending for flow '");
    m.append(flow_id);
    m.append("' at method '");
    m.append(method_name);
    m.append("'");
    m
}


/// Time text in UTC: it ends with the offset `+00:00`.
pub open spec fn utc_stamp(t: Seq<char>) -> bool {
    t.len() >= 6 && t.subrange(t.len() - 6, t.len() as int) == "+00:00"@
}

/// The current time as RFC 3339 text: `chrono::Utc::now`, written with
/// `DateTime::to_rfc3339`. Claimed: the text ends with the UTC offset
/// `+00:00` (`to_rfc3339` writes a zero offset so). Which time it shows is
/// the clock's, and that the text reads back as itself is not claimed: for
/// a clock past the year 9999 it would not.
#[verifier::external_body]
pub(crate) fn now_rfc3339() -> (r: String)
    ensures
        utc_stamp(r@),
{
    Utc::now().to_rfc3339()
}

/// The time `DateTime::parse_from_rfc3339` reads from a text, moved to UTC
/// with `with_timezone` and written back with `to_rfc3339`; none where the
/// text does not parse.
pub uninterp spec fn rfc3339_in_utc(text: Seq<char>) -> Option<Seq<char>>;

/// `DateTime::parse_from_rfc3339`, the time moved to UTC and written with
/// `to_rfc3339` (`None` where parsing fails). Claimed: the result is
/// `rfc3339_in_utc` of the text, a function of the text alone, and a text
/// that comes out ends with the UTC offset `+00:00`.
#[verifier::external_body]
fn utc_rfc3339(text: &str) -> (r: Option<String>)
    ensures
        opt_str_view(r) == rfc3339_in_utc(text@),
        r matches Some(t) ==> utc_stamp(t@),
{
    match DateTime::parse_from_rfc3339(text) {
        Ok(t) => Some(t.with_timezone(&Utc).to_rfc3339()),
        Err(_) => None,
    }
}

/// `v` is the JSON string `t`.
pub open spec fn is_text(v: JsonValue, t: Seq<char>) -> bool {
    v matches JsonValue::Str(s) && s@ == t
}

/// The text under `key` in `d`, when that member is a string.
pub open spec fn text_member(d: Seq<(String, JsonValue)>, key: Seq<char>) -> Option<Seq<char>> {
    match member(d, key) {
        Some(JsonValue::Str(s)) => Some(s@),
        _ => None,
    }
}

/// `xs` are the JSON strings `ss`, in order.
pub open spec fn json_strings(ss: Seq<Seq<char>>, xs: Seq<JsonValue>) -> bool {
    &&& xs.len() == ss.len()
    &&& forall|i: int| 0 <= i < xs.len() ==> is_text(#[trigger] xs[i], ss[i])
}

/// Every element of `xs` is a string.
pub open spec fn all_texts(xs: Seq<JsonValue>) -> bool {
    forall|i: int| 0 <= i < xs.len() ==> #[trigger] xs[i] is Str
}

/// The dictionary form of a pending-feedback record: its texts under
/// `"flow_id"`, `"flow_class"`, `"method_name"`, `"message"`, the method
/// output under `"method_output"`, the emit options as an array of strings
/// under `"emit"`, the default outcome and the LLM as strings under
/// `"default_outcome"` and `"llm"` (each of these three only when set), the
/// metadata as an object under `"metadata"`, and the request time under
/// `"requested_at"`; each key once, and no other key.
pub open spec fn context_dict(c: PendingFeedbackContext, r: Seq<(String, JsonValue)>) -> bool {
    &&& unique_keys(r)
    &&& text_member(r, "flow_id"@) == Some(c.flow_id@)
    &&& text_member(r, "flow_class"@) == Some(c.flow_class@)
    &&& text_member(r, "method_name"@) == Some(c.method_name@)
    &&& member(r, "method_output"@) matches Some(v) && same_json(c.method_output, v)
    &&& text_member(r, "message"@) == Some(c.message@)
    &&& match c.emit {
        Some(e) => member(r, "emit"@) matches Some(JsonValue::Array(xs)) && json_strings(str_views(e@), xs@),
        None => member(r, "emit"@) is None,
    }
    &&& match c.default_outcome {
        Some(d) => text_member(r, "default_outcome"@) == Some(d@),
        None => member(r, "default_outcome"@) is None,
    }
    &&& member(r, "metadata"@) matches Some(JsonValue::Object(ms)) && same_members(c.metadata@, ms@)
    &&& match c.llm {
        Some(l) => text_member(r, "llm"@) == Some(l@),
        None => member(r, "llm"@) is None,
    }
    &&& text_member(r, "requested_at"@) == Some(c.requested_at@)
    &&& r.len() == 7 + (if c.emit is Some { 1int } else { 0int }) + (if c.default_outcome is Some {
        1int
    } else {
        0int
    }) + (if c.llm is Some { 1int } else { 0int })
}

/// `c` is the record read from `d`: its three required texts, the method
/// output (null without one), the message (empty without one), the emit
/// options when `"emit"` is an array of strings, the default outcome and
/// LLM when they are strings, the members of a `"metadata"` object
/// (none without one), and the request time that `"requested_at"` gives,
/// in UTC, when that text parses (else the time of the call); either way a
/// UTC text.
pub open spec fn context_from_dict(d: Seq<(String, JsonValue)>, c: PendingFeedbackContext) -> bool {
    &&& text_member(d, "flow_id"@) == Some(c.flow_id@)
    &&& text_member(d, "flow_class"@) == Some(c.flow_class@)
    &&& text_member(d, "method_name"@) == Some(c.method_name@)
    &&& match member(d, "method_output"@) {
        Some(v) => same_json(v, c.method_output),
        None => c.method_output is Null,
    }
    &&& c.message@ == match text_member(d, "message"@) {
        Some(m) => m,
        None => Seq::<char>::empty(),
    }
    &&& match member(d, "emit"@) {
        Some(JsonValue::Array(xs)) => if all_texts(xs@) {
            c.emit matches Some(e) && json_strings(str_views(e@), xs@)
        } else {
            c.emit is None
        },
        _ => c.emit is None,
    }
    &&& opt_str_view(c.default_outcome) == text_member(d, "default_outcome"@)
    &&& match member(d, "metadata"@) {
        Some(JsonValue::Object(ms)) => same_members(ms@, c.metadata@),
        _ => c.metadata@.len() == 0,
    }
    &&& opt_str_view(c.llm) == text_member(d, "llm"@)
    &&& match text_member(d, "requested_at"@) {
        Some(t) => rfc3339_in_utc(t) matches Some(u) ==> c.requested_at@ == u,
        None => true,
    }
    &&& utc_stamp(c.requested_at@)
}

/// Everything needed to resume a flow paused for human feedback.
#[derive(Debug)]
pub struct PendingFeedbackContext {
    /// The flow instance.
    pub flow_id: String,
    /// The flow's class name.
    pub flow_class: String,
    /// The method that asked for feedback.
    pub method_name: String,
    /// The output shown to the human.
    pub method_output: JsonValue,
    /// The message shown with it.
    pub message: String,
    /// Outcome strings for routing.
    pub emit: Option<Vec<String>>,
    /// Outcome used without feedback.
    pub default_outcome: Option<String>,
    /// Metadata for external systems, keyed.
    pub metadata: Vec<(String, JsonValue)>,
    /// LLM for outcome collapsing.
    pub llm: Option<String>,
    /// When feedback was requested, as RFC 3339 text in UTC.
    pub requested_at: String,
}

/// Push a new entry under a key that `r` does not have yet.
fn push_new(r: &mut Vec<(String, JsonValue)>, key: &str, value: JsonValue)
    requires
        unique_keys(old(r)@),
        member(old(r)@, key@) is None,
    ensures
        unique_keys(final(r)@),
        final(r)@.len() == old(r)@.len() + 1,
        member(final(r)@, key@) == Some(value),
        forall|k: Seq<char>| k != key@ ==> #[trigger] member(final(r)@, k) == member(old(r)@, k),
{
    proof {
        lemma_member_has_key(old(r)@, key@);
    }
    let ghost before = r@;
    let e = (String::from_str(key), value);
    r.push(e);
    proof {
        assert(r@ == before.push(e));
        lemma_member_push(before, e, key@);
        assert forall|k: Seq<char>| k != key@ implies #[trigger] member(r@, k) == member(before, k) by {
            lemma_member_push(before, e, k);
        }
        assert forall|a: int, b: int| 0 <= a < b < r@.len() implies #[trigger] r@[a].0@ != #[trigger] r@[b].0@ by {
            assert(r@[a] == before[a]);
            if b < before.len() {
                assert(r@[b] == before[b]);
            } else {
                assert(before[a].0@ != key@);
            }
        }
    }
}

/// A list of strings as JSON strings.
fn json_string_list(ss: &Vec<String>) -> (r: Vec<JsonValue>)
    ensures
        json_strings(str_views(ss@), r@),
{
    let mut r: Vec<JsonValue> = Vec::new();
    let mut i: usize = 0;
    while i < ss.len()
        invariant
            i <= ss@.len(),
            r@.len() == i,
            forall|j: int| 0 <= j < i ==> is_text(#[trigger] r@[j], ss@[j]@),
        decreases ss@.len() - i,
    {
        r.push(JsonValue::Str(ss[i].clone()));
        i += 1;
    }
    r
}

/// The texts of an array whose elements are all strings; `None` when one
/// is not.
fn texts_of(xs: &Vec<JsonValue>) -> (r: Option<Vec<String>>)
    ensures
        all_texts(xs@) ==> (r matches Some(e) && json_strings(str_views(e@), xs@)),
        !all_texts(xs@) ==> r is None,
{
    let mut out: Vec<String> = Vec::new();
    let mut i: usize = 0;
    while i < xs.len()
        invariant
            i <= xs@.len(),
            out@.len() == i,
            forall|j: int| 0 <= j < i ==> is_text(#[trigger] xs@[j], out@[j]@),
        decreases xs@.len() - i,
    {
        match &xs[i] {
            JsonValue::Str(s) => out.push(s.clone()),
            _ => {
                return None;
            },
        }
        i += 1;
    }
    Some(out)
}

/// The text of a member, when it is a string.
fn text_of<'a>(d: &'a Vec<(String, JsonValue)>, key: &str) -> (r: Option<&'a String>)
    ensures
        opt_view(r) == text_member(d@, key@),
{
    match get_member(d, key) {
        Some(JsonValue::Str(s)) => Some(s),
        _ => None,
    }
}

impl PendingFeedbackContext {
    /// A new record, requested now, with no routing, default outcome,
    /// metadata or LLM.
    pub fn new(
        flow_id: String,
        flow_class: String,
        method_name: String,
        method_output: JsonValue,
        message: String,
    ) -> (c: PendingFeedbackContext)
        ensures
            c.flow_id == flow_id,
            c.flow_class == flow_class,
            c.method_name == method_name,
            c.method_output == method_output,
            c.message == message,
            c.emit is None,
            c.default_outcome is None,
            c.metadata@.len() == 0,
            c.llm is None,
            utc_stamp(c.requested_at@),
    {
        PendingFeedbackContext {
            flow_id,
            flow_class,
            method_name,
            method_output,
            message,
            emit: None,
            default_outcome: None,
            metadata: Vec::new(),
            llm: None,
            requested_at: now_rfc3339(),
        }
    }

    /// The record with emit options for routing.
    pub fn with_emit(self, emit: Vec<String>) -> (c: PendingFeedbackContext)
        ensures
            c == (PendingFeedbackContext { emit: Some(emit), ..self }),
    {
        PendingFeedbackContext { emit: Some(emit), ..self }
    }

    /// The record with a default outcome.
    pub fn with_default_outcome(self, outcome: String) -> (c: PendingFeedbackContext)
        ensures
            c == (PendingFeedbackContext { default_outcome: Some(outcome), ..self }),
    {
        PendingFeedbackContext { default_outcome: Some(outcome), ..self }
    }

    /// The record with an LLM for outcome collapsing.
    pub fn with_llm(self, llm: String) -> (c: PendingFeedbackContext)
        ensures
            c == (PendingFeedbackContext { llm: Some(llm), ..self }),
    {
        PendingFeedbackContext { llm: Some(llm), ..self }
    }

    /// The record with metadata.
    pub fn with_metadata(self, metadata: Vec<(String, JsonValue)>) -> (c: PendingFeedbackContext)
        ensures
            c == (PendingFeedbackContext { metadata, ..self }),
    {
        PendingFeedbackContext { metadata, ..self }
    }

    /// The record as a dictionary, for persistence (see `context_dict`).
    pub fn to_dict(&self) -> (r: Vec<(String, JsonValue)>)
        ensures
            context_dict(*self, r@),
    {
        proof {
            reveal_strlit("flow_id");
            reveal_strlit("flow_class");
            reveal_strlit("method_name");
            reveal_strlit("method_output");
            reveal_strlit("message");
            reveal_strlit("emit");
            reveal_strlit("default_outcome");
            reveal_strlit("metadata");
            reveal_strlit("llm");
            reveal_strlit("requested_at");
            assert("flow_id"@.len() == 7);
            assert("flow_class"@.len() == 10);
            assert("method_name"@.len() == 11);
            assert("method_output"@.len() == 13);
            assert("message"@.len() == 7);
            assert("emit"@.len() == 4);
            assert("default_outcome"@.len() == 15);
            assert("metadata"@.len() == 8);
            assert("llm"@.len() == 3);
            assert("requested_at"@.len() == 12);
            assert("flow_id"@[0] != "message"@[0]);
        }
        let mut r: Vec<(String, JsonValue)> = Vec::new();
        push_new(&mut r, "flow_id", JsonValue::Str(self.flow_id.clone()));
        push_new(&mut r, "flow_class", JsonValue::Str(self.flow_class.clone()));
        push_new(&mut r, "method_name", JsonValue::Str(self.method_name.clone()));
        push_new(&mut r, "method_output", copy_json(&self.method_output));
        push_new(&mut r, "message", JsonValue::Str(self.message.clone()));
        match &self.emit {
            Some(e) => push_new(&mut r, "emit", JsonValue::Array(json_string_list(e))),
            None => {},
        }
        match &self.default_outcome {
            Some(d) => push_new(&mut r, "default_outcome", JsonValue::Str(d.clone())),
            None => {},
        }
        push_new(&mut r, "metadata", JsonValue::Object(copy_members(&self.metadata)));
        match &self.llm {
            Some(l) => push_new(&mut r, "llm", JsonValue::Str(l.clone())),
            None => {},
        }
        push_new(&mut r, "requested_at", JsonValue::Str(self.requested_at.clone()));
        r
    }

    /// The record from its dictionary form (see `context_from_dict`); the
    /// flow id, class and method name must be strings, checked in that
    /// order, else the error names the first one missing.
    pub fn from_dict(data: &Vec<(String, JsonValue)>) -> (r: Result<PendingFeedbackContext, String>)
        ensures
            r is Ok <==> (text_member(data@, "flow_id"@) is Some && text_member(data@, "flow_class"@) is Some
                && text_member(data@, "method_name"@) is Some),
            r matches Err(e) ==> e@ == (if text_member(data@, "flow_id"@) is None {
                "Missing flow_id"@
            } else if text_member(data@, "flow_class"@) is None {
                "Missing flow_class"@
            } else {
                "Missing method_name"@
            }),
            r matches Ok(c) ==> context_from_dict(data@, c),
    {
        let flow_id = text_of(data, "flow_id");
        let flow_class = text_of(data, "flow_class");
        let method_name = text_of(data, "method_name");
        let (flow_id, flow_class, method_name) = match (flow_id, flow_class, method_name) {
            (Some(f), Some(c), Some(m)) => (f.clone(), c.clone(), m.clone()),
            _ => {
                let m = missing_required_field(
                    match flow_id {
                        Some(s) => Some(s.as_str()),
                        None => None,
                    },
                    match flow_class {
                        Some(s) => Some(s.as_str()),
                        None => None,
                    },
                    match method_name {
                        Some(s) => Some(s.as_str()),
                        None => None,
                    },
                );
                return match m {
                    Some(text) => Err(String::from_str(text)),
                    None => Err(String::new()),
                };
            },
        };
        let method_output = match get_member(data, "method_output") {
            Some(v) => copy_json(v),
            None => JsonValue::Null,
        };
        let message = match text_of(data, "message") {
            Some(m) => m.clone(),
            None => String::new(),
        };
        let emit = match get_member(data, "emit") {
            Some(JsonValue::Array(xs)) => texts_of(xs),
            _ => None,
        };
        let default_outcome = match text_of(data, "default_outcome") {
            Some(d) => Some(d.clone()),
            None => None,
        };
        let metadata = match get_member(data, "metadata") {
            Some(JsonValue::Object(ms)) => copy_members(ms),
            _ => Vec::new(),
        };
        let llm = match text_of(data, "llm") {
            Some(l) => Some(l.clone()),
            None => None,
        };
        let requested_at = match text_of(data, "requested_at") {
            Some(s) => match utc_rfc3339(s.as_str()) {
                Some(t) => t,
                None => now_rfc3339(),
            },
            None => now_rfc3339(),
        };
        Ok(
            PendingFeedbackContext {
                flow_id,
                flow_class,
                method_name,
                method_output,
                message,
                emit,
                default_outcome,
                metadata,
                llm,
                requested_at,
            },
        )
    }
}


/// Reading a record back from its dictionary form succeeds (the required
/// texts are there) and gives the record again: the same texts, emit
/// options, default outcome and LLM, the same method output and metadata;
/// the request time comes back as RFC 3339 parsing reads it, in UTC.
pub proof fn lemma_context_dict_roundtrip(
    c: PendingFeedbackContext,
    d: Seq<(String, JsonValue)>,
    c2: PendingFeedbackContext,
)
    requires
        context_dict(c, d),
        context_from_dict(d, c2),
    ensures
        text_member(d, "flow_id"@) is Some,
        text_member(d, "flow_class"@) is Some,
        text_member(d, "method_name"@) is Some,
        c2.flow_id@ == c.flow_id@,
        c2.flow_class@ == c.flow_class@,
        c2.method_name@ == c.method_name@,
        c2.message@ == c.message@,
        same_json(c.method_output, c2.method_output),
        opt_str_views(c2.emit) == opt_str_views(c.emit),
        opt_str_view(c2.default_outcome) == opt_str_view(c.default_outcome),
        opt_str_view(c2.llm) == opt_str_view(c.llm),
        same_members(c.metadata@, c2.metadata@),
        rfc3339_in_utc(c.requested_at@) matches Some(u) ==> c2.requested_at@ == u,
{
    let v = member(d, "method_output"@)->Some_0;
    lemma_same_json_trans(c.method_output, v, c2.method_output);
    let ms = member(d, "metadata"@)->Some_0->Object_0;
    lemma_same_members_trans(c.metadata@, ms@, c2.metadata@);
    if let Some(e) = c.emit {
        let xs = member(d, "emit"@)->Some_0->Array_0;
        assert(all_texts(xs@)) by {
            assert forall|i: int| 0 <= i < xs@.len() implies #[trigger] xs@[i] is Str by {
                assert(is_text(xs@[i], str_views(e@)[i]));
            }
        }
        let e2 = c2.emit->Some_0;
        assert(str_views(e2@) =~= str_views(e@)) by {
            assert forall|i: int| 0 <= i < str_views(e@).len() implies str_views(e2@)[i] == str_views(e@)[i] by {
                assert(is_text(xs@[i], str_views(e@)[i]));
                assert(is_text(xs@[i], str_views(e2@)[i]));
            }
        }
    }
}

} // verus!
