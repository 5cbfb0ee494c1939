//! SPO driver: Subject-Predicate-Object triples for conversation reasoning.

use vstd::prelude::*;
use vstd::string::*;
use vstd::utf8::encode_utf8;

use crate::text::{
    decimal_spec, hex_digits_spec, is_whitespace, is_whitespace_spec, lowercase_of, push_decimal,
    push_hex_digits, str_eq, to_lowercase,
};

verus! {

/// Conversation predicate vocabulary with stable discriminant hashes.
#[derive(Clone, Copy, Debug, PartialEq, Eq, Structural, Hash)]
pub enum ConversationPredicate {
    Asks,
    Explains,
    Remembers,
    Contradicts,
    RelatesTo,
    ModeSwitch,
    FeelsAbout,
    References,
}

/// The stable 16-bit hash of each predicate.
pub open spec fn predicate_hash_spec(p: ConversationPredicate) -> u16 {
    match p {
        ConversationPredicate::Asks => 0x0001,
        ConversationPredicate::Explains => 0x0002,
        ConversationPredicate::Remembers => 0x0003,
        ConversationPredicate::Contradicts => 0x0004,
        ConversationPredicate::RelatesTo => 0x0005,
        ConversationPredicate::ModeSwitch => 0x0006,
        ConversationPredicate::FeelsAbout => 0x0007,
        ConversationPredicate::References => 0x0008,
    }
}

/// The predicate whose hash is `h`, if any.
pub open spec fn predicate_from_hash_spec(h: u16) -> Option<ConversationPredicate> {
    if h == 0x0001 {
        Some(ConversationPredicate::Asks)
    } else if h == 0x0002 {
        Some(ConversationPredicate::Explains)
    } else if h == 0x0003 {
        Some(ConversationPredicate::Remembers)
    } else if h == 0x0004 {
        Some(ConversationPredicate::Contradicts)
    } else if h == 0x0005 {
        Some(ConversationPredicate::RelatesTo)
    } else if h == 0x0006 {
        Some(ConversationPredicate::ModeSwitch)
    } else if h == 0x0007 {
        Some(ConversationPredicate::FeelsAbout)
    } else if h == 0x0008 {
        Some(ConversationPredicate::References)
    } else {
        None
    }
}

/// The human-readable label of each predicate.
pub open spec fn predicate_label_spec(p: ConversationPredicate) -> Seq<char> {
    match p {
        ConversationPredicate::Asks => "asks"@,
        ConversationPredicate::Explains => "explains"@,
        ConversationPredicate::Remembers => "remembers"@,
        ConversationPredicate::Contradicts => "contradicts"@,
        ConversationPredicate::RelatesTo => "relates_to"@,
        ConversationPredicate::ModeSwitch => "mode_switch"@,
        ConversationPredicate::FeelsAbout => "feels_about"@,
        ConversationPredicate::References => "references"@,
    }
}

impl ConversationPredicate {
    /// Stable u16 hash for triple storage.
    pub fn hash(&self) -> (h: u16)
        ensures
            h == predicate_hash_spec(*self),
    {
        match self {
            ConversationPredicate::Asks => 0x0001,
            ConversationPredicate::Explains => 0x0002,
            ConversationPredicate::Remembers => 0x0003,
            ConversationPredicate::Contradicts => 0x0004,
            ConversationPredicate::RelatesTo => 0x0005,
            ConversationPredicate::ModeSwitch => 0x0006,
            ConversationPredicate::FeelsAbout => 0x0007,
            ConversationPredicate::References => 0x0008,
        }
    }

    /// The predicate with the given hash, or `None` for an unknown hash.
    pub fn from_hash(h: u16) -> (p: Option<ConversationPredicate>)
        ensures
            p == predicate_from_hash_spec(h),
    {
        match h {
            0x0001 => Some(ConversationPredicate::Asks),
            0x0002 => Some(ConversationPredicate::Explains),
            0x0003 => Some(ConversationPredicate::Remembers),
            0x0004 => Some(ConversationPredicate::Contradicts),
            0x0005 => Some(ConversationPredicate::RelatesTo),
            0x0006 => Some(ConversationPredicate::ModeSwitch),
            0x0007 => Some(ConversationPredicate::FeelsAbout),
            0x0008 => Some(ConversationPredicate::References),
            _ => None,
        }
    }

    /// Human-readable label.
    pub fn label(&self) -> (s: &'static str)
        ensures
            s@ == predicate_label_spec(*self),
    {
        match self {
            ConversationPredicate::Asks => "asks",
            ConversationPredicate::Explains => "explains",
            ConversationPredicate::Remembers => "remembers",
            ConversationPredicate::Contradicts => "contradicts",
            ConversationPredicate::RelatesTo => "relates_to",
            ConversationPredicate::ModeSwitch => "mode_switch",
            ConversationPredicate::FeelsAbout => "feels_about",
            ConversationPredicate::References => "references",
        }
    }
}

/// Decoding a predicate's hash gives the predicate back.
pub proof fn lemma_predicate_hash_roundtrip(p: ConversationPredicate)
    ensures
        predicate_from_hash_spec(predicate_hash_spec(p)) == Some(p),
{
}

/// Distinct predicates have distinct hashes, and every known hash lies in `1..=8`.
pub proof fn lemma_predicate_hash_injective(p: ConversationPredicate, q: ConversationPredicate)
    ensures
        predicate_hash_spec(p) == predicate_hash_spec(q) ==> p == q,
        1 <= predicate_hash_spec(p) <= 8,
{
}

/// A hash decodes to a predicate exactly when it lies in `1..=8`, and
/// encoding the decoded predicate gives the hash back.
pub proof fn lemma_predicate_from_hash_inverse(h: u16)
    ensures
        predicate_from_hash_spec(h) is Some <==> 1 <= h <= 8,
        predicate_from_hash_spec(h) matches Some(p) ==> predicate_hash_spec(p) == h,
{
}

// ---------------------------------------------------------------------------
// Entity hashing
// ---------------------------------------------------------------------------

/// FNV-1a (32-bit) over a byte sequence.
pub open spec fn fnv1a_spec(bytes: Seq<u8>) -> u32
    decreases bytes.len(),
{
    if bytes.len() == 0 {
        0x811c_9dc5u32
    } else {
        let h = fnv1a_spec(bytes.drop_last()) ^ (bytes.last() as u32);
        ((h as nat * 0x0100_0193nat) % 0x1_0000_0000nat) as u32
    }
}

/// Hash a string entity to a u32 DN address: FNV-1a over its UTF-8 bytes.
pub fn entity_hash(entity: &str) -> (h: u32)
    ensures
        h == fnv1a_spec(entity.spec_bytes()),
{
    let bytes = entity.as_bytes();
    let mut hash: u32 = 0x811c_9dc5;
    let mut i: usize = 0;
    while i < bytes.len()
        invariant
            i <= bytes@.len(),
            bytes@ == entity.spec_bytes(),
            hash == fnv1a_spec(bytes@.take(i as int)),
        decreases bytes@.len() - i,
    {
        assert(bytes@.take(i + 1).drop_last() =~= bytes@.take(i as int));
        hash = hash ^ (bytes[i] as u32);
        hash = hash.wrapping_mul(0x0100_0193);
        i += 1;
    }
    assert(bytes@.take(i as int) =~= bytes@);
    hash
}

// ---------------------------------------------------------------------------
// Topic extraction
// ---------------------------------------------------------------------------

/// The stop words ignored by topic extraction.
pub open spec fn is_stop_word_spec(w: Seq<char>) -> bool {
    ||| w == "the"@
    ||| w == "a"@
    ||| w == "an"@
    ||| w == "is"@
    ||| w == "are"@
    ||| w == "was"@
    ||| w == "were"@
    ||| w == "be"@
    ||| w == "been"@
    ||| w == "being"@
    ||| w == "have"@
    ||| w == "has"@
    ||| w == "had"@
    ||| w == "do"@
    ||| w == "does"@
    ||| w == "did"@
    ||| w == "will"@
    ||| w == "would"@
    ||| w == "could"@
    ||| w == "should"@
    ||| w == "may"@
    ||| w == "might"@
    ||| w == "can"@
    ||| w == "shall"@
    ||| w == "i"@
    ||| w == "you"@
    ||| w == "he"@
    ||| w == "she"@
    ||| w == "it"@
    ||| w == "we"@
    ||| w == "they"@
    ||| w == "me"@
    ||| w == "him"@
    ||| w == "her"@
    ||| w == "us"@
    ||| w == "them"@
    ||| w == "my"@
    ||| w == "your"@
    ||| w == "his"@
    ||| w == "its"@
    ||| w == "our"@
    ||| w == "their"@
    ||| w == "this"@
    ||| w == "that"@
    ||| w == "these"@
    ||| w == "those"@
    ||| w == "what"@
    ||| w == "which"@
    ||| w == "who"@
    ||| w == "whom"@
    ||| w == "how"@
    ||| w == "when"@
    ||| w == "where"@
    ||| w == "why"@
    ||| w == "and"@
    ||| w == "or"@
    ||| w == "but"@
    ||| w == "not"@
    ||| w == "no"@
    ||| w == "so"@
    ||| w == "if"@
    ||| w == "then"@
    ||| w == "than"@
    ||| w == "too"@
    ||| w == "very"@
    ||| w == "just"@
    ||| w == "about"@
    ||| w == "all"@
    ||| w == "also"@
    ||| w == "any"@
    ||| w == "each"@
    ||| w == "for"@
    ||| w == "from"@
    ||| w == "in"@
    ||| w == "of"@
    ||| w == "on"@
    ||| w == "to"@
    ||| w == "with"@
    ||| w == "at"@
    ||| w == "by"@
}

/// Whether `w` is one of the stop words.
pub fn is_stop_word(w: &str) -> (r: bool)
    ensures
        r == is_stop_word_spec(w@),
{
    str_eq(w, "the")
        || str_eq(w, "a")
        || str_eq(w, "an")
        || str_eq(w, "is")
        || str_eq(w, "are")
        || str_eq(w, "was")
        || str_eq(w, "were")
        || str_eq(w, "be")
        || str_eq(w, "been")
        || str_eq(w, "being")
        || str_eq(w, "have")
        || str_eq(w, "has")
        || str_eq(w, "had")
        || str_eq(w, "do")
        || str_eq(w, "does")
        || str_eq(w, "did")
        || str_eq(w, "will")
        || str_eq(w, "would")
        || str_eq(w, "could")
        || str_eq(w, "should")
        || str_eq(w, "may")
        || str_eq(w, "might")
        || str_eq(w, "can")
        || str_eq(w, "shall")
        || str_eq(w, "i")
        || str_eq(w, "you")
        || str_eq(w, "he")
        || str_eq(w, "she")
        || str_eq(w, "it")
        || str_eq(w, "we")
        || str_eq(w, "they")
        || str_eq(w, "me")
        || str_eq(w, "him")
        || str_eq(w, "her")
        || str_eq(w, "us")
        || str_eq(w, "them")
        || str_eq(w, "my")
        || str_eq(w, "your")
        || str_eq(w, "his")
        || str_eq(w, "its")
        || str_eq(w, "our")
        || str_eq(w, "their")
        || str_eq(w, "this")
        || str_eq(w, "that")
        || str_eq(w, "these")
        || str_eq(w, "those")
        || str_eq(w, "what")
        || str_eq(w, "which")
        || str_eq(w, "who")
        || str_eq(w, "whom")
        || str_eq(w, "how")
        || str_eq(w, "when")
        || str_eq(w, "where")
        || str_eq(w, "why")
        || str_eq(w, "and")
        || str_eq(w, "or")
        || str_eq(w, "but")
        || str_eq(w, "not")
        || str_eq(w, "no")
        || str_eq(w, "so")
        || str_eq(w, "if")
        || str_eq(w, "then")
        || str_eq(w, "than")
        || str_eq(w, "too")
        || str_eq(w, "very")
        || str_eq(w, "just")
        || str_eq(w, "about")
        || str_eq(w, "all")
        || str_eq(w, "also")
        || str_eq(w, "any")
        || str_eq(w, "each")
        || str_eq(w, "for")
        || str_eq(w, "from")
        || str_eq(w, "in")
        || str_eq(w, "of")
        || str_eq(w, "on")
        || str_eq(w, "to")
        || str_eq(w, "with")
        || str_eq(w, "at")
        || str_eq(w, "by")
}

/// One character of whitespace splitting: (finished words, current run).
pub open spec fn split_step(st: (Seq<Seq<char>>, Seq<char>), c: char) -> (Seq<Seq<char>>, Seq<char>) {
    if is_whitespace_spec(c) {
        if st.1.len() > 0 {
            (st.0.push(st.1), Seq::empty())
        } else {
            st
        }
    } else {
        (st.0, st.1.push(c))
    }
}

/// The splitting state after reading all of `s`.
pub open spec fn split_state(s: Seq<char>) -> (Seq<Seq<char>>, Seq<char>)
    decreases s.len(),
{
    if s.len() == 0 {
        (Seq::empty(), Seq::empty())
    } else {
        split_step(split_state(s.drop_last()), s.last())
    }
}

/// The maximal non-whitespace runs of `s`, in order (`str::split_whitespace`).
pub open spec fn split_whitespace_spec(s: Seq<char>) -> Seq<Seq<char>> {
    let st = split_state(s);
    if st.1.len() > 0 {
        st.0.push(st.1)
    } else {
        st.0
    }
}

/// The UTF-8 length of a word, which is what `str::len` measures.
pub open spec fn byte_len(w: Seq<char>) -> nat {
    encode_utf8(w).len()
}

/// A word may be a topic when it is longer than two bytes and its lowercase
/// form is not a stop word.
pub open spec fn is_topic_candidate(w: Seq<char>) -> bool {
    byte_len(w) > 2 && !is_stop_word_spec(lowercase_of(w))
}

/// The longest candidate among `ws` (the last one among equally long ones).
pub open spec fn longest_candidate(ws: Seq<Seq<char>>) -> Option<Seq<char>>
    decreases ws.len(),
{
    if ws.len() == 0 {
        None
    } else {
        let prev = longest_candidate(ws.drop_last());
        let w = ws.last();
        if is_topic_candidate(w) && (prev is None || byte_len(w) >= byte_len(prev->0)) {
            Some(w)
        } else {
            prev
        }
    }
}

/// The topic of a message: its longest candidate word, lowercased, or
/// `"unknown"` when there is none.
pub open spec fn extract_topic_spec(message: Seq<char>) -> Seq<char> {
    match longest_candidate(split_whitespace_spec(message)) {
        Some(w) => lowercase_of(w),
        None => "unknown"@,
    }
}

/// The running best of the topic search agrees with the spec.
pub open spec fn best_matches(best: Option<(usize, Seq<char>)>, lc: Option<Seq<char>>) -> bool {
    match (best, lc) {
        (None, None) => true,
        (Some(b), Some(w)) => b.0 == byte_len(w) && b.1 == lowercase_of(w),
        _ => false,
    }
}

spec fn best_view(best: Option<(usize, String)>) -> Option<(usize, Seq<char>)> {
    match best {
        Some(b) => Some((b.0, b.1@)),
        None => None,
    }
}

/// Folds the word `message[start..end]` into the running best candidate.
fn consider_word(
    message: &str,
    start: usize,
    end: usize,
    best: &mut Option<(usize, String)>,
    Ghost(ws): Ghost<Seq<Seq<char>>>,
)
    requires
        start <= end <= message@.len(),
        best_matches(best_view(*old(best)), longest_candidate(ws)),
    ensures
        best_matches(
            best_view(*final(best)),
            longest_candidate(ws.push(message@.subrange(start as int, end as int))),
        ),
{
    let word = message.substring_char(start, end);
    let ghost w = message@.subrange(start as int, end as int);
    assert(ws.push(w).drop_last() =~= ws);
    let blen = word.as_bytes().len();
    if blen > 2 {
        let lw = to_lowercase(word);
        if !is_stop_word(lw.as_str()) {
            let better = match best {
                None => true,
                Some(b) => blen >= b.0,
            };
            if better {
                *best = Some((blen, lw));
            }
        }
    }
}

/// Simple topic extraction: the longest non-stop word of more than two bytes.
pub fn extract_topic(message: &str) -> (topic: String)
    ensures
        topic@ == extract_topic_spec(message@),
{
    let n = message.unicode_len();
    let mut best: Option<(usize, String)> = None;
    let mut start: usize = 0;
    let mut in_word = false;
    let ghost mut ws: Seq<Seq<char>> = Seq::empty();
    let mut i: usize = 0;
    while i < n
        invariant
            n == message@.len(),
            i <= n,
            start <= i,
            split_state(message@.take(i as int)) == (
                ws,
                if in_word { message@.subrange(start as int, i as int) } else { Seq::empty() },
            ),
            in_word ==> start < i,
            best_matches(best_view(best), longest_candidate(ws)),
        decreases n - i,
    {
        let c = message.get_char(i);
        assert(message@.take(i + 1).drop_last() =~= message@.take(i as int));
        assert(message@.take(i + 1).last() == c);
        if is_whitespace(c) {
            if in_word {
                consider_word(message, start, i, &mut best, Ghost(ws));
                proof {
                    ws = ws.push(message@.subrange(start as int, i as int));
                }
                in_word = false;
            }
        } else {
            if !in_word {
                start = i;
                in_word = true;
                assert(message@.subrange(start as int, i + 1) =~= seq![c]);
            } else {
                assert(message@.subrange(start as int, i + 1) =~= message@.subrange(
                    start as int,
                    i as int,
                ).push(c));
            }
        }
        i += 1;
    }
    assert(message@.take(n as int) =~= message@);
    if in_word {
        consider_word(message, start, n, &mut best, Ghost(ws));
        proof {
            ws = ws.push(message@.subrange(start as int, n as int));
        }
    }
    assert(ws == split_whitespace_spec(message@));
    match best {
        Some(b) => b.1,
        None => String::from_str("unknown"),
    }
}

// ---------------------------------------------------------------------------
// SPO triple
// ---------------------------------------------------------------------------

/// A Subject-Predicate-Object triple with NARS evidence.
///
/// `confidence_q8` encodes a confidence in `0.0..=1.0` as `0..=255`.
#[derive(Clone, Copy, Debug)]
pub struct SpoTriple {
    /// DN address hash of the subject entity.
    pub subject_dn: u32,
    /// Hash of the predicate/relation verb.
    pub predicate_hash: u16,
    /// Confidence scaled to `0..=255`.
    pub confidence_q8: u16,
    /// DN address hash of the object entity.
    pub object_dn: u32,
    /// Number of conversation turns supporting this triple.
    pub evidence_count: u16,
    /// Flags: bit 0 = negated, bit 1 = inferred, bit 2 = temporal.
    pub flags: u16,
}

/// Flag bit: the triple is negated.
pub const FLAG_NEGATED: u16 = 0x01;
/// Flag bit: the triple was inferred rather than observed.
pub const FLAG_INFERRED: u16 = 0x02;
/// Flag bit: the triple is time-bound.
pub const FLAG_TEMPORAL: u16 = 0x04;

/// Confidence 0.8 on the `0..=255` scale.
pub const CONFIDENCE_OBSERVED: u16 = 204;
/// Confidence 0.7 on the `0..=255` scale.
pub const CONFIDENCE_FEELING: u16 = 178;
/// Confidence 0.6 on the `0..=255` scale.
pub const CONFIDENCE_TENSION: u16 = 153;
/// Confidence 0.9 on the `0..=255` scale.
pub const CONFIDENCE_MODE: u16 = 229;

/// The triple with the given fields, one piece of evidence.
pub open spec fn triple_spec(subject: u32, predicate: u16, object: u32, q8: u16, flags: u16) -> SpoTriple {
    SpoTriple {
        subject_dn: subject,
        predicate_hash: predicate,
        confidence_q8: if q8 > 255 { 255 } else { q8 },
        object_dn: object,
        evidence_count: 1,
        flags,
    }
}

impl SpoTriple {
    /// Create an observed triple from a confidence on the `0..=255` scale
    /// (larger values are clamped to 255).
    pub fn from_q8(subject: u32, predicate: u16, object: u32, confidence_q8: u16) -> (t: SpoTriple)
        ensures
            t == triple_spec(subject, predicate, object, confidence_q8, 0),
    {
        SpoTriple {
            subject_dn: subject,
            predicate_hash: predicate,
            confidence_q8: if confidence_q8 > 255 { 255 } else { confidence_q8 },
            object_dn: object,
            evidence_count: 1,
            flags: 0,
        }
    }

    /// Create an inferred triple (flag bit 1 set) from a `0..=255` confidence.
    pub fn inferred_q8(subject: u32, predicate: u16, object: u32, confidence_q8: u16) -> (t: SpoTriple)
        ensures
            t == triple_spec(subject, predicate, object, confidence_q8, FLAG_INFERRED),
    {
        let mut t = Self::from_q8(subject, predicate, object, confidence_q8);
        t.flags = FLAG_INFERRED;
        t
    }

    /// Is this triple negated?
    pub fn is_negated(&self) -> (r: bool)
        ensures
            r == (self.flags & FLAG_NEGATED != 0),
    {
        self.flags & FLAG_NEGATED != 0
    }

    /// Is this triple inferred (not directly observed)?
    pub fn is_inferred(&self) -> (r: bool)
        ensures
            r == (self.flags & FLAG_INFERRED != 0),
    {
        self.flags & FLAG_INFERRED != 0
    }

    /// Is this triple temporal (time-bound)?
    pub fn is_temporal(&self) -> (r: bool)
        ensures
            r == (self.flags & FLAG_TEMPORAL != 0),
    {
        self.flags & FLAG_TEMPORAL != 0
    }
}

/// Each flag value used by the driver reads back as exactly its own flag.
pub proof fn lemma_flag_bits()
    ensures
        0u16 & FLAG_NEGATED == 0 && 0u16 & FLAG_INFERRED == 0 && 0u16 & FLAG_TEMPORAL == 0,
        FLAG_INFERRED & FLAG_NEGATED == 0 && FLAG_INFERRED & FLAG_INFERRED != 0
            && FLAG_INFERRED & FLAG_TEMPORAL == 0,
        FLAG_TEMPORAL & FLAG_NEGATED == 0 && FLAG_TEMPORAL & FLAG_INFERRED == 0
            && FLAG_TEMPORAL & FLAG_TEMPORAL != 0,
{
    assert(0u16 & 1u16 == 0 && 0u16 & 2u16 == 0 && 0u16 & 4u16 == 0) by (bit_vector);
    assert(2u16 & 1u16 == 0 && 2u16 & 2u16 != 0 && 2u16 & 4u16 == 0) by (bit_vector);
    assert(4u16 & 1u16 == 0 && 4u16 & 2u16 == 0 && 4u16 & 4u16 != 0) by (bit_vector);
}

/// The DN address of an entity name.
pub open spec fn entity_hash_spec(entity: Seq<char>) -> u32 {
    fnv1a_spec(encode_utf8(entity))
}

// ---------------------------------------------------------------------------
// Conversation -> SPO extraction
// ---------------------------------------------------------------------------

/// `(ada, feels_about, ghost)` for each ghost trigger.
pub open spec fn ghost_triples(ghosts: Seq<Seq<char>>) -> Seq<SpoTriple> {
    ghosts.map_values(
        |g: Seq<char>|
            triple_spec(entity_hash_spec("ada"@), 0x0007, entity_hash_spec(g), CONFIDENCE_FEELING, 0),
    )
}

/// `(session, contradicts, axis)`, inferred, for each tensioned axis.
pub open spec fn tension_triples(session: Seq<char>, axes: Seq<Seq<char>>) -> Seq<SpoTriple> {
    axes.map_values(
        |a: Seq<char>|
            triple_spec(
                entity_hash_spec(session),
                0x0004,
                entity_hash_spec(a),
                CONFIDENCE_TENSION,
                FLAG_INFERRED,
            ),
    )
}

/// The triples of one conversation turn.
pub open spec fn extract_triples_spec(
    user_message: Seq<char>,
    ada_response: Seq<char>,
    session_id: Seq<char>,
    presence_mode: Seq<char>,
    ghosts: Seq<Seq<char>>,
    axes: Seq<Seq<char>>,
) -> Seq<SpoTriple> {
    let topic_dn = entity_hash_spec(extract_topic_spec(user_message));
    let asks = seq![triple_spec(entity_hash_spec("user"@), 0x0001, topic_dn, CONFIDENCE_OBSERVED, 0)];
    let explains = if ada_response.len() > 0 {
        seq![triple_spec(entity_hash_spec("ada"@), 0x0002, topic_dn, CONFIDENCE_OBSERVED, 0)]
    } else {
        Seq::empty()
    };
    let mode = if presence_mode != "hybrid"@ {
        seq![
            triple_spec(
                entity_hash_spec(session_id),
                0x0006,
                entity_hash_spec(presence_mode),
                CONFIDENCE_MODE,
                FLAG_TEMPORAL,
            ),
        ]
    } else {
        Seq::empty()
    };
    asks + explains + ghost_triples(ghosts) + tension_triples(session_id, axes) + mode
}

/// The character views of a list of strings.
pub open spec fn strings_view(v: Seq<String>) -> Seq<Seq<char>> {
    v.map_values(|s: String| s@)
}

/// Extract SPO triples from a conversation turn: `(user, asks, topic)`,
/// `(ada, explains, topic)` when Ada answered, one `feels_about` triple per
/// ghost trigger, one inferred `contradicts` triple per tensioned axis, and
/// a temporal `mode_switch` triple unless the mode is `"hybrid"`.
pub fn extract_triples(
    user_message: &str,
    ada_response: &str,
    session_id: &str,
    presence_mode: &str,
    ghost_triggers: &[String],
    tensioned_axes: &[String],
) -> (triples: Vec<SpoTriple>)
    ensures
        triples@ == extract_triples_spec(
            user_message@,
            ada_response@,
            session_id@,
            presence_mode@,
            strings_view(ghost_triggers@),
            strings_view(tensioned_axes@),
        ),
{
    let mut triples: Vec<SpoTriple> = Vec::new();
    let user_dn = entity_hash("user");
    let ada_dn = entity_hash("ada");
    let session_dn = entity_hash(session_id);
    let topic = extract_topic(user_message);
    let topic_dn = entity_hash(topic.as_str());

    triples.push(SpoTriple::from_q8(user_dn, 0x0001, topic_dn, CONFIDENCE_OBSERVED));
    if !ada_response.is_empty() {
        triples.push(SpoTriple::from_q8(ada_dn, 0x0002, topic_dn, CONFIDENCE_OBSERVED));
    }
    let ghost prefix = triples@;
    let ghost gs = strings_view(ghost_triggers@);
    let mut k: usize = 0;
    while k < ghost_triggers.len()
        invariant
            k <= ghost_triggers@.len(),
            gs == strings_view(ghost_triggers@),
            ada_dn == entity_hash_spec("ada"@),
            triples@ == prefix + ghost_triples(gs.take(k as int)),
        decreases ghost_triggers@.len() - k,
    {
        let g_dn = entity_hash(ghost_triggers[k].as_str());
        triples.push(SpoTriple::from_q8(ada_dn, 0x0007, g_dn, CONFIDENCE_FEELING));
        assert(ghost_triples(gs.take(k + 1)) =~= ghost_triples(gs.take(k as int)).push(
            triple_spec(ada_dn, 0x0007, g_dn, CONFIDENCE_FEELING, 0),
        ));
        k += 1;
    }
    assert(gs.take(k as int) =~= gs);
    let ghost prefix2 = triples@;
    let ghost axs = strings_view(tensioned_axes@);
    let mut j: usize = 0;
    while j < tensioned_axes.len()
        invariant
            j <= tensioned_axes@.len(),
            axs == strings_view(tensioned_axes@),
            session_dn == entity_hash_spec(session_id@),
            triples@ == prefix2 + tension_triples(session_id@, axs.take(j as int)),
        decreases tensioned_axes@.len() - j,
    {
        let a_dn = entity_hash(tensioned_axes[j].as_str());
        triples.push(SpoTriple::inferred_q8(session_dn, 0x0004, a_dn, CONFIDENCE_TENSION));
        assert(tension_triples(session_id@, axs.take(j + 1)) =~= tension_triples(
            session_id@,
            axs.take(j as int),
        ).push(triple_spec(session_dn, 0x0004, a_dn, CONFIDENCE_TENSION, FLAG_INFERRED)));
        j += 1;
    }
    assert(axs.take(j as int) =~= axs);
    if !str_eq(presence_mode, "hybrid") {
        let mode_dn = entity_hash(presence_mode);
        let mut mode_triple = SpoTriple::from_q8(session_dn, 0x0006, mode_dn, CONFIDENCE_MODE);
        mode_triple.flags = FLAG_TEMPORAL;
        triples.push(mode_triple);
    }
    triples
}

// ---------------------------------------------------------------------------
// Graph reasoning
// ---------------------------------------------------------------------------

/// The triples of `ts` whose predicate hash is `p`, in order.
pub open spec fn with_predicate(ts: Seq<SpoTriple>, p: u16) -> Seq<SpoTriple>
    decreases ts.len(),
{
    if ts.len() == 0 {
        Seq::empty()
    } else {
        let r = with_predicate(ts.drop_last(), p);
        if ts.last().predicate_hash == p {
            r.push(ts.last())
        } else {
            r
        }
    }
}

/// A triple's confidence as a NARS truth confidence, clamped to `0..=255`.
pub open spec fn clamped_q8(t: SpoTriple) -> nat {
    if t.confidence_q8 > 255 {
        255
    } else {
        t.confidence_q8 as nat
    }
}

/// A triple's NARS frequency is 1 unless it is negated (then 0).
pub open spec fn positive(t: SpoTriple) -> bool {
    t.flags & FLAG_NEGATED == 0
}

/// The product of two `0..=255` confidences, rounded down on the same scale.
pub open spec fn q8_product(a: nat, b: nat) -> nat {
    (a * b) / 255
}

/// Deduction `(A, asks, X) + (B, explains, X) => (A, relates_to, B)`, with
/// NARS deduction confidence `c1 * c2 * f1 * f2`.
pub open spec fn deduce_pair(ask: SpoTriple, explain: SpoTriple) -> Option<SpoTriple> {
    if ask.object_dn == explain.object_dn {
        let c = if positive(ask) && positive(explain) {
            q8_product(clamped_q8(ask), clamped_q8(explain))
        } else {
            0
        };
        Some(triple_spec(ask.subject_dn, 0x0005, explain.subject_dn, c as u16, FLAG_INFERRED))
    } else {
        None
    }
}

/// Abduction `(S, contradicts, axis) + (S, mode_switch, mode) =>
/// (mode, contradicts, axis)`, with NARS abduction confidence `f2 * c1 * c2`.
pub open spec fn abduce_pair(contradiction: SpoTriple, mode_switch: SpoTriple) -> Option<SpoTriple> {
    if contradiction.subject_dn == mode_switch.subject_dn {
        let c = if positive(mode_switch) {
            q8_product(clamped_q8(contradiction), clamped_q8(mode_switch))
        } else {
            0
        };
        Some(
            triple_spec(mode_switch.object_dn, 0x0004, contradiction.object_dn, c as u16, FLAG_INFERRED),
        )
    } else {
        None
    }
}

/// The pairing rule: deduction when `deduction` holds, abduction otherwise.
pub open spec fn pair_rule(deduction: bool, a: SpoTriple, b: SpoTriple) -> Option<SpoTriple> {
    if deduction {
        deduce_pair(a, b)
    } else {
        abduce_pair(a, b)
    }
}

/// The results of pairing `a` with each of `bs`, in order.
pub open spec fn pair_row(deduction: bool, a: SpoTriple, bs: Seq<SpoTriple>) -> Seq<SpoTriple>
    decreases bs.len(),
{
    if bs.len() == 0 {
        Seq::empty()
    } else {
        let r = pair_row(deduction, a, bs.drop_last());
        match pair_rule(deduction, a, bs.last()) {
            Some(t) => r.push(t),
            None => r,
        }
    }
}

/// The results of pairing each of `as_` with each of `bs`, row by row.
pub open spec fn pair_all(deduction: bool, as_: Seq<SpoTriple>, bs: Seq<SpoTriple>) -> Seq<SpoTriple>
    decreases as_.len(),
{
    if as_.len() == 0 {
        Seq::empty()
    } else {
        pair_all(deduction, as_.drop_last(), bs) + pair_row(deduction, as_.last(), bs)
    }
}

/// All triples inferred from `ts`: deductions first, then abductions.
pub open spec fn infer_triples_spec(ts: Seq<SpoTriple>) -> Seq<SpoTriple> {
    pair_all(true, with_predicate(ts, 0x0001), with_predicate(ts, 0x0002)) + pair_all(
        false,
        with_predicate(ts, 0x0004),
        with_predicate(ts, 0x0006),
    )
}

/// The triples of `ts` with predicate hash `p`.
fn collect_predicate(ts: &[SpoTriple], p: u16) -> (r: Vec<SpoTriple>)
    ensures
        r@ == with_predicate(ts@, p),
{
    let mut r: Vec<SpoTriple> = Vec::new();
    let mut i: usize = 0;
    while i < ts.len()
        invariant
            i <= ts@.len(),
            r@ == with_predicate(ts@.take(i as int), p),
        decreases ts@.len() - i,
    {
        assert(ts@.take(i + 1).drop_last() =~= ts@.take(i as int));
        if ts[i].predicate_hash == p {
            r.push(ts[i]);
        }
        i += 1;
    }
    assert(ts@.take(i as int) =~= ts@);
    r
}

/// The clamped confidence of a triple.
fn clamp_q8(t: &SpoTriple) -> (c: u32)
    ensures
        c == clamped_q8(*t),
{
    if t.confidence_q8 > 255 {
        255
    } else {
        t.confidence_q8 as u32
    }
}

/// Applies the pairing rule to one pair of triples.
fn apply_rule(deduction: bool, a: &SpoTriple, b: &SpoTriple) -> (r: Option<SpoTriple>)
    ensures
        r == pair_rule(deduction, *a, *b),
{
    if deduction {
        if a.object_dn == b.object_dn {
            let ca = clamp_q8(a);
            let cb = clamp_q8(b);
            assert(ca * cb <= 255 * 255) by (nonlinear_arith)
                requires
                    ca <= 255,
                    cb <= 255,
            ;
            let c: u32 = if !a.is_negated() && !b.is_negated() {
                ca * cb / 255
            } else {
                0
            };
            Some(SpoTriple::inferred_q8(a.subject_dn, 0x0005, b.subject_dn, c as u16))
        } else {
            None
        }
    } else {
        if a.subject_dn == b.subject_dn {
            let ca = clamp_q8(a);
            let cb = clamp_q8(b);
            assert(ca * cb <= 255 * 255) by (nonlinear_arith)
                requires
                    ca <= 255,
                    cb <= 255,
            ;
            let c: u32 = if !b.is_negated() {
                ca * cb / 255
            } else {
                0
            };
            Some(SpoTriple::inferred_q8(b.object_dn, 0x0004, a.object_dn, c as u16))
        } else {
            None
        }
    }
}

/// Appends the pairings of every `as_[i]` with every `bs[j]` to `out`.
fn pair_into(deduction: bool, as_: &Vec<SpoTriple>, bs: &Vec<SpoTriple>, out: &mut Vec<SpoTriple>)
    ensures
        final(out)@ == old(out)@ + pair_all(deduction, as_@, bs@),
{
    let ghost base = out@;
    let mut i: usize = 0;
    while i < as_.len()
        invariant
            i <= as_@.len(),
            out@ == base + pair_all(deduction, as_@.take(i as int), bs@),
        decreases as_@.len() - i,
    {
        assert(as_@.take(i + 1).drop_last() =~= as_@.take(i as int));
        let ghost row_base = out@;
        let mut j: usize = 0;
        while j < bs.len()
            invariant
                i < as_@.len(),
                j <= bs@.len(),
                out@ == row_base + pair_row(deduction, as_@[i as int], bs@.take(j as int)),
            decreases bs@.len() - j,
        {
            assert(bs@.take(j + 1).drop_last() =~= bs@.take(j as int));
            match apply_rule(deduction, &as_[i], &bs[j]) {
                Some(t) => out.push(t),
                None => {},
            }
            j += 1;
        }
        assert(bs@.take(j as int) =~= bs@);
        assert(out@ =~= base + pair_all(deduction, as_@.take(i + 1), bs@));
        i += 1;
    }
    assert(as_@.take(i as int) =~= as_@);
}

/// Infer new triples: deduction over `asks`/`explains` pairs sharing an
/// object, then abduction over `contradicts`/`mode_switch` pairs sharing a
/// subject.
pub fn infer_triples(triples: &[SpoTriple]) -> (inferred: Vec<SpoTriple>)
    ensures
        inferred@ == infer_triples_spec(triples@),
{
    let mut inferred: Vec<SpoTriple> = Vec::new();
    let asks = collect_predicate(triples, 0x0001);
    let explains = collect_predicate(triples, 0x0002);
    pair_into(true, &asks, &explains, &mut inferred);
    let contradicts = collect_predicate(triples, 0x0004);
    let mode_switches = collect_predicate(triples, 0x0006);
    pair_into(false, &contradicts, &mode_switches, &mut inferred);
    assert(inferred@ =~= infer_triples_spec(triples@));
    inferred
}

// ---------------------------------------------------------------------------
// Prompt context
// ---------------------------------------------------------------------------

/// A confidence in whole percent, rounded to nearest (`q8 * 100 / 255`).
pub open spec fn percent_spec(q8: u16) -> nat {
    ((q8 as nat) * 200 + 255) / 510
}

/// Confidence percentages run from 0 to 100 over the `0..=255` scale and
/// never decrease as the confidence grows.
pub proof fn lemma_percent_range(a: u16, b: u16)
    ensures
        percent_spec(0) == 0,
        percent_spec(255) == 100,
        a <= 255 ==> percent_spec(a) <= 100,
        a <= b ==> percent_spec(a) <= percent_spec(b),
{
    let x = a as nat;
    let y = b as nat;
    assert(x <= y ==> (x * 200 + 255) / 510 <= (y * 200 + 255) / 510) by (nonlinear_arith);
    assert(x <= 255 ==> (x * 200 + 255) / 510 <= 100) by (nonlinear_arith);
}

/// The label shown for a predicate hash (`"?"` when unknown).
pub open spec fn label_or_unknown(h: u16) -> Seq<char> {
    match predicate_from_hash_spec(h) {
        Some(p) => predicate_label_spec(p),
        None => "?"@,
    }
}

/// One context line: `  (0xSSSSSSSS) —[label]→ (0xOOOOOOOO) c=NN%[ [inferred]]`.
pub open spec fn context_line(t: SpoTriple) -> Seq<char> {
    "  (0x"@ + hex_digits_spec(t.subject_dn as nat, 8) + ") \u{2014}["@ + label_or_unknown(
        t.predicate_hash,
    ) + "]\u{2192} (0x"@ + hex_digits_spec(t.object_dn as nat, 8) + ") c="@ + decimal_spec(
        percent_spec(t.confidence_q8),
    ) + "%"@ + (if t.flags & FLAG_INFERRED != 0 {
        " [inferred]"@
    } else {
        Seq::empty()
    }) + "\n"@
}

/// The concatenated context lines of `ts`.
pub open spec fn context_lines(ts: Seq<SpoTriple>) -> Seq<char>
    decreases ts.len(),
{
    if ts.len() == 0 {
        Seq::empty()
    } else {
        context_lines(ts.drop_last()) + context_line(ts.last())
    }
}

/// The prompt context for `ts`: `None` when empty, else a header followed by
/// one line for each of the first five triples.
pub open spec fn build_spo_context_spec(ts: Seq<SpoTriple>) -> Option<Seq<char>> {
    if ts.len() == 0 {
        None
    } else {
        let shown = if ts.len() > 5 { ts.take(5) } else { ts };
        Some("\n[Semantic Graph \u{2014} SPO triples]\n"@ + context_lines(shown))
    }
}

fn push_context_line(ctx: &mut String, t: &SpoTriple)
    ensures
        final(ctx)@ == old(ctx)@ + context_line(*t),
{
    ctx.append("  (0x");
    push_hex_digits(ctx, t.subject_dn, 8);
    ctx.append(") \u{2014}[");
    match ConversationPredicate::from_hash(t.predicate_hash) {
        Some(p) => ctx.append(p.label()),
        None => ctx.append("?"),
    }
    ctx.append("]\u{2192} (0x");
    push_hex_digits(ctx, t.object_dn, 8);
    ctx.append(") c=");
    let pct: u32 = ((t.confidence_q8 as u32) * 200 + 255) / 510;
    push_decimal(ctx, pct);
    ctx.append("%");
    if t.is_inferred() {
        ctx.append(" [inferred]");
    }
    ctx.append("\n");
    assert(ctx@ =~= old(ctx)@ + context_line(*t));
}

/// Build a context string from triples for system prompt injection.
pub fn build_spo_context(triples: &[SpoTriple]) -> (ctx: Option<String>)
    ensures
        match (ctx, build_spo_context_spec(triples@)) {
            (Some(c), Some(s)) => c@ == s,
            (None, None) => true,
            _ => false,
        },
{
    if triples.len() == 0 {
        return None;
    }
    let mut ctx = String::from_str("\n[Semantic Graph \u{2014} SPO triples]\n");
    let ghost header = ctx@;
    let limit: usize = if triples.len() > 5 { 5 } else { triples.len() };
    let mut i: usize = 0;
    while i < limit
        invariant
            limit <= triples@.len(),
            i <= limit,
            ctx@ == header + context_lines(triples@.take(i as int)),
        decreases limit - i,
    {
        assert(triples@.take(i + 1).drop_last() =~= triples@.take(i as int));
        push_context_line(&mut ctx, &triples[i]);
        i += 1;
    }
    assert(triples@.take(limit as int) =~= (if triples@.len() > 5 {
        triples@.take(5)
    } else {
        triples@
    }));
    Some(ctx)
}

// ---------------------------------------------------------------------------
// Laws of inference and extraction
// ---------------------------------------------------------------------------

/// Every triple kept by `with_predicate` is a triple of the input with that
/// predicate.
proof fn lemma_with_predicate_sound(ts: Seq<SpoTriple>, p: u16, x: SpoTriple)
    requires
        with_predicate(ts, p).contains(x),
    ensures
        ts.contains(x),
        x.predicate_hash == p,
    decreases ts.len(),
{
    if ts.len() > 0 {
        let r = with_predicate(ts.drop_last(), p);
        let w = with_predicate(ts, p);
        let k = choose|k: int| 0 <= k < w.len() && w[k] == x;
        if ts.last().predicate_hash == p && k == r.len() {
            assert(ts[ts.len() - 1] == x);
        } else {
            assert(r[k] == x);
            lemma_with_predicate_sound(ts.drop_last(), p, x);
            let j = choose|j: int| 0 <= j < ts.drop_last().len() && ts.drop_last()[j] == x;
            assert(ts[j] == x);
        }
    }
}

/// Every triple of the input with predicate `p` is kept by `with_predicate`.
proof fn lemma_with_predicate_complete(ts: Seq<SpoTriple>, p: u16, i: int)
    requires
        0 <= i < ts.len(),
        ts[i].predicate_hash == p,
    ensures
        with_predicate(ts, p).contains(ts[i]),
    decreases ts.len(),
{
    let r = with_predicate(ts.drop_last(), p);
    if i == ts.len() - 1 {
        assert(r.push(ts.last())[r.len() as int] == ts[i]);
    } else {
        assert(ts.drop_last()[i] == ts[i]);
        lemma_with_predicate_complete(ts.drop_last(), p, i);
        let k = choose|k: int| 0 <= k < r.len() && r[k] == ts[i];
        if ts.last().predicate_hash == p {
            assert(r.push(ts.last())[k] == ts[i]);
        }
    }
}

/// Every triple of a pairing row comes from pairing `a` with one of `bs`.
proof fn lemma_pair_row_sound(d: bool, a: SpoTriple, bs: Seq<SpoTriple>, t: SpoTriple) -> (b: SpoTriple)
    requires
        pair_row(d, a, bs).contains(t),
    ensures
        bs.contains(b),
        pair_rule(d, a, b) == Some(t),
    decreases bs.len(),
{
    let r = pair_row(d, a, bs.drop_last());
    let w = pair_row(d, a, bs);
    let k = choose|k: int| 0 <= k < w.len() && w[k] == t;
    if pair_rule(d, a, bs.last()) is Some && k == r.len() {
        assert(bs[bs.len() - 1] == bs.last());
        bs.last()
    } else {
        assert(r[k] == t);
        let b = lemma_pair_row_sound(d, a, bs.drop_last(), t);
        let j = choose|j: int| 0 <= j < bs.drop_last().len() && bs.drop_last()[j] == b;
        assert(bs[j] == b);
        b
    }
}

/// Every triple of a full pairing comes from pairing one of `as_` with one
/// of `bs`.
proof fn lemma_pair_all_sound(d: bool, as_: Seq<SpoTriple>, bs: Seq<SpoTriple>, t: SpoTriple) -> (ab: (
    SpoTriple,
    SpoTriple,
))
    requires
        pair_all(d, as_, bs).contains(t),
    ensures
        as_.contains(ab.0),
        bs.contains(ab.1),
        pair_rule(d, ab.0, ab.1) == Some(t),
    decreases as_.len(),
{
    let left = pair_all(d, as_.drop_last(), bs);
    let row = pair_row(d, as_.last(), bs);
    let k = choose|k: int| 0 <= k < (left + row).len() && (left + row)[k] == t;
    if k < left.len() {
        assert(left[k] == t);
        let ab = lemma_pair_all_sound(d, as_.drop_last(), bs, t);
        let j = choose|j: int| 0 <= j < as_.drop_last().len() && as_.drop_last()[j] == ab.0;
        assert(as_[j] == ab.0);
        ab
    } else {
        assert(row[k - left.len()] == t);
        let b = lemma_pair_row_sound(d, as_.last(), bs, t);
        assert(as_[as_.len() - 1] == as_.last());
        (as_.last(), b)
    }
}

/// A pairing row holds the result of pairing `a` with each of `bs`.
proof fn lemma_pair_row_complete(d: bool, a: SpoTriple, bs: Seq<SpoTriple>, j: int, t: SpoTriple)
    requires
        0 <= j < bs.len(),
        pair_rule(d, a, bs[j]) == Some(t),
    ensures
        pair_row(d, a, bs).contains(t),
    decreases bs.len(),
{
    let r = pair_row(d, a, bs.drop_last());
    if j == bs.len() - 1 {
        assert(r.push(t)[r.len() as int] == t);
    } else {
        assert(bs.drop_last()[j] == bs[j]);
        lemma_pair_row_complete(d, a, bs.drop_last(), j, t);
        let k = choose|k: int| 0 <= k < r.len() && r[k] == t;
        if pair_rule(d, a, bs.last()) is Some {
            assert(r.push(pair_rule(d, a, bs.last())->0)[k] == t);
        }
    }
}

/// A full pairing holds the result of pairing each of `as_` with each of `bs`.
proof fn lemma_pair_all_complete(d: bool, as_: Seq<SpoTriple>, bs: Seq<SpoTriple>, i: int, j: int, t: SpoTriple)
    requires
        0 <= i < as_.len(),
        0 <= j < bs.len(),
        pair_rule(d, as_[i], bs[j]) == Some(t),
    ensures
        pair_all(d, as_, bs).contains(t),
    decreases as_.len(),
{
    let left = pair_all(d, as_.drop_last(), bs);
    let row = pair_row(d, as_.last(), bs);
    if i == as_.len() - 1 {
        lemma_pair_row_complete(d, as_.last(), bs, j, t);
        let k = choose|k: int| 0 <= k < row.len() && row[k] == t;
        assert((left + row)[left.len() + k] == t);
    } else {
        assert(as_.drop_last()[i] == as_[i]);
        lemma_pair_all_complete(d, as_.drop_last(), bs, i, j, t);
        let k = choose|k: int| 0 <= k < left.len() && left[k] == t;
        assert((left + row)[k] == t);
    }
}

/// A product of two `0..=255` confidences is no larger than either, and two
/// full confidences give a full one.
proof fn lemma_q8_product_bounds(a: nat, b: nat)
    requires
        a <= 255,
        b <= 255,
    ensures
        q8_product(a, b) <= a,
        q8_product(a, b) <= b,
        a == 255 && b == 255 ==> q8_product(a, b) == 255,
{
    assert((a * b) / 255 <= a && (a * b) / 255 <= b) by (nonlinear_arith)
        requires
            a <= 255,
            b <= 255,
    ;
}

/// Deduction links the asker to the explainer only through a shared topic:
/// every `relates_to` triple that inference yields is inferred, with one
/// piece of evidence, and goes from the subject of an `asks` triple of the
/// input to the subject of an `explains` triple of the input with the same
/// object; it is no more confident than either of the two, has no
/// confidence if either is negated, and has full confidence if both are
/// fully confident and not negated.
pub proof fn lemma_relates_to_needs_shared_topic(ts: Seq<SpoTriple>, t: SpoTriple)
    requires
        infer_triples_spec(ts).contains(t),
        t.predicate_hash == 0x0005,
    ensures
        t.flags == FLAG_INFERRED,
        t.evidence_count == 1,
        exists|i: int, j: int|
            #![trigger ts[i], ts[j]]
            0 <= i < ts.len() && 0 <= j < ts.len() && ts[i].predicate_hash == 0x0001
                && ts[j].predicate_hash == 0x0002 && ts[i].object_dn == ts[j].object_dn
                && t.subject_dn == ts[i].subject_dn && t.object_dn == ts[j].subject_dn
                && t.confidence_q8 <= clamped_q8(ts[i]) && t.confidence_q8 <= clamped_q8(ts[j])
                && (!positive(ts[i]) || !positive(ts[j]) ==> t.confidence_q8 == 0)
                && (positive(ts[i]) && positive(ts[j]) && clamped_q8(ts[i]) == 255 && clamped_q8(ts[j]) == 255
                ==> t.confidence_q8 == 255),
{
    let ded = pair_all(true, with_predicate(ts, 0x0001), with_predicate(ts, 0x0002));
    let abd = pair_all(false, with_predicate(ts, 0x0004), with_predicate(ts, 0x0006));
    let k = choose|k: int| 0 <= k < (ded + abd).len() && (ded + abd)[k] == t;
    if k < ded.len() {
        assert(ded[k] == t);
        let (a, b) = lemma_pair_all_sound(true, with_predicate(ts, 0x0001), with_predicate(ts, 0x0002), t);
        lemma_with_predicate_sound(ts, 0x0001, a);
        lemma_with_predicate_sound(ts, 0x0002, b);
        let i = choose|i: int| 0 <= i < ts.len() && ts[i] == a;
        let j = choose|j: int| 0 <= j < ts.len() && ts[j] == b;
        assert(ts[i].object_dn == ts[j].object_dn);
        lemma_q8_product_bounds(clamped_q8(a), clamped_q8(b));
    } else {
        assert(abd[k - ded.len()] == t);
        let (a, b) = lemma_pair_all_sound(false, with_predicate(ts, 0x0004), with_predicate(ts, 0x0006), t);
        assert(t.predicate_hash == 0x0004);
    }
}

/// With no `asks` and `explains` triples sharing an object, inference yields
/// no `relates_to` triple.
pub proof fn lemma_no_shared_topic_no_relation(ts: Seq<SpoTriple>)
    requires
        forall|i: int, j: int|
            #![trigger ts[i], ts[j]]
            0 <= i < ts.len() && 0 <= j < ts.len() && ts[i].predicate_hash == 0x0001
                && ts[j].predicate_hash == 0x0002 ==> ts[i].object_dn != ts[j].object_dn,
    ensures
        forall|k: int|
            0 <= k < infer_triples_spec(ts).len() ==> #[trigger] infer_triples_spec(ts)[k].predicate_hash
                != 0x0005,
{
    assert forall|k: int| 0 <= k < infer_triples_spec(ts).len() implies #[trigger] infer_triples_spec(
        ts,
    )[k].predicate_hash != 0x0005 by {
        let t = infer_triples_spec(ts)[k];
        if t.predicate_hash == 0x0005 {
            lemma_relates_to_needs_shared_topic(ts, t);
        }
    }
}

/// Each `asks` and `explains` triple of the input sharing an object yields an
/// inferred `relates_to` triple from the asker to the explainer.
pub proof fn lemma_shared_topic_relates(ts: Seq<SpoTriple>, i: int, j: int)
    requires
        0 <= i < ts.len(),
        0 <= j < ts.len(),
        ts[i].predicate_hash == 0x0001,
        ts[j].predicate_hash == 0x0002,
        ts[i].object_dn == ts[j].object_dn,
    ensures
        exists|k: int|
            0 <= k < infer_triples_spec(ts).len() && #[trigger] infer_triples_spec(ts)[k].predicate_hash
                == 0x0005 && infer_triples_spec(ts)[k].subject_dn == ts[i].subject_dn
                && infer_triples_spec(ts)[k].object_dn == ts[j].subject_dn && infer_triples_spec(
                ts,
            )[k].flags == FLAG_INFERRED,
{
    let asks = with_predicate(ts, 0x0001);
    let explains = with_predicate(ts, 0x0002);
    lemma_with_predicate_complete(ts, 0x0001, i);
    lemma_with_predicate_complete(ts, 0x0002, j);
    let ii = choose|ii: int| 0 <= ii < asks.len() && asks[ii] == ts[i];
    let jj = choose|jj: int| 0 <= jj < explains.len() && explains[jj] == ts[j];
    let t = pair_rule(true, ts[i], ts[j])->0;
    lemma_pair_all_complete(true, asks, explains, ii, jj, t);
    let ded = pair_all(true, asks, explains);
    let abd = pair_all(false, with_predicate(ts, 0x0004), with_predicate(ts, 0x0006));
    let k = choose|k: int| 0 <= k < ded.len() && ded[k] == t;
    assert(infer_triples_spec(ts)[k] == (ded + abd)[k]);
    assert(t.predicate_hash == 0x0005 && t.subject_dn == ts[i].subject_dn && t.object_dn == ts[j].subject_dn);
    assert(infer_triples_spec(ts)[k].predicate_hash == 0x0005);
}

/// Abduction ties a mode to an axis only through one session: every inferred
/// `contradicts` triple, with one piece of evidence, goes from the object of
/// a `mode_switch` triple of the input to the object of a `contradicts`
/// triple of the input with the same subject; it is no more confident than
/// either of the two, and has no confidence if the mode switch is negated.
pub proof fn lemma_contradiction_needs_shared_session(ts: Seq<SpoTriple>, t: SpoTriple)
    requires
        infer_triples_spec(ts).contains(t),
        t.predicate_hash == 0x0004,
    ensures
        t.flags == FLAG_INFERRED,
        t.evidence_count == 1,
        exists|i: int, j: int|
            #![trigger ts[i], ts[j]]
            0 <= i < ts.len() && 0 <= j < ts.len() && ts[i].predicate_hash == 0x0004
                && ts[j].predicate_hash == 0x0006 && ts[i].subject_dn == ts[j].subject_dn
                && t.subject_dn == ts[j].object_dn && t.object_dn == ts[i].object_dn
                && t.confidence_q8 <= clamped_q8(ts[i]) && t.confidence_q8 <= clamped_q8(ts[j])
                && (!positive(ts[j]) ==> t.confidence_q8 == 0),
{
    let ded = pair_all(true, with_predicate(ts, 0x0001), with_predicate(ts, 0x0002));
    let abd = pair_all(false, with_predicate(ts, 0x0004), with_predicate(ts, 0x0006));
    let k = choose|k: int| 0 <= k < (ded + abd).len() && (ded + abd)[k] == t;
    if k < ded.len() {
        assert(ded[k] == t);
        let (a, b) = lemma_pair_all_sound(true, with_predicate(ts, 0x0001), with_predicate(ts, 0x0002), t);
        assert(t.predicate_hash == 0x0005);
    } else {
        assert(abd[k - ded.len()] == t);
        let (a, b) = lemma_pair_all_sound(false, with_predicate(ts, 0x0004), with_predicate(ts, 0x0006), t);
        lemma_with_predicate_sound(ts, 0x0004, a);
        lemma_with_predicate_sound(ts, 0x0006, b);
        let i = choose|i: int| 0 <= i < ts.len() && ts[i] == a;
        let j = choose|j: int| 0 <= j < ts.len() && ts[j] == b;
        assert(ts[i].subject_dn == ts[j].subject_dn);
        lemma_q8_product_bounds(clamped_q8(a), clamped_q8(b));
    }
}

/// A turn yields an `explains` triple exactly when Ada's response is not
/// empty, and any `explains` triple is Ada's, about the topic the user asked.
pub proof fn lemma_explains_iff_response(
    user_message: Seq<char>,
    ada_response: Seq<char>,
    session_id: Seq<char>,
    presence_mode: Seq<char>,
    ghosts: Seq<Seq<char>>,
    axes: Seq<Seq<char>>,
)
    ensures
        ({
            let r = extract_triples_spec(user_message, ada_response, session_id, presence_mode, ghosts, axes);
            &&& r[0].predicate_hash == 0x0001
            &&& (exists|i: int| 0 <= i < r.len() && #[trigger] r[i].predicate_hash == 0x0002) == (
            ada_response.len() > 0)
            &&& forall|i: int|
                0 <= i < r.len() && #[trigger] r[i].predicate_hash == 0x0002 ==> r[i].subject_dn
                    == entity_hash_spec("ada"@) && r[i].object_dn == r[0].object_dn
        }),
{
    let topic_dn = entity_hash_spec(extract_topic_spec(user_message));
    let asks = seq![triple_spec(entity_hash_spec("user"@), 0x0001, topic_dn, CONFIDENCE_OBSERVED, 0)];
    let explains: Seq<SpoTriple> = if 0 < ada_response.len() {
        seq![triple_spec(entity_hash_spec("ada"@), 0x0002, topic_dn, CONFIDENCE_OBSERVED, 0)]
    } else {
        Seq::empty()
    };
    let mode: Seq<SpoTriple> = if presence_mode != "hybrid"@ {
        seq![
            triple_spec(
                entity_hash_spec(session_id),
                0x0006,
                entity_hash_spec(presence_mode),
                CONFIDENCE_MODE,
                FLAG_TEMPORAL,
            ),
        ]
    } else {
        Seq::empty()
    };
    let g = ghost_triples(ghosts);
    let tn = tension_triples(session_id, axes);
    let r = extract_triples_spec(user_message, ada_response, session_id, presence_mode, ghosts, axes);
    assert(r == asks + explains + g + tn + mode);
    assert(r[0] == asks[0]);
    assert forall|i: int| 0 <= i < r.len() && #[trigger] r[i].predicate_hash == 0x0002 implies r[i].subject_dn
        == entity_hash_spec("ada"@) && r[i].object_dn == r[0].object_dn && ada_response.len() > 0 by {
        let e = explains.len() as int;
        let gl = g.len() as int;
        let tl = tn.len() as int;
        if i == 0 {
        } else if i < 1 + e {
            assert(r[i] == explains[i - 1]);
        } else if i < 1 + e + gl {
            assert(r[i] == g[i - 1 - e]);
        } else if i < 1 + e + gl + tl {
            assert(r[i] == tn[i - 1 - e - gl]);
        } else {
            assert(r[i] == mode[i - 1 - e - gl - tl]);
        }
    }
    if ada_response.len() > 0 {
        assert(r[1] == explains[0]);
        assert(r[1].predicate_hash == 0x0002);
    }
}

/// A turn yields a `mode_switch` triple exactly when the presence mode is not
/// `"hybrid"`, and any such triple is temporal and goes from the session to
/// the mode.
pub proof fn lemma_mode_switch_iff_not_hybrid(
    user_message: Seq<char>,
    ada_response: Seq<char>,
    session_id: Seq<char>,
    presence_mode: Seq<char>,
    ghosts: Seq<Seq<char>>,
    axes: Seq<Seq<char>>,
)
    ensures
        ({
            let r = extract_triples_spec(user_message, ada_response, session_id, presence_mode, ghosts, axes);
            &&& (exists|i: int| 0 <= i < r.len() && #[trigger] r[i].predicate_hash == 0x0006) == (presence_mode
                != "hybrid"@)
            &&& forall|i: int|
                0 <= i < r.len() && #[trigger] r[i].predicate_hash == 0x0006 ==> r[i].subject_dn
                    == entity_hash_spec(session_id) && r[i].object_dn == entity_hash_spec(presence_mode)
                    && r[i].flags == FLAG_TEMPORAL
        }),
{
    let topic_dn = entity_hash_spec(extract_topic_spec(user_message));
    let asks = seq![triple_spec(entity_hash_spec("user"@), 0x0001, topic_dn, CONFIDENCE_OBSERVED, 0)];
    let explains: Seq<SpoTriple> = if 0 < ada_response.len() {
        seq![triple_spec(entity_hash_spec("ada"@), 0x0002, topic_dn, CONFIDENCE_OBSERVED, 0)]
    } else {
        Seq::empty()
    };
    let mode: Seq<SpoTriple> = if presence_mode != "hybrid"@ {
        seq![
            triple_spec(
                entity_hash_spec(session_id),
                0x0006,
                entity_hash_spec(presence_mode),
                CONFIDENCE_MODE,
                FLAG_TEMPORAL,
            ),
        ]
    } else {
        Seq::empty()
    };
    let g = ghost_triples(ghosts);
    let tn = tension_triples(session_id, axes);
    let r = extract_triples_spec(user_message, ada_response, session_id, presence_mode, ghosts, axes);
    assert(r == asks + explains + g + tn + mode);
    let e = explains.len() as int;
    let gl = g.len() as int;
    let tl = tn.len() as int;
    assert forall|i: int| 0 <= i < r.len() && #[trigger] r[i].predicate_hash == 0x0006 implies r[i].subject_dn
        == entity_hash_spec(session_id) && r[i].object_dn == entity_hash_spec(presence_mode) && r[i].flags
        == FLAG_TEMPORAL && presence_mode != "hybrid"@ by {
        if i == 0 {
            assert(r[i] == asks[0]);
        } else if i < 1 + e {
            assert(r[i] == explains[i - 1]);
        } else if i < 1 + e + gl {
            assert(r[i] == g[i - 1 - e]);
        } else if i < 1 + e + gl + tl {
            assert(r[i] == tn[i - 1 - e - gl]);
        } else {
            assert(r[i] == mode[i - 1 - e - gl - tl]);
        }
    }
    if presence_mode != "hybrid"@ {
        let last = 1 + e + gl + tl;
        assert(r[last] == mode[0]);
        assert(r[last].predicate_hash == 0x0006);
    }
}

/// The position of the longest candidate among `ws`, when there is one.
proof fn lemma_longest_candidate_at(ws: Seq<Seq<char>>) -> (k: int)
    ensures
        (longest_candidate(ws) is None) == (forall|i: int| 0 <= i < ws.len() ==> !is_topic_candidate(#[trigger] ws[i])),
        longest_candidate(ws) is Some ==> {
            &&& 0 <= k < ws.len()
            &&& longest_candidate(ws) == Some(ws[k])
            &&& is_topic_candidate(ws[k])
            &&& forall|i: int| 0 <= i < ws.len() && is_topic_candidate(#[trigger] ws[i]) ==> byte_len(ws[i]) <= byte_len(ws[k])
            &&& forall|i: int| k < i < ws.len() && is_topic_candidate(#[trigger] ws[i]) ==> byte_len(ws[i]) < byte_len(ws[k])
        },
    decreases ws.len(),
{
    if ws.len() == 0 {
        0
    } else {
        let prev_ws = ws.drop_last();
        let n = ws.len() - 1;
        let k0 = lemma_longest_candidate_at(prev_ws);
        assert(forall|i: int| 0 <= i < n ==> ws[i] == #[trigger] prev_ws[i]);
        assert(ws.last() == ws[n]);
        let prev = longest_candidate(prev_ws);
        let w = ws.last();
        if is_topic_candidate(w) && (prev is None || byte_len(w) >= byte_len(prev->0)) {
            assert forall|i: int| 0 <= i < ws.len() && is_topic_candidate(#[trigger] ws[i]) implies byte_len(
                ws[i],
            ) <= byte_len(ws[n]) by {
                if i < n {
                    assert(is_topic_candidate(prev_ws[i]));
                    if prev is Some {
                        assert(byte_len(prev_ws[i]) <= byte_len(prev_ws[k0]));
                    }
                }
            }
            n
        } else {
            if prev is None {
                assert forall|i: int| 0 <= i < ws.len() implies !is_topic_candidate(#[trigger] ws[i]) by {
                    if i < n {
                        assert(!is_topic_candidate(prev_ws[i]));
                    }
                }
            } else {
                assert(longest_candidate(ws) == Some(prev_ws[k0]));
                assert(ws[k0] == prev_ws[k0]);
                assert forall|i: int| 0 <= i < ws.len() && is_topic_candidate(#[trigger] ws[i]) implies byte_len(
                    ws[i],
                ) <= byte_len(ws[k0]) by {
                    if i < n {
                        assert(is_topic_candidate(prev_ws[i]));
                    }
                }
                assert forall|i: int| k0 < i < ws.len() && is_topic_candidate(#[trigger] ws[i]) implies byte_len(
                    ws[i],
                ) < byte_len(ws[k0]) by {
                    if i < n {
                        assert(is_topic_candidate(prev_ws[i]));
                    }
                }
            }
            k0
        }
    }
}

/// A message's topic is, lowercased, its longest word that is a topic
/// candidate (the last of equally long ones), or `"unknown"` exactly when no
/// word is a candidate.
pub proof fn lemma_topic_is_longest_candidate(message: Seq<char>)
    ensures
        ({
            let ws = split_whitespace_spec(message);
            &&& (forall|i: int| 0 <= i < ws.len() ==> !is_topic_candidate(#[trigger] ws[i])) ==> extract_topic_spec(
                message,
            ) == "unknown"@
            &&& (exists|i: int| 0 <= i < ws.len() && is_topic_candidate(#[trigger] ws[i])) ==> exists|k: int|
                0 <= k < ws.len() && extract_topic_spec(message) == lowercase_of(#[trigger] ws[k]) && is_topic_candidate(
                    ws[k],
                ) && (forall|i: int|
                    0 <= i < ws.len() && is_topic_candidate(#[trigger] ws[i]) ==> byte_len(ws[i]) <= byte_len(ws[k]))
                    && (forall|i: int|
                    k < i < ws.len() && is_topic_candidate(#[trigger] ws[i]) ==> byte_len(ws[i]) < byte_len(ws[k]))
        }),
{
    let ws = split_whitespace_spec(message);
    let k = lemma_longest_candidate_at(ws);
    if exists|i: int| 0 <= i < ws.len() && is_topic_candidate(#[trigger] ws[i]) {
        assert(longest_candidate(ws) is Some);
        assert(extract_topic_spec(message) == lowercase_of(ws[k]));
    }
}

} // verus!
