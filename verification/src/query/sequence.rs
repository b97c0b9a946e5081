//! Queries over sequence diagrams: search, messages between two participants, and traces
//! around a message. Every result follows message order (order key, then message id).

use vstd::prelude::*;
use crate::model::ids::ObjectId;
use crate::model::seq_ast::{
    MessageView, SequenceAst, SequenceMessage, find_message_index, first_message_index, has_message,
    message_views, sort_messages,
};
use crate::sorted_map::Duplicate;
use crate::chars::{contains_seq, contains_text};

verus! {

/// How a search needle is matched against message text.
#[derive(Debug, Clone, Copy, PartialEq, Eq, Structural)]
pub enum MessageSearchMode {
    Substring,
    Regex,
}

#[verifier::external_type_specification]
#[verifier::external_body]
pub struct ExRegex(regex::Regex);

#[verifier::external_type_specification]
#[verifier::external_body]
pub struct ExRegexError(regex::Error);

/// Whether the regex crate accepts `pattern` (with the given case-insensitivity flag).
pub uninterp spec fn regex_compiles(pattern: Seq<char>, case_insensitive: bool) -> bool;

/// Whether the regex compiled from `pattern` (with the flag) matches somewhere in `text`.
pub uninterp spec fn regex_finds(pattern: Seq<char>, case_insensitive: bool, text: Seq<char>) -> bool;

/// The text that the regex crate's error reports when `pattern` (with the flag) does not
/// compile, as its `Display` implementation writes it.
pub uninterp spec fn regex_error_message(pattern: Seq<char>, case_insensitive: bool) -> Seq<char>;

/// The Unicode lowercase form of a text, as `str::to_lowercase` computes it.
pub uninterp spec fn lowercase_of(s: Seq<char>) -> Seq<char>;

/// A compiled regex, together with the pattern and flag it was compiled from.
pub struct MessagePattern {
    regex: regex::Regex,
    source: String,
    case_insensitive: bool,
}

/// A regex that did not compile: the regex crate's error, together with the pattern and
/// flag it came from.
pub struct CompileFailure {
    error: regex::Error,
    source: String,
    case_insensitive: bool,
}

impl CompileFailure {
    pub closed spec fn source(&self) -> Seq<char> {
        self.source@
    }

    pub closed spec fn is_case_insensitive(&self) -> bool {
        self.case_insensitive
    }
}

impl MessagePattern {
    pub closed spec fn source(&self) -> Seq<char> {
        self.source@
    }

    pub closed spec fn is_case_insensitive(&self) -> bool {
        self.case_insensitive
    }
}

/// Compiles `pattern` with `regex::RegexBuilder::new(pattern).case_insensitive(flag).build()`.
///
/// Trusted: compilation succeeds exactly when `regex_compiles` holds of the pattern and flag,
/// and the value returned (the compiled regex or the error) records them.
#[verifier::external_body]
fn compile_pattern(pattern: &str, case_insensitive: bool) -> (r: Result<MessagePattern, CompileFailure>)
    ensures
        r is Ok <==> regex_compiles(pattern@, case_insensitive),
        r matches Ok(p) ==> p.source() == pattern@ && p.is_case_insensitive() == case_insensitive,
        r matches Err(f) ==> f.source() == pattern@ && f.is_case_insensitive() == case_insensitive,
{
    match regex::RegexBuilder::new(pattern).case_insensitive(case_insensitive).build() {
        Ok(regex) => Ok(MessagePattern { regex, source: pattern.to_string(), case_insensitive }),
        Err(error) => Err(CompileFailure { error, source: pattern.to_string(), case_insensitive }),
    }
}

/// `regex::Regex::is_match` on the compiled pattern.
///
/// Trusted: the answer is `regex_finds` of the pattern, flag and text.
#[verifier::external_body]
fn pattern_is_match(p: &MessagePattern, text: &str) -> (b: bool)
    ensures
        b == regex_finds(p.source(), p.is_case_insensitive(), text@),
{
    p.regex.is_match(text)
}

/// The message of a regex error, through the `Display` implementation of `regex::Error`.
///
/// Trusted: the text is `regex_error_message` of the pattern and flag the error came from.
#[verifier::external_body]
fn regex_error_text(f: &CompileFailure) -> (s: String)
    ensures
        s@ == regex_error_message(f.source(), f.is_case_insensitive()),
{
    f.error.to_string()
}

/// `str::to_lowercase`.
///
/// Trusted: the result is `lowercase_of` the input.
#[verifier::external_body]
fn to_lowercase(s: &str) -> (r: String)
    ensures
        r@ == lowercase_of(s@),
{
    s.to_lowercase()
}

/// A search could not run: the regex did not compile.
#[derive(Debug, Clone, PartialEq, Eq)]
pub struct SearchError {
    pub message: String,
}

impl SearchError {
    /// The error message.
    pub fn to_string(&self) -> (s: String)
        ensures
            s@ == self.message@,
    {
        self.message.clone()
    }
}

/// The messages of `s` whose flag in `hits` is set, in order.
pub open spec fn keep_flagged(s: Seq<MessageView>, hits: Seq<bool>) -> Seq<MessageView>
    decreases s.len(),
{
    if s.len() == 0 || hits.len() == 0 {
        Seq::empty()
    } else {
        let rest = keep_flagged(s.drop_last(), hits.drop_last());
        if hits.last() {
            rest.push(s.last())
        } else {
            rest
        }
    }
}

/// Keeping the flagged messages is filtering by a predicate that the flags record.
proof fn lemma_keep_flagged_filter(s: Seq<MessageView>, hits: Seq<bool>, pred: spec_fn(MessageView) -> bool)
    requires
        s.len() == hits.len(),
        forall|i: int| 0 <= i < s.len() ==> hits[i] == pred(#[trigger] s[i]),
    ensures
        keep_flagged(s, hits) == s.filter(pred),
    decreases s.len(),
{
    reveal(Seq::filter);
    if s.len() > 0 {
        assert forall|i: int| 0 <= i < s.drop_last().len() implies hits.drop_last()[i] == pred(#[trigger] s.drop_last()[i]) by {
            assert(s.drop_last()[i] == s[i]);
        }
        lemma_keep_flagged_filter(s.drop_last(), hits.drop_last(), pred);
        assert(hits.last() == pred(s[s.len() - 1]));
    }
}

/// The messages whose flag in `hits` is set, in order.
pub fn select_messages(messages: &Vec<SequenceMessage>, hits: &Vec<bool>) -> (r: Vec<SequenceMessage>)
    requires
        hits@.len() == messages@.len(),
    ensures
        message_views(r@) == keep_flagged(message_views(messages@), hits@),
{
    let ghost mv = message_views(messages@);
    let mut r: Vec<SequenceMessage> = Vec::new();
    let mut i: usize = 0;
    proof {
        assert(message_views(r@) =~= keep_flagged(mv.take(0), hits@.take(0)));
    }
    while i < messages.len()
        invariant
            mv == message_views(messages@),
            hits@.len() == messages@.len(),
            i <= messages@.len(),
            message_views(r@) == keep_flagged(mv.take(i as int), hits@.take(i as int)),
        decreases messages@.len() - i,
    {
        let ghost r0 = message_views(r@);
        proof {
            assert(mv.take(i + 1).drop_last() =~= mv.take(i as int));
            assert(hits@.take(i + 1).drop_last() =~= hits@.take(i as int));
            assert(mv.take(i + 1).last() == messages@[i as int]@);
        }
        if hits[i] {
            r.push(messages[i].duplicate());
            proof {
                assert(message_views(r@) =~= r0.push(messages@[i as int]@));
            }
        }
        i = i + 1;
    }
    proof {
        assert(mv.take(i as int) =~= mv);
        assert(hits@.take(i as int) =~= hits@);
    }
    r
}

/// Message order of a diagram's messages.
pub open spec fn ordered(ast: SequenceAst) -> Seq<MessageView> {
    sort_messages(message_views(ast.messages@))
}

/// Whether the text of a message is a substring hit.
pub open spec fn substring_hit(text: Seq<char>, needle: Seq<char>, case_insensitive: bool) -> bool {
    if case_insensitive {
        contains_seq(lowercase_of(text), lowercase_of(needle))
    } else {
        contains_seq(text, needle)
    }
}

/// Messages whose text contains `needle` (or matches it as a regex), in message order.
///
/// In regex mode the search fails exactly when the pattern does not compile.
pub fn message_search(
    ast: &SequenceAst,
    needle: &str,
    mode: MessageSearchMode,
    case_insensitive: bool,
) -> (r: Result<Vec<SequenceMessage>, SearchError>)
    ensures
        mode == MessageSearchMode::Substring ==> (r matches Ok(v) && message_views(v@) == ordered(*ast).filter(
            |m: MessageView| substring_hit(m.text, needle@, case_insensitive),
        )),
        mode == MessageSearchMode::Regex ==> (r is Ok <==> regex_compiles(needle@, case_insensitive)),
        mode == MessageSearchMode::Regex ==> (r matches Ok(v) ==> message_views(v@) == ordered(*ast).filter(
            |m: MessageView| regex_finds(needle@, case_insensitive, m.text),
        )),
        r matches Err(e) ==> e.message@ == regex_error_message(needle@, case_insensitive),
{
    let messages = ast.messages_in_order();
    let ghost s = message_views(messages@);
    let mut hits: Vec<bool> = Vec::new();
    let mut i: usize = 0;
    match mode {
        MessageSearchMode::Substring => {
            let needle_lower = if case_insensitive {
                to_lowercase(needle)
            } else {
                String::new()
            };
            let ghost pred = |m: MessageView| substring_hit(m.text, needle@, case_insensitive);
            while i < messages.len()
                invariant
                    s == message_views(messages@),
                    case_insensitive ==> needle_lower@ == lowercase_of(needle@),
                    pred == (|m: MessageView| substring_hit(m.text, needle@, case_insensitive)),
                    i <= messages@.len(),
                    hits@.len() == i,
                    forall|k: int| 0 <= k < i ==> hits@[k] == pred(#[trigger] s[k]),
                decreases messages@.len() - i,
            {
                let text = messages[i].text.as_str();
                let hit = if case_insensitive {
                    let lower = to_lowercase(text);
                    contains_text(lower.as_str(), needle_lower.as_str())
                } else {
                    contains_text(text, needle)
                };
                proof {
                    assert(s[i as int] == messages@[i as int]@);
                }
                hits.push(hit);
                i = i + 1;
            }
            proof {
                lemma_keep_flagged_filter(s, hits@, pred);
            }
            Ok(select_messages(&messages, &hits))
        },
        MessageSearchMode::Regex => {
            let pattern = match compile_pattern(needle, case_insensitive) {
                Ok(p) => p,
                Err(e) => {
                    return Err(SearchError { message: regex_error_text(&e) });
                },
            };
            let ghost pred = |m: MessageView| regex_finds(needle@, case_insensitive, m.text);
            while i < messages.len()
                invariant
                    s == message_views(messages@),
                    pattern.source() == needle@,
                    pattern.is_case_insensitive() == case_insensitive,
                    pred == (|m: MessageView| regex_finds(needle@, case_insensitive, m.text)),
                    i <= messages@.len(),
                    hits@.len() == i,
                    forall|k: int| 0 <= k < i ==> hits@[k] == pred(#[trigger] s[k]),
                decreases messages@.len() - i,
            {
                let hit = pattern_is_match(&pattern, messages[i].text.as_str());
                proof {
                    assert(s[i as int] == messages@[i as int]@);
                }
                hits.push(hit);
                i = i + 1;
            }
            proof {
                lemma_keep_flagged_filter(s, hits@, pred);
            }
            Ok(select_messages(&messages, &hits))
        },
    }
}

/// Messages from `from_participant_id` to `to_participant_id`, in message order.
pub fn messages_between(
    ast: &SequenceAst,
    from_participant_id: &ObjectId,
    to_participant_id: &ObjectId,
) -> (r: Vec<SequenceMessage>)
    ensures
        message_views(r@) == ordered(*ast).filter(
            |m: MessageView| m.from_participant_id == from_participant_id@ && m.to_participant_id == to_participant_id@,
        ),
{
    let messages = ast.messages_in_order();
    let ghost s = message_views(messages@);
    let ghost pred = |m: MessageView| m.from_participant_id == from_participant_id@ && m.to_participant_id == to_participant_id@;
    let mut hits: Vec<bool> = Vec::new();
    let mut i: usize = 0;
    while i < messages.len()
        invariant
            s == message_views(messages@),
            pred == (|m: MessageView| m.from_participant_id == from_participant_id@ && m.to_participant_id == to_participant_id@),
            i <= messages@.len(),
            hits@.len() == i,
            forall|k: int| 0 <= k < i ==> hits@[k] == pred(#[trigger] s[k]),
        decreases messages@.len() - i,
    {
        let m = &messages[i];
        let hit = m.from_participant_id.same_as(from_participant_id) && m.to_participant_id.same_as(to_participant_id);
        proof {
            assert(s[i as int] == messages@[i as int]@);
        }
        hits.push(hit);
        i = i + 1;
    }
    proof {
        lemma_keep_flagged_filter(s, hits@, pred);
    }
    select_messages(&messages, &hits)
}

/// The messages `messages[start..end]`.
fn message_range(messages: &Vec<SequenceMessage>, start: usize, end: usize) -> (r: Vec<SequenceMessage>)
    requires
        start <= end <= messages@.len(),
    ensures
        message_views(r@) == message_views(messages@).subrange(start as int, end as int),
{
    let mut r: Vec<SequenceMessage> = Vec::new();
    let mut i: usize = start;
    while i < end
        invariant
            start <= i <= end,
            end <= messages@.len(),
            message_views(r@) =~= message_views(messages@).subrange(start as int, i as int),
        decreases end - i,
    {
        let ghost r0 = message_views(r@);
        r.push(messages[i].duplicate());
        proof {
            assert(message_views(r@) =~= r0.push(messages@[i as int]@));
            assert(message_views(messages@).subrange(start as int, i + 1) =~= message_views(messages@).subrange(start as int, i as int).push(messages@[i as int]@));
        }
        i = i + 1;
    }
    r
}

/// Up to `limit` messages immediately before message `message_id`, in message order;
/// `None` when the diagram has no such message.
pub fn trace_before(ast: &SequenceAst, message_id: &ObjectId, limit: usize) -> (r: Option<Vec<SequenceMessage>>)
    ensures
        r is None <==> !has_message(ordered(*ast), message_id@),
        r matches Some(v) ==> {
            let k = first_message_index(ordered(*ast), message_id@);
            message_views(v@) == ordered(*ast).subrange(if k >= limit { k - limit } else { 0 }, k)
        },
{
    let messages = ast.messages_in_order();
    match find_message_index(&messages, message_id) {
        None => None,
        Some(target) => {
            let start = target.saturating_sub(limit);
            Some(message_range(&messages, start, target))
        },
    }
}

/// Up to `limit` messages immediately after message `message_id`, in message order;
/// `None` when the diagram has no such message.
pub fn trace_after(ast: &SequenceAst, message_id: &ObjectId, limit: usize) -> (r: Option<Vec<SequenceMessage>>)
    ensures
        r is None <==> !has_message(ordered(*ast), message_id@),
        r matches Some(v) ==> {
            let k = first_message_index(ordered(*ast), message_id@);
            let n = ordered(*ast).len();
            message_views(v@) == ordered(*ast).subrange(k + 1, if k + 1 + limit <= n { k + 1 + limit } else { n as int })
        },
{
    let messages = ast.messages_in_order();
    match find_message_index(&messages, message_id) {
        None => None,
        Some(target) => {
            let start = target.saturating_add(1);
            let end = if start.saturating_add(limit) < messages.len() {
                start.saturating_add(limit)
            } else {
                messages.len()
            };
            Some(message_range(&messages, start, end))
        },
    }
}

} // verus!
