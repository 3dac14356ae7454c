//! Conversation history windowing and summarization.
//!
//! Every strategy keeps the system message when it stands at index 0.
use vstd::prelude::*;
use vstd::string::*;
use crate::errors::NodeError;
use crate::json::{json_get_str, JsonValue, JsonView};
use crate::token_counter::{
    count_message, is_system_message, message_content, message_tokens, messages_tokens,
    ChatMessage, TokenCounter,
};

verus! {

/// How the history of a conversation is trimmed before an LLM call.
#[derive(Debug)]
pub enum MemoryStrategy {
    /// Keep the last `max_messages` non-system messages.
    MessageCount { max_messages: usize },
    /// Keep the newest messages that fit within `max_tokens`.
    TokenBudget { max_tokens: usize, reserve_system: bool },
    /// Summarize older messages once the history reaches `threshold` messages.
    Summarize {
        threshold: usize,
        keep_recent: usize,
        summary_provider: Option<String>,
        summary_model: Option<String>,
    },
}

/// The memory section of a node's configuration.
#[derive(Debug)]
pub struct MemoryConfig {
    pub strategy: Option<MemoryStrategy>,
}

/// The default memory manager: works on the message list alone.
pub struct InMemoryManager;

/// Whether the first message is a system message.
pub open spec fn first_is_system(ms: Seq<ChatMessage>) -> bool {
    ms.len() > 0 && is_system_message(ms[0])
}

/// The leading system message, as a list of zero or one message.
pub open spec fn system_part(ms: Seq<ChatMessage>) -> Seq<ChatMessage> {
    if first_is_system(ms) {
        seq![ms[0]]
    } else {
        Seq::empty()
    }
}

/// The messages after the leading system message.
pub open spec fn non_system_part(ms: Seq<ChatMessage>) -> Seq<ChatMessage> {
    if first_is_system(ms) {
        ms.drop_first()
    } else {
        ms
    }
}

/// The last `n` elements of `s` (all of them when it is shorter).
pub open spec fn last_n<A>(s: Seq<A>, n: nat) -> Seq<A> {
    if s.len() <= n {
        s
    } else {
        s.subrange(s.len() - n, s.len() as int)
    }
}

/// The result of the message-count strategy.
pub open spec fn message_count_result(ms: Seq<ChatMessage>, max_messages: nat) -> Seq<
    ChatMessage,
> {
    if non_system_part(ms).len() <= max_messages {
        ms
    } else {
        system_part(ms) + last_n(non_system_part(ms), max_messages)
    }
}

/// `a - b`, or zero when `b > a`.
pub open spec fn sat_sub(a: nat, b: nat) -> nat {
    if b > a {
        0
    } else {
        (a - b) as nat
    }
}

/// How many of the newest messages of `older` the token budget keeps, given
/// the budget left and the number of messages already kept. Messages are
/// taken newest first; one that does not fit stops the walk, except that the
/// newest message is always kept.
pub open spec fn budget_kept<C: TokenCounter>(
    c: &C,
    older: Seq<ChatMessage>,
    budget: nat,
    kept: nat,
) -> nat
    decreases older.len(),
{
    if older.len() == 0 {
        kept
    } else {
        let t = message_tokens(c, older.last());
        if t > budget && kept > 0 {
            kept
        } else {
            budget_kept(c, older.drop_last(), sat_sub(budget, t), kept + 1)
        }
    }
}

/// The budget the non-system messages get.
pub open spec fn initial_budget<C: TokenCounter>(
    c: &C,
    ms: Seq<ChatMessage>,
    max_tokens: nat,
    reserve_system: bool,
) -> nat {
    if !reserve_system && first_is_system(ms) {
        sat_sub(max_tokens, message_tokens(c, ms[0]))
    } else {
        max_tokens
    }
}

/// The result of the token-budget strategy.
pub open spec fn token_budget_result<C: TokenCounter>(
    c: &C,
    ms: Seq<ChatMessage>,
    max_tokens: nat,
    reserve_system: bool,
) -> Seq<ChatMessage> {
    if ms.len() == 0 {
        ms
    } else {
        let rest = non_system_part(ms);
        let k = budget_kept(c, rest, initial_budget(c, ms, max_tokens, reserve_system), 0);
        system_part(ms) + last_n(rest, k)
    }
}

/// Every message's token count fits in a machine word.
pub open spec fn tokens_fit<C: TokenCounter>(c: &C, ms: Seq<ChatMessage>) -> bool {
    forall|i: int| 0 <= i < ms.len() ==> message_tokens(c, #[trigger] ms[i]) <= usize::MAX
}

fn sat_sub_usize(a: usize, b: usize) -> (r: usize)
    ensures
        r as nat == sat_sub(a as nat, b as nat),
{
    if b > a {
        0
    } else {
        a - b
    }
}

/// Keeps the system message (if at index 0) and the last `max_messages`
/// non-system messages.
pub fn apply_message_count(messages: Vec<ChatMessage>, max_messages: usize) -> (r: Vec<
    ChatMessage,
>)
    ensures
        r@ == message_count_result(messages@, max_messages as nat),
{
    if messages.len() == 0 {
        return messages;
    }
    let sys = messages[0].is_system();
    let rest_len = if sys {
        messages.len() - 1
    } else {
        messages.len()
    };
    if rest_len <= max_messages {
        return messages;
    }
    let ghost old_ms = messages@;
    let mut ms = messages;
    let at = ms.len() - max_messages;
    let mut tail = ms.split_off(at);
    if sys {
        ms.truncate(1);
        ms.append(&mut tail);
        assert(ms@ =~= message_count_result(old_ms, max_messages as nat));
        ms
    } else {
        assert(tail@ =~= message_count_result(old_ms, max_messages as nat));
        tail
    }
}

/// Keeps the system message and the newest messages that fit within
/// `max_tokens`, taken newest first. When `reserve_system` is false the
/// system message's tokens count against the budget.
pub fn apply_token_budget<C: TokenCounter>(
    messages: Vec<ChatMessage>,
    max_tokens: usize,
    reserve_system: bool,
    counter: &C,
) -> (r: Vec<ChatMessage>)
    requires
        tokens_fit(counter, messages@),
    ensures
        r@ == token_budget_result(counter, messages@, max_tokens as nat, reserve_system),
{
    if messages.len() == 0 {
        return messages;
    }
    let ghost ms = messages@;
    let sys = messages[0].is_system();
    let start: usize = if sys {
        1
    } else {
        0
    };
    let ghost rest = non_system_part(ms);
    assert(rest =~= ms.subrange(start as int, ms.len() as int));
    let mut budget = max_tokens;
    if !reserve_system && sys {
        let t = count_message(counter, &messages[0]);
        budget = sat_sub_usize(budget, t);
    }
    assert(budget as nat == initial_budget(counter, ms, max_tokens as nat, reserve_system));
    let ghost b0 = budget as nat;
    let mut kept: usize = 0;
    let mut idx = messages.len();
    assert(ms.subrange(start as int, idx as int) =~= rest);
    while idx > start
        invariant_except_break
            start <= idx <= ms.len(),
            ms.len() <= usize::MAX,
            messages@ == ms,
            kept == ms.len() - idx,
            tokens_fit(counter, ms),
            budget_kept(counter, rest, b0, 0) == budget_kept(
                counter,
                ms.subrange(start as int, idx as int),
                budget as nat,
                kept as nat,
            ),
        ensures
            start <= idx <= ms.len(),
            messages@ == ms,
            kept == ms.len() - idx,
            budget_kept(counter, rest, b0, 0) == kept,
        decreases idx,
    {
        let ghost sub = ms.subrange(start as int, idx as int);
        assert(sub.last() == ms[idx - 1]);
        let t = count_message(counter, &messages[idx - 1]);
        if t > budget && kept > 0 {
            break;
        }
        assert(sub.drop_last() =~= ms.subrange(start as int, idx - 1));
        budget = sat_sub_usize(budget, t);
        kept = kept + 1;
        idx = idx - 1;
    }
    let ghost k = budget_kept(counter, rest, b0, 0);
    let mut ms_exec = messages;
    let mut tail = ms_exec.split_off(idx);
    assert(tail@ =~= last_n(rest, k));
    if sys {
        ms_exec.truncate(1);
        ms_exec.append(&mut tail);
        assert(ms_exec@ =~= token_budget_result(
            counter,
            ms,
            max_tokens as nat,
            reserve_system,
        ));
        ms_exec
    } else {
        assert(tail@ =~= token_budget_result(counter, ms, max_tokens as nat, reserve_system));
        tail
    }
}

/// The messages prepared for an LLM call, or what remains to be done when
/// the history must first be summarized by an LLM.
#[derive(Debug)]
pub enum PreparedMessages {
    /// The messages to send.
    Ready(Vec<ChatMessage>),
    /// The older messages must be summarized with `prompt`; the result is
    /// then `system`, the summary message and `recent`.
    NeedsSummary {
        system: Option<ChatMessage>,
        older: Vec<ChatMessage>,
        recent: Vec<ChatMessage>,
        prompt: String,
    },
}

/// The text that opens a summarization request.
pub open spec fn summary_request_header() -> Seq<char> {
    "Summarize the following conversation concisely, preserving key facts, decisions, and context needed for the ongoing conversation:\n\n"@
}

/// The text that opens a summary message.
pub open spec fn summary_message_header() -> Seq<char> {
    "[Summary of earlier conversation]\n"@
}

/// The role shown for a message in a summarization request.
pub open spec fn summary_role(m: ChatMessage) -> Seq<char> {
    match json_get_str(m.value@, "role"@) {
        Some(r) => r,
        None => "unknown"@,
    }
}

/// One line of a summarization request: `role: content`.
pub open spec fn summary_line(m: ChatMessage) -> Seq<char> {
    summary_role(m) + ": "@ + message_content(m)
}

/// Lines joined with newlines.
pub open spec fn join_lines(ls: Seq<Seq<char>>) -> Seq<char>
    decreases ls.len(),
{
    if ls.len() == 0 {
        Seq::empty()
    } else if ls.len() == 1 {
        ls[0]
    } else {
        join_lines(ls.drop_last()) + "\n"@ + ls.last()
    }
}

/// The lines of a summarization request, one per message.
pub open spec fn summary_lines(ms: Seq<ChatMessage>) -> Seq<Seq<char>> {
    Seq::new(ms.len(), |i: int| summary_line(ms[i]))
}

/// The summarization request for the older messages.
pub open spec fn summary_prompt(older: Seq<ChatMessage>) -> Seq<char> {
    summary_request_header() + join_lines(summary_lines(older))
}

/// Whether the summarize strategy condenses this history.
pub open spec fn summarize_applies(ms: Seq<ChatMessage>, threshold: nat, keep_recent: nat) -> bool {
    ms.len() >= threshold && non_system_part(ms).len() > keep_recent
}

/// The number of non-system messages that get summarized.
pub open spec fn summarize_split(ms: Seq<ChatMessage>, keep_recent: nat) -> int {
    non_system_part(ms).len() - keep_recent
}

/// An optional message as a list of zero or one message.
pub open spec fn opt_seq(m: Option<ChatMessage>) -> Seq<ChatMessage> {
    match m {
        Some(x) => seq![x],
        None => Seq::empty(),
    }
}

/// What the summarize strategy owes for a history (before the summary exists).
pub open spec fn summarize_plan_ok(
    ms: Seq<ChatMessage>,
    threshold: nat,
    keep_recent: nat,
    r: PreparedMessages,
) -> bool {
    if summarize_applies(ms, threshold, keep_recent) {
        let split = summarize_split(ms, keep_recent);
        match r {
            PreparedMessages::NeedsSummary { system, older, recent, prompt } => {
                &&& opt_seq(system) == system_part(ms)
                &&& older@ == non_system_part(ms).take(split)
                &&& recent@ == non_system_part(ms).skip(split)
                &&& prompt@ == summary_prompt(older@)
            },
            PreparedMessages::Ready(_) => false,
        }
    } else {
        r matches PreparedMessages::Ready(v) && v@ == ms
    }
}

/// A summary message for `text`: a system message whose content is the
/// summary header followed by the text.
pub open spec fn is_summary_message(m: ChatMessage, text: Seq<char>) -> bool {
    &&& m.value@ == JsonView::Object(
        seq![
            ("content"@, JsonView::Str(summary_message_header() + text)),
            ("role"@, JsonView::Str("system"@)),
        ],
    )
    &&& m.content_text matches Some(c) && c@ == summary_message_header() + text
    &&& m.tool_calls_text is None
}

proof fn lemma_join_lines_step(ls: Seq<Seq<char>>, i: int)
    requires
        0 <= i < ls.len(),
    ensures
        i == 0 ==> join_lines(ls.take(i + 1)) == ls[i],
        i > 0 ==> join_lines(ls.take(i + 1)) == join_lines(ls.take(i)) + "\n"@ + ls[i],
{
    assert(ls.take(i + 1).drop_last() =~= ls.take(i));
}

/// Where each line stands in the joined text: line `i` is the text from
/// `pos[i]` on, and each line starts after the end of the one before.
proof fn lemma_join_positions(ls: Seq<Seq<char>>) -> (pos: Seq<int>)
    ensures
        pos.len() == ls.len(),
        forall|i: int|
            0 <= i < ls.len() ==> 0 <= #[trigger] pos[i] && pos[i] + ls[i].len() <= join_lines(ls).len()
                && join_lines(ls).subrange(pos[i], pos[i] + ls[i].len()) == ls[i],
        forall|i: int, j: int| #![trigger pos[i], pos[j]] 0 <= i < j < ls.len() ==> pos[i] + ls[i].len() < pos[j],
    decreases ls.len(),
{
    if ls.len() == 0 {
        Seq::empty()
    } else if ls.len() == 1 {
        assert(join_lines(ls) == ls[0]);
        assert(ls[0].subrange(0, ls[0].len() as int) =~= ls[0]);
        seq![0int]
    } else {
        let rest = ls.drop_last();
        let p0 = lemma_join_positions(rest);
        let a = join_lines(rest);
        let whole = join_lines(ls);
        assert(whole == a + "\n"@ + ls.last());
        let start: int = a.len() as int + 1;
        let pos = p0.push(start);
        assert forall|i: int| 0 <= i < ls.len() implies 0 <= #[trigger] pos[i] && pos[i] + ls[i].len()
            <= whole.len() && whole.subrange(pos[i], pos[i] + ls[i].len()) == ls[i] by {
            if i < rest.len() {
                assert(rest[i] == ls[i]);
                assert(pos[i] == p0[i]);
                let an = a + "\n"@;
                assert(p0[i] + rest[i].len() <= a.len());
                assert(whole.subrange(pos[i], pos[i] + ls[i].len()) =~= an.subrange(p0[i], p0[i] + rest[i].len()));
                assert(an.subrange(p0[i], p0[i] + rest[i].len()) =~= a.subrange(p0[i], p0[i] + rest[i].len()));
            } else {
                reveal_strlit("\n");
                let an = a + "\n"@;
                assert(an.len() == start);
                assert(ls[i] == ls.last());
                assert(whole.subrange(start, start + ls[i].len()) =~= ls.last());
            }
        }
        assert forall|i: int, j: int| #![trigger pos[i], pos[j]] 0 <= i < j < ls.len() implies pos[i] + ls[i].len() < pos[j] by {
            if j < rest.len() {
                assert(rest[i] == ls[i]);
                assert(pos[i] == p0[i] && pos[j] == p0[j]);
            } else {
                assert(rest[i] == ls[i]);
                assert(pos[i] == p0[i]);
            }
        }
        pos
    }
}

/// The summarization request holds every older message, in order: for
/// each message, its role, `": "` and its content stand together in the
/// prompt after the request's header and after the previous message.
pub proof fn law_summary_prompt_holds_messages(older: Seq<ChatMessage>) -> (pos: Seq<int>)
    ensures
        pos.len() == older.len(),
        summary_prompt(older).subrange(0, summary_request_header().len() as int) == summary_request_header(),
        forall|i: int|
            0 <= i < older.len() ==> {
                let part = summary_role(older[i]) + ": "@ + message_content(older[i]);
                &&& summary_request_header().len() <= #[trigger] pos[i]
                &&& pos[i] + part.len() <= summary_prompt(older).len()
                &&& summary_prompt(older).subrange(pos[i], pos[i] + part.len()) == part
            },
        forall|i: int, j: int|
            #![trigger pos[i], pos[j]]
            0 <= i < j < older.len() ==> pos[i] + (summary_role(older[i]) + ": "@ + message_content(
                older[i],
            )).len() < pos[j],
{
    let ls = summary_lines(older);
    let h = summary_request_header();
    let p0 = lemma_join_positions(ls);
    let j = join_lines(ls);
    let prompt = summary_prompt(older);
    assert(prompt == h + j);
    assert(prompt.subrange(0, h.len() as int) =~= h);
    let pos = Seq::new(older.len(), |i: int| p0[i] + h.len());
    assert forall|i: int| 0 <= i < older.len() implies {
        let part = summary_role(older[i]) + ": "@ + message_content(older[i]);
        &&& h.len() <= #[trigger] pos[i]
        &&& pos[i] + part.len() <= prompt.len()
        &&& prompt.subrange(pos[i], pos[i] + part.len()) == part
    } by {
        assert(ls[i] == summary_line(older[i]));
        assert(prompt.subrange(pos[i], pos[i] + ls[i].len()) =~= j.subrange(p0[i], p0[i] + ls[i].len()));
    }
    assert forall|a: int, b: int| #![trigger pos[a], pos[b]] 0 <= a < b < older.len() implies pos[a] + (summary_role(older[a]) + ": "@
        + message_content(older[a])).len() < pos[b] by {
        assert(ls[a] == summary_line(older[a]));
        assert(p0[a] + ls[a].len() < p0[b]);
    }
    pos
}

/// Builds the summarization request for `older`.
pub fn build_summary_prompt(older: &Vec<ChatMessage>) -> (r: String)
    ensures
        r@ == summary_prompt(older@),
{
    proof {
        reveal_strlit("unknown");
    }
    let ghost lines = summary_lines(older@);
    let mut text = String::new();
    let mut i: usize = 0;
    assert(lines.take(0) =~= Seq::<Seq<char>>::empty());
    while i < older.len()
        invariant
            i <= older@.len(),
            lines == summary_lines(older@),
            text@ == join_lines(lines.take(i as int)),
        decreases older.len() - i,
    {
        let m = &older[i];
        let role: &str = match m.value.get("role") {
            Some(v) => match v.as_str() {
                Some(r) => r,
                None => "unknown",
            },
            None => "unknown",
        };
        proof {
            lemma_join_lines_step(lines, i as int);
        }
        if i > 0 {
            text.append("\n");
        }
        text.append(role);
        text.append(": ");
        text.append(m.content());
        assert(text@ =~= join_lines(lines.take(i + 1)));
        i += 1;
    }
    assert(lines.take(older.len() as int) =~= lines);
    let mut prompt = String::from_str(
        "Summarize the following conversation concisely, preserving key facts, decisions, and context needed for the ongoing conversation:\n\n",
    );
    prompt.append(text.as_str());
    prompt
}

/// Splits a history for summarization: unchanged below `threshold`
/// messages or when at most `keep_recent` non-system messages exist;
/// otherwise the system message, the older messages with the request that
/// summarizes them, and the `keep_recent` newest messages.
pub fn plan_summarize(messages: Vec<ChatMessage>, threshold: usize, keep_recent: usize) -> (r:
    PreparedMessages)
    ensures
        summarize_plan_ok(messages@, threshold as nat, keep_recent as nat, r),
{
    if messages.len() < threshold {
        return PreparedMessages::Ready(messages);
    }
    if messages.len() == 0 {
        return PreparedMessages::Ready(messages);
    }
    let ghost ms = messages@;
    let sys = messages[0].is_system();
    let rest_len = if sys {
        messages.len() - 1
    } else {
        messages.len()
    };
    if rest_len <= keep_recent {
        return PreparedMessages::Ready(messages);
    }
    let mut all = messages;
    let start: usize = if sys {
        1
    } else {
        0
    };
    let split = rest_len - keep_recent;
    let recent = all.split_off(start + split);
    let older = all.split_off(start);
    let system = if sys {
        all.pop()
    } else {
        None
    };
    let ghost rest = non_system_part(ms);
    assert(rest =~= ms.subrange(start as int, ms.len() as int));
    assert(recent@ =~= rest.skip(split as int));
    assert(older@ =~= rest.take(split as int));
    assert(opt_seq(system) =~= system_part(ms));
    let prompt = build_summary_prompt(&older);
    PreparedMessages::NeedsSummary { system, older, recent, prompt }
}

/// The summary message for `summary_text`.
pub fn summary_message(summary_text: &str) -> (r: ChatMessage)
    ensures
        is_summary_message(r, summary_text@),
{
    let content = crate::text::join2("[Summary of earlier conversation]\n", summary_text);
    let content_copy = content.clone();
    let mut entries: Vec<(String, JsonValue)> = Vec::new();
    entries.push((String::from_str("content"), JsonValue::Str(content)));
    entries.push((String::from_str("role"), JsonValue::Str(String::from_str("system"))));
    proof {
        crate::json::lemma_json_entries_view(entries@);
        crate::json::lemma_json_entries_view_index(entries@, 0);
        crate::json::lemma_json_entries_view_index(entries@, 1);
        assert(crate::json::json_entries_view(entries@) =~= seq![
            ("content"@, JsonView::Str(summary_message_header() + summary_text@)),
            ("role"@, JsonView::Str("system"@)),
        ]);
    }
    let value = JsonValue::Object(entries);
    ChatMessage { value, content_text: Some(content_copy), tool_calls_text: None }
}

/// Completes a summarization: the system message, the summary message and
/// the recent messages.
pub fn finish_summary(system: Option<ChatMessage>, summary_text: &str, recent: Vec<ChatMessage>) -> (r:
    Vec<ChatMessage>)
    ensures
        r@.len() == opt_seq(system).len() + 1 + recent@.len(),
        r@.take(opt_seq(system).len() as int) == opt_seq(system),
        is_summary_message(r@[opt_seq(system).len() as int], summary_text@),
        r@.skip(opt_seq(system).len() + 1int) == recent@,
{
    let mut out: Vec<ChatMessage> = Vec::new();
    let ghost sys = opt_seq(system);
    match system {
        Some(m) => out.push(m),
        None => {},
    }
    assert(out@ =~= sys);
    out.push(summary_message(summary_text));
    let mut rec = recent;
    let ghost rec0 = rec@;
    out.append(&mut rec);
    assert(out@.take(sys.len() as int) =~= sys);
    assert(out@.skip(sys.len() + 1int) =~= rec0);
    out
}

impl InMemoryManager {
    /// Applies `strategy` to `messages`. Message count and token budget
    /// strategies finish here; the summarize strategy either leaves the
    /// history unchanged or hands back the summarization to perform.
    pub fn prepare_messages<C: TokenCounter>(
        &self,
        messages: Vec<ChatMessage>,
        strategy: &MemoryStrategy,
        counter: &C,
    ) -> (r: PreparedMessages)
        requires
            tokens_fit(counter, messages@),
        ensures
            match strategy {
                MemoryStrategy::MessageCount { max_messages } => r matches PreparedMessages::Ready(
                    v,
                ) && v@ == message_count_result(messages@, *max_messages as nat),
                MemoryStrategy::TokenBudget { max_tokens, reserve_system } => r matches PreparedMessages::Ready(v) && v@
                    == token_budget_result(counter, messages@, *max_tokens as nat, *reserve_system),
                MemoryStrategy::Summarize { threshold, keep_recent, .. } => summarize_plan_ok(
                    messages@,
                    *threshold as nat,
                    *keep_recent as nat,
                    r,
                ),
            },
    {
        match strategy {
            MemoryStrategy::MessageCount { max_messages } => PreparedMessages::Ready(
                apply_message_count(messages, *max_messages),
            ),
            MemoryStrategy::TokenBudget { max_tokens, reserve_system } => PreparedMessages::Ready(
                apply_token_budget(messages, *max_tokens, *reserve_system, counter),
            ),
            MemoryStrategy::Summarize { threshold, keep_recent, .. } => plan_summarize(
                messages,
                *threshold,
                *keep_recent,
            ),
        }
    }
}

impl MemoryStrategy {
    /// The provider and model that summarize, falling back to the defaults.
    pub fn summary_target(&self, default_provider: &str, default_model: &str) -> (r: (
        String,
        String,
    ))
        ensures
            match self {
                MemoryStrategy::Summarize { summary_provider, summary_model, .. } => {
                    &&& r.0@ == (match summary_provider {
                        Some(p) => p@,
                        None => default_provider@,
                    })
                    &&& r.1@ == (match summary_model {
                        Some(m) => m@,
                        None => default_model@,
                    })
                },
                _ => r.0@ == default_provider@ && r.1@ == default_model@,
            },
    {
        match self {
            MemoryStrategy::Summarize { summary_provider, summary_model, .. } => {
                let p = match summary_provider {
                    Some(p) => p.clone(),
                    None => String::from_str(default_provider),
                };
                let m = match summary_model {
                    Some(m) => m.clone(),
                    None => String::from_str(default_model),
                };
                (p, m)
            },
            _ => (String::from_str(default_provider), String::from_str(default_model)),
        }
    }
}

/// The error when the summarizing provider is not registered.
pub fn summary_provider_missing(provider_name: &str) -> (r: NodeError)
    ensures
        r matches NodeError::Fatal { message } && message@ == "summary LLM provider '"@
            + provider_name@ + "' not registered in engine"@,
{
    NodeError::Fatal {
        message: crate::text::join3(
            "summary LLM provider '",
            provider_name,
            "' not registered in engine",
        ),
    }
}

/// The error when the summarizing LLM call fails with `error_text`.
pub fn summary_call_failed(error_text: &str) -> (r: NodeError)
    ensures
        r matches NodeError::Retryable { message } && message@ == "summarization LLM call failed: "@
            + error_text@,
{
    NodeError::Retryable {
        message: crate::text::join2("summarization LLM call failed: ", error_text),
    }
}

/// How a summarization ends, given what the summary provider gave: `None`
/// when the provider is not registered, the call's error, or the summary
/// text. A missing provider is a fatal error and a failed call a retryable
/// one, with no messages either way; a summary gives `system`, the summary
/// message and `recent` (see `finish_summary`).
pub fn summarize_outcome(
    system: Option<ChatMessage>,
    recent: Vec<ChatMessage>,
    provider_name: &str,
    reply: Option<Result<String, String>>,
) -> (r: Result<Vec<ChatMessage>, NodeError>)
    ensures
        match reply {
            None => r matches Err(NodeError::Fatal { message }) && message@ == "summary LLM provider '"@
                + provider_name@ + "' not registered in engine"@,
            Some(Err(e)) => r matches Err(NodeError::Retryable { message }) && message@
                == "summarization LLM call failed: "@ + e@,
            Some(Ok(text)) => r matches Ok(v) && {
                &&& v@.len() == opt_seq(system).len() + 1 + recent@.len()
                &&& v@.take(opt_seq(system).len() as int) == opt_seq(system)
                &&& is_summary_message(v@[opt_seq(system).len() as int], text@)
                &&& v@.skip(opt_seq(system).len() + 1int) == recent@
            },
        },
{
    match reply {
        None => Err(summary_provider_missing(provider_name)),
        Some(Err(e)) => Err(summary_call_failed(e.as_str())),
        Some(Ok(text)) => Ok(finish_summary(system, text.as_str(), recent)),
    }
}

} // verus!
