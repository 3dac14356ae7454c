//! Token estimation for conversation messages.
use vstd::prelude::*;
use vstd::string::*;
use crate::json::{json_get, json_get_str, JsonValue};

verus! {

/// A conversation message as the memory strategies read it.
///
/// `value` is the message itself. `content_text` is its `content` member
/// rendered as text (a string's own text, any other JSON value's serialized
/// form), `None` when the message has no `content` member. `tool_calls_text`
/// is the serialized `tool_calls` member, `None` when it has none.
#[derive(Debug)]
pub struct ChatMessage {
    pub value: JsonValue,
    pub content_text: Option<String>,
    pub tool_calls_text: Option<String>,
}

/// The role of a message: its `role` member when that is a string, else empty.
pub open spec fn message_role(m: ChatMessage) -> Seq<char> {
    match json_get_str(m.value@, "role"@) {
        Some(r) => r,
        None => Seq::empty(),
    }
}

/// The content text of a message, empty when it has no content.
pub open spec fn message_content(m: ChatMessage) -> Seq<char> {
    match m.content_text {
        Some(c) => c@,
        None => Seq::empty(),
    }
}

/// Whether the message's role is `"system"`.
pub open spec fn is_system_message(m: ChatMessage) -> bool {
    json_get_str(m.value@, "role"@) == Some("system"@)
}

/// Estimates how many tokens a text takes for some model.
pub trait TokenCounter {
    /// The estimate for `text`.
    spec fn spec_count_tokens(&self, text: Seq<char>) -> nat;

    /// Counts the tokens in `text`.
    fn count_tokens(&self, text: &str) -> (n: usize)
        ensures
            n as nat == self.spec_count_tokens(text@),
    ;
}

/// The tokens of one message: its role, its content and its serialized tool calls.
pub open spec fn message_tokens<C: TokenCounter>(c: &C, m: ChatMessage) -> nat {
    c.spec_count_tokens(message_role(m)) + c.spec_count_tokens(message_content(m)) + match m.tool_calls_text {
        Some(t) => c.spec_count_tokens(t@),
        None => 0,
    }
}

/// The tokens of a list of messages: the sum over the messages.
pub open spec fn messages_tokens<C: TokenCounter>(c: &C, ms: Seq<ChatMessage>) -> nat
    decreases ms.len(),
{
    if ms.len() == 0 {
        0
    } else {
        messages_tokens(c, ms.drop_last()) + message_tokens(c, ms.last())
    }
}

/// `ceil(n / 4)`.
pub open spec fn quarter_ceil(n: nat) -> nat {
    if n % 4 == 0 {
        n / 4
    } else {
        n / 4 + 1
    }
}

/// Estimates tokens as one token per four characters, rounded up.
pub struct CharEstimateCounter;

impl TokenCounter for CharEstimateCounter {
    open spec fn spec_count_tokens(&self, text: Seq<char>) -> nat {
        quarter_ceil(text.len())
    }

    fn count_tokens(&self, text: &str) -> (n: usize) {
        let len = text.unicode_len();
        if len % 4 == 0 {
            len / 4
        } else {
            len / 4 + 1
        }
    }
}

impl ChatMessage {
    /// A message from its JSON value and the renderings of its non-string
    /// `content` and of its `tool_calls` (used only when those members exist).
    pub fn new(
        value: JsonValue,
        rendered_content: Option<String>,
        rendered_tool_calls: Option<String>,
    ) -> (r: ChatMessage)
        ensures
            r.value@ == value@,
            json_get(value@, "content"@) is None ==> r.content_text is None,
            json_get_str(value@, "content"@) matches Some(s) ==> r.content_text matches Some(t)
                && t@ == s,
            (json_get(value@, "content"@) is Some && json_get_str(value@, "content"@) is None)
                ==> r.content_text == rendered_content,
            json_get(value@, "tool_calls"@) is None ==> r.tool_calls_text is None,
            json_get(value@, "tool_calls"@) is Some ==> r.tool_calls_text == rendered_tool_calls,
    {
        let content_text = match value.get("content") {
            None => None,
            Some(c) => match c.as_str() {
                Some(s) => Some(String::from_str(s)),
                None => rendered_content,
            },
        };
        let tool_calls_text = match value.get("tool_calls") {
            None => None,
            Some(_) => rendered_tool_calls,
        };
        ChatMessage { value, content_text, tool_calls_text }
    }

    /// The role member's text, empty when missing or not a string.
    pub fn role(&self) -> (r: &str)
        ensures
            r@ == message_role(*self),
    {
        proof {
            reveal_strlit("");
        }
        match self.value.get("role") {
            Some(v) => match v.as_str() {
                Some(s) => s,
                None => "",
            },
            None => "",
        }
    }

    /// The content text, empty when the message has none.
    pub fn content(&self) -> (r: &str)
        ensures
            r@ == message_content(*self),
    {
        proof {
            reveal_strlit("");
        }
        match &self.content_text {
            Some(c) => c.as_str(),
            None => "",
        }
    }

    /// Whether this is a system message.
    pub fn is_system(&self) -> (r: bool)
        ensures
            r == is_system_message(*self),
    {
        match self.value.get("role") {
            Some(v) => match v.as_str() {
                Some(s) => crate::text::str_eq(s, "system"),
                None => false,
            },
            None => false,
        }
    }
}

/// Counts the tokens of one message.
pub fn count_message<C: TokenCounter>(counter: &C, m: &ChatMessage) -> (n: usize)
    requires
        message_tokens(counter, *m) <= usize::MAX,
    ensures
        n as nat == message_tokens(counter, *m),
{
    let a = counter.count_tokens(m.role());
    let b = counter.count_tokens(m.content());
    let c = match &m.tool_calls_text {
        Some(t) => counter.count_tokens(t.as_str()),
        None => 0,
    };
    a + b + c
}

/// Counts the tokens of a list of messages: the sum of their counts.
pub fn count_messages<C: TokenCounter>(counter: &C, messages: &[ChatMessage]) -> (n: usize)
    requires
        messages_tokens(counter, messages@) <= usize::MAX,
    ensures
        n as nat == messages_tokens(counter, messages@),
{
    let mut total: usize = 0;
    let mut i: usize = 0;
    while i < messages.len()
        invariant
            i <= messages@.len(),
            messages_tokens(counter, messages@) <= usize::MAX,
            total as nat == messages_tokens(counter, messages@.take(i as int)),
        decreases messages.len() - i,
    {
        proof {
            assert(messages@.take(i + 1).drop_last() =~= messages@.take(i as int));
            lemma_messages_tokens_prefix(counter, messages@, i + 1);
        }
        let t = count_message(counter, &messages[i]);
        total = total + t;
        i += 1;
    }
    assert(messages@.take(messages.len() as int) =~= messages@);
    total
}

/// The tokens of a prefix never exceed those of the whole list.
pub proof fn lemma_messages_tokens_prefix<C: TokenCounter>(
    c: &C,
    ms: Seq<ChatMessage>,
    k: int,
)
    requires
        0 <= k <= ms.len(),
    ensures
        messages_tokens(c, ms.take(k)) <= messages_tokens(c, ms),
        k > 0 ==> message_tokens(c, ms[k - 1]) <= messages_tokens(c, ms),
    decreases ms.len(),
{
    if ms.len() > 0 {
        if k == ms.len() {
            assert(ms.take(k) =~= ms);
            lemma_messages_tokens_prefix(c, ms.drop_last(), k - 1);
        } else {
            lemma_messages_tokens_prefix(c, ms.drop_last(), k);
            assert(ms.drop_last().take(k) =~= ms.take(k));
            if k > 0 {
                assert(ms.drop_last()[k - 1] == ms[k - 1]);
            }
        }
    }
}

} // verus!
