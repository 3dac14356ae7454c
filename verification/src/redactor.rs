//! Redaction of sensitive values before they are written to a run record.
use vstd::prelude::*;
use vstd::string::*;
use crate::json::{
    json_entries_view, json_seq_view, lemma_json_entries_view, lemma_json_seq_view, JsonValue,
    JsonView,
};
use crate::text::str_eq;

verus! {

/// How sensitive a value is.
#[derive(Debug)]
pub enum Sensitivity {
    /// Not sensitive: kept as it is.
    Public,
    /// A secret: replaced entirely.
    Secret,
    /// Shown masked: only the last four characters of a string stay.
    Masked,
    /// Personal data: replaced entirely.
    Pii,
    /// A rule of the deployment's own: replaced entirely.
    Custom(String),
}

/// The redactor the write pipeline applies by default.
#[derive(Debug)]
pub struct DefaultRedactor;

/// The redacted form of `v`: unchanged when not sensitive; `[REDACTED]` for a
/// secret; for a masked value, `****` and the string's last four
/// characters, or `[MASKED]` for a shorter string or a non-string; `[PII_REDACTED]` for
/// personal data; `[CUSTOM_REDACTED]` for a custom rule.
pub open spec fn redacted(sensitivity: Sensitivity, v: JsonView) -> JsonView {
    match sensitivity {
        Sensitivity::Public => v,
        Sensitivity::Secret => JsonView::Str("[REDACTED]"@),
        Sensitivity::Masked => match v {
            JsonView::Str(s) => if s.len() >= 4 {
                JsonView::Str("****"@ + s.subrange(s.len() - 4, s.len() as int))
            } else {
                JsonView::Str("[MASKED]"@)
            },
            _ => JsonView::Str("[MASKED]"@),
        },
        Sensitivity::Pii => JsonView::Str("[PII_REDACTED]"@),
        Sensitivity::Custom(_) => JsonView::Str("[CUSTOM_REDACTED]"@),
    }
}

/// A message with its `content` members redacted and its other members kept.
pub open spec fn redacted_message(sensitivity: Sensitivity, m: JsonView) -> JsonView {
    match m {
        JsonView::Object(entries) => JsonView::Object(
            entries.map_values(
                |e: (Seq<char>, JsonView)|
                    if e.0 == "content"@ {
                        (e.0, redacted(sensitivity, e.1))
                    } else {
                        e
                    },
            ),
        ),
        _ => m,
    }
}

/// Redacted LLM messages: unchanged when not sensitive; an array has each
/// message's content redacted; anything else is redacted as a whole.
pub open spec fn redacted_messages(sensitivity: Sensitivity, messages: JsonView) -> JsonView {
    if sensitivity is Public {
        messages
    } else {
        match messages {
            JsonView::Array(items) => JsonView::Array(
                items.map_values(|m: JsonView| redacted_message(sensitivity, m)),
            ),
            _ => redacted(sensitivity, messages),
        }
    }
}

/// What redaction does to a value: nothing when not sensitive; a secret,
/// personal data or a custom rule replace it with their fixed markers,
/// whatever it was; a masked string of four characters or more keeps
/// exactly its last four characters behind `****`.
pub proof fn law_redacted_values(v: JsonView, rule: Seq<char>)
    ensures
        redacted(Sensitivity::Public, v) == v,
        redacted(Sensitivity::Secret, v) == JsonView::Str("[REDACTED]"@),
        redacted(Sensitivity::Pii, v) == JsonView::Str("[PII_REDACTED]"@),
        forall|s: String| s@ == rule ==> redacted(Sensitivity::Custom(s), v) == JsonView::Str(
            "[CUSTOM_REDACTED]"@,
        ),
        forall|t: Seq<char>|
            v == JsonView::Str(t) && t.len() >= 4 ==> redacted(Sensitivity::Masked, v) == JsonView::Str(
                "****"@ + t.subrange(t.len() - 4, t.len() as int),
            ),
{
}

/// Redacting LLM messages under any sensitive rule keeps the list of
/// messages and each message's members in place, replaces each object
/// message's `content` member by its redacted value (the value `redact`
/// gives for it) and keeps every other member and every non-object message
/// as it was; under a public rule nothing changes. So under a secret rule
/// every content reads `[REDACTED]`.
pub proof fn law_redacted_messages(sensitivity: Sensitivity, messages: JsonView)
    ensures
        sensitivity is Public ==> redacted_messages(sensitivity, messages) == messages,
        !(sensitivity is Public) ==> (messages matches JsonView::Array(items) ==> (redacted_messages(
            sensitivity,
            messages,
        ) matches JsonView::Array(out) && out.len() == items.len() && forall|i: int|
            0 <= i < items.len() ==> match items[i] {
                JsonView::Object(entries) => (#[trigger] out[i]) matches JsonView::Object(es) && es.len()
                    == entries.len() && forall|j: int|
                    0 <= j < entries.len() ==> (#[trigger] es[j]).0 == entries[j].0 && es[j].1 == (
                    if entries[j].0 == "content"@ {
                        redacted(sensitivity, entries[j].1)
                    } else {
                        entries[j].1
                    }),
                other => out[i] == other,
            })),
        !(sensitivity is Public) && !(messages is Array) ==> redacted_messages(sensitivity, messages)
            == redacted(sensitivity, messages),
{
    if !(sensitivity is Public) {
        if let JsonView::Array(items) = messages {
            let out = items.map_values(|m: JsonView| redacted_message(sensitivity, m));
            assert forall|i: int| 0 <= i < items.len() implies match items[i] {
                JsonView::Object(entries) => (#[trigger] out[i]) matches JsonView::Object(es) && es.len()
                    == entries.len() && forall|j: int|
                    0 <= j < entries.len() ==> (#[trigger] es[j]).0 == entries[j].0 && es[j].1 == (
                    if entries[j].0 == "content"@ {
                        redacted(sensitivity, entries[j].1)
                    } else {
                        entries[j].1
                    }),
                other => out[i] == other,
            } by {
                assert(out[i] == redacted_message(sensitivity, items[i]));
            }
        }
    }
}

fn text_value(s: &str) -> (r: JsonValue)
    ensures
        r@ == JsonView::Str(s@),
{
    JsonValue::Str(String::from_str(s))
}

impl DefaultRedactor {
    /// The redacted form of `value` (see `redacted`); the field name does not
    /// matter.
    pub fn redact(&self, field: &str, sensitivity: &Sensitivity, value: &JsonValue) -> (r: JsonValue)
        ensures
            r@ == redacted(*sensitivity, value@),
    {
        match sensitivity {
            Sensitivity::Public => value.duplicate(),
            Sensitivity::Secret => text_value("[REDACTED]"),
            Sensitivity::Masked => match value {
                JsonValue::Str(s) => {
                    let st = s.as_str();
                    let n = st.unicode_len();
                    if n >= 4 {
                        let tail = st.substring_char(n - 4, n);
                        let mut out = String::from_str("****");
                        out.append(tail);
                        JsonValue::Str(out)
                    } else {
                        text_value("[MASKED]")
                    }
                },
                _ => text_value("[MASKED]"),
            },
            Sensitivity::Pii => text_value("[PII_REDACTED]"),
            Sensitivity::Custom(_) => text_value("[CUSTOM_REDACTED]"),
        }
    }

    fn redact_message(&self, message: &JsonValue, sensitivity: &Sensitivity) -> (r: JsonValue)
        ensures
            r@ == redacted_message(*sensitivity, message@),
    {
        match message {
            JsonValue::Object(entries) => {
                let ghost ev = json_entries_view(entries@);
                proof {
                    lemma_json_entries_view(entries@);
                }
                let mut out: Vec<(String, JsonValue)> = Vec::new();
                let mut i: usize = 0;
                while i < entries.len()
                    invariant
                        i <= entries@.len(),
                        ev == json_entries_view(entries@),
                        ev.len() == entries@.len(),
                        forall|j: int| 0 <= j < ev.len() ==> #[trigger] ev[j] == (entries@[j].0@, entries@[j].1@),
                        json_entries_view(out@) == ev.take(i as int).map_values(
                            |e: (Seq<char>, JsonView)|
                                if e.0 == "content"@ {
                                    (e.0, redacted(*sensitivity, e.1))
                                } else {
                                    e
                                },
                        ),
                    decreases entries.len() - i,
                {
                    let (k, v) = &entries[i];
                    assert(ev[i as int] == (k@, v@));
                    let nv = if str_eq(k.as_str(), "content") {
                        assert(ev[i as int].0 == "content"@);
                        self.redact("content", sensitivity, v)
                    } else {
                        v.duplicate()
                    };
                    let ghost before = out@;
                    out.push((String::from_str(k.as_str()), nv));
                    proof {
                        lemma_json_entries_view(out@);
                        lemma_json_entries_view(before);
                        assert(json_entries_view(out@) =~= json_entries_view(before).push(
                            (k@, nv@),
                        ));
                        assert(ev.take(i + 1) =~= ev.take(i as int).push(ev[i as int]));
                    }
                    i += 1;
                }
                proof {
                    assert(ev.take(ev.len() as int) =~= ev);
                }
                JsonValue::Object(out)
            },
            _ => message.duplicate(),
        }
    }

    /// LLM messages with their content redacted (see `redacted_messages`).
    pub fn redact_llm_messages(&self, messages: &JsonValue, sensitivity: &Sensitivity) -> (r:
        JsonValue)
        ensures
            r@ == redacted_messages(*sensitivity, messages@),
    {
        if let Sensitivity::Public = sensitivity {
            return messages.duplicate();
        }
        match messages {
            JsonValue::Array(items) => {
                let ghost iv = json_seq_view(items@);
                proof {
                    lemma_json_seq_view(items@);
                }
                let mut out: Vec<JsonValue> = Vec::new();
                let mut i: usize = 0;
                while i < items.len()
                    invariant
                        i <= items@.len(),
                        iv == json_seq_view(items@),
                        iv.len() == items@.len(),
                        forall|j: int| 0 <= j < iv.len() ==> #[trigger] iv[j] == items@[j]@,
                        messages@ == JsonView::Array(iv),
                        json_seq_view(out@) == iv.take(i as int).map_values(
                            |m: JsonView| redacted_message(*sensitivity, m),
                        ),
                    decreases items.len() - i,
                {
                    assert(iv[i as int] == items@[i as int]@);
                    let m = self.redact_message(&items[i], sensitivity);
                    let ghost before = out@;
                    out.push(m);
                    proof {
                        lemma_json_seq_view(out@);
                        lemma_json_seq_view(before);
                        assert(json_seq_view(out@) =~= json_seq_view(before).push(m@));
                        assert(iv.take(i + 1) =~= iv.take(i as int).push(iv[i as int]));
                    }
                    i += 1;
                }
                proof {
                    assert(iv.take(iv.len() as int) =~= iv);
                }
                JsonValue::Array(out)
            },
            _ => self.redact("llm_messages", sensitivity, messages),
        }
    }
}

} // verus!
