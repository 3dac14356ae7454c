//! Handing a task from one agent to another through node outputs: the
//! handoff travels as an object under the key `_handoff`.
use vstd::prelude::*;
use crate::json::{entries_lookup, json_entries_view, json_get, opt_json_view, JsonValue, JsonView};

verus! {

/// A task handed from one agent to another, with its context and optional
/// constraints.
#[derive(Debug)]
pub struct AgentHandoff {
    pub from_agent: String,
    pub to_agent: String,
    pub task: JsonValue,
    pub context: JsonValue,
    pub constraints: Option<JsonValue>,
}

/// The model of a handoff.
pub struct HandoffView {
    pub from_agent: Seq<char>,
    pub to_agent: Seq<char>,
    pub task: JsonView,
    pub context: JsonView,
    pub constraints: Option<JsonView>,
}

pub open spec fn handoff_view(h: AgentHandoff) -> HandoffView {
    HandoffView {
        from_agent: h.from_agent@,
        to_agent: h.to_agent@,
        task: h.task@,
        context: h.context@,
        constraints: match h.constraints {
            Some(c) => Some(c@),
            None => None,
        },
    }
}

/// A handoff as a JSON object: its fields in order, `constraints` only when
/// there are some.
pub open spec fn handoff_json(h: HandoffView) -> JsonView {
    let base = seq![
        ("from_agent"@, JsonView::Str(h.from_agent)),
        ("to_agent"@, JsonView::Str(h.to_agent)),
        ("task"@, h.task),
        ("context"@, h.context),
    ];
    JsonView::Object(
        match h.constraints {
            Some(c) => base.push(("constraints"@, c)),
            None => base,
        },
    )
}

/// The handoff a JSON value holds: an object whose `from_agent` and
/// `to_agent` are strings and that has a `task` and a `context`;
/// `constraints` is absent when missing or null. Other members are ignored.
pub open spec fn handoff_from_json(v: JsonView) -> Option<HandoffView> {
    match v {
        JsonView::Object(_) => match (json_get(v, "from_agent"@), json_get(v, "to_agent"@), json_get(v, "task"@), json_get(v, "context"@)) {
            (Some(JsonView::Str(from)), Some(JsonView::Str(to)), Some(task), Some(context)) => Some(
                HandoffView {
                    from_agent: from,
                    to_agent: to,
                    task,
                    context,
                    constraints: match json_get(v, "constraints"@) {
                        Some(JsonView::Null) => None,
                        Some(c) => Some(c),
                        None => None,
                    },
                },
            ),
            _ => None,
        },
        _ => None,
    }
}

/// The handoff a node output carries under `_handoff`, if any.
pub open spec fn handoff_of_output(output: JsonView) -> Option<HandoffView> {
    match json_get(output, "_handoff"@) {
        Some(h) => handoff_from_json(h),
        None => None,
    }
}

impl AgentHandoff {
    /// The handoff as a JSON object (see `handoff_json`).
    pub fn to_value(&self) -> (r: JsonValue)
        ensures
            r@ == handoff_json(handoff_view(*self)),
    {
        broadcast use crate::json::group_json_view;

        let mut entries: Vec<(String, JsonValue)> = Vec::new();
        entries.push(("from_agent".to_string(), JsonValue::Str(self.from_agent.clone())));
        entries.push(("to_agent".to_string(), JsonValue::Str(self.to_agent.clone())));
        entries.push(("task".to_string(), self.task.duplicate()));
        entries.push(("context".to_string(), self.context.duplicate()));
        match &self.constraints {
            Some(c) => {
                entries.push(("constraints".to_string(), c.duplicate()));
            },
            None => {},
        }
        proof {
            crate::json::lemma_json_entries_view(entries@);
            assert(json_entries_view(entries@) =~= handoff_json(handoff_view(*self))->Object_0) by {
                assert forall|i: int| 0 <= i < entries@.len() implies json_entries_view(entries@)[i]
                    == handoff_json(handoff_view(*self))->Object_0[i] by {
                    crate::json::lemma_json_entries_view_index(entries@, i);
                }
            }
        }
        JsonValue::Object(entries)
    }

    /// The handoff a JSON value holds (see `handoff_from_json`).
    pub fn from_value(v: &JsonValue) -> (r: Option<AgentHandoff>)
        ensures
            match r {
                Some(h) => handoff_from_json(v@) == Some(handoff_view(h)),
                None => handoff_from_json(v@) is None,
            },
    {
        match v {
            JsonValue::Object(_) => {},
            _ => {
                return None;
            },
        }
        let from = match v.get("from_agent") {
            Some(JsonValue::Str(s)) => s.clone(),
            _ => {
                return None;
            },
        };
        let to = match v.get("to_agent") {
            Some(JsonValue::Str(s)) => s.clone(),
            _ => {
                return None;
            },
        };
        let task = match v.get("task") {
            Some(t) => t.duplicate(),
            None => {
                return None;
            },
        };
        let context = match v.get("context") {
            Some(c) => c.duplicate(),
            None => {
                return None;
            },
        };
        let constraints = match v.get("constraints") {
            Some(JsonValue::Null) => None,
            Some(c) => Some(c.duplicate()),
            None => None,
        };
        Some(AgentHandoff { from_agent: from, to_agent: to, task, context, constraints })
    }

    /// The handoff a node output carries under `_handoff`, if any.
    pub fn from_node_output(output: &JsonValue) -> (r: Option<AgentHandoff>)
        ensures
            match r {
                Some(h) => handoff_of_output(output@) == Some(handoff_view(h)),
                None => handoff_of_output(output@) is None,
            },
    {
        match output.get("_handoff") {
            Some(h) => AgentHandoff::from_value(h),
            None => None,
        }
    }

    /// A node input carrying this handoff: `{"_handoff": ...}`.
    pub fn to_node_input(&self) -> (r: JsonValue)
        ensures
            r@ == JsonView::Object(seq![("_handoff"@, handoff_json(handoff_view(*self)))]),
    {
        broadcast use crate::json::group_json_view;

        let mut entries: Vec<(String, JsonValue)> = Vec::new();
        entries.push(("_handoff".to_string(), self.to_value()));
        proof {
            crate::json::lemma_json_entries_view(entries@);
            crate::json::lemma_json_entries_view_index(entries@, 0);
            assert(json_entries_view(entries@) =~= seq![("_handoff"@, handoff_json(handoff_view(*self)))]);
        }
        JsonValue::Object(entries)
    }
}

/// A handoff put into a node input comes back out of it unchanged, unless
/// its constraints are `null`, which reads back as no constraints.
pub proof fn law_handoff_roundtrip(h: HandoffView)
    requires
        h.constraints != Some(JsonView::Null),
    ensures
        handoff_of_output(JsonView::Object(seq![("_handoff"@, handoff_json(h))])) == Some(h),
{
    reveal_strlit("from_agent");
    reveal_strlit("to_agent");
    reveal_strlit("task");
    reveal_strlit("context");
    reveal_strlit("constraints");
    let hj = handoff_json(h);
    let outer = seq![("_handoff"@, hj)];
    assert(entries_lookup(outer, "_handoff"@) == Some(hj));
    let es = hj->Object_0;
    reveal_with_fuel(entries_lookup, 6);
    assert("from_agent"@ != "to_agent"@) by {
        assert("from_agent"@[0] != "to_agent"@[0]);
    }
    assert(json_get(hj, "from_agent"@) == Some(JsonView::Str(h.from_agent)));
    assert("to_agent"@ != "from_agent"@);
    assert(json_get(hj, "to_agent"@) == Some(JsonView::Str(h.to_agent)));
    assert("task"@ != "from_agent"@ && "task"@ != "to_agent"@) by {
        assert("task"@[0] != "from_agent"@[0]);
        assert("task"@[1] != "to_agent"@[1]);
    }
    assert(json_get(hj, "task"@) == Some(h.task));
    assert("context"@ != "from_agent"@ && "context"@ != "to_agent"@ && "context"@ != "task"@) by {
        assert("context"@[0] != "from_agent"@[0]);
        assert("context"@[0] != "to_agent"@[0]);
        assert("context"@[0] != "task"@[0]);
    }
    assert(json_get(hj, "context"@) == Some(h.context));
    assert("constraints"@ != "from_agent"@ && "constraints"@ != "to_agent"@ && "constraints"@ != "task"@
        && "constraints"@ != "context"@) by {
        assert("constraints"@[0] != "from_agent"@[0]);
        assert("constraints"@[0] != "to_agent"@[0]);
        assert("constraints"@[0] != "task"@[0]);
        assert("constraints"@.len() != "context"@.len());
    }
}

} // verus!
