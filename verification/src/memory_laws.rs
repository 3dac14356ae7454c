//! Properties of the history-trimming strategies.
use vstd::prelude::*;
use crate::memory::{
    budget_kept, first_is_system, initial_budget, last_n, message_count_result, non_system_part,
    sat_sub, system_part, token_budget_result,
};
use crate::token_counter::{message_tokens, messages_tokens, ChatMessage, TokenCounter};

verus! {

proof fn lemma_split(ms: Seq<ChatMessage>)
    ensures
        ms == system_part(ms) + non_system_part(ms),
{
    if first_is_system(ms) {
        assert(ms =~= seq![ms[0]] + ms.drop_first());
    } else {
        assert(ms =~= Seq::<ChatMessage>::empty() + ms);
    }
}

/// Every strategy keeps a leading system message: the message-count and
/// token-budget results start with it.
pub proof fn law_system_message_kept<C: TokenCounter>(
    c: &C,
    ms: Seq<ChatMessage>,
    max_messages: nat,
    max_tokens: nat,
    reserve_system: bool,
)
    requires
        first_is_system(ms),
    ensures
        message_count_result(ms, max_messages).len() > 0,
        message_count_result(ms, max_messages)[0] == ms[0],
        token_budget_result(c, ms, max_tokens, reserve_system).len() > 0,
        token_budget_result(c, ms, max_tokens, reserve_system)[0] == ms[0],
{
}

/// The message-count strategy keeps the leading system message, if any, and
/// the last `max_messages` other messages (all of them when there are no
/// more).
pub proof fn law_message_count_window(ms: Seq<ChatMessage>, max_messages: nat)
    ensures
        message_count_result(ms, max_messages) == system_part(ms) + last_n(
            non_system_part(ms),
            max_messages,
        ),
        message_count_result(ms, max_messages).len() <= system_part(ms).len() + max_messages,
{
    lemma_split(ms);
}

proof fn lemma_last_n_push(s: Seq<ChatMessage>, j: nat)
    requires
        s.len() > 0,
        j < s.len(),
    ensures
        last_n(s, j + 1) == last_n(s.drop_last(), j).push(s.last()),
{
    assert(last_n(s, j + 1) =~= last_n(s.drop_last(), j).push(s.last()));
}

proof fn lemma_budget_kept<C: TokenCounter>(c: &C, older: Seq<ChatMessage>, budget: nat, kept: nat)
    ensures
        ({
            let k2 = budget_kept(c, older, budget, kept);
            let taken = last_n(older, (k2 - kept) as nat);
            &&& kept <= k2 <= kept + older.len()
            &&& (older.len() > 0 && kept == 0) ==> k2 >= 1
            &&& (kept > 0 || older.len() == 0 || message_tokens(c, older.last()) <= budget)
                ==> messages_tokens(c, taken) <= budget
        }),
    decreases older.len(),
{
    if older.len() > 0 {
        let t = message_tokens(c, older.last());
        if t > budget && kept > 0 {
            assert(last_n(older, 0) =~= Seq::<ChatMessage>::empty());
        } else {
            let rest = older.drop_last();
            let b2 = sat_sub(budget, t);
            lemma_budget_kept(c, rest, b2, kept + 1);
            let k2 = budget_kept(c, older, budget, kept);
            assert(k2 == budget_kept(c, rest, b2, kept + 1));
            let j = (k2 - kept - 1) as nat;
            lemma_last_n_push(older, j);
            let taken = last_n(older, (k2 - kept) as nat);
            assert(taken == last_n(rest, j).push(older.last()));
            assert(taken.drop_last() =~= last_n(rest, j));
            assert(messages_tokens(c, taken) == messages_tokens(c, last_n(rest, j)) + t);
        }
    } else {
        assert(last_n(older, 0) =~= Seq::<ChatMessage>::empty());
    }
}

/// The token-budget strategy keeps the leading system message, if any, and
/// the newest other messages, newest first, while they fit the budget: the
/// newest is always kept, and when it fits, all the kept messages together
/// fit. The budget is `max_tokens`, less the system message's tokens unless
/// those are reserved.
pub proof fn law_token_budget_fits<C: TokenCounter>(
    c: &C,
    ms: Seq<ChatMessage>,
    max_tokens: nat,
    reserve_system: bool,
)
    ensures
        ({
            let rest = non_system_part(ms);
            let budget = initial_budget(c, ms, max_tokens, reserve_system);
            let kept = last_n(rest, budget_kept(c, rest, budget, 0));
            &&& token_budget_result(c, ms, max_tokens, reserve_system) == system_part(ms) + kept
            &&& kept.len() <= rest.len()
            &&& kept == rest.subrange(rest.len() - kept.len(), rest.len() as int)
            &&& rest.len() > 0 ==> kept.len() > 0 && kept.last() == rest.last()
            &&& (rest.len() == 0 || message_tokens(c, rest.last()) <= budget) ==> messages_tokens(
                c,
                kept,
            ) <= budget
        }),
{
    let rest = non_system_part(ms);
    let budget = initial_budget(c, ms, max_tokens, reserve_system);
    lemma_budget_kept(c, rest, budget, 0);
    lemma_split(ms);
    let kept = last_n(rest, budget_kept(c, rest, budget, 0));
    if rest.len() <= budget_kept(c, rest, budget, 0) {
        assert(rest.subrange(0, rest.len() as int) =~= rest);
    }
    if ms.len() == 0 {
        assert(rest.len() == 0);
        assert(last_n(rest, budget_kept(c, rest, budget, 0)) =~= Seq::<ChatMessage>::empty());
        assert(system_part(ms) + Seq::<ChatMessage>::empty() =~= ms);
    }
}

/// When the system message's tokens are not reserved and fit within
/// `max_tokens`, and the newest other message fits what is left, the whole
/// token-budget result fits within `max_tokens`.
pub proof fn law_token_budget_total<C: TokenCounter>(
    c: &C,
    ms: Seq<ChatMessage>,
    max_tokens: nat,
)
    requires
        first_is_system(ms) ==> message_tokens(c, ms[0]) <= max_tokens,
        non_system_part(ms).len() > 0 ==> message_tokens(c, non_system_part(ms).last())
            <= initial_budget(c, ms, max_tokens, false),
    ensures
        messages_tokens(c, token_budget_result(c, ms, max_tokens, false)) <= max_tokens,
{
    law_token_budget_fits(c, ms, max_tokens, false);
    let rest = non_system_part(ms);
    let budget = initial_budget(c, ms, max_tokens, false);
    let kept = last_n(rest, budget_kept(c, rest, budget, 0));
    law_tokens_concat(c, system_part(ms), kept);
    assert(messages_tokens(c, kept) <= budget);
    if first_is_system(ms) {
        assert(system_part(ms).drop_last() =~= Seq::<ChatMessage>::empty());
        assert(messages_tokens(c, Seq::<ChatMessage>::empty()) == 0);
        assert(system_part(ms).last() == ms[0]);
        assert(messages_tokens(c, system_part(ms)) == message_tokens(c, ms[0]));
        assert(budget == max_tokens - message_tokens(c, ms[0]));
    } else {
        assert(messages_tokens(c, Seq::<ChatMessage>::empty()) == 0);
        assert(messages_tokens(c, system_part(ms)) == 0);
    }
}

/// Counting tokens is additive: the tokens of two lists of messages put
/// together are the tokens of the one plus those of the other.
pub proof fn law_tokens_concat<C: TokenCounter>(c: &C, a: Seq<ChatMessage>, b: Seq<ChatMessage>)
    ensures
        messages_tokens(c, a + b) == messages_tokens(c, a) + messages_tokens(c, b),
    decreases b.len(),
{
    if b.len() == 0 {
        assert(a + b =~= a);
    } else {
        law_tokens_concat(c, a, b.drop_last());
        assert((a + b).drop_last() =~= a + b.drop_last());
    }
}

} // verus!
