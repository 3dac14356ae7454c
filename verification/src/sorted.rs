//! Texts in order: the lexicographic order of their characters, and sorted
//! lists without repetitions.
use vstd::prelude::*;
use vstd::string::*;

verus! {

/// Whether text `a` comes before text `b`: at the first character where
/// they differ, `a` has the smaller code point, or `a` is a proper prefix of
/// `b`. (For UTF-8 strings this is the order of their bytes.)
pub open spec fn text_lt(a: Seq<char>, b: Seq<char>) -> bool
    decreases a.len(),
{
    if a.len() == 0 {
        b.len() > 0
    } else if b.len() == 0 {
        false
    } else if a[0] != b[0] {
        (a[0] as u32) < (b[0] as u32)
    } else {
        text_lt(a.drop_first(), b.drop_first())
    }
}

/// `text_lt` is irreflexive.
pub proof fn lemma_text_lt_irreflexive(a: Seq<char>)
    ensures
        !text_lt(a, a),
    decreases a.len(),
{
    if a.len() > 0 {
        lemma_text_lt_irreflexive(a.drop_first());
    }
}

/// `text_lt` is transitive.
pub proof fn lemma_text_lt_transitive(a: Seq<char>, b: Seq<char>, c: Seq<char>)
    requires
        text_lt(a, b),
        text_lt(b, c),
    ensures
        text_lt(a, c),
    decreases a.len(),
{
    if a.len() > 0 && b.len() > 0 && c.len() > 0 {
        if a[0] == b[0] && b[0] == c[0] {
            lemma_text_lt_transitive(a.drop_first(), b.drop_first(), c.drop_first());
        }
    }
}

/// Of two different texts, one comes before the other.
pub proof fn lemma_text_lt_total(a: Seq<char>, b: Seq<char>)
    requires
        a != b,
    ensures
        text_lt(a, b) || text_lt(b, a),
    decreases a.len(),
{
    if a.len() > 0 && b.len() > 0 && a[0] != b[0] {
        vstd::utf8::char_u32_cast(a[0], a[0] as u32);
        vstd::utf8::char_u32_cast(b[0], b[0] as u32);
        assert((a[0] as u32) != (b[0] as u32));
    }
    if a.len() > 0 && b.len() > 0 && a[0] == b[0] {
        if a.drop_first() == b.drop_first() {
            assert(a =~= seq![a[0]] + a.drop_first());
            assert(b =~= seq![b[0]] + b.drop_first());
        }
        lemma_text_lt_total(a.drop_first(), b.drop_first());
    } else if a.len() == 0 && b.len() == 0 {
        assert(a =~= b);
    }
}

/// Whether `a` comes before `b` (see `text_lt`).
pub fn text_less(a: &str, b: &str) -> (r: bool)
    ensures
        r == text_lt(a@, b@),
{
    let ac = crate::expression::chars_of(a);
    let bc = crate::expression::chars_of(b);
    let mut i: usize = 0;
    assert(a@.skip(0) =~= a@);
    assert(b@.skip(0) =~= b@);
    while i < ac.len() && i < bc.len()
        invariant
            ac@ == a@,
            bc@ == b@,
            i <= ac@.len(),
            i <= bc@.len(),
            forall|j: int| 0 <= j < i ==> ac@[j] == #[trigger] bc@[j],
            text_lt(a@, b@) == text_lt(a@.skip(i as int), b@.skip(i as int)),
        decreases ac.len() - i,
    {
        let ghost sa = a@.skip(i as int);
        let ghost sb = b@.skip(i as int);
        assert(sa[0] == ac@[i as int]);
        assert(sb[0] == bc@[i as int]);
        if ac[i] != bc[i] {
            return (ac[i] as u32) < (bc[i] as u32);
        }
        assert(sa.drop_first() =~= a@.skip(i + 1));
        assert(sb.drop_first() =~= b@.skip(i + 1));
        i += 1;
    }
    let ghost sa = a@.skip(i as int);
    let ghost sb = b@.skip(i as int);
    assert(sa.len() == 0 || sb.len() == 0);
    i == ac.len() && i < bc.len()
}

/// Whether a list of texts is in strictly increasing order.
pub open spec fn strictly_sorted(s: Seq<Seq<char>>) -> bool {
    forall|i: int, j: int| 0 <= i < j < s.len() ==> text_lt(#[trigger] s[i], #[trigger] s[j])
}

/// The texts of a list of strings.
pub open spec fn texts_of(v: Seq<String>) -> Seq<Seq<char>> {
    v.map_values(|s: String| s@)
}

/// The distinct texts of `items`, in increasing order (what sorting and
/// removing repetitions gives).
pub fn sorted_unique(items: &Vec<String>) -> (r: Vec<String>)
    ensures
        strictly_sorted(texts_of(r@)),
        texts_of(r@).to_set() == texts_of(items@).to_set(),
{
    let mut out: Vec<String> = Vec::new();
    let mut k: usize = 0;
    while k < items.len()
        invariant
            k <= items@.len(),
            strictly_sorted(texts_of(out@)),
            texts_of(out@).to_set() == texts_of(items@.take(k as int)).to_set(),
        decreases items.len() - k,
    {
        let x = items[k].as_str();
        let ghost before = texts_of(out@);
        let mut pos: usize = 0;
        while pos < out.len() && text_less(out[pos].as_str(), x)
            invariant
                before == texts_of(out@),
                pos <= out@.len(),
                forall|i: int| 0 <= i < pos ==> text_lt(#[trigger] before[i], x@),
            decreases out.len() - pos,
        {
            pos += 1;
        }
        let present = pos < out.len() && crate::text::str_eq(out[pos].as_str(), x);
        if !present {
            proof {
                if pos < before.len() {
                    lemma_text_lt_total(before[pos as int], x@);
                }
            }
            out.insert(pos, String::from_str(x));
            proof {
                let after = texts_of(out@);
                assert(after =~= before.insert(pos as int, x@));
                assert forall|i: int, j: int| 0 <= i < j < after.len() implies text_lt(
                    #[trigger] after[i],
                    #[trigger] after[j],
                ) by {
                    if j < pos {
                    } else if j == pos {
                    } else if i < pos {
                        assert(after[j] == before[j - 1]);
                        if j - 1 > pos {
                            lemma_text_lt_transitive(x@, before[pos as int], before[j - 1]);
                        }
                        lemma_text_lt_transitive(after[i], x@, after[j]);
                    } else if i == pos {
                        assert(after[j] == before[j - 1]);
                        if j - 1 > pos {
                            lemma_text_lt_transitive(x@, before[pos as int], before[j - 1]);
                        }
                    } else {
                        assert(after[i] == before[i - 1]);
                        assert(after[j] == before[j - 1]);
                    }
                }
                assert(after.to_set() =~= before.to_set().insert(x@)) by {
                    assert forall|t: Seq<char>| after.to_set().contains(t) implies before.to_set().insert(
                        x@,
                    ).contains(t) by {
                        let i = choose|i: int| 0 <= i < after.len() && after[i] == t;
                        if i < pos {
                            assert(before[i] == t);
                        } else if i > pos {
                            assert(before[i - 1] == t);
                        }
                    }
                    assert forall|t: Seq<char>| before.to_set().insert(x@).contains(t) implies after.to_set().contains(
                        t,
                    ) by {
                        if t == x@ {
                            assert(after[pos as int] == t);
                        } else {
                            let i = choose|i: int| 0 <= i < before.len() && before[i] == t;
                            if i < pos {
                                assert(after[i] == t);
                            } else {
                                assert(after[i + 1] == t);
                            }
                        }
                    }
                }
            }
        } else {
            proof {
                assert(before[pos as int] == x@);
                assert(before.to_set().insert(x@) =~= before.to_set());
            }
        }
        proof {
            assert(texts_of(items@.take(k + 1)) =~= texts_of(items@.take(k as int)).push(x@));
            texts_of(items@.take(k as int)).lemma_push_to_set_commute(x@);
        }
        k += 1;
    }
    assert(items@.take(items@.len() as int) =~= items@);
    out
}

} // verus!
