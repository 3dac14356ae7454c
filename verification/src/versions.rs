//! Listing a flow's versions: newest first, a page at a time.
use vstd::prelude::*;
use crate::clock::Timestamp;
use crate::sorted::{lemma_text_lt_irreflexive, lemma_text_lt_transitive, text_less, text_lt};
use crate::text::str_eq;

verus! {

/// What the listing reads of a stored version: its flow, its id and when
/// it was created.
#[derive(Debug)]
pub struct VersionKey {
    pub flow_id: String,
    pub version_id: String,
    pub created_at: Timestamp,
}

/// Whether `a` lists before `b`: created later, or created at the same
/// time with a greater version id.
pub open spec fn newer(a: VersionKey, b: VersionKey) -> bool {
    ||| a.created_at.secs > b.created_at.secs
    ||| a.created_at.secs == b.created_at.secs && a.created_at.nanos > b.created_at.nanos
    ||| a.created_at == b.created_at && text_lt(b.version_id@, a.version_id@)
}

/// Inserts position `x` into the listing `s`: before the first entry it is
/// newer than, so entries that tie keep their order.
pub open spec fn insert_newest(keys: Seq<VersionKey>, s: Seq<usize>, x: usize) -> Seq<usize>
    decreases s.len(),
{
    if s.len() == 0 {
        seq![x]
    } else if newer(keys[x as int], keys[s[0] as int]) {
        seq![x] + s
    } else {
        seq![s[0]] + insert_newest(keys, s.drop_first(), x)
    }
}

/// The positions of the first `k` keys that belong to flow `flow_id`,
/// newest first.
pub open spec fn newest_first(keys: Seq<VersionKey>, flow_id: Seq<char>, k: int) -> Seq<usize>
    decreases k,
{
    if k <= 0 {
        Seq::empty()
    } else {
        let prev = newest_first(keys, flow_id, k - 1);
        if keys[k - 1].flow_id@ == flow_id {
            insert_newest(keys, prev, (k - 1) as usize)
        } else {
            prev
        }
    }
}

/// A page of the listing: `limit` versions after skipping `offset`.
pub open spec fn version_page(keys: Seq<VersionKey>, flow_id: Seq<char>, limit: nat, offset: nat) -> Seq<usize> {
    let all = newest_first(keys, flow_id, keys.len() as int);
    let rest = if offset <= all.len() { all.skip(offset as int) } else { Seq::empty() };
    if limit <= rest.len() { rest.take(limit as int) } else { rest }
}

fn is_newer(a: &VersionKey, b: &VersionKey) -> (r: bool)
    ensures
        r == newer(*a, *b),
{
    a.created_at.secs > b.created_at.secs || (a.created_at.secs == b.created_at.secs
        && a.created_at.nanos > b.created_at.nanos) || (a.created_at.secs == b.created_at.secs
        && a.created_at.nanos == b.created_at.nanos && text_less(
        b.version_id.as_str(),
        a.version_id.as_str(),
    ))
}

proof fn lemma_insert_prefix(keys: Seq<VersionKey>, s: Seq<usize>, x: usize, p: int)
    requires
        0 <= p <= s.len(),
        forall|j: int| 0 <= j < p ==> !newer(keys[x as int], #[trigger] keys[s[j] as int]),
    ensures
        insert_newest(keys, s, x) == s.take(p) + insert_newest(keys, s.skip(p), x),
    decreases p,
{
    if p == 0 {
        assert(s.take(0) + insert_newest(keys, s.skip(0), x) =~= insert_newest(keys, s, x)) by {
            assert(s.skip(0) =~= s);
        }
    } else {
        let t = s.drop_first();
        assert(!newer(keys[x as int], keys[s[0] as int]));
        assert forall|j: int| 0 <= j < p - 1 implies !newer(keys[x as int], #[trigger] keys[t[j] as int]) by {
            assert(t[j] == s[j + 1]);
        }
        lemma_insert_prefix(keys, t, x, p - 1);
        assert(t.skip(p - 1) =~= s.skip(p));
        assert(seq![s[0]] + (t.take(p - 1) + insert_newest(keys, t.skip(p - 1), x)) =~= s.take(p)
            + insert_newest(keys, s.skip(p), x));
    }
}

fn insert_version(out: &mut Vec<usize>, keys: &Vec<VersionKey>, x: usize)
    requires
        x < keys@.len(),
        forall|j: int| 0 <= j < old(out)@.len() ==> #[trigger] old(out)@[j] < keys@.len(),
    ensures
        final(out)@ == insert_newest(keys@, old(out)@, x),
        forall|j: int| 0 <= j < final(out)@.len() ==> #[trigger] final(out)@[j] < keys@.len(),
{
    let ghost s = out@;
    let mut p: usize = 0;
    while p < out.len() && !is_newer(&keys[x], &keys[out[p]])
        invariant
            p <= out@.len(),
            out@ == s,
            x < keys@.len(),
            forall|j: int| 0 <= j < s.len() ==> #[trigger] s[j] < keys@.len(),
            forall|j: int| 0 <= j < p ==> !newer(keys@[x as int], #[trigger] keys@[s[j] as int]),
        decreases out.len() - p,
    {
        p += 1;
    }
    proof {
        lemma_insert_prefix(keys@, s, x, p as int);
        if p < s.len() {
            assert(newer(keys@[x as int], keys@[s.skip(p as int)[0] as int]));
        } else {
            assert(s.skip(p as int) =~= Seq::<usize>::empty());
        }
    }
    out.insert(p, x);
    assert(out@ =~= s.take(p as int) + insert_newest(keys@, s.skip(p as int), x));
}

/// The positions in `keys` of a page of flow `flow_id`'s versions, newest
/// first (by creation time, then by version id), `limit` of them after
/// skipping `offset` (see `version_page`).
pub fn list_version_positions(keys: &Vec<VersionKey>, flow_id: &str, limit: usize, offset: usize) -> (r: Vec<usize>)
    ensures
        r@ == version_page(keys@, flow_id@, limit as nat, offset as nat),
{
    let mut all: Vec<usize> = Vec::new();
    let mut k: usize = 0;
    while k < keys.len()
        invariant
            k <= keys@.len(),
            all@ == newest_first(keys@, flow_id@, k as int),
            forall|j: int| 0 <= j < all@.len() ==> #[trigger] all@[j] < keys@.len(),
        decreases keys.len() - k,
    {
        if str_eq(keys[k].flow_id.as_str(), flow_id) {
            insert_version(&mut all, keys, k);
        }
        k += 1;
    }
    let mut out: Vec<usize> = Vec::new();
    let mut i: usize = offset;
    while i < all.len() && out.len() < limit
        invariant
            offset <= i,
            out@.len() <= limit,
            i == offset + out@.len(),
            offset > all@.len() ==> out@.len() == 0,
            offset <= all@.len() ==> i <= all@.len(),
            offset <= all@.len() ==> out@ == all@.skip(offset as int).take(out@.len() as int),
        decreases all.len() - i,
    {
        out.push(all[i]);
        i += 1;
        assert(out@ =~= all@.skip(offset as int).take(out@.len() as int));
    }
    proof {
        let rest = if offset <= all@.len() { all@.skip(offset as int) } else { Seq::empty() };
        if offset > all@.len() {
            assert(out@ =~= Seq::<usize>::empty());
        } else if limit <= rest.len() {
            assert(rest.len() == all@.len() - offset);
            if out@.len() < limit {
                assert(i >= all@.len());
                assert(out@.len() >= rest.len());
            }
            assert(out@.len() == limit);
            assert(out@ =~= rest.take(limit as int));
        } else {
            assert(out@.len() == rest.len());
            assert(out@ =~= rest);
        }
    }
    out
}


/// Whether a listing of positions is newest first: no entry lists after
/// one it is newer than.
pub open spec fn listed_newest_first(keys: Seq<VersionKey>, s: Seq<usize>) -> bool {
    forall|i: int, j: int| 0 <= i < j < s.len() ==> !newer(keys[s[j] as int], keys[s[i] as int])
}

proof fn lemma_newer_order(a: VersionKey, b: VersionKey, c: VersionKey)
    ensures
        newer(a, b) ==> !newer(b, a),
        newer(a, b) && newer(b, c) ==> newer(a, c),
{
    if newer(a, b) && newer(b, a) {
        if a.created_at == b.created_at {
            lemma_text_lt_transitive(b.version_id@, a.version_id@, b.version_id@);
            lemma_text_lt_irreflexive(b.version_id@);
        }
    }
    if newer(a, b) && newer(b, c) && a.created_at == b.created_at && b.created_at == c.created_at {
        lemma_text_lt_transitive(c.version_id@, b.version_id@, a.version_id@);
    }
}

proof fn lemma_insert_newest(keys: Seq<VersionKey>, s: Seq<usize>, x: usize)
    requires
        listed_newest_first(keys, s),
    ensures
        listed_newest_first(keys, insert_newest(keys, s, x)),
        insert_newest(keys, s, x).len() == s.len() + 1,
    decreases s.len(),
{
    lemma_insert_members(keys, s, x);
    let r = insert_newest(keys, s, x);
    if s.len() == 0 {
        assert(r =~= seq![x]);
    } else if newer(keys[x as int], keys[s[0] as int]) {
        assert forall|i: int, j: int| 0 <= i < j < r.len() implies !newer(keys[r[j] as int], keys[r[i] as int]) by {
            if i == 0 {
                assert(r[j] == s[j - 1]);
                lemma_newer_order(keys[s[j - 1] as int], keys[x as int], keys[s[0] as int]);
                lemma_newer_order(keys[x as int], keys[s[0] as int], keys[x as int]);
                if j - 1 > 0 {
                    assert(!newer(keys[s[j - 1] as int], keys[s[0] as int]));
                }
            } else {
                assert(r[i] == s[i - 1]);
                assert(r[j] == s[j - 1]);
            }
        }
    } else {
        let t = s.drop_first();
        assert forall|i: int, j: int| 0 <= i < j < t.len() implies !newer(keys[t[j] as int], keys[t[i] as int]) by {
            assert(t[i] == s[i + 1]);
            assert(t[j] == s[j + 1]);
        }
        lemma_insert_newest(keys, t, x);
        lemma_insert_members(keys, t, x);
        let u = insert_newest(keys, t, x);
        assert(r =~= seq![s[0]] + u);
        assert forall|i: int, j: int| 0 <= i < j < r.len() implies !newer(keys[r[j] as int], keys[r[i] as int]) by {
            if i == 0 {
                assert(r[j] == u[j - 1]);
                assert(u.contains(u[j - 1]));
                if u[j - 1] != x {
                    assert(t.contains(u[j - 1]));
                    let k = choose|k: int| 0 <= k < t.len() && t[k] == u[j - 1];
                    assert(s[k + 1] == u[j - 1]);
                }
            } else {
                assert(r[i] == u[i - 1]);
                assert(r[j] == u[j - 1]);
            }
        }
    }
}

/// The listing of a flow's versions is newest first, and holds each
/// version of that flow exactly once and no other.
pub proof fn law_versions_newest_first(keys: Seq<VersionKey>, flow_id: Seq<char>, k: int)
    requires
        0 <= k <= keys.len(),
        keys.len() <= usize::MAX,
    ensures
        listed_newest_first(keys, newest_first(keys, flow_id, k)),
        newest_first(keys, flow_id, k).no_duplicates(),
        forall|y: usize| #[trigger] newest_first(keys, flow_id, k).contains(y) <==> (y < k && keys[y as int].flow_id@ == flow_id),
    decreases k,
{
    if k > 0 {
        law_versions_newest_first(keys, flow_id, k - 1);
        let p = newest_first(keys, flow_id, k - 1);
        if keys[k - 1].flow_id@ == flow_id {
            lemma_insert_newest(keys, p, (k - 1) as usize);
            lemma_insert_members(keys, p, (k - 1) as usize);
            assert(!p.contains((k - 1) as usize));
            lemma_insert_no_dup(keys, p, (k - 1) as usize);
        }
        assert forall|y: usize| #[trigger] newest_first(keys, flow_id, k).contains(y) <==> (y < k
            && keys[y as int].flow_id@ == flow_id) by {
            assert(p.contains(y) <==> (y < k - 1 && keys[y as int].flow_id@ == flow_id));
        }
    }
}

proof fn lemma_insert_no_dup(keys: Seq<VersionKey>, s: Seq<usize>, x: usize)
    requires
        s.no_duplicates(),
        !s.contains(x),
    ensures
        insert_newest(keys, s, x).no_duplicates(),
    decreases s.len(),
{
    if s.len() > 0 && !newer(keys[x as int], keys[s[0] as int]) {
        let t = s.drop_first();
        assert(!t.contains(x)) by {
            if t.contains(x) {
                let k = choose|k: int| 0 <= k < t.len() && t[k] == x;
                assert(s[k + 1] == x);
            }
        }
        lemma_insert_no_dup(keys, t, x);
        assert(listed_newest_first(keys, Seq::<usize>::empty()));
        let u = insert_newest(keys, t, x);
        let r = insert_newest(keys, s, x);
        assert(r =~= seq![s[0]] + u);
        assert forall|i: int, j: int| 0 <= i < r.len() && 0 <= j < r.len() && i != j implies r[i] != r[j] by {
            if i > 0 && j > 0 {
                assert(r[i] == u[i - 1]);
                assert(r[j] == u[j - 1]);
            } else {
                let m = if i == 0 { j } else { i };
                assert(r[m] == u[m - 1]);
                assert(r[0] == s[0]);
                lemma_insert_members(keys, t, x);
                assert(u.contains(u[m - 1]));
                if u[m - 1] != x {
                    let q = choose|q: int| 0 <= q < t.len() && t[q] == u[m - 1];
                    assert(s[q + 1] == u[m - 1]);
                } else {
                    assert(s[0] != x);
                }
            }
        }
    } else if s.len() > 0 {
        let r = insert_newest(keys, s, x);
        assert forall|i: int, j: int| 0 <= i < r.len() && 0 <= j < r.len() && i != j implies r[i] != r[j] by {
            if i > 0 && j > 0 {
                assert(r[i] == s[i - 1]);
                assert(r[j] == s[j - 1]);
            } else {
                let m = if i == 0 { j } else { i };
                assert(r[m] == s[m - 1]);
            }
        }
    }
}

proof fn lemma_insert_members(keys: Seq<VersionKey>, s: Seq<usize>, x: usize)
    ensures
        forall|y: usize| #[trigger] insert_newest(keys, s, x).contains(y) <==> (s.contains(y) || y == x),
    decreases s.len(),
{
    let r = insert_newest(keys, s, x);
    if s.len() == 0 {
        assert forall|y: usize| r.contains(y) <==> (s.contains(y) || y == x) by {
            if r.contains(y) {
                assert(r[0] == x);
            }
            if y == x {
                assert(r[0] == x);
            }
        }
    } else if newer(keys[x as int], keys[s[0] as int]) {
        assert forall|y: usize| r.contains(y) <==> (s.contains(y) || y == x) by {
            if r.contains(y) {
                let k = choose|k: int| 0 <= k < r.len() && r[k] == y;
                if k > 0 {
                    assert(s[k - 1] == y);
                }
            }
            if s.contains(y) {
                let k = choose|k: int| 0 <= k < s.len() && s[k] == y;
                assert(r[k + 1] == y);
            }
            if y == x {
                assert(r[0] == x);
            }
        }
    } else {
        let t = s.drop_first();
        lemma_insert_members(keys, t, x);
        let u = insert_newest(keys, t, x);
        assert(r =~= seq![s[0]] + u);
        assert forall|y: usize| r.contains(y) <==> (s.contains(y) || y == x) by {
            if r.contains(y) {
                let k = choose|k: int| 0 <= k < r.len() && r[k] == y;
                if k > 0 {
                    assert(u[k - 1] == y);
                    assert(u.contains(y));
                    if y != x {
                        assert(t.contains(y));
                        let m = choose|m: int| 0 <= m < t.len() && t[m] == y;
                        assert(s[m + 1] == y);
                    }
                } else {
                    assert(s[0] == y);
                }
            }
            if s.contains(y) {
                let k = choose|k: int| 0 <= k < s.len() && s[k] == y;
                if k == 0 {
                    assert(r[0] == y);
                } else {
                    assert(t[k - 1] == y);
                    assert(t.contains(y));
                    assert(u.contains(y));
                    let m = choose|m: int| 0 <= m < u.len() && u[m] == y;
                    assert(r[m + 1] == y);
                }
            }
            if y == x {
                assert(u.contains(x));
                let m = choose|m: int| 0 <= m < u.len() && u[m] == x;
                assert(r[m + 1] == x);
            }
        }
    }
}

} // verus!
