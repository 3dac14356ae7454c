//! Assembling an engine: the catalog of node types it serves, and the runs
//! a restart finds interrupted.
use vstd::prelude::*;
use crate::executor::RunStatus;
use crate::reconstruct::RunRecord;
use crate::run_store::RunPage;
use crate::sorted::texts_of;
use crate::text::str_eq;

verus! {

/// `acc` followed by the entries of `add` it does not hold yet, in order:
/// an entry already present keeps its place.
pub open spec fn merge_types(acc: Seq<Seq<char>>, add: Seq<Seq<char>>) -> Seq<Seq<char>>
    decreases add.len(),
{
    if add.len() == 0 {
        acc
    } else {
        let m = merge_types(acc, add.drop_last());
        if m.contains(add.last()) {
            m
        } else {
            m.push(add.last())
        }
    }
}

/// The node types an engine serves: the user's own types, then the types
/// found in dynamic libraries, then the built-in types; a type keeps the
/// first source that provides it.
pub open spec fn catalog(user: Seq<Seq<char>>, dylib: Seq<Seq<char>>, builtin: Seq<Seq<char>>) -> Seq<Seq<char>> {
    merge_types(merge_types(merge_types(Seq::empty(), user), dylib), builtin)
}

fn holds(v: &Vec<String>, s: &str) -> (r: bool)
    ensures
        r == texts_of(v@).contains(s@),
{
    let mut i: usize = 0;
    while i < v.len()
        invariant
            i <= v@.len(),
            forall|j: int| 0 <= j < i ==> v@[j]@ != s@,
        decreases v.len() - i,
    {
        if str_eq(v[i].as_str(), s) {
            assert(texts_of(v@)[i as int] == s@);
            return true;
        }
        i += 1;
    }
    assert forall|j: int| 0 <= j < texts_of(v@).len() implies texts_of(v@)[j] != s@ by {
        assert(v@[j]@ != s@);
    }
    false
}

fn add_types(out: &mut Vec<String>, add: &Vec<String>)
    ensures
        texts_of(final(out)@) == merge_types(texts_of(old(out)@), texts_of(add@)),
{
    let ghost acc = texts_of(out@);
    let mut i: usize = 0;
    while i < add.len()
        invariant
            i <= add@.len(),
            acc == texts_of(old(out)@),
            texts_of(out@) == merge_types(acc, texts_of(add@).take(i as int)),
        decreases add.len() - i,
    {
        let ghost before = out@;
        assert(texts_of(add@).take(i + 1).drop_last() =~= texts_of(add@).take(i as int));
        if !holds(out, add[i].as_str()) {
            out.push(add[i].clone());
            assert(texts_of(out@) =~= texts_of(before).push(add@[i as int]@));
        }
        i += 1;
    }
    assert(texts_of(add@).take(add@.len() as int) =~= texts_of(add@));
}

/// The node types an engine serves (see `catalog`).
pub fn node_catalog(user: &Vec<String>, dylib: &Vec<String>, builtin: &Vec<String>) -> (r: Vec<String>)
    ensures
        texts_of(r@) == catalog(texts_of(user@), texts_of(dylib@), texts_of(builtin@)),
{
    let mut out: Vec<String> = Vec::new();
    assert(texts_of(out@) =~= Seq::<Seq<char>>::empty());
    add_types(&mut out, user);
    add_types(&mut out, dylib);
    add_types(&mut out, builtin);
    out
}

proof fn lemma_merge(acc: Seq<Seq<char>>, add: Seq<Seq<char>>)
    ensures
        acc.no_duplicates() ==> merge_types(acc, add).no_duplicates(),
        merge_types(acc, add).to_set() == acc.to_set() + add.to_set(),
        merge_types(acc, add).len() >= acc.len(),
        merge_types(acc, add).take(acc.len() as int) == acc,
    decreases add.len(),
{
    if add.len() > 0 {
        let rest = add.drop_last();
        lemma_merge(acc, rest);
        let m = merge_types(acc, rest);
        assert(add =~= rest.push(add.last()));
        assert(add.to_set() =~= rest.to_set().insert(add.last())) by {
            assert forall|x: Seq<char>| add.to_set().contains(x) <==> rest.to_set().insert(add.last()).contains(x) by {
                if add.contains(x) {
                    let k = choose|k: int| 0 <= k < add.len() && add[k] == x;
                    if k < rest.len() {
                        assert(rest[k] == x);
                    }
                }
                if rest.contains(x) {
                    let k = choose|k: int| 0 <= k < rest.len() && rest[k] == x;
                    assert(add[k] == x);
                }
                if x == add.last() {
                    assert(add[add.len() - 1] == x);
                }
            }
        }
        if !m.contains(add.last()) {
            let m2 = m.push(add.last());
            assert(m2.to_set() =~= m.to_set().insert(add.last())) by {
                assert forall|x: Seq<char>| m2.to_set().contains(x) <==> m.to_set().insert(add.last()).contains(x) by {
                    if m2.contains(x) {
                        let k = choose|k: int| 0 <= k < m2.len() && m2[k] == x;
                        if k < m.len() {
                            assert(m[k] == x);
                        }
                    }
                    if m.contains(x) {
                        let k = choose|k: int| 0 <= k < m.len() && m[k] == x;
                        assert(m2[k] == x);
                    }
                    if x == add.last() {
                        assert(m2[m.len() as int] == x);
                    }
                }
            }
            assert(m2.take(acc.len() as int) =~= m.take(acc.len() as int));
            if acc.no_duplicates() {
                assert forall|i: int, j: int| 0 <= i < m2.len() && 0 <= j < m2.len() && i != j implies m2[i] != m2[j] by {
                    if i == m.len() {
                        assert(m.contains(m[j]));
                    } else if j == m.len() {
                        assert(m.contains(m[i]));
                    }
                }
            }
        } else {
            assert(m.to_set().contains(add.last()));
            assert(m.to_set() =~= m.to_set().insert(add.last()));
        }
        assert(acc.to_set() + add.to_set() =~= (acc.to_set() + rest.to_set()).insert(add.last()));
    }
}

/// The catalog holds every type of the three sources, and no other, each
/// once; the user's types come first, in the user's order of first
/// appearance, so no other source replaces them.
pub proof fn catalog_laws(user: Seq<Seq<char>>, dylib: Seq<Seq<char>>, builtin: Seq<Seq<char>>)
    ensures
        catalog(user, dylib, builtin).no_duplicates(),
        catalog(user, dylib, builtin).to_set() == user.to_set() + dylib.to_set() + builtin.to_set(),
        catalog(user, dylib, builtin).take(merge_types(Seq::empty(), user).len() as int) == merge_types(
            Seq::empty(),
            user,
        ),
        merge_types(Seq::empty(), user).to_set() == user.to_set(),
{
    let e = Seq::<Seq<char>>::empty();
    let u = merge_types(e, user);
    let d = merge_types(u, dylib);
    lemma_merge(e, user);
    lemma_merge(u, dylib);
    lemma_merge(d, builtin);
    assert(e.to_set() =~= Set::empty());
    assert(e.to_set() + user.to_set() =~= user.to_set());
    let c = catalog(user, dylib, builtin);
    assert(c.take(u.len() as int) =~= c.take(d.len() as int).take(u.len() as int));
}

/// Which registration serves a node type: the user's last registration of
/// it, else the first dynamic-library handler of it, else the first
/// built-in handler of it. Each is a position in its source's list.
#[derive(Debug, Clone, Copy, PartialEq, Eq, Structural)]
pub enum Source {
    User(usize),
    Dylib(usize),
    Builtin(usize),
}

/// The last position of `t` in `s`.
pub open spec fn last_pos(s: Seq<Seq<char>>, t: Seq<char>) -> int
    decreases s.len(),
{
    if s.len() == 0 {
        -1
    } else if s.last() == t {
        s.len() - 1
    } else {
        last_pos(s.drop_last(), t)
    }
}

/// The first position of `t` in `s`.
pub open spec fn first_pos(s: Seq<Seq<char>>, t: Seq<char>) -> int
    decreases s.len(),
{
    if s.len() == 0 {
        -1
    } else if s[0] == t {
        0
    } else {
        let r = first_pos(s.drop_first(), t);
        if r < 0 {
            -1
        } else {
            r + 1
        }
    }
}

/// The registration that serves type `t` (see `Source`).
pub open spec fn source_of(user: Seq<Seq<char>>, dylib: Seq<Seq<char>>, builtin: Seq<Seq<char>>, t: Seq<char>) -> Source {
    if user.contains(t) {
        Source::User(last_pos(user, t) as usize)
    } else if dylib.contains(t) {
        Source::Dylib(first_pos(dylib, t) as usize)
    } else {
        Source::Builtin(first_pos(builtin, t) as usize)
    }
}

fn last_position(v: &Vec<String>, t: &str) -> (r: Option<usize>)
    ensures
        match r {
            Some(i) => texts_of(v@).contains(t@) && i == last_pos(texts_of(v@), t@),
            None => !texts_of(v@).contains(t@),
        },
{
    let ghost tv = texts_of(v@);
    let mut k = v.len();
    assert(tv.take(k as int) =~= tv);
    while k > 0
        invariant
            k <= v@.len(),
            tv == texts_of(v@),
            last_pos(tv, t@) == last_pos(tv.take(k as int), t@),
            forall|j: int| k <= j < v@.len() ==> v@[j]@ != t@,
        decreases k,
    {
        assert(tv.take(k as int).drop_last() =~= tv.take(k - 1));
        assert(tv.take(k as int).last() == v@[k - 1]@);
        if str_eq(v[k - 1].as_str(), t) {
            assert(tv[k - 1] == t@);
            return Some(k - 1);
        }
        k -= 1;
    }
    assert forall|j: int| 0 <= j < tv.len() implies tv[j] != t@ by {
        assert(tv[j] == v@[j]@);
    }
    None
}

proof fn lemma_first_pos(s: Seq<Seq<char>>, t: Seq<char>, k: int)
    requires
        0 <= k < s.len(),
        s[k] == t,
        forall|j: int| 0 <= j < k ==> s[j] != t,
    ensures
        first_pos(s, t) == k,
    decreases k,
{
    if k > 0 {
        let d = s.drop_first();
        assert forall|j: int| 0 <= j < k - 1 implies d[j] != t by {
            assert(d[j] == s[j + 1]);
        }
        lemma_first_pos(d, t, k - 1);
    }
}

fn first_position(v: &Vec<String>, t: &str) -> (r: Option<usize>)
    ensures
        match r {
            Some(i) => texts_of(v@).contains(t@) && i == first_pos(texts_of(v@), t@),
            None => !texts_of(v@).contains(t@),
        },
{
    let ghost tv = texts_of(v@);
    let mut k: usize = 0;
    while k < v.len()
        invariant
            k <= v@.len(),
            tv == texts_of(v@),
            forall|j: int| 0 <= j < k ==> tv[j] != t@,
        decreases v.len() - k,
    {
        if str_eq(v[k].as_str(), t) {
            assert(tv[k as int] == t@);
            proof {
                lemma_first_pos(tv, t@, k as int);
            }
            return Some(k);
        }
        k += 1;
    }
    None
}

/// The node types an engine serves (see `catalog`), each with the
/// registration that serves it (see `source_of`).
pub fn node_sources(user: &Vec<String>, dylib: &Vec<String>, builtin: &Vec<String>) -> (r: Vec<(String, Source)>)
    ensures
        r@.len() == catalog(texts_of(user@), texts_of(dylib@), texts_of(builtin@)).len(),
        forall|i: int|
            0 <= i < r@.len() ==> {
                let t = catalog(texts_of(user@), texts_of(dylib@), texts_of(builtin@))[i];
                &&& (#[trigger] r@[i]).0@ == t
                &&& r@[i].1 == source_of(texts_of(user@), texts_of(dylib@), texts_of(builtin@), t)
            },
{
    let types = node_catalog(user, dylib, builtin);
    let ghost cat = catalog(texts_of(user@), texts_of(dylib@), texts_of(builtin@));
    proof {
        catalog_laws(texts_of(user@), texts_of(dylib@), texts_of(builtin@));
    }
    let mut out: Vec<(String, Source)> = Vec::new();
    let mut i: usize = 0;
    while i < types.len()
        invariant
            i <= types@.len(),
            texts_of(types@) == cat,
            cat.to_set() == texts_of(user@).to_set() + texts_of(dylib@).to_set() + texts_of(builtin@).to_set(),
            out@.len() == i,
            forall|j: int|
                0 <= j < i ==> {
                    &&& (#[trigger] out@[j]).0@ == cat[j]
                    &&& out@[j].1 == source_of(texts_of(user@), texts_of(dylib@), texts_of(builtin@), cat[j])
                },
        decreases types.len() - i,
    {
        let t = types[i].as_str();
        assert(cat[i as int] == types@[i as int]@);
        let src = match last_position(user, t) {
            Some(k) => Source::User(k),
            None => match first_position(dylib, t) {
                Some(k) => Source::Dylib(k),
                None => {
                    assert(cat.contains(cat[i as int]));
                    assert(cat.to_set().contains(t@));
                    match first_position(builtin, t) {
                        Some(k) => Source::Builtin(k),
                        None => Source::Builtin(0),
                    }
                },
            },
        };
        out.push((types[i].clone(), src));
        i += 1;
    }
    out
}

/// The ids of the runs of `s` that are still running, in order.
pub open spec fn running_ids(s: Seq<RunRecord>) -> Seq<Seq<char>>
    decreases s.len(),
{
    if s.len() == 0 {
        Seq::empty()
    } else {
        let rest = running_ids(s.drop_last());
        if s.last().status == RunStatus::Running {
            rest.push(s.last().run_id@)
        } else {
            rest
        }
    }
}

/// The runs a restart marks as interrupted: the ids of the listed runs that
/// are still running, in listing order.
pub fn runs_to_interrupt(page: &RunPage) -> (r: Vec<String>)
    ensures
        texts_of(r@) == running_ids(page.runs@),
{
    let mut out: Vec<String> = Vec::new();
    let mut i: usize = 0;
    while i < page.runs.len()
        invariant
            i <= page.runs@.len(),
            texts_of(out@) == running_ids(page.runs@.take(i as int)),
        decreases page.runs.len() - i,
    {
        assert(page.runs@.take(i + 1).drop_last() =~= page.runs@.take(i as int));
        let ghost before = out@;
        if page.runs[i].status == RunStatus::Running {
            out.push(page.runs[i].run_id.clone());
            assert(texts_of(out@) =~= texts_of(before).push(page.runs@[i as int].run_id@));
        }
        i += 1;
    }
    assert(page.runs@.take(page.runs@.len() as int) =~= page.runs@);
    out
}

} // verus!
