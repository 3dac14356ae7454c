//! A set of strings kept as a list without repetitions.
use vstd::prelude::*;
use vstd::string::*;
use crate::text::str_eq;

verus! {

/// A finite set of strings.
#[derive(Debug)]
pub struct StrSet {
    items: Vec<String>,
}

/// The texts of a list of strings.
pub open spec fn texts(v: Seq<String>) -> Seq<Seq<char>> {
    v.map_values(|s: String| s@)
}

proof fn lemma_texts_index(v: Seq<String>, i: int)
    requires
        0 <= i < v.len(),
    ensures
        texts(v).len() == v.len(),
        texts(v)[i] == v[i]@,
{
}

proof fn lemma_texts_contains(v: Seq<String>, x: Seq<char>)
    ensures
        texts(v).contains(x) <==> exists|i: int| 0 <= i < v.len() && #[trigger] v[i]@ == x,
{
    if texts(v).contains(x) {
        let i = choose|i: int| 0 <= i < texts(v).len() && texts(v)[i] == x;
        lemma_texts_index(v, i);
    }
    if exists|i: int| 0 <= i < v.len() && #[trigger] v[i]@ == x {
        let i = choose|i: int| 0 <= i < v.len() && #[trigger] v[i]@ == x;
        lemma_texts_index(v, i);
    }
}

impl View for StrSet {
    type V = Set<Seq<char>>;

    closed spec fn view(&self) -> Set<Seq<char>> {
        texts(self.items@).to_set()
    }
}

impl StrSet {
    #[verifier::type_invariant]
    spec fn no_repeats(&self) -> bool {
        texts(self.items@).no_duplicates()
    }

    /// The empty set.
    pub fn new() -> (r: StrSet)
        ensures
            r@ == Set::<Seq<char>>::empty(),
    {
        let r = StrSet { items: Vec::new() };
        assert(texts(r.items@).to_set() =~= Set::<Seq<char>>::empty());
        r
    }

    /// Whether `s` is in the set.
    pub fn contains(&self, s: &str) -> (r: bool)
        ensures
            r == self@.contains(s@),
    {
        proof {
            lemma_texts_contains(self.items@, s@);
        }
        let mut i: usize = 0;
        while i < self.items.len()
            invariant
                i <= self.items@.len(),
                forall|j: int| 0 <= j < i ==> self.items@[j]@ != s@,
            decreases self.items.len() - i,
        {
            if str_eq(self.items[i].as_str(), s) {
                proof {
                    lemma_texts_contains(self.items@, s@);
                    assert(self.items@[i as int]@ == s@);
                }
                return true;
            }
            i += 1;
        }
        false
    }

    /// The number of members.
    pub fn len(&self) -> (r: usize)
        ensures
            r as nat == self@.len(),
    {
        proof {
            use_type_invariant(self);
            texts(self.items@).unique_seq_to_set();
        }
        self.items.len()
    }

    /// Adds `s` to the set.
    pub fn insert(&mut self, s: &str)
        ensures
            final(self)@ == old(self)@.insert(s@),
    {
        proof {
            use_type_invariant(&*self);
        }
        if !self.contains(s) {
            let ghost old_items = self.items@;
            let mut items = Vec::new();
            std::mem::swap(&mut items, &mut self.items);
            items.push(String::from_str(s));
            assert(texts(items@) =~= texts(old_items).push(s@));
            proof {
                texts(old_items).lemma_push_to_set_commute(s@);
                assert forall|a: int, b: int|
                    0 <= a < texts(items@).len() && 0 <= b < texts(items@).len() && a != b implies texts(
                    items@,
                )[a] != texts(items@)[b] by {
                    if a < old_items.len() && b < old_items.len() {
                    } else if a < old_items.len() {
                        assert(texts(old_items).contains(texts(old_items)[a]));
                    } else {
                        assert(texts(old_items).contains(texts(old_items)[b]));
                    }
                }
            }
            self.items = items;
        } else {
            assert(self@.insert(s@) =~= self@);
        }
    }

    /// Removes `s` from the set.
    pub fn remove(&mut self, s: &str)
        ensures
            final(self)@ == old(self)@.remove(s@),
    {
        proof {
            use_type_invariant(&*self);
        }
        let ghost old_items = self.items@;
        let mut kept: Vec<String> = Vec::new();
        let mut i: usize = 0;
        while i < self.items.len()
            invariant
                i <= self.items@.len(),
                self.items@ == old_items,
                texts(old_items).no_duplicates(),
                texts(kept@).no_duplicates(),
                forall|k: int|
                    0 <= k < kept@.len() ==> #[trigger] kept@[k]@ != s@ && exists|j: int|
                        0 <= j < i && old_items[j]@ == kept@[k]@,
                forall|j: int|
                    0 <= j < i && #[trigger] old_items[j]@ != s@ ==> exists|k: int|
                        0 <= k < kept@.len() && kept@[k]@ == old_items[j]@,
            decreases self.items.len() - i,
        {
            let ghost prev = kept@;
            if !str_eq(self.items[i].as_str(), s) {
                kept.push(self.items[i].clone());
                proof {
                    assert forall|a: int, b: int|
                        0 <= a < texts(kept@).len() && 0 <= b < texts(kept@).len() && a != b implies texts(
                        kept@,
                    )[a] != texts(kept@)[b] by {
                        lemma_texts_index(kept@, a);
                        lemma_texts_index(kept@, b);
                        if a < prev.len() && b < prev.len() {
                            lemma_texts_index(prev, a);
                            lemma_texts_index(prev, b);
                        } else if a < prev.len() {
                            let j = choose|j: int| 0 <= j < i && old_items[j]@ == prev[a]@;
                            lemma_texts_index(old_items, j);
                            lemma_texts_index(old_items, i as int);
                        } else if b < prev.len() {
                            let j = choose|j: int| 0 <= j < i && old_items[j]@ == prev[b]@;
                            lemma_texts_index(old_items, j);
                            lemma_texts_index(old_items, i as int);
                        }
                    }
                }
            }
            assert forall|k: int| 0 <= k < kept@.len() implies #[trigger] kept@[k]@ != s@ && exists|
                j: int,
            | 0 <= j < i + 1 && old_items[j]@ == kept@[k]@ by {
                if k < prev.len() {
                    assert(kept@[k] == prev[k]);
                    let j = choose|j: int| 0 <= j < i && old_items[j]@ == prev[k]@;
                    assert(old_items[j]@ == kept@[k]@);
                } else {
                    assert(old_items[i as int]@ == kept@[k]@);
                }
            }
            assert forall|j: int| 0 <= j < i + 1 && #[trigger] old_items[j]@ != s@ implies exists|
                k: int,
            | 0 <= k < kept@.len() && kept@[k]@ == old_items[j]@ by {
                if j < i {
                    let k = choose|k: int| 0 <= k < prev.len() && prev[k]@ == old_items[j]@;
                    assert(kept@[k] == prev[k]);
                } else {
                    assert(kept@[kept@.len() - 1]@ == old_items[j]@);
                }
            }
            i += 1;
        }
        proof {
            assert forall|x: Seq<char>| texts(kept@).to_set().contains(x) <==> texts(
                old_items,
            ).to_set().remove(s@).contains(x) by {
                lemma_texts_contains(kept@, x);
                lemma_texts_contains(old_items, x);
                if texts(kept@).contains(x) {
                    let k = choose|k: int| 0 <= k < kept@.len() && #[trigger] kept@[k]@ == x;
                    let j = choose|j: int| 0 <= j < old_items.len() && old_items[j]@ == kept@[k]@;
                    assert(old_items[j]@ == x);
                }
                if texts(old_items).contains(x) && x != s@ {
                    let j = choose|j: int| 0 <= j < old_items.len() && #[trigger] old_items[j]@ == x;
                    let k = choose|k: int| 0 <= k < kept@.len() && kept@[k]@ == old_items[j]@;
                    assert(kept@[k]@ == x);
                }
            }
            assert(texts(kept@).to_set() =~= texts(old_items).to_set().remove(s@));
        }
        self.items = kept;
    }

    /// The members, in insertion order.
    pub fn members(&self) -> (r: &Vec<String>)
        ensures
            texts(r@).to_set() == self@,
    {
        &self.items
    }
}

} // verus!
