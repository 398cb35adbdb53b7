//! A set of strings with value semantics: inserting a string that is already
//! present changes nothing. Viewed in specifications as a `Set` of character
//! sequences.

use vstd::prelude::*;

verus! {

/// A deduplicated collection of strings.
pub struct StrSet {
    items: Vec<String>,
}

impl View for StrSet {
    type V = Set<Seq<char>>;

    closed spec fn view(&self) -> Set<Seq<char>> {
        self.items.deep_view().to_set()
    }
}

proof fn lemma_to_set_push(s: Seq<Seq<char>>, x: Seq<char>)
    ensures
        s.push(x).to_set() == s.to_set().insert(x),
{
    assert forall|a: Seq<char>| #[trigger] s.push(x).to_set().contains(a) implies s.to_set()
        .insert(x).contains(a) by {
        let i = choose|i: int| 0 <= i < s.push(x).len() && s.push(x)[i] == a;
        if i < s.len() {
            assert(s[i] == a);
        }
    }
    assert forall|a: Seq<char>| #[trigger] s.to_set().insert(x).contains(a) implies s.push(
        x,
    ).to_set().contains(a) by {
        if a == x {
            assert(s.push(x)[s.len() as int] == a);
        } else {
            let i = choose|i: int| 0 <= i < s.len() && s[i] == a;
            assert(s.push(x)[i] == a);
        }
    }
    assert(s.push(x).to_set() =~= s.to_set().insert(x));
}

impl StrSet {
    /// No stored string repeats another, so the stored count is the set's
    /// cardinality.
    pub closed spec fn wf(&self) -> bool {
        self.items.deep_view().no_duplicates()
    }

    /// The empty set.
    pub fn new() -> (r: StrSet)
        ensures
            r@ == Set::<Seq<char>>::empty(),
            r.wf(),
    {
        let r = StrSet { items: Vec::new() };
        proof {
            assert(r.items.deep_view() =~= Seq::<Seq<char>>::empty());
            assert(r@ =~= Set::<Seq<char>>::empty());
        }
        r
    }

    /// Whether the set holds this string's value.
    pub fn contains(&self, s: &String) -> (r: bool)
        ensures
            r == self@.contains(s@),
    {
        let mut i: usize = 0;
        while i < self.items.len()
            invariant
                i <= self.items.len(),
                forall|j: int| 0 <= j < i ==> self.items.deep_view()[j] != s@,
            decreases self.items.len() - i,
        {
            if self.items[i].eq(s) {
                proof {
                    assert(self.items.deep_view()[i as int] == s@);
                    assert(self@.contains(s@));
                }
                return true;
            }
            i += 1;
        }
        proof {
            assert(forall|j: int|
                0 <= j < self.items.deep_view().len() ==> self.items.deep_view()[j] != s@);
            assert(!self@.contains(s@));
        }
        false
    }

    /// Adds a string's value to the set; a value already present is not
    /// added again.
    pub fn insert(&mut self, s: String)
        requires
            old(self).wf(),
        ensures
            final(self).wf(),
            final(self)@ == old(self)@.insert(s@),
    {
        if !self.contains(&s) {
            proof {
                assert(self.items.deep_view().push(s@) =~= self.items@.push(s).map_values(
                    |x: String| x.deep_view(),
                ));
                assert(self.items@.push(s).map_values(|x: String| x.deep_view()) =~= Seq::new(
                    self.items@.push(s).len(),
                    |i: int| self.items@.push(s)[i].deep_view(),
                ));
            }
            let ghost old_items = self.items.deep_view();
            let ghost v = s@;
            self.items.push(s);
            proof {
                assert(self.items.deep_view() =~= old_items.push(v));
                lemma_to_set_push(old_items, v);
            }
        } else {
            proof {
                assert forall|a: Seq<char>| old(self)@.insert(s@).contains(a) implies self@
                    .contains(a) by {}
                assert(self@ =~= old(self)@.insert(s@));
            }
        }
    }

    /// How many distinct values the set holds.
    pub fn len(&self) -> (r: usize)
        requires
            self.wf(),
        ensures
            r == self@.len(),
    {
        proof {
            self.items.deep_view().unique_seq_to_set();
        }
        self.items.len()
    }

    /// Whether the set holds no value at all.
    pub fn is_empty(&self) -> (r: bool)
        requires
            self.wf(),
        ensures
            r == (self@.len() == 0),
    {
        self.len() == 0
    }

    /// The stored strings, one for each value in the set.
    pub fn items(&self) -> (r: &Vec<String>)
        ensures
            r.deep_view().to_set() == self@,
    {
        &self.items
    }

    /// Adds every value of `other` to this set.
    pub fn extend_with(&mut self, other: StrSet)
        requires
            old(self).wf(),
        ensures
            final(self).wf(),
            final(self)@ == old(self)@.union(other@),
    {
        let src = other.items;
        let mut i: usize = 0;
        while i < src.len()
            invariant
                i <= src.len(),
                self.wf(),
                self@ == old(self)@.union(src.deep_view().take(i as int).to_set()),
            decreases src.len() - i,
        {
            let ghost before = self@;
            let ghost k = i as int;
            self.insert(src[i].clone());
            proof {
                assert(src.deep_view().take(k + 1) =~= src.deep_view().take(k).push(
                    src.deep_view()[k],
                ));
                lemma_to_set_push(src.deep_view().take(k), src.deep_view()[k]);
                assert(self@ =~= old(self)@.union(src.deep_view().take(k + 1).to_set()));
            }
            i += 1;
        }
        proof {
            assert(src.deep_view().take(src.deep_view().len() as int) =~= src.deep_view());
            assert(src.deep_view().to_set() == other@);
        }
    }
}

} // verus!
