use vstd::prelude::*;

verus! {

/// A finite set of letters, kept as a list in which no letter stands twice.
pub struct LetterSet {
    letters: Vec<char>,
}

impl View for LetterSet {
    type V = Set<char>;

    closed spec fn view(&self) -> Set<char> {
        self.letters@.to_set()
    }
}

impl LetterSet {
    #[verifier::type_invariant]
    spec fn inv(&self) -> bool {
        self.letters@.no_duplicates()
    }

    /// The empty set.
    pub fn new() -> (r: LetterSet)
        ensures
            r@ == Set::<char>::empty(),
    {
        let r = LetterSet { letters: Vec::new() };
        assert(r@ =~= Set::<char>::empty());
        r
    }

    /// Whether `c` is in the set.
    pub fn contains(&self, c: char) -> (r: bool)
        ensures
            r == self@.contains(c),
    {
        let mut i: usize = 0;
        while i < self.letters.len()
            invariant
                i <= self.letters.len(),
                forall|j: int| 0 <= j < i ==> self.letters@[j] != c,
            decreases self.letters.len() - i,
        {
            if self.letters[i] == c {
                return true;
            }
            i = i + 1;
        }
        false
    }

    /// Puts `c` into the set. Returns whether it was new.
    pub fn insert(&mut self, c: char) -> (r: bool)
        ensures
            final(self)@ == old(self)@.insert(c),
            r == !old(self)@.contains(c),
    {
        proof {
            use_type_invariant(&*self);
        }
        if self.contains(c) {
            assert(self@ =~= self@.insert(c));
            return false;
        }
        let mut taken = LetterSet { letters: Vec::new() };
        std::mem::swap(self, &mut taken);
        let mut letters = taken.letters;
        proof {
            letters@.lemma_push_to_set_commute(c);
        }
        letters.push(c);
        *self = LetterSet { letters };
        true
    }

    /// Takes `c` out of the set. Returns whether it was there.
    pub fn remove(&mut self, c: char) -> (r: bool)
        ensures
            final(self)@ == old(self)@.remove(c),
            r == old(self)@.contains(c),
    {
        proof {
            use_type_invariant(&*self);
        }
        let mut i: usize = 0;
        while i < self.letters.len()
            invariant
                i <= self.letters.len(),
                forall|j: int| 0 <= j < i ==> self.letters@[j] != c,
                *self == *old(self),
                self.letters@.no_duplicates(),
            decreases self.letters.len() - i,
        {
            if self.letters[i] == c {
                let mut taken = LetterSet { letters: Vec::new() };
                std::mem::swap(self, &mut taken);
                let mut letters = taken.letters;
                let ghost before = letters@;
                letters.remove(i);
                proof {
                    assert(letters@ == before.remove(i as int));
                    assert forall|j: int| 0 <= j < letters@.len() implies letters@[j] == before[if j
                        < i {
                        j
                    } else {
                        j + 1
                    }] by {}
                    assert(letters@.no_duplicates());
                    assert forall|x: char| letters@.to_set().contains(x) == before.to_set().remove(
                        c,
                    ).contains(x) by {
                        if letters@.contains(x) {
                            let j = choose|j: int| 0 <= j < letters@.len() && letters@[j] == x;
                            let k = if j < i { j } else { j + 1 };
                            assert(before[k] == x);
                            assert(before.contains(x));
                            assert(x != c);
                        }
                        if before.contains(x) && x != c {
                            let j = choose|j: int| 0 <= j < before.len() && before[j] == x;
                            let k = if j < i { j } else { j - 1 };
                            assert(letters@[k] == x);
                        }
                    }
                    assert(letters@.to_set() =~= before.to_set().remove(c));
                }
                *self = LetterSet { letters };
                return true;
            }
            i = i + 1;
        }
        assert(self@ =~= self@.remove(c));
        false
    }

    /// Whether the set holds no letter.
    pub fn is_empty(&self) -> (r: bool)
        ensures
            r == (self@ == Set::<char>::empty()),
    {
        let r = self.letters.len() == 0;
        proof {
            if r {
                assert(self@ =~= Set::<char>::empty());
            } else {
                assert(self@.contains(self.letters@[0]));
            }
        }
        r
    }

    /// The number of letters in the set.
    pub fn len(&self) -> (r: usize)
        ensures
            self@.finite(),
            r == self@.len(),
    {
        proof {
            use_type_invariant(self);
            self.letters@.unique_seq_to_set();
            vstd::seq_lib::seq_to_set_is_finite(self.letters@);
        }
        self.letters.len()
    }

    /// Whether every letter of this set is in `other`.
    pub fn is_subset(&self, other: &LetterSet) -> (r: bool)
        ensures
            r == self@.subset_of(other@),
    {
        let mut i: usize = 0;
        while i < self.letters.len()
            invariant
                i <= self.letters.len(),
                forall|j: int| 0 <= j < i ==> other@.contains(self.letters@[j]),
            decreases self.letters.len() - i,
        {
            if !other.contains(self.letters[i]) {
                assert(self@.contains(self.letters@[i as int]));
                return false;
            }
            i = i + 1;
        }
        true
    }

    /// Whether every letter of `other` is in this set.
    pub fn is_superset(&self, other: &LetterSet) -> (r: bool)
        ensures
            r == other@.subset_of(self@),
    {
        other.is_subset(self)
    }
}

impl Clone for LetterSet {
    /// A set with the same letters.
    fn clone(&self) -> (r: LetterSet)
        ensures
            r@ == self@,
    {
        proof {
            use_type_invariant(self);
        }
        let letters = self.letters.clone();
        assert(letters@ =~= self.letters@);
        LetterSet { letters }
    }
}

} // verus!
