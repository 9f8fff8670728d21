use crate::letterboxsolver::LetterBoxSolver;
use std::collections::HashSet;
use vstd::prelude::*;
use vstd::std_specs::iter::IteratorSpec;

verus! {

broadcast use vstd::std_specs::hash::group_hash_axioms;

/// A directed transition between two ends. An end is a letter, or `None`
/// for the boundary that stands before the first and after the last letter
/// of a word.
pub type Edge = (Option<char>, Option<char>);

/// The number that stands for one end: 0 for the boundary, the letter's
/// scalar value plus one for a letter.
pub open spec fn end_code(e: Option<char>) -> int {
    match e {
        None => 0,
        Some(c) => (c as u32) as int + 1,
    }
}

/// The number that stands for an edge: the code of its first end in the
/// upper half of a 64-bit word, the code of its second end in the lower.
pub open spec fn edge_code(from: Option<char>, to: Option<char>) -> int {
    end_code(from) * 0x1_0000_0000 + end_code(to)
}

/// An end code is small, and only the boundary has code 0.
pub proof fn lemma_end_code_range(e: Option<char>)
    ensures
        0 <= end_code(e) <= 0x11_0000,
        (end_code(e) == 0) == (e is None),
{
    match e {
        None => {},
        Some(c) => {
            vstd::utf8::char_is_scalar(c);
        },
    }
}

/// Two ends with the same code are the same end.
pub proof fn lemma_end_code_injective(a: Option<char>, b: Option<char>)
    requires
        end_code(a) == end_code(b),
    ensures
        a == b,
{
    lemma_end_code_range(a);
    lemma_end_code_range(b);
    match (a, b) {
        (Some(x), Some(y)) => {
            vstd::utf8::char_u32_cast(x, x as u32);
            vstd::utf8::char_u32_cast(y, y as u32);
        },
        _ => {},
    }
}

/// Two edges with the same code are the same edge.
pub proof fn lemma_edge_code_injective(a: Edge, b: Edge)
    requires
        edge_code(a.0, a.1) == edge_code(b.0, b.1),
    ensures
        a == b,
{
    lemma_end_code_range(a.0);
    lemma_end_code_range(a.1);
    lemma_end_code_range(b.0);
    lemma_end_code_range(b.1);
    assert(end_code(a.0) == end_code(b.0));
    assert(end_code(a.1) == end_code(b.1));
    lemma_end_code_injective(a.0, b.0);
    lemma_end_code_injective(a.1, b.1);
}

/// An edge code fits in 64 bits.
pub proof fn lemma_edge_code_range(from: Option<char>, to: Option<char>)
    ensures
        0 <= edge_code(from, to) < 0x11_0001_0000_0000,
{
    lemma_end_code_range(from);
    lemma_end_code_range(to);
}

/// A finite set of edges, kept as a hash set of edge codes.
pub struct EdgeSet {
    codes: HashSet<u64>,
}

impl View for EdgeSet {
    type V = Set<Edge>;

    closed spec fn view(&self) -> Set<Edge> {
        Set::new(|e: Edge| self.codes@.contains(edge_code(e.0, e.1) as u64))
    }
}

/// Whether `k` is the code of some edge.
pub open spec fn is_edge_code(k: u64) -> bool {
    exists|e: Edge| #[trigger] edge_code(e.0, e.1) == k
}

impl EdgeSet {
    #[verifier::type_invariant]
    spec fn inv(&self) -> bool {
        forall|k: u64| self.codes@.contains(k) ==> #[trigger] is_edge_code(k)
    }

    /// The empty set.
    pub fn new() -> (r: EdgeSet)
        ensures
            r@ == Set::<Edge>::empty(),
    {
        let r = EdgeSet { codes: HashSet::new() };
        assert(r@ =~= Set::<Edge>::empty());
        r
    }

    /// Adds the edge from `from` to `to`.
    pub fn insert(&mut self, from: Option<char>, to: Option<char>)
        ensures
            final(self)@ == old(self)@.insert((from, to)),
    {
        proof {
            use_type_invariant(&*self);
        }
        let k: u64 = LetterBoxSolver::generate_edge_repr(from, to);
        proof {
            assert(edge_code((from, to).0, (from, to).1) == k);
            assert(is_edge_code(k));
        }
        let mut taken = EdgeSet { codes: HashSet::new() };
        std::mem::swap(self, &mut taken);
        let mut codes = taken.codes;
        codes.insert(k);
        *self = EdgeSet { codes };
        proof {
            assert forall|e: Edge| final(self)@.contains(e) == old(self)@.insert(
                (from, to),
            ).contains(e) by {
                lemma_edge_code_range(e.0, e.1);
                if edge_code(e.0, e.1) == k {
                    lemma_edge_code_injective(e, (from, to));
                }
            }
            assert(final(self)@ =~= old(self)@.insert((from, to)));
        }
    }

    /// Whether the edge from `from` to `to` is in the set.
    pub fn contains(&self, from: Option<char>, to: Option<char>) -> (r: bool)
        ensures
            r == self@.contains((from, to)),
    {
        let k: u64 = LetterBoxSolver::generate_edge_repr(from, to);
        self.codes.contains(&k)
    }

    /// Whether every edge of this set is in `other`.
    pub fn is_subset(&self, other: &EdgeSet) -> (r: bool)
        ensures
            r == self@.subset_of(other@),
    {
        proof {
            use_type_invariant(self);
        }
        let ghost keys = vstd::std_specs::hash::spec_hash_keys_iter(&self.codes).remaining();
        let ghost mut seen: int = 0;
        for k in it: self.codes.iter()
            invariant
                it.seq() == keys,
                seen == it.index(),
                keys.unref().to_set() == self.codes@,
                forall|c: u64| self.codes@.contains(c) ==> #[trigger] is_edge_code(c),
                forall|j: int| 0 <= j < seen ==> other.codes@.contains(*#[trigger] keys[j]),
        {
            if !other.codes.contains(k) {
                proof {
                    assert(keys.unref()[seen] == *k);
                    assert(keys.unref().to_set().contains(*k));
                    assert(is_edge_code(*k));
                    let e = choose|e: Edge| #[trigger] edge_code(e.0, e.1) == *k;
                    assert(self@.contains(e));
                    assert(!other@.contains(e));
                }
                return false;
            }
            proof {
                seen = seen + 1;
            }
        }
        proof {
            assert forall|e: Edge| self@.contains(e) implies other@.contains(e) by {
                lemma_edge_code_range(e.0, e.1);
                let c = edge_code(e.0, e.1) as u64;
                assert(keys.unref().to_set().contains(c));
                let j = choose|j: int| 0 <= j < keys.unref().len() && keys.unref()[j] == c;
                assert(*keys[j] == c);
            }
        }
        true
    }
}

impl Clone for EdgeSet {
    /// A set with the same edges.
    fn clone(&self) -> (r: EdgeSet)
        ensures
            r@ == self@,
    {
        proof {
            use_type_invariant(self);
        }
        let mut codes: HashSet<u64> = HashSet::new();
        let ghost keys = vstd::std_specs::hash::spec_hash_keys_iter(&self.codes).remaining();
        let ghost mut seen: int = 0;
        for k in it: self.codes.iter()
            invariant
                it.seq() == keys,
                seen == it.index(),
                keys.unref().to_set() == self.codes@,
                codes@ == keys.unref().take(seen).to_set(),
        {
            codes.insert(*k);
            proof {
                let s = keys.unref();
                assert(s.take(seen + 1) =~= s.take(seen).push(*k));
                assert(s.take(seen + 1).to_set() =~= s.take(seen).to_set().insert(*k)) by {
                    s.take(seen).lemma_push_to_set_commute(*k);
                }
                seen = seen + 1;
            }
        }
        proof {
            assert(keys.unref().take(seen) =~= keys.unref());
        }
        let r = EdgeSet { codes };
        assert(r@ =~= self@);
        r
    }
}

} // verus!
