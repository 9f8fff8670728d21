use crate::edge::EdgeSet;
use crate::parallel::par_map;
use crate::rules::{edge_at, edges_upto, end_at, first_letter, last_letter, word_edges};
use vstd::prelude::*;

verus! {

broadcast use vstd::string::group_string_axioms;

/// A dictionary word with the edges that it walks, worked out once when the
/// word is made.
pub struct Word {
    word: String,
    edges: EdgeSet,
    first: Option<char>,
    last: Option<char>,
}

impl View for Word {
    type V = Seq<char>;

    closed spec fn view(&self) -> Seq<char> {
        self.word@
    }
}

impl Word {
    #[verifier::type_invariant]
    spec fn inv(&self) -> bool {
        &&& self.edges@ == word_edges(self.word@)
        &&& self.first == first_letter(self.word@)
        &&& self.last == last_letter(self.word@)
    }

    /// Makes the record of `word`.
    pub fn new(word: String) -> (r: Word)
        ensures
            r@ == word@,
    {
        let mut prev_letter: Option<char> = None;
        let mut first: Option<char> = None;
        let mut edges = EdgeSet::new();
        let ghost text = word@;
        let ghost mut n: int = 0;
        for letter in it: word.as_str().chars()
            invariant
                it.seq() == text,
                n == it.index(),
                prev_letter == end_at(text, n),
                first == first_letter(text.take(n)),
                edges@ == edges_upto(text, n),
        {
            edges.insert(prev_letter, Some(letter));
            if first.is_none() {
                first = Some(letter);
            }
            prev_letter = Some(letter);
            proof {
                assert(edge_at(text, n) == (end_at(text, n), Some(letter)));
                assert(edges@ =~= edges_upto(text, n + 1));
                n = n + 1;
            }
        }
        edges.insert(prev_letter, None);
        proof {
            assert(edge_at(text, n) == (prev_letter, None::<char>));
            assert(edges@ =~= edges_upto(text, n + 1));
            assert(text.take(n) =~= text);
        }
        Word { word, edges, first, last: prev_letter }
    }

    /// The word itself.
    pub fn text(&self) -> (r: &String)
        ensures
            r@ == self@,
    {
        &self.word
    }

    /// The edges of the word.
    pub fn edges(&self) -> (r: &EdgeSet)
        ensures
            r@ == word_edges(self@),
    {
        proof {
            use_type_invariant(self);
        }
        &self.edges
    }

    /// The first letter of the word, if it has one.
    pub fn first(&self) -> (r: Option<char>)
        ensures
            r == first_letter(self@),
    {
        proof {
            use_type_invariant(self);
        }
        self.first
    }

    /// The last letter of the word, if it has one.
    pub fn last(&self) -> (r: Option<char>)
        ensures
            r == last_letter(self@),
    {
        proof {
            use_type_invariant(self);
        }
        self.last
    }

    /// Whether every edge of the word is in `allowed_edges`.
    pub fn has_subset_edges(&self, allowed_edges: &EdgeSet) -> (r: bool)
        ensures
            r == word_edges(self@).subset_of(allowed_edges@),
    {
        proof {
            use_type_invariant(self);
        }
        self.edges.is_subset(allowed_edges)
    }
}

/// The records of a list of words, in the same order, made in parallel.
pub fn words_from_texts(texts: Vec<String>) -> (words: Vec<Word>)
    ensures
        words@.len() == texts@.len(),
        forall|i: int| 0 <= i < texts@.len() ==> (#[trigger] words@[i])@ == texts@[i]@,
{
    let make = |text: String| -> (word: Word)
        ensures
            word@ == text@,
        { Word::new(text) };
    par_map(texts, make)
}

impl Clone for Word {
    /// A record of the same word.
    fn clone(&self) -> (r: Word)
        ensures
            r@ == self@,
    {
        proof {
            use_type_invariant(self);
        }
        Word {
            word: self.word.clone(),
            edges: self.edges.clone(),
            first: self.first,
            last: self.last,
        }
    }
}

} // verus!
