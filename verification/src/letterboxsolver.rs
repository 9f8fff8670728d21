use crate::edge::{edge_code, lemma_end_code_range, EdgeSet};
use crate::frontier::{
    child, children, dominates, expand, has_complete, initial_state, is_candidate, is_complete,
    is_dominated, is_first_complete, is_first_solution, lemma_empty_stage_stays_empty,
    lemma_filter_take_step, lemma_raw_children_step, raw_children, stage, survivor_pred,
    StateView,
};
use crate::laws::{
    is_solution, law_complete_state_is_a_solution, law_first_solution_is_shortest,
};
use crate::layout::{
    add_boundary_edges, add_cross_edges, all_letters, allowed_upto, crossing_upto,
    is_valid_layout, layout_of, lemma_allowed_all, lemma_allowed_step, lemma_crossing_step,
};
use crate::letters::LetterSet;
use crate::rules::{allowed_edges, boundary_edges, usable, valid_layout, Layout};
use crate::parallel::{concat_of, lemma_map_flatten, par_flatten, par_map};
use crate::word::Word;
use vstd::prelude::*;

verus! {

/// The texts of a list of words.
pub open spec fn texts_of(words: Seq<Word>) -> Seq<Seq<char>> {
    words.map_values(|w: Word| w@)
}

/// A partial solution: the words chosen so far, the puzzle letters that
/// none of them holds, and the last letter of the last word (`None` while
/// no word is chosen).
pub struct SearchState {
    pub words: Vec<Word>,
    pub remaining: LetterSet,
    pub last: Option<char>,
}

impl View for SearchState {
    type V = StateView;

    open spec fn view(&self) -> StateView {
        StateView { words: texts_of(self.words@), remaining: self.remaining@, last: self.last }
    }
}

impl Clone for SearchState {
    /// A state with the same words, letters and last letter.
    fn clone(&self) -> (r: SearchState)
        ensures
            r@ == self@,
    {
        let words = self.words.clone();
        assert(texts_of(words@) =~= texts_of(self.words@));
        SearchState { words, remaining: self.remaining.clone(), last: self.last }
    }
}

/// The states that a list of search states stands for.
pub open spec fn states_of(states: Seq<SearchState>) -> Seq<StateView> {
    states.map_values(|s: SearchState| s@)
}

/// Why a search gave no solution.
#[derive(Clone, Copy, Debug, PartialEq, Eq)]
pub enum SolveError {
    /// The layout does not have four sides, or a side is empty, or a letter
    /// stands on two sides.
    InvalidPuzzle,
    /// No word of the dictionary can be played on the layout.
    EmptyDictionary,
    /// No chain of at most the given number of words covers every letter.
    NoSolutionWithinBound,
}

/// The place of the first state that has covered every letter, if there is
/// one.
fn first_complete(states: &Vec<SearchState>) -> (found: Option<usize>)
    ensures
        match found {
            Some(i) => is_first_complete(states_of(states@), i as int),
            None => !has_complete(states_of(states@)),
        },
{
    let ghost frontier = states_of(states@);
    let mut i: usize = 0;
    while i < states.len()
        invariant
            i <= states.len(),
            frontier == states_of(states@),
            forall|j: int| 0 <= j < i ==> !is_complete(#[trigger] frontier[j]),
        decreases states.len() - i,
    {
        assert(frontier[i as int] == states@[i as int]@);
        if states[i].remaining.is_empty() {
            return Some(i);
        }
        i = i + 1;
    }
    None
}

/// Whether two ends are the same.
fn same_end(a: Option<char>, b: Option<char>) -> (r: bool)
    ensures
        r == (a == b),
{
    match (a, b) {
        (None, None) => true,
        (Some(x), Some(y)) => x == y,
        _ => false,
    }
}

/// Takes the letters of `word` out of `remaining`.
fn remove_letters(word: &Word, remaining: &mut LetterSet)
    ensures
        final(remaining)@ == old(remaining)@.difference(word@.to_set()),
{
    let ghost text = word@;
    let ghost mut n: int = 0;
    assert(remaining@ =~= old(remaining)@.difference(text.take(0).to_set()));
    for letter in it: word.text().as_str().chars()
        invariant
            it.seq() == text,
            n == it.index(),
            remaining@ == old(remaining)@.difference(text.take(n).to_set()),
    {
        remaining.remove(letter);
        proof {
            assert(text.take(n + 1) =~= text.take(n).push(letter));
            text.take(n).lemma_push_to_set_commute(letter);
            assert(remaining@ =~= old(remaining)@.difference(text.take(n + 1).to_set()));
            n = n + 1;
        }
    }
    assert(text.take(n) =~= text);
}

/// Solves a puzzle: finds a shortest chain of dictionary words that covers
/// every letter of the four sides without stepping between two letters of
/// one side.
pub struct LetterBoxSolver {
    dictionary: Vec<Word>,
    sides: Vec<Vec<char>>,
    allowed_edges: EdgeSet,
    feasible: Vec<bool>,
}

impl LetterBoxSolver {
    #[verifier::type_invariant]
    spec fn inv(&self) -> bool {
        &&& self.allowed_edges@ == allowed_edges(layout_of(self.sides@))
        &&& self.feasible@.len() == self.dictionary@.len()
        &&& forall|i: int|
            0 <= i < self.dictionary@.len() ==> #[trigger] self.feasible@[i] == usable(
                self.dictionary@[i]@,
                layout_of(self.sides@),
            )
    }

    /// The texts of the dictionary, in order.
    pub closed spec fn dictionary_view(&self) -> Seq<Seq<char>> {
        texts_of(self.dictionary@)
    }

    /// The layout of the puzzle.
    pub closed spec fn sides_view(&self) -> Layout {
        layout_of(self.sides@)
    }

    /// The words of the dictionary, in order.
    pub fn dictionary(&self) -> (r: &Vec<Word>)
        ensures
            texts_of(r@) == self.dictionary_view(),
    {
        &self.dictionary
    }

    /// The sides of the puzzle.
    pub fn sides(&self) -> (r: &Vec<Vec<char>>)
        ensures
            layout_of(r@) == self.sides_view(),
    {
        &self.sides
    }

    /// The number that stands for the edge from `letter1` to `letter2`,
    /// where `None` is the boundary of a word.
    pub fn generate_edge_repr(letter1: Option<char>, letter2: Option<char>) -> (r: u64)
        ensures
            r == edge_code(letter1, letter2),
    {
        proof {
            lemma_end_code_range(letter1);
            lemma_end_code_range(letter2);
        }
        let l1_repr: u64 = match letter1 {
            None => 0,
            Some(c) => {
                let n: u32 = c as u32;
                n as u64 + 1
            },
        };
        let l2_repr: u64 = match letter2 {
            None => 0,
            Some(c) => {
                let n: u32 = c as u32;
                n as u64 + 1
            },
        };
        l1_repr * 0x1_0000_0000 + l2_repr
    }

    /// The edges that the layout permits.
    pub fn get_allowed_edges(sides: &Vec<Vec<char>>) -> (edges: EdgeSet)
        ensures
            edges@ == allowed_edges(layout_of(sides@)),
    {
        let ghost layout = layout_of(sides@);
        let mut edges = EdgeSet::new();
        let mut i1: usize = 0;
        assert(edges@ =~= allowed_upto(layout, 0));
        while i1 < sides.len()
            invariant
                i1 <= sides.len(),
                layout == layout_of(sides@),
                edges@ == allowed_upto(layout, i1 as int),
            decreases sides.len() - i1,
        {
            let side1 = &sides[i1];
            let ghost done = edges@;
            add_boundary_edges(&mut edges, side1);
            let ghost base = edges@;
            let mut i2: usize = 0;
            assert(edges@ =~= base.union(crossing_upto(layout, i1 as int, 0)));
            while i2 < sides.len()
                invariant
                    i2 <= sides.len(),
                    i1 < sides.len(),
                    layout == layout_of(sides@),
                    side1 == &sides[i1 as int],
                    edges@ == base.union(crossing_upto(layout, i1 as int, i2 as int)),
                decreases sides.len() - i2,
            {
                if i1 != i2 {
                    let side2 = &sides[i2];
                    add_cross_edges(&mut edges, side1, side2);
                    proof {
                        assert(layout[i1 as int] == side1@);
                        assert(layout[i2 as int] == side2@);
                        lemma_crossing_step(layout, i1 as int, i2 as int);
                        assert(edges@ =~= base.union(
                            crossing_upto(layout, i1 as int, i2 + 1),
                        ));
                    }
                } else {
                    proof {
                        lemma_crossing_step(layout, i1 as int, i2 as int);
                    }
                }
                i2 = i2 + 1;
            }
            proof {
                assert(layout[i1 as int] == side1@);
                assert(base == done.union(boundary_edges(side1@)));
                lemma_allowed_step(layout, i1 as int);
            }
            i1 = i1 + 1;
        }
        proof {
            lemma_allowed_all(layout);
        }
        edges
    }

    /// A solver for the puzzle with these sides and this dictionary.
    pub fn new(dictionary: Vec<Word>, sides: Vec<Vec<char>>) -> (solver: LetterBoxSolver)
        ensures
            solver.dictionary_view() == texts_of(dictionary@),
            solver.sides_view() == layout_of(sides@),
    {
        let allowed_edges = LetterBoxSolver::get_allowed_edges(&sides);
        let mut feasible: Vec<bool> = Vec::new();
        let mut i: usize = 0;
        while i < dictionary.len()
            invariant
                i <= dictionary.len(),
                allowed_edges@ == crate::rules::allowed_edges(layout_of(sides@)),
                feasible@.len() == i,
                forall|j: int|
                    0 <= j < i ==> #[trigger] feasible@[j] == usable(
                        dictionary@[j]@,
                        layout_of(sides@),
                    ),
            decreases dictionary.len() - i,
        {
            feasible.push(dictionary[i].has_subset_edges(&allowed_edges));
            i = i + 1;
        }
        LetterBoxSolver { dictionary, sides, allowed_edges, feasible }
    }

    /// The states that follow one state: one for each usable word of the
    /// dictionary that starts with `starting_letter` (any usable word where
    /// it is `None`), in dictionary order, without those that a sibling
    /// dominates.
    pub fn generate_next_states_from_state(
        &self,
        words_used: &Vec<Word>,
        letters_remaining: &LetterSet,
        starting_letter: Option<char>,
    ) -> (next: Vec<SearchState>)
        ensures
            states_of(next@) == children(
                self.dictionary_view(),
                self.sides_view(),
                (StateView {
                    words: texts_of(words_used@),
                    remaining: letters_remaining@,
                    last: starting_letter,
                }),
            ),
    {
        proof {
            use_type_invariant(self);
        }
        let ghost dict = self.dictionary_view();
        let ghost sides = self.sides_view();
        let ghost parent = StateView {
            words: texts_of(words_used@),
            remaining: letters_remaining@,
            last: starting_letter,
        };
        let mut new_states: Vec<SearchState> = Vec::new();
        let mut i: usize = 0;
        assert(dict.take(0).filter(crate::frontier::candidate_pred(sides, parent.last))
            =~= Seq::<Seq<char>>::empty()) by {
            reveal(Seq::filter);
        }
        assert(states_of(new_states@) =~= raw_children(dict.take(0), sides, parent));
        while i < self.dictionary.len()
            invariant
                i <= self.dictionary.len(),
                dict == texts_of(self.dictionary@),
                sides == layout_of(self.sides@),
                parent == (StateView {
                    words: texts_of(words_used@),
                    remaining: letters_remaining@,
                    last: starting_letter,
                }),
                self.feasible@.len() == self.dictionary@.len(),
                forall|j: int|
                    0 <= j < self.dictionary@.len() ==> #[trigger] self.feasible@[j] == usable(
                        self.dictionary@[j]@,
                        sides,
                    ),
                states_of(new_states@) == raw_children(dict.take(i as int), sides, parent),
            decreases self.dictionary.len() - i,
        {
            let word = &self.dictionary[i];
            let starts_right = match starting_letter {
                None => true,
                Some(_) => same_end(word.first(), starting_letter),
            };
            proof {
                assert(dict[i as int] == word@);
                lemma_raw_children_step(dict, sides, parent, i as int);
                assert((self.feasible@[i as int] && starts_right) == is_candidate(
                    word@,
                    sides,
                    starting_letter,
                ));
            }
            if self.feasible[i] && starts_right {
                let mut letters_remaining_new = letters_remaining.clone();
                remove_letters(word, &mut letters_remaining_new);
                let starting_letter_new = word.last();
                let mut words_used_new = words_used.clone();
                words_used_new.push(word.clone());
                let ghost before = states_of(new_states@);
                let state = SearchState {
                    words: words_used_new,
                    remaining: letters_remaining_new,
                    last: starting_letter_new,
                };
                proof {
                    assert(state@.words =~= parent.words.push(word@));
                    assert(state@ == child(parent, word@));
                }
                new_states.push(state);
                assert(states_of(new_states@) =~= before.push(state@));
            }
            i = i + 1;
        }
        assert(dict.take(i as int) =~= dict);
        let ghost all = states_of(new_states@);
        let mut new_states_filtered: Vec<SearchState> = Vec::new();
        let mut a: usize = 0;
        assert(all.take(0).filter(survivor_pred(all)) =~= Seq::<StateView>::empty()) by {
            reveal(Seq::filter);
        }
        assert(states_of(new_states_filtered@) =~= all.take(0).filter(survivor_pred(all)));
        while a < new_states.len()
            invariant
                a <= new_states.len(),
                all == states_of(new_states@),
                states_of(new_states_filtered@) == all.take(a as int).filter(survivor_pred(all)),
            decreases new_states.len() - a,
        {
            let new_state1 = &new_states[a];
            let mut is_redundant: bool = false;
            let mut b: usize = 0;
            while b < new_states.len() && !is_redundant
                invariant
                    b <= new_states.len(),
                    a < new_states.len(),
                    all == states_of(new_states@),
                    new_state1 == &new_states[a as int],
                    is_redundant ==> is_dominated(all, new_state1@),
                    !is_redundant ==> forall|j: int|
                        0 <= j < b ==> !dominates(#[trigger] all[j], new_state1@),
                decreases new_states.len() - b,
            {
                let new_state2 = &new_states[b];
                assert(all[b as int] == new_state2@);
                if same_end(new_state1.last, new_state2.last) {
                    if new_state1.remaining.is_superset(&new_state2.remaining)
                        && !new_state1.remaining.is_subset(&new_state2.remaining) {
                        is_redundant = true;
                    }
                }
                b = b + 1;
            }
            proof {
                assert(all[a as int] == new_state1@);
                lemma_filter_take_step(all, survivor_pred(all), a as int);
            }
            if !is_redundant {
                let ghost before = states_of(new_states_filtered@);
                let kept = new_state1.clone();
                new_states_filtered.push(kept);
                assert(states_of(new_states_filtered@) =~= before.push(new_state1@));
            }
            a = a + 1;
        }
        assert(all.take(a as int) =~= all);
        new_states_filtered
    }

    /// The frontier that follows `states`: the states that follow each of
    /// them, one parent after the other.
    pub fn generate_next_stage(&self, states: Vec<SearchState>) -> (next: Vec<SearchState>)
        ensures
            states_of(next@) == expand(
                self.dictionary_view(),
                self.sides_view(),
                states_of(states@),
            ),
    {
        let ghost dict = self.dictionary_view();
        let ghost sides = self.sides_view();
        let ghost parents = states_of(states@);
        let expand_one = |state: SearchState| -> (next_states: Vec<SearchState>)
            ensures
                states_of(next_states@) == children(
                    self.dictionary_view(),
                    self.sides_view(),
                    state@,
                ),
            { self.generate_next_states_from_state(&state.words, &state.remaining, state.last) };
        let parts = par_map(states, expand_one);
        let next = par_flatten(parts);
        proof {
            let raw_parts = parts@.map_values(|part: Vec<SearchState>| part@);
            let view_of = |s: SearchState| s@;
            lemma_map_flatten(raw_parts, view_of);
            assert(raw_parts.map_values(|part: Seq<SearchState>| part.map_values(view_of))
                =~= parents.map_values(crate::frontier::children_fn(dict, sides))) by {
                assert forall|i: int| 0 <= i < parts@.len() implies states_of(parts@[i]@)
                    == children(dict, sides, #[trigger] parents[i]) by {
                    assert(call_ensures(expand_one, (states@[i],), parts@[i]));
                }
            }
            assert(states_of(next@) == concat_of(parts@).map_values(view_of));
        }
        next
    }

    /// Searches for a shortest chain of dictionary words that covers every
    /// letter of the puzzle, through at most `max_stages` frontiers.
    ///
    /// A layout that is not valid is refused first, then a dictionary
    /// without a usable word. After that the answer is the word sequence of
    /// the first complete state of the first frontier that holds one, if
    /// that frontier is among the first `max_stages`: a solution of the
    /// puzzle that no other solution undercuts in its number of words.
    pub fn solve(&self, max_stages: usize) -> (outcome: Result<Vec<Word>, SolveError>)
        ensures
            match outcome {
                Err(SolveError::InvalidPuzzle) => !valid_layout(self.sides_view()),
                Err(SolveError::EmptyDictionary) => {
                    &&& valid_layout(self.sides_view())
                    &&& forall|i: int|
                        0 <= i < self.dictionary_view().len() ==> !usable(
                            #[trigger] self.dictionary_view()[i],
                            self.sides_view(),
                        )
                },
                Err(SolveError::NoSolutionWithinBound) => {
                    &&& valid_layout(self.sides_view())
                    &&& exists|i: int|
                        0 <= i < self.dictionary_view().len() && usable(
                            #[trigger] self.dictionary_view()[i],
                            self.sides_view(),
                        )
                    &&& forall|k: nat|
                        1 <= k <= max_stages ==> !has_complete(
                            #[trigger] stage(self.dictionary_view(), self.sides_view(), k),
                        )
                },
                Ok(words) => {
                    &&& valid_layout(self.sides_view())
                    &&& exists|k: nat, i: int|
                        k <= max_stages && #[trigger] is_first_solution(
                            self.dictionary_view(),
                            self.sides_view(),
                            k,
                            i,
                        ) && texts_of(words@) == stage(
                            self.dictionary_view(),
                            self.sides_view(),
                            k,
                        )[i].words
                    &&& is_solution(self.dictionary_view(), self.sides_view(), texts_of(words@))
                    &&& forall|other: Seq<Seq<char>>| #[trigger]
                        is_solution(self.dictionary_view(), self.sides_view(), other)
                            ==> words@.len() <= other.len()
                },
            },
    {
        proof {
            use_type_invariant(self);
        }
        let ghost dict = self.dictionary_view();
        let ghost sides = self.sides_view();
        if !is_valid_layout(&self.sides) {
            return Err(SolveError::InvalidPuzzle);
        }
        let mut any_usable: bool = false;
        let mut w: usize = 0;
        while w < self.feasible.len()
            invariant
                w <= self.feasible.len(),
                self.feasible@.len() == self.dictionary@.len(),
                dict == texts_of(self.dictionary@),
                sides == layout_of(self.sides@),
                forall|j: int|
                    0 <= j < self.dictionary@.len() ==> #[trigger] self.feasible@[j] == usable(
                        self.dictionary@[j]@,
                        sides,
                    ),
                any_usable ==> exists|i: int| 0 <= i < dict.len() && usable(#[trigger] dict[i], sides),
                !any_usable ==> forall|i: int| 0 <= i < w ==> !usable(#[trigger] dict[i], sides),
            decreases self.feasible.len() - w,
        {
            if self.feasible[w] {
                assert(usable(dict[w as int], sides));
                any_usable = true;
            }
            w = w + 1;
        }
        if !any_usable {
            return Err(SolveError::EmptyDictionary);
        }
        let letters_remaining = all_letters(&self.sides);
        let first = SearchState { words: Vec::new(), remaining: letters_remaining, last: None };
        proof {
            assert(first@.words =~= Seq::<Seq<char>>::empty());
            assert(first@ == initial_state(sides));
        }
        let mut states: Vec<SearchState> = Vec::new();
        states.push(first);
        assert(states_of(states@) =~= stage(dict, sides, 0));
        let mut k: usize = 0;
        while k < max_stages
            invariant
                k <= max_stages,
                dict == self.dictionary_view(),
                sides == self.sides_view(),
                valid_layout(sides),
                exists|i: int| 0 <= i < dict.len() && usable(#[trigger] dict[i], sides),
                states_of(states@) == stage(dict, sides, k as nat),
                forall|j: nat| 1 <= j <= k ==> !has_complete(#[trigger] stage(dict, sides, j)),
            decreases max_stages - k,
        {
            let new_states = self.generate_next_stage(states);
            k = k + 1;
            assert(states_of(new_states@) == stage(dict, sides, k as nat));
            match first_complete(&new_states) {
                Some(i) => {
                    let words = new_states[i].words.clone();
                    proof {
                        assert(texts_of(words@) =~= texts_of(new_states@[i as int].words@));
                        assert(is_first_solution(dict, sides, k as nat, i as int));
                        law_complete_state_is_a_solution(dict, sides, k as nat, i as int);
                        assert forall|other: Seq<Seq<char>>| #[trigger]
                            is_solution(dict, sides, other) implies words@.len()
                            <= other.len() by {
                            law_first_solution_is_shortest(dict, sides, k as nat, i as int, other);
                        }
                    }
                    return Ok(words);
                },
                None => {},
            }
            if new_states.len() == 0 {
                proof {
                    assert forall|j: nat| 1 <= j <= max_stages implies !has_complete(
                        #[trigger] stage(dict, sides, j),
                    ) by {
                        if j > k {
                            lemma_empty_stage_stays_empty(dict, sides, k as nat, j);
                        }
                    }
                }
                return Err(SolveError::NoSolutionWithinBound);
            }
            states = new_states;
        }
        Err(SolveError::NoSolutionWithinBound)
    }
}

} // verus!
