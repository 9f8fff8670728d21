use letterboxsolver::layout::{all_letters, is_valid_layout};
use letterboxsolver::letterboxsolver::{LetterBoxSolver, SearchState, SolveError};
use letterboxsolver::letters::LetterSet;
use letterboxsolver::word::Word;

fn generate_word_sequences_from_stage(stage: &Vec<SearchState>) -> Vec<Vec<String>> {
    stage.iter().map(generate_word_sequence_from_state).collect()
}

fn generate_word_sequence_from_state(state: &SearchState) -> Vec<String> {
    state.words.iter().map(|w| w.text().to_string()).collect()
}

fn words(texts: &[&str]) -> Vec<Word> {
    texts.iter().map(|&s| Word::new(s.to_string())).collect()
}

fn letters_of(sides: &Vec<Vec<char>>) -> LetterSet {
    let mut letters_remaining = LetterSet::new();
    for side in sides.iter() {
        for letter in side.iter() {
            letters_remaining.insert(*letter);
        }
    }
    letters_remaining
}

fn sides_ydeolafinuvt() -> Vec<Vec<char>> {
    vec![
        vec!['y', 'd', 'e'],
        vec!['o', 'l', 'a'],
        vec!['f', 'i', 'n'],
        vec!['u', 'v', 't'],
    ]
}

fn sides_dasothgeicfb() -> Vec<Vec<char>> {
    vec![
        vec!['d', 'a', 's'],
        vec!['o', 't', 'h'],
        vec!['g', 'e', 'i'],
        vec!['c', 'f', 'b'],
    ]
}

fn texts(words: &Vec<Word>) -> Vec<String> {
    words.iter().map(|w| w.text().to_string()).collect()
}

#[test]
fn test_generate_next_states_from_state() {
    let dict1: Vec<Word> = words(&["novy", "novelty", "naively", "foundation"]);
    let sides1: Vec<Vec<char>> = sides_ydeolafinuvt();
    let solver1: LetterBoxSolver = LetterBoxSolver::new(dict1, sides1);

    let letters_remaining = letters_of(solver1.sides());

    let possible_first_states =
        solver1.generate_next_states_from_state(&vec![], &letters_remaining, None);
    assert_eq!(
        generate_word_sequences_from_stage(&possible_first_states),
        vec![vec!["novelty"], vec!["naively"], vec!["foundation"]]
    );

    let dead_end_state = solver1.generate_next_states_from_state(
        &vec![Word::new("novelty".to_string())],
        &letters_remaining,
        Some('y'),
    );
    let dead_state: Vec<Vec<String>> = vec![];
    assert_eq!(generate_word_sequences_from_stage(&dead_end_state), dead_state);

    let penultimate_state = solver1.generate_next_states_from_state(
        &vec![Word::new("foundation".to_string())],
        &letters_remaining,
        Some('n'),
    );
    assert_eq!(
        generate_word_sequences_from_stage(&penultimate_state),
        vec![vec!["foundation", "novelty"], vec!["foundation", "naively"]]
    );
}

#[test]
fn test_generate_next_stage() {
    let dict1: Vec<Word> = words(&["dog", "cate", "catfish", "dogc"]);
    let sides1: Vec<Vec<char>> = sides_dasothgeicfb();
    let solver1: LetterBoxSolver = LetterBoxSolver::new(dict1, sides1);

    let letters_remaining = letters_of(solver1.sides());

    let states: Vec<SearchState> =
        vec![SearchState { words: vec![], remaining: letters_remaining, last: None }];

    let first_stage = solver1.generate_next_stage(states);
    assert_eq!(
        generate_word_sequences_from_stage(&first_stage),
        vec![vec!["dog"], vec!["cate"], vec!["catfish"], vec!["dogc"]]
    );

    let second_stage: Vec<SearchState> = solver1.generate_next_stage(first_stage);
    assert_eq!(
        generate_word_sequences_from_stage(&second_stage),
        vec![vec!["dogc", "cate"], vec!["dogc", "catfish"]]
    );
}

#[test]
fn first_stage_keeps_remaining_letters_and_last_letter() {
    let solver = LetterBoxSolver::new(
        words(&["novy", "novelty", "naively", "foundation"]),
        sides_ydeolafinuvt(),
    );
    let start = all_letters(solver.sides());
    assert_eq!(start.len(), 12);
    let stage = solver.generate_next_states_from_state(&vec![], &start, None);
    assert_eq!(stage.len(), 3);
    assert_eq!(stage[0].last, Some('y'));
    assert_eq!(stage[2].last, Some('n'));
    // novelty leaves d, a, f, i, u
    assert_eq!(stage[0].remaining.len(), 5);
    for c in ['d', 'a', 'f', 'i', 'u'] {
        assert!(stage[0].remaining.contains(c));
    }
    for c in ['n', 'o', 'v', 'e', 'l', 't', 'y'] {
        assert!(!stage[0].remaining.contains(c));
    }
    // foundation leaves y, e, l, v
    assert_eq!(stage[2].remaining.len(), 4);
    for c in ['y', 'e', 'l', 'v'] {
        assert!(stage[2].remaining.contains(c));
    }
}

#[test]
fn solve_finds_two_word_chain() {
    let solver = LetterBoxSolver::new(
        words(&["novy", "novelty", "naively", "foundation"]),
        sides_ydeolafinuvt(),
    );
    let solution = solver.solve(10).unwrap();
    assert_eq!(texts(&solution), vec!["foundation", "novelty"]);
}

#[test]
fn solution_is_a_chain_that_covers_every_letter() {
    let sides = sides_ydeolafinuvt();
    let solver = LetterBoxSolver::new(
        words(&["naively", "novy", "foundation", "novelty"]),
        sides.clone(),
    );
    let solution = texts(&solver.solve(5).unwrap());
    assert_eq!(solution.len(), 2);
    for pair in solution.windows(2) {
        assert_eq!(pair[0].chars().last(), pair[1].chars().next());
    }
    let mut covered: Vec<char> = solution.iter().flat_map(|w| w.chars()).collect();
    covered.sort();
    covered.dedup();
    let mut all: Vec<char> = sides.iter().flatten().copied().collect();
    all.sort();
    assert_eq!(covered, all);
}

#[test]
fn solve_stops_at_the_stage_bound() {
    let solver = LetterBoxSolver::new(
        words(&["novy", "novelty", "naively", "foundation"]),
        sides_ydeolafinuvt(),
    );
    assert_eq!(solver.solve(0).err(), Some(SolveError::NoSolutionWithinBound));
    assert_eq!(solver.solve(1).err(), Some(SolveError::NoSolutionWithinBound));
    assert!(solver.solve(2).is_ok());
}

#[test]
fn solve_reports_unsolvable_puzzle_within_bound() {
    // every chain ends in a dead end before all letters are covered
    let solver = LetterBoxSolver::new(words(&["novy", "novelty"]), sides_ydeolafinuvt());
    assert_eq!(solver.solve(1000).err(), Some(SolveError::NoSolutionWithinBound));
}

#[test]
fn solve_rejects_invalid_puzzles() {
    let dict = || words(&["novelty", "foundation"]);
    let three = vec![vec!['y', 'd', 'e'], vec!['o', 'l', 'a'], vec!['f', 'i', 'n']];
    assert_eq!(LetterBoxSolver::new(dict(), three).solve(5).err(), Some(SolveError::InvalidPuzzle));
    let empty_side =
        vec![vec!['y', 'd', 'e'], vec![], vec!['f', 'i', 'n'], vec!['u', 'v', 't']];
    assert_eq!(
        LetterBoxSolver::new(dict(), empty_side).solve(5).err(),
        Some(SolveError::InvalidPuzzle)
    );
    let shared =
        vec![vec!['y', 'd', 'e'], vec!['o', 'l', 'y'], vec!['f', 'i', 'n'], vec!['u', 'v', 't']];
    assert_eq!(
        LetterBoxSolver::new(dict(), shared).solve(5).err(),
        Some(SolveError::InvalidPuzzle)
    );
    let all_one = vec![vec!['a'], vec!['a'], vec!['a'], vec!['a']];
    assert_eq!(
        LetterBoxSolver::new(dict(), all_one).solve(5).err(),
        Some(SolveError::InvalidPuzzle)
    );
}

#[test]
fn solve_reports_empty_dictionary() {
    let none = LetterBoxSolver::new(vec![], sides_ydeolafinuvt());
    assert_eq!(none.solve(5).err(), Some(SolveError::EmptyDictionary));
    // "deny" steps from d to e on one side, "xylo" holds a letter that is on no side
    let unusable = LetterBoxSolver::new(words(&["deny", "xylo", ""]), sides_ydeolafinuvt());
    assert_eq!(unusable.solve(5).err(), Some(SolveError::EmptyDictionary));
}

#[test]
fn layout_validity() {
    assert!(is_valid_layout(&sides_ydeolafinuvt()));
    assert!(is_valid_layout(&vec![vec!['a', 'a'], vec!['b'], vec!['c'], vec!['d']]));
    assert!(!is_valid_layout(&vec![vec!['a'], vec!['b'], vec!['c'], vec!['d'], vec!['e']]));
    assert!(!is_valid_layout(&vec![vec!['a'], vec!['b'], vec!['c'], vec!['a']]));
    assert!(!is_valid_layout(&vec![]));
}

#[test]
fn equal_siblings_are_both_kept() {
    // "tone" and "tune" both end in e, and neither leaves a strict subset of the other
    let sides = vec![vec!['t', 'a'], vec!['o', 'u'], vec!['n', 'b'], vec!['e', 'c']];
    let solver = LetterBoxSolver::new(words(&["tone", "tune", "tone"]), sides);
    let start = all_letters(solver.sides());
    let stage = solver.generate_next_states_from_state(&vec![], &start, None);
    assert_eq!(
        generate_word_sequences_from_stage(&stage),
        vec![vec!["tone"], vec!["tune"], vec!["tone"]]
    );
}

#[test]
fn dominated_sibling_is_dropped_in_both_orders() {
    let solver_a = LetterBoxSolver::new(words(&["novy", "novelty"]), sides_ydeolafinuvt());
    let solver_b = LetterBoxSolver::new(words(&["novelty", "novy"]), sides_ydeolafinuvt());
    let start = all_letters(solver_a.sides());
    let a = solver_a.generate_next_states_from_state(&vec![], &start, None);
    let b = solver_b.generate_next_states_from_state(&vec![], &start, None);
    assert_eq!(generate_word_sequences_from_stage(&a), vec![vec!["novelty"]]);
    assert_eq!(generate_word_sequences_from_stage(&b), vec![vec!["novelty"]]);
}

#[test]
fn shortest_solution_wins_over_longer_ones() {
    let sides = vec![vec!['a'], vec!['b'], vec!['c'], vec!['d']];
    // "ab" + "bcd" covers everything in two words, "abcd" in one
    let solver = LetterBoxSolver::new(words(&["ab", "bcd", "abcd", "dcba"]), sides);
    let solution = texts(&solver.solve(4).unwrap());
    assert_eq!(solution, vec!["abcd"]);
    assert_eq!(texts(&solver.solve(1).unwrap()), vec!["abcd"]);
}

#[test]
fn three_word_solution_needs_three_stages() {
    let sides = vec![vec!['a', 'e'], vec!['b', 'f'], vec!['c'], vec!['d']];
    let solver = LetterBoxSolver::new(words(&["ab", "bcd", "def", "fa"]), sides);
    assert_eq!(solver.solve(2).err(), Some(SolveError::NoSolutionWithinBound));
    assert_eq!(texts(&solver.solve(3).unwrap()), vec!["ab", "bcd", "def"]);
}

#[test]
fn children_keep_the_words_of_their_parent() {
    let solver = LetterBoxSolver::new(
        words(&["novy", "novelty", "naively", "foundation"]),
        sides_ydeolafinuvt(),
    );
    let start = all_letters(solver.sides());
    let first = solver.generate_next_stage(vec![SearchState {
        words: vec![],
        remaining: start,
        last: None,
    }]);
    let second = solver.generate_next_stage(first.clone());
    for state in second.iter() {
        assert_eq!(state.words.len(), 2);
        let parent = first
            .iter()
            .find(|p| p.words[0].text() == state.words[0].text())
            .unwrap();
        assert!(state.remaining.is_subset(&parent.remaining));
        assert_eq!(parent.last, state.words[1].first());
    }
    assert_eq!(second.len(), 2);
}
