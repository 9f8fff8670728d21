use letterboxsolver::edge::EdgeSet;
use letterboxsolver::letterboxsolver::LetterBoxSolver;
use letterboxsolver::letters::LetterSet;
use letterboxsolver::word::Word;

#[test]
fn edge_repr_formula() {
    assert_eq!(LetterBoxSolver::generate_edge_repr(None, None), 0);
    assert_eq!(LetterBoxSolver::generate_edge_repr(None, Some('a')), 98);
    assert_eq!(LetterBoxSolver::generate_edge_repr(Some('a'), None), 98 * 0x1_0000_0000);
    assert_eq!(
        LetterBoxSolver::generate_edge_repr(Some('a'), Some('b')),
        98 * 0x1_0000_0000 + 99
    );
    assert_eq!(
        LetterBoxSolver::generate_edge_repr(Some('\u{10FFFF}'), Some('\u{0}')),
        0x11_0000 * 0x1_0000_0000 + 1
    );
}

#[test]
fn edge_repr_tells_direction_and_boundary_apart() {
    let ab = LetterBoxSolver::generate_edge_repr(Some('a'), Some('b'));
    let ba = LetterBoxSolver::generate_edge_repr(Some('b'), Some('a'));
    assert_ne!(ab, ba);
    let underscore = LetterBoxSolver::generate_edge_repr(Some('_'), Some('a'));
    let boundary = LetterBoxSolver::generate_edge_repr(None, Some('a'));
    assert_ne!(underscore, boundary);
}

#[test]
fn allowed_edges_of_a_layout() {
    let sides = vec![vec!['a', 'b'], vec!['c'], vec!['d'], vec!['e']];
    let allowed = LetterBoxSolver::get_allowed_edges(&sides);
    for c in ['a', 'b', 'c', 'd', 'e'] {
        assert!(allowed.contains(None, Some(c)));
        assert!(allowed.contains(Some(c), None));
        assert!(!allowed.contains(Some(c), Some(c)));
    }
    assert!(allowed.contains(Some('a'), Some('c')));
    assert!(allowed.contains(Some('c'), Some('a')));
    assert!(allowed.contains(Some('d'), Some('e')));
    assert!(!allowed.contains(Some('a'), Some('b')));
    assert!(!allowed.contains(Some('b'), Some('a')));
    assert!(!allowed.contains(None, None));
    assert!(!allowed.contains(None, Some('z')));
    assert!(!allowed.contains(Some('a'), Some('z')));
}

#[test]
fn word_edges_against_allowed_edges() {
    let sides = vec![vec!['a', 'b'], vec!['c'], vec!['d'], vec!['e']];
    let allowed = LetterBoxSolver::get_allowed_edges(&sides);
    assert!(Word::new("aced".to_string()).has_subset_edges(&allowed));
    assert!(Word::new("a".to_string()).has_subset_edges(&allowed));
    assert!(!Word::new("abe".to_string()).has_subset_edges(&allowed));
    assert!(!Word::new("aa".to_string()).has_subset_edges(&allowed));
    assert!(!Word::new("".to_string()).has_subset_edges(&allowed));
    assert!(!Word::new("acz".to_string()).has_subset_edges(&allowed));
}

#[test]
fn word_edges_are_the_steps_of_the_word() {
    let w = Word::new("aba".to_string());
    let edges = w.edges();
    assert!(edges.contains(None, Some('a')));
    assert!(edges.contains(Some('a'), Some('b')));
    assert!(edges.contains(Some('b'), Some('a')));
    assert!(edges.contains(Some('a'), None));
    assert!(!edges.contains(Some('b'), None));
    assert!(!edges.contains(None, Some('b')));
    assert!(!edges.contains(Some('a'), Some('a')));
    assert!(!edges.contains(None, None));
    let empty = Word::new(String::new());
    assert!(empty.edges().contains(None, None));
    assert!(!empty.edges().contains(None, Some('a')));
}

#[test]
fn feasible_words_never_step_along_a_side() {
    let sides = vec![vec!['a', 'b', 'c'], vec!['d', 'e'], vec!['f'], vec!['g', 'h']];
    let allowed = LetterBoxSolver::get_allowed_edges(&sides);
    let side_of = |c: char| sides.iter().position(|s| s.contains(&c));
    let texts = [
        "adg", "abd", "dead", "fade", "hedge", "gfd", "ch", "hc", "bead", "egg", "a", "xd", "faced",
        "gaffe", "head", "dfgdfg", "cab",
    ];
    let mut feasible = 0;
    for text in texts {
        let w = Word::new(text.to_string());
        if w.has_subset_edges(&allowed) {
            feasible += 1;
            let letters: Vec<char> = text.chars().collect();
            for pair in letters.windows(2) {
                assert!(side_of(pair[0]).is_some());
                assert_ne!(side_of(pair[0]), side_of(pair[1]));
            }
        }
    }
    assert_eq!(feasible, 8);
}

#[test]
fn single_letter_word_has_two_boundary_edges() {
    let mut only = EdgeSet::new();
    only.insert(None, Some('a'));
    only.insert(Some('a'), None);
    let w = Word::new("a".to_string());
    assert!(w.has_subset_edges(&only));
    let mut one = EdgeSet::new();
    one.insert(None, Some('a'));
    assert!(!w.has_subset_edges(&one));
}

#[test]
fn word_first_last_and_text() {
    let w = Word::new("novelty".to_string());
    assert_eq!(w.text(), "novelty");
    assert_eq!(w.first(), Some('n'));
    assert_eq!(w.last(), Some('y'));
    let e = Word::new(String::new());
    assert_eq!(e.first(), None);
    assert_eq!(e.last(), None);
    let c = w.clone();
    assert_eq!(c.text(), "novelty");
    assert_eq!(c.last(), Some('y'));
}

#[test]
fn edge_set_subset_and_clone() {
    let mut small = EdgeSet::new();
    small.insert(Some('a'), Some('b'));
    let mut big = small.clone();
    big.insert(Some('b'), Some('a'));
    assert!(small.is_subset(&big));
    assert!(!big.is_subset(&small));
    assert!(big.contains(Some('a'), Some('b')));
    assert!(!small.contains(Some('b'), Some('a')));
    assert!(EdgeSet::new().is_subset(&small));
}

#[test]
fn letter_set_operations() {
    let mut s = LetterSet::new();
    assert!(s.is_empty());
    assert!(s.insert('a'));
    assert!(!s.insert('a'));
    assert!(s.insert('b'));
    assert_eq!(s.len(), 2);
    let mut t = s.clone();
    assert!(t.remove('a'));
    assert!(!t.remove('a'));
    assert_eq!(t.len(), 1);
    assert!(t.contains('b'));
    assert!(!t.contains('a'));
    assert!(t.is_subset(&s));
    assert!(!s.is_subset(&t));
    assert!(s.is_superset(&t));
    assert!(s.is_superset(&s));
    assert!(t.remove('b'));
    assert!(t.is_empty());
}

#[test]
fn words_from_texts_keeps_order() {
    let texts: Vec<String> = (0..200).map(|i| format!("w{}x", i)).collect();
    let words = letterboxsolver::word::words_from_texts(texts.clone());
    assert_eq!(words.len(), 200);
    for (w, t) in words.iter().zip(texts.iter()) {
        assert_eq!(w.text(), t);
        assert_eq!(w.first(), Some('w'));
        assert_eq!(w.last(), Some('x'));
    }
}
