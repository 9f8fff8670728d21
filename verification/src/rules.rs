use crate::edge::Edge;
use vstd::prelude::*;

verus! {

/// A side layout: the letters of each side, side by side.
pub type Layout = Seq<Seq<char>>;

/// Letter `c` stands on side number `i` of the layout.
pub open spec fn on_side(sides: Layout, i: int, c: char) -> bool {
    0 <= i < sides.len() && sides[i].contains(c)
}

/// Letter `c` stands on some side of the layout.
pub open spec fn is_letter(sides: Layout, c: char) -> bool {
    exists|i: int| on_side(sides, i, c)
}

/// Letters `a` and `b` stand together on some side.
pub open spec fn share_side(sides: Layout, a: char, b: char) -> bool {
    exists|i: int| on_side(sides, i, a) && on_side(sides, i, b)
}

/// Letter `a` stands on one side and letter `b` on another.
pub open spec fn on_different_sides(sides: Layout, a: char, b: char) -> bool {
    exists|i: int, j: int| i != j && on_side(sides, i, a) && on_side(sides, j, b)
}

/// All the letters of the layout.
pub open spec fn puzzle_letters(sides: Layout) -> Set<char> {
    Set::new(|c: char| is_letter(sides, c))
}

/// A layout that a puzzle can be played on: four sides, none of them empty,
/// and no letter on two of them.
pub open spec fn valid_layout(sides: Layout) -> bool {
    &&& sides.len() == 4
    &&& forall|i: int| 0 <= i < sides.len() ==> (#[trigger] sides[i]).len() > 0
    &&& forall|i: int, j: int, c: char|
        i != j && #[trigger] on_side(sides, i, c) ==> !#[trigger] on_side(sides, j, c)
}

/// The edges that the layout permits: from the boundary to any letter, from
/// any letter to the boundary, and from a letter to a letter of another
/// side.
pub open spec fn edge_allowed(sides: Layout, e: Edge) -> bool {
    match e {
        (None, None) => false,
        (None, Some(c)) => is_letter(sides, c),
        (Some(c), None) => is_letter(sides, c),
        (Some(a), Some(b)) => on_different_sides(sides, a, b),
    }
}

/// The set of all edges that the layout permits.
pub open spec fn allowed_edges(sides: Layout) -> Set<Edge> {
    Set::new(|e: Edge| edge_allowed(sides, e))
}

/// The edges between the boundary and the letters of one side, both ways.
pub open spec fn boundary_edges(side: Seq<char>) -> Set<Edge> {
    Set::new(
        |e: Edge|
            match e {
                (None, Some(c)) => side.contains(c),
                (Some(c), None) => side.contains(c),
                _ => false,
            },
    )
}

/// The edges from a letter of `from_side` to a letter of `to_side`.
pub open spec fn cross_edges(from_side: Seq<char>, to_side: Seq<char>) -> Set<Edge> {
    Set::new(
        |e: Edge|
            match e {
                (Some(a), Some(b)) => from_side.contains(a) && to_side.contains(b),
                _ => false,
            },
    )
}

/// The end that stands at position `i` of a word with a boundary put before
/// and after it: position 0 and position `w.len() + 1` are the boundary.
pub open spec fn end_at(w: Seq<char>, i: int) -> Option<char> {
    if 1 <= i <= w.len() {
        Some(w[i - 1])
    } else {
        None
    }
}

/// The `i`-th edge of a word: from the end at position `i` to the next.
pub open spec fn edge_at(w: Seq<char>, i: int) -> Edge {
    (end_at(w, i), end_at(w, i + 1))
}

/// The edges of the first `n` steps through a word.
pub open spec fn edges_upto(w: Seq<char>, n: int) -> Set<Edge> {
    Set::new(|e: Edge| exists|i: int| 0 <= i < n && e == #[trigger] edge_at(w, i))
}

/// The edges of a word: one from the boundary to its first letter, one for
/// each pair of neighbours, one from its last letter to the boundary. The
/// empty word has the one edge from boundary to boundary.
pub open spec fn word_edges(w: Seq<char>) -> Set<Edge> {
    edges_upto(w, w.len() as int + 1)
}

/// The word can be played on the layout: the layout permits all its edges.
pub open spec fn usable(w: Seq<char>, sides: Layout) -> bool {
    word_edges(w).subset_of(allowed_edges(sides))
}

/// The first letter of a word, if it has one.
pub open spec fn first_letter(w: Seq<char>) -> Option<char> {
    if w.len() > 0 {
        Some(w[0])
    } else {
        None
    }
}

/// The last letter of a word, if it has one.
pub open spec fn last_letter(w: Seq<char>) -> Option<char> {
    if w.len() > 0 {
        Some(w.last())
    } else {
        None
    }
}

} // verus!
