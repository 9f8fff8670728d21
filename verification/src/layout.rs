use crate::edge::{Edge, EdgeSet};
use crate::letters::LetterSet;
use crate::rules::{
    allowed_edges, boundary_edges, cross_edges, is_letter, on_side, puzzle_letters,
    valid_layout, Layout,
};
use vstd::prelude::*;

verus! {

/// The layout that a list of sides stands for.
pub open spec fn layout_of(sides: Seq<Vec<char>>) -> Layout {
    sides.map_values(|side: Vec<char>| side@)
}

/// The edges that the first `n` sides of a layout contribute: those between
/// the boundary and their letters, and those from their letters to the
/// letters of any other side.
pub open spec fn allowed_upto(sides: Layout, n: int) -> Set<Edge> {
    Set::new(
        |e: Edge|
            match e {
                (None, None) => false,
                (None, Some(c)) => exists|i: int| 0 <= i < n && on_side(sides, i, c),
                (Some(c), None) => exists|i: int| 0 <= i < n && on_side(sides, i, c),
                (Some(a), Some(b)) => exists|i: int, j: int|
                    0 <= i < n && i != j && on_side(sides, i, a) && on_side(sides, j, b),
            },
    )
}

/// The edges from the letters of side `i` to those of the first `m` sides
/// other than `i`.
pub open spec fn crossing_upto(sides: Layout, i: int, m: int) -> Set<Edge> {
    Set::new(
        |e: Edge|
            match e {
                (Some(a), Some(b)) => exists|j: int|
                    0 <= j < m && i != j && on_side(sides, i, a) && on_side(sides, j, b),
                _ => false,
            },
    )
}

/// Taking one more side into account adds its crossings to that side.
pub proof fn lemma_crossing_step(sides: Layout, i: int, m: int)
    requires
        0 <= i < sides.len(),
        0 <= m < sides.len(),
    ensures
        crossing_upto(sides, i, m + 1) == if i != m {
            crossing_upto(sides, i, m).union(cross_edges(sides[i], sides[m]))
        } else {
            crossing_upto(sides, i, m)
        },
{
    let lhs = crossing_upto(sides, i, m + 1);
    let rhs = if i != m {
        crossing_upto(sides, i, m).union(cross_edges(sides[i], sides[m]))
    } else {
        crossing_upto(sides, i, m)
    };
    assert forall|e: Edge| lhs.contains(e) == rhs.contains(e) by {
        match e {
            (Some(a), Some(b)) => {
                if lhs.contains(e) {
                    let j = choose|j: int|
                        0 <= j < m + 1 && i != j && on_side(sides, i, a) && on_side(sides, j, b);
                    if j < m {
                        assert(crossing_upto(sides, i, m).contains(e));
                    }
                }
                if rhs.contains(e) {
                    if crossing_upto(sides, i, m).contains(e) {
                        let j = choose|j: int|
                            0 <= j < m && i != j && on_side(sides, i, a) && on_side(sides, j, b);
                        assert(on_side(sides, j, b));
                    } else {
                        assert(on_side(sides, i, a) && on_side(sides, m, b));
                    }
                }
            },
            _ => {},
        }
    }
    assert(lhs =~= rhs);
}

/// Taking one more side into account adds its boundary edges and its
/// crossings to every other side.
pub proof fn lemma_allowed_step(sides: Layout, n: int)
    requires
        0 <= n < sides.len(),
    ensures
        allowed_upto(sides, n + 1) == allowed_upto(sides, n).union(
            boundary_edges(sides[n]),
        ).union(crossing_upto(sides, n, sides.len() as int)),
{
    let lhs = allowed_upto(sides, n + 1);
    let rhs = allowed_upto(sides, n).union(boundary_edges(sides[n])).union(
        crossing_upto(sides, n, sides.len() as int),
    );
    assert forall|e: Edge| lhs.contains(e) == rhs.contains(e) by {
        match e {
            (None, None) => {},
            (None, Some(c)) => {
                if lhs.contains(e) {
                    let i = choose|i: int| 0 <= i < n + 1 && on_side(sides, i, c);
                    if i < n {
                        assert(allowed_upto(sides, n).contains(e));
                    }
                }
                if rhs.contains(e) {
                    if allowed_upto(sides, n).contains(e) {
                        let i = choose|i: int| 0 <= i < n && on_side(sides, i, c);
                        assert(on_side(sides, i, c));
                    } else {
                        assert(on_side(sides, n, c));
                    }
                }
            },
            (Some(c), None) => {
                if lhs.contains(e) {
                    let i = choose|i: int| 0 <= i < n + 1 && on_side(sides, i, c);
                    if i < n {
                        assert(allowed_upto(sides, n).contains(e));
                    }
                }
                if rhs.contains(e) {
                    if allowed_upto(sides, n).contains(e) {
                        let i = choose|i: int| 0 <= i < n && on_side(sides, i, c);
                        assert(on_side(sides, i, c));
                    } else {
                        assert(on_side(sides, n, c));
                    }
                }
            },
            (Some(a), Some(b)) => {
                if lhs.contains(e) {
                    let (i, j) = choose|i: int, j: int|
                        0 <= i < n + 1 && i != j && on_side(sides, i, a) && on_side(sides, j, b);
                    if i < n {
                        assert(allowed_upto(sides, n).contains(e));
                    } else {
                        assert(on_side(sides, n, a) && on_side(sides, j, b));
                        assert(crossing_upto(sides, n, sides.len() as int).contains(e));
                    }
                }
                if rhs.contains(e) {
                    if allowed_upto(sides, n).contains(e) {
                        let (i, j) = choose|i: int, j: int|
                            0 <= i < n && i != j && on_side(sides, i, a) && on_side(sides, j, b);
                        assert(on_side(sides, i, a) && on_side(sides, j, b));
                    } else {
                        let j = choose|j: int|
                            0 <= j < sides.len() && n != j && on_side(sides, n, a) && on_side(
                                sides,
                                j,
                                b,
                            );
                        assert(on_side(sides, n, a) && on_side(sides, j, b));
                    }
                }
            },
        }
    }
    assert(lhs =~= rhs);
}

/// With every side taken into account the edges are those that the layout
/// permits.
pub proof fn lemma_allowed_all(sides: Layout)
    ensures
        allowed_upto(sides, sides.len() as int) == allowed_edges(sides),
{
    let lhs = allowed_upto(sides, sides.len() as int);
    let rhs = allowed_edges(sides);
    assert forall|e: Edge| lhs.contains(e) == rhs.contains(e) by {
        match e {
            (None, None) => {},
            (None, Some(c)) => {
                if lhs.contains(e) {
                    let i = choose|i: int| 0 <= i < sides.len() && on_side(sides, i, c);
                    assert(on_side(sides, i, c));
                }
                if rhs.contains(e) {
                    let i = choose|i: int| on_side(sides, i, c);
                    assert(0 <= i < sides.len() && on_side(sides, i, c));
                }
            },
            (Some(c), None) => {
                if lhs.contains(e) {
                    let i = choose|i: int| 0 <= i < sides.len() && on_side(sides, i, c);
                    assert(on_side(sides, i, c));
                }
                if rhs.contains(e) {
                    let i = choose|i: int| on_side(sides, i, c);
                    assert(0 <= i < sides.len() && on_side(sides, i, c));
                }
            },
            (Some(a), Some(b)) => {
                if lhs.contains(e) {
                    let (i, j) = choose|i: int, j: int|
                        0 <= i < sides.len() && i != j && on_side(sides, i, a) && on_side(
                            sides,
                            j,
                            b,
                        );
                    assert(i != j && on_side(sides, i, a) && on_side(sides, j, b));
                }
                if rhs.contains(e) {
                    let (i, j) = choose|i: int, j: int|
                        i != j && on_side(sides, i, a) && on_side(sides, j, b);
                    assert(0 <= i < sides.len() && i != j && on_side(sides, i, a) && on_side(
                        sides,
                        j,
                        b,
                    ));
                }
            },
        }
    }
    assert(lhs =~= rhs);
}

/// Adds the edges between the boundary and each letter of `side`.
pub fn add_boundary_edges(edges: &mut EdgeSet, side: &Vec<char>)
    ensures
        final(edges)@ == old(edges)@.union(boundary_edges(side@)),
{
    let mut i: usize = 0;
    assert(edges@ =~= old(edges)@.union(boundary_edges(side@.take(0))));
    while i < side.len()
        invariant
            i <= side.len(),
            edges@ == old(edges)@.union(boundary_edges(side@.take(i as int))),
        decreases side.len() - i,
    {
        let letter1 = side[i];
        edges.insert(Some(letter1), None);
        edges.insert(None, Some(letter1));
        proof {
            let before = side@.take(i as int);
            let after = side@.take(i + 1);
            assert(after =~= before.push(letter1));
            assert forall|c: char| after.contains(c) == (before.contains(c) || c == letter1) by {
                if before.contains(c) {
                    let j = choose|j: int| 0 <= j < before.len() && before[j] == c;
                    assert(after[j] == c);
                }
                if c == letter1 {
                    assert(after[i as int] == c);
                }
            }
            assert(edges@ =~= old(edges)@.union(boundary_edges(after)));
        }
        i = i + 1;
    }
    assert(side@.take(i as int) =~= side@);
}

/// Adds the edges from each letter of `from_side` to each letter of
/// `to_side`.
pub fn add_cross_edges(edges: &mut EdgeSet, from_side: &Vec<char>, to_side: &Vec<char>)
    ensures
        final(edges)@ == old(edges)@.union(cross_edges(from_side@, to_side@)),
{
    let mut i: usize = 0;
    assert(edges@ =~= old(edges)@.union(cross_edges(from_side@.take(0), to_side@)));
    while i < from_side.len()
        invariant
            i <= from_side.len(),
            edges@ == old(edges)@.union(cross_edges(from_side@.take(i as int), to_side@)),
        decreases from_side.len() - i,
    {
        let letter1 = from_side[i];
        let ghost done = edges@;
        let mut j: usize = 0;
        assert(edges@ =~= done.union(cross_edges(seq![letter1], to_side@.take(0))));
        while j < to_side.len()
            invariant
                j <= to_side.len(),
                edges@ == done.union(cross_edges(seq![letter1], to_side@.take(j as int))),
            decreases to_side.len() - j,
        {
            let letter2 = to_side[j];
            edges.insert(Some(letter1), Some(letter2));
            proof {
                let before = to_side@.take(j as int);
                let after = to_side@.take(j + 1);
                assert(after =~= before.push(letter2));
                assert(seq![letter1].contains(letter1)) by {
                    assert(seq![letter1][0] == letter1);
                }
                assert forall|c: char| after.contains(c) == (before.contains(c) || c == letter2) by {
                    if before.contains(c) {
                        let k = choose|k: int| 0 <= k < before.len() && before[k] == c;
                        assert(after[k] == c);
                    }
                    if c == letter2 {
                        assert(after[j as int] == c);
                    }
                }
                assert(edges@ =~= done.union(cross_edges(seq![letter1], after)));
            }
            j = j + 1;
        }
        proof {
            assert(to_side@.take(j as int) =~= to_side@);
            let before = from_side@.take(i as int);
            let after = from_side@.take(i + 1);
            assert(after =~= before.push(letter1));
            assert forall|c: char| after.contains(c) == (before.contains(c) || c == letter1) by {
                if before.contains(c) {
                    let k = choose|k: int| 0 <= k < before.len() && before[k] == c;
                    assert(after[k] == c);
                }
                if c == letter1 {
                    assert(after[i as int] == c);
                }
            }
            assert forall|c: char| seq![letter1].contains(c) == (c == letter1) by {
                if c == letter1 {
                    assert(seq![letter1][0] == c);
                }
            }
            assert(edges@ =~= old(edges)@.union(cross_edges(after, to_side@)));
        }
        i = i + 1;
    }
    assert(from_side@.take(i as int) =~= from_side@);
}

/// Whether `c` is one of the letters of `side`.
fn side_contains(side: &Vec<char>, c: char) -> (r: bool)
    ensures
        r == side@.contains(c),
{
    let mut i: usize = 0;
    while i < side.len()
        invariant
            i <= side.len(),
            forall|j: int| 0 <= j < i ==> side@[j] != c,
        decreases side.len() - i,
    {
        if side[i] == c {
            return true;
        }
        i = i + 1;
    }
    false
}

/// Whether some letter stands on both sides.
fn sides_share_letter(a: &Vec<char>, b: &Vec<char>) -> (r: bool)
    ensures
        r == exists|c: char| a@.contains(c) && b@.contains(c),
{
    let mut i: usize = 0;
    while i < a.len()
        invariant
            i <= a.len(),
            forall|j: int| 0 <= j < i ==> !b@.contains(#[trigger] a@[j]),
        decreases a.len() - i,
    {
        if side_contains(b, a[i]) {
            assert(a@.contains(a@[i as int]));
            return true;
        }
        i = i + 1;
    }
    false
}

/// Whether a puzzle can be played on these sides: there are four of them,
/// none is empty, and no letter stands on two of them.
pub fn is_valid_layout(sides: &Vec<Vec<char>>) -> (r: bool)
    ensures
        r == valid_layout(layout_of(sides@)),
{
    let ghost layout = layout_of(sides@);
    if sides.len() != 4 {
        return false;
    }
    let mut i: usize = 0;
    while i < sides.len()
        invariant
            i <= sides.len(),
            layout == layout_of(sides@),
            forall|k: int| 0 <= k < i ==> (#[trigger] layout[k]).len() > 0,
            forall|k: int, j: int, c: char|
                0 <= k < i && k != j && #[trigger] on_side(layout, k, c) ==> !#[trigger] on_side(
                    layout,
                    j,
                    c,
                ),
        decreases sides.len() - i,
    {
        if sides[i].len() == 0 {
            assert(layout[i as int].len() == 0);
            return false;
        }
        let mut j: usize = 0;
        while j < sides.len()
            invariant
                j <= sides.len(),
                i < sides.len(),
                layout == layout_of(sides@),
                forall|m: int, c: char|
                    0 <= m < j && i != m && #[trigger] on_side(layout, i as int, c)
                        ==> !#[trigger] on_side(layout, m, c),
            decreases sides.len() - j,
        {
            if i != j && sides_share_letter(&sides[i], &sides[j]) {
                proof {
                    let c = choose|c: char| sides@[i as int]@.contains(c) && sides@[j as int]@.contains(c);
                    assert(on_side(layout, i as int, c));
                    assert(on_side(layout, j as int, c));
                }
                return false;
            }
            proof {
                assert forall|c: char| i != j && #[trigger] on_side(layout, i as int, c) implies !on_side(
                    layout,
                    j as int,
                    c,
                ) by {
                    assert(layout[i as int] == sides@[i as int]@);
                    assert(layout[j as int] == sides@[j as int]@);
                }
            }
            j = j + 1;
        }
        i = i + 1;
    }
    true
}

/// The letters of the first `n` sides of a layout.
spec fn letters_upto(sides: Layout, n: int) -> Set<char> {
    Set::new(|c: char| exists|k: int| 0 <= k < n && on_side(sides, k, c))
}

/// Taking one more side into account adds its letters.
proof fn lemma_letters_step(sides: Layout, n: int)
    requires
        0 <= n < sides.len(),
    ensures
        letters_upto(sides, n + 1) == letters_upto(sides, n).union(sides[n].to_set()),
{
    let lhs = letters_upto(sides, n + 1);
    let rhs = letters_upto(sides, n).union(sides[n].to_set());
    assert forall|c: char| lhs.contains(c) == rhs.contains(c) by {
        if lhs.contains(c) {
            let k = choose|k: int| 0 <= k < n + 1 && on_side(sides, k, c);
            if k < n {
                assert(letters_upto(sides, n).contains(c));
            }
        }
        if rhs.contains(c) {
            if letters_upto(sides, n).contains(c) {
                let k = choose|k: int| 0 <= k < n && on_side(sides, k, c);
                assert(on_side(sides, k, c));
            } else {
                assert(on_side(sides, n, c));
            }
        }
    }
    assert(lhs =~= rhs);
}

/// The letters of all the sides are the letters of the puzzle.
proof fn lemma_letters_all(sides: Layout)
    ensures
        letters_upto(sides, sides.len() as int) == puzzle_letters(sides),
{
    let lhs = letters_upto(sides, sides.len() as int);
    let rhs = puzzle_letters(sides);
    assert forall|c: char| lhs.contains(c) == rhs.contains(c) by {
        if lhs.contains(c) {
            let k = choose|k: int| 0 <= k < sides.len() && on_side(sides, k, c);
            assert(on_side(sides, k, c));
        }
        if is_letter(sides, c) {
            let k = choose|k: int| on_side(sides, k, c);
            assert(0 <= k < sides.len() && on_side(sides, k, c));
        }
    }
    assert(lhs =~= rhs);
}

/// The set of all letters of the sides.
pub fn all_letters(sides: &Vec<Vec<char>>) -> (letters: LetterSet)
    ensures
        letters@ == puzzle_letters(layout_of(sides@)),
{
    let ghost layout = layout_of(sides@);
    let mut letters = LetterSet::new();
    let mut i: usize = 0;
    assert(letters@ =~= letters_upto(layout, 0));
    while i < sides.len()
        invariant
            i <= sides.len(),
            layout == layout_of(sides@),
            letters@ == letters_upto(layout, i as int),
        decreases sides.len() - i,
    {
        let side = &sides[i];
        let ghost done = letters@;
        let mut j: usize = 0;
        assert(letters@ =~= done.union(side@.take(0).to_set()));
        while j < side.len()
            invariant
                j <= side.len(),
                letters@ == done.union(side@.take(j as int).to_set()),
            decreases side.len() - j,
        {
            letters.insert(side[j]);
            proof {
                assert(side@.take(j + 1) =~= side@.take(j as int).push(side@[j as int]));
                side@.take(j as int).lemma_push_to_set_commute(side@[j as int]);
                assert(letters@ =~= done.union(side@.take(j + 1).to_set()));
            }
            j = j + 1;
        }
        proof {
            assert(side@.take(j as int) =~= side@);
            assert(layout[i as int] == side@);
            lemma_letters_step(layout, i as int);
        }
        i = i + 1;
    }
    proof {
        lemma_letters_all(layout);
    }
    letters
}

} // verus!
