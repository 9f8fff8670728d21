use crate::frontier::{
    candidate_pred, candidates, child, children, children_fn, dominates, has_complete,
    is_candidate, is_complete, is_dominated, is_first_solution, raw_children, stage,
    survivor_pred, StateView,
};
use crate::rules::{
    allowed_edges, edge_at, first_letter, is_letter, last_letter, on_different_sides, on_side,
    puzzle_letters, share_side, usable, valid_layout, word_edges, Layout,
};
use vstd::prelude::*;

verus! {

/// On a valid layout two letters of different sides never share a side.
pub proof fn lemma_different_sides_share_none(sides: Layout, a: char, b: char)
    requires
        valid_layout(sides),
        on_different_sides(sides, a, b),
    ensures
        !share_side(sides, a, b),
{
    let (i, j) = choose|i: int, j: int| i != j && on_side(sides, i, a) && on_side(sides, j, b);
    if share_side(sides, a, b) {
        let k = choose|k: int| on_side(sides, k, a) && on_side(sides, k, b);
        if k != i {
            assert(on_side(sides, i, a) && !on_side(sides, k, a));
        } else {
            assert(on_side(sides, j, b) && !on_side(sides, k, b));
        }
    }
}

/// No edge of a word that is usable on a valid layout joins two letters of
/// one side.
pub proof fn law_usable_word_has_no_same_side_edge(sides: Layout, w: Seq<char>, a: char, b: char)
    requires
        valid_layout(sides),
        usable(w, sides),
        word_edges(w).contains((Some(a), Some(b))),
    ensures
        !share_side(sides, a, b),
{
    assert(allowed_edges(sides).contains((Some(a), Some(b))));
    lemma_different_sides_share_none(sides, a, b);
}

/// In a word that is usable on a valid layout no two neighbours stand on
/// one side.
pub proof fn law_usable_word_never_steps_along_a_side(sides: Layout, w: Seq<char>, i: int)
    requires
        valid_layout(sides),
        usable(w, sides),
        0 <= i,
        i + 1 < w.len(),
    ensures
        !share_side(sides, w[i], w[i + 1]),
{
    assert(edge_at(w, i + 1) == (Some(w[i]), Some(w[i + 1])));
    assert(word_edges(w).contains(edge_at(w, i + 1)));
    law_usable_word_has_no_same_side_edge(sides, w, w[i], w[i + 1]);
}

/// A candidate word of the dictionary has its child among the children
/// before pruning.
pub proof fn lemma_candidate_child_is_raw(
    dict: Seq<Seq<char>>,
    sides: Layout,
    s: StateView,
    w: Seq<char>,
)
    requires
        dict.contains(w),
        is_candidate(w, sides, s.last),
    ensures
        raw_children(dict, sides, s).contains(child(s, w)),
{
    let i = choose|i: int| 0 <= i < dict.len() && dict[i] == w;
    dict.lemma_filter_contains(candidate_pred(sides, s.last), i);
    let cands = candidates(dict, sides, s.last);
    let j = choose|j: int| 0 <= j < cands.len() && cands[j] == w;
    assert(raw_children(dict, sides, s)[j] == child(s, w));
}

/// Dominance pruning: where two candidate words of the dictionary give
/// children that ask for the same next letter, and one child has strictly
/// fewer letters left, all of them among those of the other, the other
/// child is not among the children of the state.
pub proof fn law_dominated_sibling_is_pruned(
    dict: Seq<Seq<char>>,
    sides: Layout,
    s: StateView,
    w1: Seq<char>,
    w2: Seq<char>,
)
    requires
        dict.contains(w1),
        dict.contains(w2),
        is_candidate(w1, sides, s.last),
        is_candidate(w2, sides, s.last),
        dominates(child(s, w2), child(s, w1)),
    ensures
        !children(dict, sides, s).contains(child(s, w1)),
{
    let raw = raw_children(dict, sides, s);
    lemma_candidate_child_is_raw(dict, sides, s, w2);
    let j = choose|j: int| 0 <= j < raw.len() && raw[j] == child(s, w2);
    assert(dominates(raw[j], child(s, w1)));
    assert(is_dominated(raw, child(s, w1)));
    let kept = children(dict, sides, s);
    if kept.contains(child(s, w1)) {
        let i = choose|i: int| 0 <= i < kept.len() && kept[i] == child(s, w1);
        raw.lemma_filter_pred(survivor_pred(raw), i);
    }
}

/// The letters that some word of the list holds.
pub open spec fn covered(words: Seq<Seq<char>>) -> Set<char> {
    Set::new(|c: char| exists|i: int| 0 <= i < words.len() && (#[trigger] words[i]).contains(c))
}

/// Each word after the first starts with the last letter of the word
/// before it.
pub open spec fn is_chain(words: Seq<Seq<char>>) -> bool {
    forall|i: int|
        0 < i < words.len() ==> last_letter(words[i - 1]) is Some && first_letter(
            #[trigger] words[i],
        ) == last_letter(words[i - 1])
}

/// The words can be played one after the other: each is a word of the
/// dictionary that is usable on the layout, and they form a chain.
pub open spec fn is_playable(dict: Seq<Seq<char>>, sides: Layout, words: Seq<Seq<char>>) -> bool {
    &&& forall|i: int|
        0 <= i < words.len() ==> dict.contains(#[trigger] words[i]) && usable(words[i], sides)
    &&& is_chain(words)
}

/// The words solve the puzzle: there is at least one, they can be played
/// one after the other, and together they hold exactly the letters of the
/// puzzle.
pub open spec fn is_solution(dict: Seq<Seq<char>>, sides: Layout, words: Seq<Seq<char>>) -> bool {
    &&& words.len() >= 1
    &&& is_playable(dict, sides, words)
    &&& covered(words) =~= puzzle_letters(sides)
}

/// The state says of its words what is true of them: the letters left are
/// the puzzle letters that none of the words holds, and the next letter
/// asked for is the last letter of the last word.
pub open spec fn describes_its_words(sides: Layout, s: StateView) -> bool {
    &&& s.remaining =~= puzzle_letters(sides).difference(covered(s.words))
    &&& s.last == if s.words.len() == 0 {
        None
    } else {
        last_letter(s.words.last())
    }
}

/// A usable word has at least one letter.
pub proof fn lemma_usable_word_is_not_empty(sides: Layout, w: Seq<char>)
    requires
        usable(w, sides),
    ensures
        w.len() > 0,
{
    if w.len() == 0 {
        assert(edge_at(w, 0) == (None::<char>, None::<char>));
        assert(word_edges(w).contains(edge_at(w, 0)));
        assert(allowed_edges(sides).contains((None::<char>, None::<char>)));
    }
}

/// Every letter of a usable word is a letter of the puzzle.
pub proof fn lemma_usable_word_has_puzzle_letters(sides: Layout, w: Seq<char>, c: char)
    requires
        usable(w, sides),
        w.contains(c),
    ensures
        is_letter(sides, c),
{
    let i = choose|i: int| 0 <= i < w.len() && w[i] == c;
    assert(edge_at(w, i + 1).0 == Some(c));
    assert(word_edges(w).contains(edge_at(w, i + 1)));
    assert(allowed_edges(sides).contains(edge_at(w, i + 1)));
    match edge_at(w, i + 1).1 {
        None => {},
        Some(b) => {
            let (p, q) = choose|p: int, q: int|
                p != q && on_side(sides, p, c) && on_side(sides, q, b);
            assert(on_side(sides, p, c));
        },
    }
}

/// An item of a part is an item of the parts put together.
pub proof fn lemma_flatten_contains<A>(parts: Seq<Seq<A>>, p: int, q: int)
    requires
        0 <= p < parts.len(),
        0 <= q < parts[p].len(),
    ensures
        parts.flatten().contains(parts[p][q]),
    decreases parts.len(),
{
    let rest = parts.drop_first();
    if p == 0 {
        assert(parts.flatten()[q] == parts[p][q]);
    } else {
        assert(rest[p - 1] == parts[p]);
        lemma_flatten_contains(rest, p - 1, q);
        let r = choose|r: int| 0 <= r < rest.flatten().len() && rest.flatten()[r] == parts[p][q];
        assert(parts.flatten()[parts.first().len() + r] == parts[p][q]);
    }
}

/// An item of the parts put together is an item of one part.
pub proof fn lemma_flatten_origin<A>(parts: Seq<Seq<A>>, x: A) -> (at: (int, int))
    requires
        parts.flatten().contains(x),
    ensures
        0 <= at.0 < parts.len(),
        0 <= at.1 < parts[at.0].len(),
        parts[at.0][at.1] == x,
    decreases parts.len(),
{
    let r = choose|r: int| 0 <= r < parts.flatten().len() && parts.flatten()[r] == x;
    if parts.len() == 0 {
        (0, 0)
    } else {
        let rest = parts.drop_first();
        if r < parts.first().len() {
            (0, r)
        } else {
            assert(rest.flatten()[r - parts.first().len()] == x);
            let at = lemma_flatten_origin(rest, x);
            assert(rest[at.0] == parts[at.0 + 1]);
            (at.0 + 1, at.1)
        }
    }
}

/// A child that is kept comes from a candidate word of the dictionary.
pub proof fn lemma_child_origin(dict: Seq<Seq<char>>, sides: Layout, s: StateView, c: StateView) -> (w:
    Seq<char>)
    requires
        children(dict, sides, s).contains(c),
    ensures
        dict.contains(w),
        is_candidate(w, sides, s.last),
        c == child(s, w),
{
    let raw = raw_children(dict, sides, s);
    raw.lemma_filter_contains_rev(survivor_pred(raw), c);
    let j = choose|j: int| 0 <= j < raw.len() && raw[j] == c;
    let cands = candidates(dict, sides, s.last);
    let w = cands[j];
    dict.lemma_filter_pred(candidate_pred(sides, s.last), j);
    assert(cands.contains(w));
    dict.lemma_filter_contains_rev(candidate_pred(sides, s.last), w);
    w
}

/// A child that is kept has the words of its parent and one more, and no
/// letter left that its parent has not.
pub proof fn law_child_extends_its_parent(
    dict: Seq<Seq<char>>,
    sides: Layout,
    s: StateView,
    c: StateView,
)
    requires
        children(dict, sides, s).contains(c),
    ensures
        c.words.len() == s.words.len() + 1,
        c.words.drop_last() == s.words,
        c.remaining.subset_of(s.remaining),
{
    let w = lemma_child_origin(dict, sides, s, c);
    assert(s.words.push(w).drop_last() =~= s.words);
}

/// A state of a later frontier is a child of a state of the frontier
/// before.
pub proof fn lemma_stage_origin(dict: Seq<Seq<char>>, sides: Layout, k: nat, i: int) -> (from: (
    int,
    Seq<char>,
))
    requires
        k >= 1,
        0 <= i < stage(dict, sides, k).len(),
    ensures
        0 <= from.0 < stage(dict, sides, (k - 1) as nat).len(),
        dict.contains(from.1),
        is_candidate(from.1, sides, stage(dict, sides, (k - 1) as nat)[from.0].last),
        children(dict, sides, stage(dict, sides, (k - 1) as nat)[from.0]).contains(
            stage(dict, sides, k)[i],
        ),
        stage(dict, sides, k)[i] == child(stage(dict, sides, (k - 1) as nat)[from.0], from.1),
{
    let before = stage(dict, sides, (k - 1) as nat);
    let parts = before.map_values(children_fn(dict, sides));
    let c = stage(dict, sides, k)[i];
    assert(parts.flatten().contains(c));
    let at = lemma_flatten_origin(parts, c);
    assert(parts[at.0] == children(dict, sides, before[at.0]));
    assert(children(dict, sides, before[at.0]).contains(c));
    let w = lemma_child_origin(dict, sides, before[at.0], c);
    (at.0, w)
}

/// The child of a state that describes playable words describes playable
/// words, one more than its parent.
pub proof fn lemma_child_describes_its_words(
    dict: Seq<Seq<char>>,
    sides: Layout,
    s: StateView,
    w: Seq<char>,
)
    requires
        is_playable(dict, sides, s.words),
        describes_its_words(sides, s),
        dict.contains(w),
        is_candidate(w, sides, s.last),
    ensures
        is_playable(dict, sides, child(s, w).words),
        describes_its_words(sides, child(s, w)),
{
    let c = child(s, w);
    let n = s.words.len() as int;
    lemma_usable_word_is_not_empty(sides, w);
    assert forall|i: int| 0 <= i < c.words.len() implies dict.contains(#[trigger] c.words[i])
        && usable(c.words[i], sides) by {
        if i < n {
            assert(c.words[i] == s.words[i]);
        }
    }
    assert forall|i: int| 0 < i < c.words.len() implies last_letter(c.words[i - 1]) is Some
        && first_letter(#[trigger] c.words[i]) == last_letter(c.words[i - 1]) by {
        assert(c.words[i - 1] == s.words[i - 1]);
        if i < n {
            assert(c.words[i] == s.words[i]);
        } else {
            assert(usable(s.words[n - 1], sides));
            lemma_usable_word_is_not_empty(sides, s.words[n - 1]);
        }
    }
    assert forall|x: char| covered(c.words).contains(x) == (covered(s.words).contains(x)
        || w.contains(x)) by {
        if covered(c.words).contains(x) {
            let i = choose|i: int| 0 <= i < c.words.len() && (#[trigger] c.words[i]).contains(x);
            if i < n {
                assert(s.words[i].contains(x));
            }
        }
        if covered(s.words).contains(x) {
            let i = choose|i: int| 0 <= i < s.words.len() && (#[trigger] s.words[i]).contains(x);
            assert(c.words[i].contains(x));
        }
        if w.contains(x) {
            assert(c.words[n].contains(x));
        }
    }
    assert(c.remaining =~= puzzle_letters(sides).difference(covered(c.words)));
    assert(c.words.last() == w);
}

/// Every state of the frontier of the states with `k` words has `k` words
/// that can be played one after the other, and says of them what is true.
pub proof fn lemma_stage_states(dict: Seq<Seq<char>>, sides: Layout, k: nat, i: int)
    requires
        0 <= i < stage(dict, sides, k).len(),
    ensures
        stage(dict, sides, k)[i].words.len() == k,
        is_playable(dict, sides, stage(dict, sides, k)[i].words),
        describes_its_words(sides, stage(dict, sides, k)[i]),
    decreases k,
{
    let s = stage(dict, sides, k)[i];
    if k == 0 {
        assert(s.remaining =~= puzzle_letters(sides).difference(covered(s.words)));
    } else {
        let from = lemma_stage_origin(dict, sides, k, i);
        lemma_stage_states(dict, sides, (k - 1) as nat, from.0);
        lemma_child_describes_its_words(
            dict,
            sides,
            stage(dict, sides, (k - 1) as nat)[from.0],
            from.1,
        );
    }
}

/// Chain invariant: in every state of every frontier each word after the
/// first starts with the last letter of the word before it.
pub proof fn law_words_form_a_chain(dict: Seq<Seq<char>>, sides: Layout, k: nat, i: int, j: int)
    requires
        0 <= i < stage(dict, sides, k).len(),
        0 < j < stage(dict, sides, k)[i].words.len(),
    ensures
        stage(dict, sides, k)[i].words[j].len() > 0,
        stage(dict, sides, k)[i].words[j - 1].len() > 0,
        stage(dict, sides, k)[i].words[j][0] == stage(dict, sides, k)[i].words[j - 1].last(),
{
    lemma_stage_states(dict, sides, k, i);
    let words = stage(dict, sides, k)[i].words;
    assert(first_letter(words[j]) == last_letter(words[j - 1]));
}

/// Coverage invariant: the words of a complete state of a frontier hold
/// exactly the letters of the puzzle.
pub proof fn law_complete_state_covers_the_puzzle(
    dict: Seq<Seq<char>>,
    sides: Layout,
    k: nat,
    i: int,
)
    requires
        0 <= i < stage(dict, sides, k).len(),
        is_complete(stage(dict, sides, k)[i]),
    ensures
        covered(stage(dict, sides, k)[i].words) == puzzle_letters(sides),
{
    lemma_stage_states(dict, sides, k, i);
    let s = stage(dict, sides, k)[i];
    assert forall|c: char| covered(s.words).contains(c) == puzzle_letters(sides).contains(c) by {
        if covered(s.words).contains(c) {
            let j = choose|j: int| 0 <= j < s.words.len() && (#[trigger] s.words[j]).contains(c);
            lemma_usable_word_has_puzzle_letters(sides, s.words[j], c);
        }
        if puzzle_letters(sides).contains(c) && !covered(s.words).contains(c) {
            assert(s.remaining.contains(c));
        }
    }
    assert(covered(s.words) =~= puzzle_letters(sides));
}

/// A puzzle has finitely many letters.
pub proof fn lemma_puzzle_letters_finite(sides: Layout)
    ensures
        puzzle_letters(sides).finite(),
{
    let all = sides.flatten().to_set();
    vstd::seq_lib::seq_to_set_is_finite(sides.flatten());
    assert forall|c: char| puzzle_letters(sides).contains(c) implies all.contains(c) by {
        let i = choose|i: int| on_side(sides, i, c);
        let q = choose|q: int| 0 <= q < sides[i].len() && sides[i][q] == c;
        lemma_flatten_contains(sides, i, q);
    }
    vstd::set_lib::lemma_len_subset(puzzle_letters(sides), all);
}

/// Among the children before pruning, each has a sibling that asks for the
/// same next letter, has no letter left that the child has not, and is
/// dominated by none.
pub proof fn lemma_some_survivor_is_no_worse(raw: Seq<StateView>, a: int) -> (b: int)
    requires
        0 <= a < raw.len(),
        raw[a].remaining.finite(),
    ensures
        0 <= b < raw.len(),
        raw[b].last == raw[a].last,
        raw[b].remaining.subset_of(raw[a].remaining),
        !is_dominated(raw, raw[b]),
    decreases raw[a].remaining.len(),
{
    if is_dominated(raw, raw[a]) {
        let j = choose|j: int| 0 <= j < raw.len() && dominates(#[trigger] raw[j], raw[a]);
        let x = choose|x: char| raw[a].remaining.contains(x) && !raw[j].remaining.contains(x);
        assert(raw[j].remaining.subset_of(raw[a].remaining.remove(x)));
        vstd::set_lib::lemma_len_subset(raw[j].remaining, raw[a].remaining.remove(x));
        lemma_some_survivor_is_no_worse(raw, j)
    } else {
        a
    }
}

/// Pruning loses no chain: for the first `j` words of any list of words
/// that can be played one after the other, the frontier of the states with
/// `j` words holds a state that asks for the same next letter and has no
/// letter left that those words leave uncovered.
pub proof fn lemma_frontier_matches_chain(
    dict: Seq<Seq<char>>,
    sides: Layout,
    words: Seq<Seq<char>>,
    j: nat,
) -> (i: int)
    requires
        is_playable(dict, sides, words),
        j <= words.len(),
    ensures
        0 <= i < stage(dict, sides, j).len(),
        stage(dict, sides, j)[i].remaining.subset_of(
            puzzle_letters(sides).difference(covered(words.take(j as int))),
        ),
        stage(dict, sides, j)[i].last == if j == 0 {
            None
        } else {
            last_letter(words[j - 1])
        },
    decreases j,
{
    if j == 0 {
        0
    } else {
        let i0 = lemma_frontier_matches_chain(dict, sides, words, (j - 1) as nat);
        let before = stage(dict, sides, (j - 1) as nat);
        let t = before[i0];
        let w = words[j - 1];
        assert(dict.contains(w) && usable(w, sides));
        if j >= 2 {
            assert(first_letter(words[j - 1]) == last_letter(words[j - 2]));
        }
        assert(is_candidate(w, sides, t.last));
        let raw = raw_children(dict, sides, t);
        lemma_candidate_child_is_raw(dict, sides, t, w);
        let a = choose|a: int| 0 <= a < raw.len() && raw[a] == child(t, w);
        lemma_puzzle_letters_finite(sides);
        assert(raw[a].remaining.subset_of(puzzle_letters(sides)));
        vstd::set_lib::lemma_len_subset(raw[a].remaining, puzzle_letters(sides));
        let b = lemma_some_survivor_is_no_worse(raw, a);
        raw.lemma_filter_contains(survivor_pred(raw), b);
        let kept = children(dict, sides, t);
        let q = choose|q: int| 0 <= q < kept.len() && kept[q] == raw[b];
        let parts = before.map_values(children_fn(dict, sides));
        assert(parts[i0] == kept);
        lemma_flatten_contains(parts, i0, q);
        let after = stage(dict, sides, j);
        let i = choose|i: int| 0 <= i < after.len() && after[i] == raw[b];
        assert forall|c: char| after[i].remaining.contains(c) implies puzzle_letters(
            sides,
        ).difference(covered(words.take(j as int))).contains(c) by {
            assert(raw[a].remaining.contains(c));
            assert(t.remaining.contains(c) && !w.contains(c));
            if covered(words.take(j as int)).contains(c) {
                let m = choose|m: int|
                    0 <= m < words.take(j as int).len() && (#[trigger] words.take(
                        j as int,
                    )[m]).contains(c);
                if m < j - 1 {
                    assert(words.take(j - 1)[m].contains(c));
                    assert(covered(words.take(j - 1)).contains(c));
                }
            }
        }
        lemma_usable_word_is_not_empty(sides, w);
        i
    }
}

/// The words of a complete state of a frontier that holds at least one
/// word solve the puzzle, and there are as many of them as the frontier's
/// number says.
pub proof fn law_complete_state_is_a_solution(dict: Seq<Seq<char>>, sides: Layout, k: nat, i: int)
    requires
        k >= 1,
        0 <= i < stage(dict, sides, k).len(),
        is_complete(stage(dict, sides, k)[i]),
    ensures
        is_solution(dict, sides, stage(dict, sides, k)[i].words),
        stage(dict, sides, k)[i].words.len() == k,
{
    lemma_stage_states(dict, sides, k, i);
    law_complete_state_covers_the_puzzle(dict, sides, k, i);
}

/// Where some list of words solves the puzzle, the frontier of the states
/// with as many words holds a complete state.
pub proof fn law_every_solution_is_found(
    dict: Seq<Seq<char>>,
    sides: Layout,
    words: Seq<Seq<char>>,
)
    requires
        is_solution(dict, sides, words),
    ensures
        has_complete(stage(dict, sides, words.len())),
{
    let n = words.len();
    let m = lemma_frontier_matches_chain(dict, sides, words, n);
    assert(words.take(n as int) =~= words);
    let s = stage(dict, sides, n)[m];
    assert(s.remaining =~= Set::<char>::empty());
    assert(is_complete(s));
}

/// Minimality: the words of the first complete state of the first frontier
/// that holds one solve the puzzle, and no solution has fewer words.
pub proof fn law_first_solution_is_shortest(
    dict: Seq<Seq<char>>,
    sides: Layout,
    k: nat,
    i: int,
    other: Seq<Seq<char>>,
)
    requires
        is_first_solution(dict, sides, k, i),
        is_solution(dict, sides, other),
    ensures
        is_solution(dict, sides, stage(dict, sides, k)[i].words),
        stage(dict, sides, k)[i].words.len() <= other.len(),
{
    law_complete_state_is_a_solution(dict, sides, k, i);
    law_every_solution_is_found(dict, sides, other);
}

/// Dominance pruning over frontiers: where two candidate words of the
/// dictionary give a state of a frontier children that ask for the same
/// next letter, and one child has strictly fewer letters left, all of them
/// among those of the other, the other child is not in the next frontier.
pub proof fn law_dominated_sibling_is_not_in_next_frontier(
    dict: Seq<Seq<char>>,
    sides: Layout,
    k: nat,
    i: int,
    w1: Seq<char>,
    w2: Seq<char>,
)
    requires
        0 <= i < stage(dict, sides, k).len(),
        dict.contains(w1),
        dict.contains(w2),
        is_candidate(w1, sides, stage(dict, sides, k)[i].last),
        is_candidate(w2, sides, stage(dict, sides, k)[i].last),
        dominates(child(stage(dict, sides, k)[i], w2), child(stage(dict, sides, k)[i], w1)),
    ensures
        !stage(dict, sides, k + 1).contains(child(stage(dict, sides, k)[i], w1)),
{
    let s = stage(dict, sides, k)[i];
    let c = child(s, w1);
    let after = stage(dict, sides, k + 1);
    law_dominated_sibling_is_pruned(dict, sides, s, w1, w2);
    if after.contains(c) {
        let m = choose|m: int| 0 <= m < after.len() && after[m] == c;
        let from = lemma_stage_origin(dict, sides, k + 1, m);
        let p = stage(dict, sides, k)[from.0];
        assert(child(p, from.1).words == c.words);
        assert(p.words =~= p.words.push(from.1).drop_last());
        assert(s.words =~= s.words.push(w1).drop_last());
        assert(p.words == s.words);
        lemma_stage_states(dict, sides, k, i);
        lemma_stage_states(dict, sides, k, from.0);
        assert(p.remaining =~= s.remaining);
        assert(p == s);
    }
}

} // verus!
