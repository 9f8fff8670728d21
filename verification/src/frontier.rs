use crate::rules::{first_letter, last_letter, puzzle_letters, usable, Layout};
use vstd::prelude::*;

verus! {

/// A partial solution as a mathematical value: the words chosen so far,
/// the puzzle letters that none of them holds, and the letter that the next
/// word has to start with (`None` while no word is chosen).
pub struct StateView {
    pub words: Seq<Seq<char>>,
    pub remaining: Set<char>,
    pub last: Option<char>,
}

/// The state before any word is chosen.
pub open spec fn initial_state(sides: Layout) -> StateView {
    StateView { words: Seq::empty(), remaining: puzzle_letters(sides), last: None }
}

/// A state that has covered every letter.
pub open spec fn is_complete(s: StateView) -> bool {
    s.remaining =~= Set::<char>::empty()
}

/// Word `w` may be chosen next: it is usable on the layout and starts with
/// the letter that the state asks for, if it asks for one.
pub open spec fn is_candidate(w: Seq<char>, sides: Layout, last: Option<char>) -> bool {
    usable(w, sides) && (last is None || first_letter(w) == last)
}

/// `is_candidate` as a predicate on words.
pub open spec fn candidate_pred(sides: Layout, last: Option<char>) -> spec_fn(Seq<char>) -> bool {
    |w: Seq<char>| is_candidate(w, sides, last)
}

/// The state that follows `s` when `w` is chosen.
pub open spec fn child(s: StateView, w: Seq<char>) -> StateView {
    StateView {
        words: s.words.push(w),
        remaining: s.remaining.difference(w.to_set()),
        last: last_letter(w),
    }
}

/// `child` of a fixed state as a function of the word.
pub open spec fn child_fn(s: StateView) -> spec_fn(Seq<char>) -> StateView {
    |w: Seq<char>| child(s, w)
}

/// State `a` dominates state `b`: both ask for the same next letter, and
/// `a` has strictly fewer letters left, all of them among those of `b`.
pub open spec fn dominates(a: StateView, b: StateView) -> bool {
    a.last == b.last && a.remaining.subset_of(b.remaining) && !b.remaining.subset_of(a.remaining)
}

/// Some state of `all` dominates `c`.
pub open spec fn is_dominated(all: Seq<StateView>, c: StateView) -> bool {
    exists|j: int| 0 <= j < all.len() && dominates(#[trigger] all[j], c)
}

/// "Not dominated by any state of `all`" as a predicate on states.
pub open spec fn survivor_pred(all: Seq<StateView>) -> spec_fn(StateView) -> bool {
    |c: StateView| !is_dominated(all, c)
}

/// The words of the dictionary that may follow a state asking for `last`,
/// in dictionary order.
pub open spec fn candidates(dict: Seq<Seq<char>>, sides: Layout, last: Option<char>) -> Seq<
    Seq<char>,
> {
    dict.filter(candidate_pred(sides, last))
}

/// One child of `s` for each candidate word, in dictionary order, before
/// pruning.
pub open spec fn raw_children(dict: Seq<Seq<char>>, sides: Layout, s: StateView) -> Seq<
    StateView,
> {
    candidates(dict, sides, s.last).map_values(child_fn(s))
}

/// The children of `s` that no sibling dominates, in dictionary order.
pub open spec fn children(dict: Seq<Seq<char>>, sides: Layout, s: StateView) -> Seq<StateView> {
    raw_children(dict, sides, s).filter(survivor_pred(raw_children(dict, sides, s)))
}

/// `children` for a fixed dictionary and layout as a function of the state.
pub open spec fn children_fn(dict: Seq<Seq<char>>, sides: Layout) -> spec_fn(StateView) -> Seq<
    StateView,
> {
    |s: StateView| children(dict, sides, s)
}

/// The frontier that follows `frontier`: the children of its states, one
/// parent after the other.
pub open spec fn expand(dict: Seq<Seq<char>>, sides: Layout, frontier: Seq<StateView>) -> Seq<
    StateView,
> {
    frontier.map_values(children_fn(dict, sides)).flatten()
}

/// The frontier of the states with exactly `k` words.
pub open spec fn stage(dict: Seq<Seq<char>>, sides: Layout, k: nat) -> Seq<StateView>
    decreases k,
{
    if k == 0 {
        seq![initial_state(sides)]
    } else {
        expand(dict, sides, stage(dict, sides, (k - 1) as nat))
    }
}

/// Some state of the frontier is complete.
pub open spec fn has_complete(frontier: Seq<StateView>) -> bool {
    exists|i: int| 0 <= i < frontier.len() && is_complete(#[trigger] frontier[i])
}

/// State number `i` is the first complete state of the frontier.
pub open spec fn is_first_complete(frontier: Seq<StateView>, i: int) -> bool {
    &&& 0 <= i < frontier.len()
    &&& is_complete(frontier[i])
    &&& forall|j: int| 0 <= j < i ==> !is_complete(#[trigger] frontier[j])
}

/// Stage `k` is the first frontier with a complete state, and state number
/// `i` is the first complete state in it.
pub open spec fn is_first_solution(dict: Seq<Seq<char>>, sides: Layout, k: nat, i: int) -> bool {
    &&& 1 <= k
    &&& forall|j: nat| 1 <= j < k ==> !has_complete(#[trigger] stage(dict, sides, j))
    &&& is_first_complete(stage(dict, sides, k), i)
}

/// After an empty frontier every frontier is empty.
pub proof fn lemma_empty_stage_stays_empty(dict: Seq<Seq<char>>, sides: Layout, k: nat, j: nat)
    requires
        stage(dict, sides, k).len() == 0,
        k <= j,
    ensures
        stage(dict, sides, j).len() == 0,
    decreases j,
{
    if j > k {
        lemma_empty_stage_stays_empty(dict, sides, k, (j - 1) as nat);
        let before = stage(dict, sides, (j - 1) as nat);
        assert(before.map_values(children_fn(dict, sides)) =~= Seq::<Seq<StateView>>::empty());
    }
}

/// Filtering one item more of a sequence keeps or drops that item.
pub proof fn lemma_filter_take_step<A>(s: Seq<A>, pred: spec_fn(A) -> bool, i: int)
    requires
        0 <= i < s.len(),
    ensures
        s.take(i + 1).filter(pred) == if pred(s[i]) {
            s.take(i).filter(pred).push(s[i])
        } else {
            s.take(i).filter(pred)
        },
{
    assert(s.take(i + 1) =~= s.take(i).push(s[i]));
    s.take(i).lemma_filter_push(s[i], pred);
}

/// The children before pruning, taken over one word more of the dictionary.
pub proof fn lemma_raw_children_step(dict: Seq<Seq<char>>, sides: Layout, s: StateView, i: int)
    requires
        0 <= i < dict.len(),
    ensures
        raw_children(dict.take(i + 1), sides, s) == if is_candidate(dict[i], sides, s.last) {
            raw_children(dict.take(i), sides, s).push(child(s, dict[i]))
        } else {
            raw_children(dict.take(i), sides, s)
        },
{
    lemma_filter_take_step(dict, candidate_pred(sides, s.last), i);
    if is_candidate(dict[i], sides, s.last) {
        let before = candidates(dict.take(i), sides, s.last);
        assert(before.push(dict[i]).map_values(child_fn(s)) =~= before.map_values(
            child_fn(s),
        ).push(child(s, dict[i])));
    }
}

} // verus!
