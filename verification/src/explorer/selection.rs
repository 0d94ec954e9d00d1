//! Choosing among actions: the actions that meet a condition, the actions
//! with the highest score, and the one among several that a draw picks.

use crate::random::Random;
use crate::types::Action;
use vstd::prelude::*;

verus! {

/// The actions below `bound` for which `wanted` holds, in ascending order.
pub open spec fn actions_where(wanted: spec_fn(Action) -> bool, bound: int) -> Seq<Action>
    decreases bound,
{
    if bound <= 0 {
        Seq::empty()
    } else {
        let lower = actions_where(wanted, bound - 1);
        if wanted(Action((bound - 1) as i16)) {
            lower.push(Action((bound - 1) as i16))
        } else {
            lower
        }
    }
}

/// Whether `action` is one of the `count` actions and no other of them has
/// a higher score.
pub open spec fn is_top_action(scores: Seq<u64>, count: int, action: Action) -> bool {
    &&& 0 <= action.0 < count
    &&& forall|other: int| 0 <= other < count ==> #[trigger] scores[other] <= scores[action.0 as int]
}

/// The actions with the highest score among the `count` actions, in
/// ascending order.
pub open spec fn top_actions(scores: Seq<u64>, count: int) -> Seq<Action> {
    actions_where(is_top_action_fn(scores, count), count)
}

/// `is_top_action` as a function of the action.
pub open spec fn is_top_action_fn(scores: Seq<u64>, count: int) -> spec_fn(Action) -> bool {
    |action: Action| is_top_action(scores, count, action)
}

/// What `actions_where` holds: exactly the actions below the bound for
/// which `wanted` holds, each once, in ascending order.
pub proof fn lemma_actions_where(wanted: spec_fn(Action) -> bool, bound: int)
    requires
        bound <= i16::MAX,
    ensures
        forall|action: Action|
            actions_where(wanted, bound).contains(action) <==> 0 <= action.0 < bound && wanted(
                action,
            ),
        forall|i: int, j: int|
            0 <= i < j < actions_where(wanted, bound).len() ==> actions_where(wanted, bound)[i].0
                < actions_where(wanted, bound)[j].0,
        actions_where(wanted, bound).len() <= if bound < 0 { 0 } else { bound },
    decreases bound,
{
    if bound > 0 {
        lemma_actions_where(wanted, bound - 1);
        let lower = actions_where(wanted, bound - 1);
        let last = Action((bound - 1) as i16);
        let all = actions_where(wanted, bound);
        assert forall|action: Action| all.contains(action) <==> 0 <= action.0 < bound && wanted(
            action,
        ) by {
            if wanted(last) {
                assert(all == lower.push(last));
                assert(all[all.len() - 1] == last);
                if all.contains(action) {
                    let i = choose|i: int| 0 <= i < all.len() && all[i] == action;
                    if i < lower.len() {
                        assert(lower[i] == action);
                    }
                }
                if lower.contains(action) {
                    let i = choose|i: int| 0 <= i < lower.len() && lower[i] == action;
                    assert(all[i] == action);
                }
            }
            if 0 <= action.0 < bound && wanted(action) && action.0 != bound - 1 {
                assert(lower.contains(action));
            }
        }
        assert forall|i: int, j: int| 0 <= i < j < all.len() implies all[i].0 < all[j].0 by {
            if j == lower.len() {
                assert(lower.contains(lower[i]));
            }
        }
    }
}

/// `actions_where` goes by what `wanted` says of the actions below the
/// bound, and by nothing else.
pub proof fn lemma_actions_where_agree(
    first: spec_fn(Action) -> bool,
    second: spec_fn(Action) -> bool,
    bound: int,
)
    requires
        forall|action: Action| 0 <= action.0 < bound ==> #[trigger] first(action) == second(action),
        bound <= i16::MAX,
    ensures
        actions_where(first, bound) == actions_where(second, bound),
    decreases bound,
{
    if bound > 0 {
        lemma_actions_where_agree(first, second, bound - 1);
    }
}

/// Among one or more actions, one has a score that none exceeds.
pub proof fn lemma_top_action_exists(scores: Seq<u64>, count: int)
    requires
        0 < count <= scores.len(),
        count <= i16::MAX,
    ensures
        exists|action: Action| is_top_action(scores, count, action),
{
    let best = index_of_highest(scores, count);
    lemma_index_of_highest(scores, count);
    assert(is_top_action(scores, count, Action(best as i16)));
}

/// The place of a highest score among the first `count` scores.
pub open spec fn index_of_highest(scores: Seq<u64>, count: int) -> int
    decreases count,
{
    if count <= 1 {
        0
    } else {
        let earlier = index_of_highest(scores, count - 1);
        if scores[count - 1] > scores[earlier] {
            count - 1
        } else {
            earlier
        }
    }
}

/// `index_of_highest` is a place among the first `count`, and no score
/// among them exceeds the score there.
pub proof fn lemma_index_of_highest(scores: Seq<u64>, count: int)
    requires
        0 < count <= scores.len(),
    ensures
        0 <= index_of_highest(scores, count) < count,
        forall|other: int|
            0 <= other < count ==> #[trigger] scores[other] <= scores[index_of_highest(
                scores,
                count,
            )],
    decreases count,
{
    if count > 1 {
        lemma_index_of_highest(scores, count - 1);
    }
}

/// The actions with the highest score among the `count` actions, in
/// ascending order.
pub fn max_score_actions(scores: &Vec<u64>, count: i16) -> (top: Vec<Action>)
    requires
        0 < count <= scores@.len(),
    ensures
        top@ == top_actions(scores@, count as int),
{
    // First the highest score, then the actions that reach it.
    let mut highest: u64 = scores[0];
    let mut a: i16 = 1;
    while a < count
        invariant
            1 <= a <= count <= scores@.len(),
            forall|other: int| 0 <= other < a ==> #[trigger] scores@[other] <= highest,
            exists|other: int| 0 <= other < a && scores@[other] == highest,
        decreases count - a,
    {
        if scores[a as usize] > highest {
            highest = scores[a as usize];
        }
        a = a + 1;
    }
    let ghost is_top = is_top_action_fn(scores@, count as int);
    let mut top: Vec<Action> = Vec::new();
    let mut a: i16 = 0;
    while a < count
        invariant
            0 <= a <= count <= scores@.len(),
            forall|other: int| 0 <= other < count ==> #[trigger] scores@[other] <= highest,
            exists|other: int| 0 <= other < count && scores@[other] == highest,
            is_top == is_top_action_fn(scores@, count as int),
            top@ == actions_where(is_top, a as int),
        decreases count - a,
    {
        if scores[a as usize] == highest {
            assert(is_top(Action(a)));
            top.push(Action(a));
        } else {
            assert(!is_top(Action(a)));
        }
        a = a + 1;
    }
    top
}

/// The action at the place that `random` draws among the places of `set`.
pub fn pick_random<R: Random + ?Sized>(set: &Vec<Action>, random: &mut R) -> (action: Action)
    requires
        set@.len() > 0,
    ensures
        set@.contains(action),
{
    let index = random.next_modulo(set.len() as u64);
    pick(set, index)
}

/// The action at place `index` of `set`.
pub fn pick(set: &Vec<Action>, index: u64) -> (action: Action)
    requires
        index < set@.len(),
    ensures
        action == set@[index as int],
{
    let length = set.len();
    assert(index < length);
    set[index as usize]
}

/// Whether the mean of `total` over `visits` is no higher than the mean of
/// `other_total` over `other_visits`, compared as fractions.
pub fn mean_at_most(total: i64, visits: usize, other_total: i64, other_visits: usize) -> (holds:
    bool)
    ensures
        holds == (total * other_visits <= other_total * visits),
{
    let left_total: i128 = total as i128;
    let left_visits: i128 = visits as i128;
    let right_total: i128 = other_total as i128;
    let right_visits: i128 = other_visits as i128;
    assert(-0x8000_0000_0000_0000 * 0xffff_ffff_ffff_ffff <= left_total * right_visits
        <= 0x8000_0000_0000_0000 * 0xffff_ffff_ffff_ffff) by (nonlinear_arith)
        requires
            -0x8000_0000_0000_0000 <= left_total <= 0x8000_0000_0000_0000,
            0 <= right_visits <= 0xffff_ffff_ffff_ffff,
    ;
    assert(-0x8000_0000_0000_0000 * 0xffff_ffff_ffff_ffff <= right_total * left_visits
        <= 0x8000_0000_0000_0000 * 0xffff_ffff_ffff_ffff) by (nonlinear_arith)
        requires
            -0x8000_0000_0000_0000 <= right_total <= 0x8000_0000_0000_0000,
            0 <= left_visits <= 0xffff_ffff_ffff_ffff,
    ;
    left_total * right_visits <= right_total * left_visits
}

/// The order of means, compared as fractions, carries over: where the
/// first is no higher than the second and the second no higher than the
/// third, the first is no higher than the third.
pub proof fn lemma_means_ordered(
    first_total: int,
    first_visits: int,
    second_total: int,
    second_visits: int,
    third_total: int,
    third_visits: int,
)
    requires
        first_visits > 0,
        second_visits > 0,
        third_visits > 0,
        first_total * second_visits <= second_total * first_visits,
        second_total * third_visits <= third_total * second_visits,
    ensures
        first_total * third_visits <= third_total * first_visits,
{
    assert(first_total * third_visits <= third_total * first_visits) by (nonlinear_arith)
        requires
            first_visits > 0,
            second_visits > 0,
            third_visits > 0,
            first_total * second_visits <= second_total * first_visits,
            second_total * third_visits <= third_total * second_visits,
    ;
}

} // verus!
