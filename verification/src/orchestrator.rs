//! The whole search: one opacity after the other, as the generator hands
//! them out, each searched before the next one is chosen.

use crate::alpha_generator::{
    initial_state, lemma_next_keeps_valid, next_alpha, next_state, AlphaGenerator,
    GeneratorState, ALPHA_COUNT,
};
use crate::search::all_results;
use crate::search_run::{lemma_eligible_is_finite, lemma_next_hands_out_fresh};
use vstd::prelude::*;

verus! {

/// Where a search stands after the searches with the given outcomes: the
/// state of the generator, and the report that it is to hear next. The
/// report is whether the last search found anything.
pub open spec fn progress<R>(start: GeneratorState, outcomes: Seq<Vec<R>>) -> (
    GeneratorState,
    bool,
)
    decreases outcomes.len(),
{
    if outcomes.len() == 0 {
        (start, false)
    } else {
        let before = progress(start, outcomes.drop_last());
        (next_state(before.0, before.1), outcomes.last()@.len() > 0)
    }
}

/// The opacity that is searched after the searches with the given outcomes,
/// if the search goes on.
pub open spec fn alpha_after<R>(start: GeneratorState, outcomes: Seq<Vec<R>>) -> Option<int> {
    next_alpha(progress(start, outcomes).0, progress(start, outcomes).1)
}

/// The outcomes are those of a search from `start` that `search` has made:
/// each is what `search` found at the opacity that the generator handed
/// out at that point, an opacity of the range.
pub open spec fn searched<R, F: Fn(u8) -> Vec<R>>(
    search: F,
    start: GeneratorState,
    outcomes: Seq<Vec<R>>,
) -> bool
    decreases outcomes.len(),
{
    if outcomes.len() == 0 {
        true
    } else {
        searched(search, start, outcomes.drop_last()) && match alpha_after(
            start,
            outcomes.drop_last(),
        ) {
            Some(alpha) => start.alpha_min <= alpha <= start.alpha_max && call_ensures(
                search,
                (alpha as u8,),
                outcomes.last(),
            ),
            None => false,
        }
    }
}

/// The outcomes are those of a whole search from `start`: after them the
/// generator hands out nothing any more.
pub open spec fn searched_to_the_end<R, F: Fn(u8) -> Vec<R>>(
    search: F,
    start: GeneratorState,
    outcomes: Seq<Vec<R>>,
) -> bool {
    searched(search, start, outcomes) && alpha_after(start, outcomes).is_none()
}

/// The opacities that were searched, in the order of the searches.
pub open spec fn tried<R>(start: GeneratorState, outcomes: Seq<Vec<R>>) -> Seq<int> {
    Seq::new(outcomes.len(), |i: int| alpha_after(start, outcomes.take(i)).unwrap())
}

/// In a search no opacity is searched twice, and none that was not eligible
/// when the search began; and the generator is left in a valid state.
pub proof fn lemma_no_opacity_is_searched_twice<R, F: Fn(u8) -> Vec<R>>(
    search: F,
    start: GeneratorState,
    outcomes: Seq<Vec<R>>,
)
    requires
        start.valid(),
        searched(search, start, outcomes),
    ensures
        progress(start, outcomes).0.valid(),
        progress(start, outcomes).0.eligible.subset_of(start.eligible),
        tried(start, outcomes).no_duplicates(),
        forall|i: int|
            0 <= i < outcomes.len() ==> start.eligible.contains(
                #[trigger] tried(start, outcomes)[i],
            ) && !progress(start, outcomes).0.eligible.contains(tried(start, outcomes)[i]),
    decreases outcomes.len(),
{
    if outcomes.len() > 0 {
        let earlier = outcomes.drop_last();
        let before = progress(start, earlier);
        lemma_no_opacity_is_searched_twice(search, start, earlier);
        lemma_next_hands_out_fresh(before.0, before.1);
        lemma_next_keeps_valid(before.0, before.1);
        let last = outcomes.len() - 1;
        assert(outcomes.take(last) =~= earlier);
        assert forall|i: int| 0 <= i < last implies tried(start, outcomes)[i] == tried(
            start,
            earlier,
        )[i] by {
            assert(outcomes.take(i) =~= earlier.take(i));
        }
        assert(tried(start, outcomes)[last] == alpha_after(start, earlier).unwrap());
        assert forall|i: int| 0 <= i < outcomes.len() implies start.eligible.contains(
            #[trigger] tried(start, outcomes)[i],
        ) && !progress(start, outcomes).0.eligible.contains(tried(start, outcomes)[i]) by {
            if i < last {
                assert(!before.0.eligible.contains(tried(start, earlier)[i]));
            }
        }
        assert forall|i: int, j: int|
            0 <= i < outcomes.len() && 0 <= j < outcomes.len() && i != j implies tried(
            start,
            outcomes,
        )[i] != tried(start, outcomes)[j] by {
            if i < last {
                assert(!before.0.eligible.contains(tried(start, earlier)[i]));
            }
            if j < last {
                assert(!before.0.eligible.contains(tried(start, earlier)[j]));
            }
        }
    }
}

/// Searches the opacities from `alpha_min` to `alpha_max`: asks the
/// generator for one opacity after the other, has `search` search each, tells
/// the generator whether anything was found, and gathers what was found.
/// The search ends when the generator hands out nothing any more, which it
/// does after as many searches as the range has values, or earlier.
pub fn run_search<R, F: Fn(u8) -> Vec<R>>(alpha_min: u8, alpha_max: u8, search: F) -> (found: Vec<
    R,
>)
    requires
        1 <= alpha_min <= alpha_max <= ALPHA_COUNT,
        forall|alpha: u8|
            alpha_min <= alpha <= alpha_max ==> #[trigger] call_requires(search, (alpha,)),
    ensures
        exists|outcomes: Seq<Vec<R>>|
            #![trigger all_results(outcomes)]
            searched_to_the_end(
                search,
                initial_state(alpha_min as int, alpha_max as int),
                outcomes,
            ) && outcomes.len() <= alpha_max - alpha_min + 1 && found@ == all_results(outcomes),
{
    let ghost start = initial_state(alpha_min as int, alpha_max as int);
    let ghost mut outcomes: Seq<Vec<R>> = Seq::empty();
    let mut generator = AlphaGenerator::new(alpha_min, alpha_max);
    let mut found: Vec<R> = Vec::new();
    let mut had_results: bool = false;
    proof {
        lemma_eligible_is_finite(start);
        assert(searched(search, start, outcomes));
    }
    loop
        invariant
            1 <= alpha_min <= alpha_max <= ALPHA_COUNT,
            forall|alpha: u8|
                alpha_min <= alpha <= alpha_max ==> #[trigger] call_requires(search, (alpha,)),
            start == initial_state(alpha_min as int, alpha_max as int),
            generator.wf(),
            generator@.alpha_min == alpha_min,
            generator@.alpha_max == alpha_max,
            progress(start, outcomes) == (generator@, had_results),
            searched(search, start, outcomes),
            outcomes.len() + generator@.eligible.len() <= alpha_max - alpha_min + 1,
            found@ == all_results(outcomes),
        decreases generator@.eligible.len(),
    {
        let ghost before = generator@;
        let ghost heard = had_results;
        proof {
            lemma_eligible_is_finite(before);
            lemma_next_hands_out_fresh(before, heard);
        }
        match generator.next(had_results) {
            None => {
                proof {
                    assert(alpha_after(start, outcomes).is_none());
                    assert(searched_to_the_end(search, start, outcomes));
                }
                return found;
            },
            Some(alpha) => {
                let mut results = search(alpha);
                proof {
                    assert(outcomes.push(results).drop_last() =~= outcomes);
                    outcomes = outcomes.push(results);
                }
                had_results = results.len() > 0;
                found.append(&mut results);
            },
        }
    }
}

} // verus!
