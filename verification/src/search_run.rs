//! What holds of a whole search: of the values that a generator hands out
//! when each report depends on the value handed out before it.

use crate::alpha_generator::{
    after_feedback, delivery_order, initial_state, lemma_delivery_order_is_the_range,
    lemma_feedback_keeps_valid, lemma_initial_state_is_valid, lemma_next_keeps_valid, next_alpha,
    next_state, GeneratorState, ALPHA_COUNT,
};
use vstd::prelude::*;

verus! {

/// The values handed out by the first `calls` calls of `next`, as far as
/// they hand out any. The first call reports `had_results`; each later one
/// reports whether `matched` holds of the value handed out just before.
pub open spec fn deliveries(
    s: GeneratorState,
    had_results: bool,
    matched: spec_fn(int) -> bool,
    calls: nat,
) -> Seq<int>
    decreases calls,
{
    if calls == 0 {
        Seq::empty()
    } else {
        match next_alpha(s, had_results) {
            None => Seq::empty(),
            Some(a) => seq![a] + deliveries(
                next_state(s, had_results),
                matched(a),
                matched,
                (calls - 1) as nat,
            ),
        }
    }
}

/// One of the first `calls` calls of `next` hands out nothing.
pub open spec fn exhausted_within(
    s: GeneratorState,
    had_results: bool,
    matched: spec_fn(int) -> bool,
    calls: nat,
) -> bool
    decreases calls,
{
    if calls == 0 {
        false
    } else {
        match next_alpha(s, had_results) {
            None => true,
            Some(a) => exhausted_within(
                next_state(s, had_results),
                matched(a),
                matched,
                (calls - 1) as nat,
            ),
        }
    }
}

/// There are finitely many eligible values: no more than the range holds.
pub proof fn lemma_eligible_is_finite(s: GeneratorState)
    requires
        s.valid(),
    ensures
        s.eligible.finite(),
        s.eligible.len() <= s.alpha_max - s.alpha_min + 1,
{
    let range = vstd::set_lib::set_int_range(s.alpha_min, s.alpha_max + 1);
    vstd::set_lib::lemma_int_range(s.alpha_min, s.alpha_max + 1);
    assert(s.eligible.subset_of(range));
    vstd::set_lib::lemma_len_subset(s.eligible, range);
}

/// A value that `next` hands out was eligible, lies in the range, and is not
/// eligible afterwards; nothing else changes its eligibility.
pub proof fn lemma_next_hands_out_fresh(s: GeneratorState, had_results: bool)
    requires
        s.valid(),
    ensures
        match next_alpha(s, had_results) {
            Some(a) => s.eligible.contains(a) && s.alpha_min <= a <= s.alpha_max && next_state(
                s,
                had_results,
            ).eligible == s.eligible.remove(a),
            None => next_state(s, had_results).eligible == s.eligible,
        },
{
    lemma_feedback_keeps_valid(s, had_results);
    let heard = after_feedback(s, had_results);
    if heard.pending.len() > 0 {
        assert(heard.eligible.contains(heard.pending[heard.pending.len() - 1]));
    }
}

/// However the reports fall, a generator hands out no value twice, and only
/// values that were eligible when the run began.
pub proof fn lemma_deliveries_are_fresh(
    s: GeneratorState,
    had_results: bool,
    matched: spec_fn(int) -> bool,
    calls: nat,
)
    requires
        s.valid(),
    ensures
        deliveries(s, had_results, matched, calls).no_duplicates(),
        forall|i: int|
            0 <= i < deliveries(s, had_results, matched, calls).len() ==> s.eligible.contains(
                #[trigger] deliveries(s, had_results, matched, calls)[i],
            ),
    decreases calls,
{
    if calls > 0 {
        lemma_next_hands_out_fresh(s, had_results);
        lemma_next_keeps_valid(s, had_results);
        match next_alpha(s, had_results) {
            None => {},
            Some(a) => {
                let after = next_state(s, had_results);
                let rest = deliveries(after, matched(a), matched, (calls - 1) as nat);
                let all = deliveries(s, had_results, matched, calls);
                lemma_deliveries_are_fresh(after, matched(a), matched, (calls - 1) as nat);
                assert(all =~= seq![a] + rest);
                assert forall|i: int| 0 <= i < all.len() implies s.eligible.contains(
                    #[trigger] all[i],
                ) && (i > 0 ==> all[i] != a) by {
                    if i > 0 {
                        assert(all[i] == rest[i - 1]);
                        assert(after.eligible.contains(rest[i - 1]));
                    }
                }
                assert forall|i: int, j: int| 0 <= i < all.len() && 0 <= j < all.len() && i
                    != j implies all[i] != all[j] by {
                    if i > 0 && j > 0 {
                        assert(all[i] == rest[i - 1]);
                        assert(all[j] == rest[j - 1]);
                    }
                }
            },
        }
    }
}

/// However the reports fall, a generator hands out nothing any more after
/// at most as many calls as there are eligible values.
pub proof fn lemma_run_ends(
    s: GeneratorState,
    had_results: bool,
    matched: spec_fn(int) -> bool,
    calls: nat,
)
    requires
        s.valid(),
        calls > s.eligible.len(),
    ensures
        exhausted_within(s, had_results, matched, calls),
    decreases calls,
{
    lemma_eligible_is_finite(s);
    lemma_next_hands_out_fresh(s, had_results);
    lemma_next_keeps_valid(s, had_results);
    match next_alpha(s, had_results) {
        None => {},
        Some(a) => {
            let after = next_state(s, had_results);
            assert(after.eligible.len() == s.eligible.len() - 1);
            lemma_run_ends(after, matched(a), matched, (calls - 1) as nat);
        },
    }
}

/// A search over the range from `lo` to `hi` comes to an end, whichever
/// values match: within `hi - lo + 2` calls `next` hands out nothing. Up to
/// then it hands out values of the range only, and none of them twice.
pub proof fn lemma_search_ends_without_repeats(
    lo: int,
    hi: int,
    matched: spec_fn(int) -> bool,
    calls: nat,
)
    requires
        1 <= lo <= hi <= ALPHA_COUNT,
    ensures
        exhausted_within(initial_state(lo, hi), false, matched, (hi - lo + 2) as nat),
        deliveries(initial_state(lo, hi), false, matched, calls).no_duplicates(),
        forall|i: int|
            0 <= i < deliveries(initial_state(lo, hi), false, matched, calls).len() ==> lo
                <= #[trigger] deliveries(initial_state(lo, hi), false, matched, calls)[i] <= hi,
{
    let start = initial_state(lo, hi);
    lemma_initial_state_is_valid(lo, hi);
    lemma_eligible_is_finite(start);
    lemma_run_ends(start, false, matched, (hi - lo + 2) as nat);
    lemma_deliveries_are_fresh(start, false, matched, calls);
}

/// The report that no value matches.
pub open spec fn nothing_matches() -> spec_fn(int) -> bool {
    |a: int| false
}

/// While nothing matches, the values come as they are queued: the last of
/// the queue first.
pub proof fn lemma_run_without_matches(s: GeneratorState, calls: nat)
    requires
        s.first_hit.is_none(),
    ensures
        deliveries(s, false, nothing_matches(), calls) == s.pending.reverse().take(
            if calls <= s.pending.len() {
                calls as int
            } else {
                s.pending.len() as int
            },
        ),
    decreases calls,
{
    let given = deliveries(s, false, nothing_matches(), calls);
    let count = if calls <= s.pending.len() {
        calls as int
    } else {
        s.pending.len() as int
    };
    let queued = s.pending.reverse().take(count);
    if calls > 0 && s.pending.len() > 0 {
        let after = next_state(s, false);
        lemma_run_without_matches(after, (calls - 1) as nat);
        let rest = deliveries(after, false, nothing_matches(), (calls - 1) as nat);
        assert(given == seq![s.pending.last()] + rest);
        assert(given.len() == count);
        assert forall|i: int| 0 <= i < count implies given[i] == queued[i] by {
            if i > 0 {
                assert(given[i] == rest[i - 1]);
                assert(rest[i - 1] == after.pending.reverse()[i - 1]);
            }
        }
    }
    assert(given =~= queued);
}

/// A search in which nothing matches tries every value of the range, in the
/// initial order, and then ends.
pub proof fn lemma_search_without_matches(lo: int, hi: int)
    requires
        1 <= lo <= hi <= ALPHA_COUNT,
    ensures
        deliveries(initial_state(lo, hi), false, nothing_matches(), (hi - lo + 1) as nat)
            == delivery_order(lo, hi),
        deliveries(initial_state(lo, hi), false, nothing_matches(), (hi - lo + 2) as nat)
            == delivery_order(lo, hi),
{
    let start = initial_state(lo, hi);
    let order = delivery_order(lo, hi);
    lemma_delivery_order_is_the_range(lo, hi);
    lemma_run_without_matches(start, (hi - lo + 1) as nat);
    lemma_run_without_matches(start, (hi - lo + 2) as nat);
    assert(order.reverse().reverse() =~= order);
    assert(order.take(order.len() as int) =~= order);
}

} // verus!
