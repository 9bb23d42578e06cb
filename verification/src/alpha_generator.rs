//! Decides which opacity values are searched, and in which order.

use vstd::prelude::*;

verus! {

/// The number of opacity values there are: 1% to 99%.
pub const ALPHA_COUNT: usize = 99;

/// The values of a vector of opacities as mathematical integers.
pub open spec fn as_ints(values: Seq<u8>) -> Seq<int> {
    values.map_values(|a: u8| a as int)
}

/// The centre of the range from `lo` to `hi`, rounded down.
pub open spec fn midpoint(lo: int, hi: int) -> int {
    lo + (hi - lo) / 2
}

/// The values `up`, `down`, `up + step`, `down - step`, and so on: one above
/// the centre, then one below it, until the next value would leave the range
/// from `lo` to `hi`.
pub open spec fn spiral(up: int, down: int, step: int, lo: int, hi: int) -> Seq<int>
    decreases hi - up + step,
    when step > 0
{
    if up > hi {
        Seq::empty()
    } else if down < lo {
        seq![up]
    } else {
        seq![up, down] + spiral(up + step, down - step, step, lo, hi)
    }
}

/// One pass over the range: the centre, then outwards from it in steps of
/// `step`, alternating between the two sides.
pub open spec fn outward_walk(step: int, lo: int, hi: int) -> Seq<int> {
    let mid = midpoint(lo, hi);
    seq![mid] + spiral(mid + step, mid - step, step, lo, hi)
}

/// The sequence without the repetitions: of each value only the first
/// occurrence stays.
pub open spec fn first_occurrences(s: Seq<int>) -> Seq<int>
    decreases s.len(),
{
    if s.len() == 0 {
        Seq::empty()
    } else if s.drop_last().contains(s.last()) {
        first_occurrences(s.drop_last())
    } else {
        first_occurrences(s.drop_last()).push(s.last())
    }
}

/// The order in which the values of the range are tried while nothing has
/// matched: a coarse pass in steps of three, then a fine pass in steps of one
/// over what the coarse pass left out.
pub open spec fn delivery_order(lo: int, hi: int) -> Seq<int> {
    first_occurrences(outward_walk(3, lo, hi) + outward_walk(1, lo, hi))
}

/// The flags and the queue record exactly the values visited so far.
pub open spec fn tracks(seen: Seq<bool>, guesses: Seq<u8>, visited: Seq<int>) -> bool {
    &&& seen.len() == ALPHA_COUNT
    &&& as_ints(guesses) == first_occurrences(visited)
    &&& forall|a: int| 1 <= a <= ALPHA_COUNT ==> (#[trigger] seen[a - 1] <==> visited.contains(a))
}

/// Every value of the walk lies in the range.
pub proof fn lemma_spiral_in_range(up: int, down: int, step: int, lo: int, hi: int)
    requires
        step > 0,
        lo <= up,
        down <= hi,
    ensures
        forall|a: int| #[trigger] spiral(up, down, step, lo, hi).contains(a) ==> lo <= a <= hi,
    decreases hi - up + step,
{
    broadcast use vstd::seq_lib::lemma_seq_concat_contains_all_elements;

    let walk = spiral(up, down, step, lo, hi);
    if up <= hi && down >= lo {
        lemma_spiral_in_range(up + step, down - step, step, lo, hi);
    }
    assert forall|a: int| #[trigger] walk.contains(a) implies lo <= a <= hi by {
        let i = choose|i: int| 0 <= i < walk.len() && walk[i] == a;
        if up <= hi && down >= lo {
            let rest = spiral(up + step, down - step, step, lo, hi);
            if i >= 2 {
                assert(rest[i - 2] == a);
                assert(rest.contains(a));
            }
        }
    }
}

/// A value occurs among the first occurrences exactly if it occurs at all,
/// and there it occurs once.
pub proof fn lemma_first_occurrences(s: Seq<int>)
    ensures
        first_occurrences(s).no_duplicates(),
        forall|a: int| #[trigger] first_occurrences(s).contains(a) <==> s.contains(a),
    decreases s.len(),
{
    broadcast use vstd::seq_lib::lemma_seq_contains_after_push;

    if s.len() > 0 {
        let front = s.drop_last();
        lemma_first_occurrences(front);
        assert(s =~= front.push(s.last()));
        assert forall|a: int| #[trigger] first_occurrences(s).contains(a) <==> s.contains(a) by {
            assert(first_occurrences(front).contains(a) <==> front.contains(a));
            assert(s.contains(a) <==> (a == s.last() || front.contains(a)));
        }
        if !front.contains(s.last()) {
            let kept = first_occurrences(front);
            assert(!kept.contains(s.last()));
            assert forall|i: int, j: int|
                0 <= i < kept.len() + 1 && 0 <= j < kept.len() + 1 && i != j implies kept.push(
                s.last(),
            )[i] != kept.push(s.last())[j] by {
                if i < kept.len() {
                    assert(kept.contains(kept[i]));
                }
                if j < kept.len() {
                    assert(kept.contains(kept[j]));
                }
            }
        }
    }
}

/// Visits one value: it joins the queue unless it has been visited before.
fn visit(alpha: u8, seen: &mut Vec<bool>, guesses: &mut Vec<u8>, Ghost(visited): Ghost<Seq<int>>)
    requires
        1 <= alpha <= ALPHA_COUNT,
        tracks(old(seen)@, old(guesses)@, visited),
    ensures
        tracks(final(seen)@, final(guesses)@, visited.push(alpha as int)),
{
    let slot: usize = (alpha - 1) as usize;
    proof {
        assert(visited.push(alpha as int).drop_last() =~= visited);
        assert(old(seen)@[alpha as int - 1] <==> visited.contains(alpha as int));
    }
    if !seen[slot] {
        guesses.push(alpha);
        proof {
            assert(as_ints(guesses@) =~= as_ints(old(guesses)@).push(alpha as int));
        }
    }
    seen[slot] = true;
    proof {
        let after = visited.push(alpha as int);
        assert forall|a: int| 1 <= a <= ALPHA_COUNT implies (#[trigger] seen@[a - 1]
            <==> after.contains(a)) by {
            assert(old(seen)@[a - 1] <==> visited.contains(a));
            if a == alpha as int {
                assert(after[after.len() - 1] == a);
            } else if visited.contains(a) {
                let i = choose|i: int| 0 <= i < visited.len() && visited[i] == a;
                assert(after[i] == a);
            } else if after.contains(a) {
                let i = choose|i: int| 0 <= i < after.len() && after[i] == a;
                assert(visited[i] == a);
            }
        }
    }
}

/// Makes one pass over the range, outwards from its centre in steps of
/// `step`, and visits each value it comes by.
fn walk_outward(
    step: u8,
    alpha_min: u8,
    alpha_max: u8,
    seen: &mut Vec<bool>,
    guesses: &mut Vec<u8>,
    Ghost(visited): Ghost<Seq<int>>,
)
    requires
        1 <= step <= 3,
        1 <= alpha_min <= alpha_max <= ALPHA_COUNT,
        tracks(old(seen)@, old(guesses)@, visited),
    ensures
        tracks(
            final(seen)@,
            final(guesses)@,
            visited + outward_walk(step as int, alpha_min as int, alpha_max as int),
        ),
{
    let centre: u8 = alpha_min + (alpha_max - alpha_min) / 2;
    let ghost walk = outward_walk(step as int, alpha_min as int, alpha_max as int);
    let ghost mut done: Seq<int> = seq![centre as int];
    proof {
        assert(visited + done =~= visited.push(centre as int));
    }
    visit(centre, seen, guesses, Ghost(visited));
    let mut offset: u8 = step;
    let mut open: bool = true;
    while open && centre + offset <= alpha_max
        invariant
            1 <= step <= 3,
            1 <= alpha_min <= alpha_max <= ALPHA_COUNT,
            centre == midpoint(alpha_min as int, alpha_max as int),
            step <= offset <= alpha_max - centre + step,
            walk == outward_walk(step as int, alpha_min as int, alpha_max as int),
            tracks(seen@, guesses@, visited + done),
            open ==> walk == done + spiral(
                centre + offset,
                centre - offset,
                step as int,
                alpha_min as int,
                alpha_max as int,
            ),
            !open ==> walk == done,
        decreases (if open { 1int } else { 0int }) + alpha_max + step - offset,
    {
        let ghost rest = spiral(
            centre + offset + step,
            centre - offset - step,
            step as int,
            alpha_min as int,
            alpha_max as int,
        );
        let up: u8 = centre + offset;
        proof {
            assert(visited + done.push(up as int) =~= (visited + done).push(up as int));
        }
        visit(up, seen, guesses, Ghost(visited + done));
        proof {
            done = done.push(up as int);
        }
        if centre - offset >= alpha_min {
            let down: u8 = centre - offset;
            proof {
                assert(visited + done.push(down as int) =~= (visited + done).push(down as int));
            }
            visit(down, seen, guesses, Ghost(visited + done));
            proof {
                done = done.push(down as int);
                assert(walk =~= done + rest);
            }
            offset = offset + step;
        } else {
            open = false;
            proof {
                assert(walk =~= done);
            }
        }
    }
    proof {
        assert(walk =~= done);
    }
}

/// The vector with its items in the opposite order.
fn reversed(values: Vec<u8>) -> (turned: Vec<u8>)
    ensures
        turned@ == values@.reverse(),
{
    let mut turned: Vec<u8> = Vec::new();
    let mut left: usize = values.len();
    while left > 0
        invariant
            left <= values.len(),
            turned.len() == values.len() - left,
            forall|i: int| 0 <= i < turned.len() ==> turned[i] == values[values.len() - 1 - i],
        decreases left,
    {
        left = left - 1;
        turned.push(values[left]);
    }
    proof {
        assert(turned@ =~= values@.reverse());
    }
    turned
}

/// The queue a generator starts with: the values of the range, each once, the
/// one to try first at the end.
pub fn generate_initial_guesses(alpha_min: u8, alpha_max: u8) -> (guesses: Vec<u8>)
    requires
        1 <= alpha_min <= alpha_max <= ALPHA_COUNT,
    ensures
        as_ints(guesses@) == delivery_order(alpha_min as int, alpha_max as int).reverse(),
{
    let mut guesses: Vec<u8> = Vec::new();
    let mut seen: Vec<bool> = Vec::new();
    while seen.len() < ALPHA_COUNT
        invariant
            seen.len() <= ALPHA_COUNT,
            forall|i: int| 0 <= i < seen.len() ==> !seen[i],
        decreases ALPHA_COUNT - seen.len(),
    {
        seen.push(false);
    }
    let ghost coarse = outward_walk(3, alpha_min as int, alpha_max as int);
    proof {
        assert(as_ints(guesses@) =~= first_occurrences(Seq::empty()));
        assert(Seq::<int>::empty() + coarse =~= coarse);
    }
    walk_outward(3, alpha_min, alpha_max, &mut seen, &mut guesses, Ghost(Seq::empty()));
    walk_outward(1, alpha_min, alpha_max, &mut seen, &mut guesses, Ghost(coarse));
    let turned = reversed(guesses);
    proof {
        assert(as_ints(turned@) =~= as_ints(guesses@).reverse());
    }
    turned
}

/// What a generator is, as mathematics.
pub struct GeneratorState {
    /// The lowest opacity of the search.
    pub alpha_min: int,
    /// The highest opacity of the search.
    pub alpha_max: int,
    /// The value handed out last; zero before the first.
    pub previous_alpha: int,
    /// The first value that was reported to have matched, if any.
    pub first_hit: Option<int>,
    /// The values still to be tried. The last one is tried next.
    pub pending: Seq<int>,
    /// The values that have not been handed out.
    pub eligible: Set<int>,
}

impl GeneratorState {
    /// What holds of every generator: the queue names no value twice, and
    /// only values of the range that have not been handed out.
    pub open spec fn valid(self) -> bool {
        &&& 1 <= self.alpha_min <= self.alpha_max <= ALPHA_COUNT
        &&& 0 <= self.previous_alpha <= ALPHA_COUNT
        &&& self.first_hit.is_some() ==> 0 <= self.first_hit.unwrap() <= ALPHA_COUNT
        &&& forall|a: int| self.eligible.contains(a) ==> self.alpha_min <= a <= self.alpha_max
        &&& self.pending.no_duplicates()
        &&& forall|i: int|
            0 <= i < self.pending.len() ==> self.eligible.contains(#[trigger] self.pending[i])
    }
}

/// The state of a new generator for the range from `lo` to `hi`.
pub open spec fn initial_state(lo: int, hi: int) -> GeneratorState {
    GeneratorState {
        alpha_min: lo,
        alpha_max: hi,
        previous_alpha: 0,
        first_hit: None,
        pending: delivery_order(lo, hi).reverse(),
        eligible: Set::new(|a: int| lo <= a <= hi),
    }
}

/// The eligible values below `from`, going down from it, as far as they are
/// adjacent and not below `lo`.
pub open spec fn run_down(eligible: Set<int>, from: int, lo: int) -> Seq<int>
    decreases from - lo + 1,
{
    if from < lo || !eligible.contains(from) {
        Seq::empty()
    } else {
        seq![from] + run_down(eligible, from - 1, lo)
    }
}

/// The eligible values above `from`, going up from it, as far as they are
/// adjacent and not above `hi`.
pub open spec fn run_up(eligible: Set<int>, from: int, hi: int) -> Seq<int>
    decreases hi - from + 1,
{
    if from > hi || !eligible.contains(from) {
        Seq::empty()
    } else {
        seq![from] + run_up(eligible, from + 1, hi)
    }
}

/// The order in which the neighbours of the first hit are tried: those below
/// it, descending, then those above it, ascending; on either side up to the
/// first value that is no longer eligible.
pub open spec fn local_expansion(eligible: Set<int>, hit: int, lo: int, hi: int) -> Seq<int> {
    run_down(eligible, hit - 1, lo) + run_up(eligible, hit + 1, hi)
}

/// Which queued values stay once `previous` has failed after the first hit:
/// those on the other side of the hit.
pub open spec fn survives(previous: int, hit: int) -> spec_fn(int) -> bool {
    |a: int|
        if previous < hit {
            a >= hit
        } else {
            a <= hit
        }
}

/// The state after the report on the value handed out last has been taken in.
pub open spec fn after_feedback(s: GeneratorState, had_results: bool) -> GeneratorState {
    if had_results && s.first_hit.is_none() {
        GeneratorState {
            first_hit: Some(s.previous_alpha),
            pending: local_expansion(
                s.eligible,
                s.previous_alpha,
                s.alpha_min,
                s.alpha_max,
            ).reverse(),
            ..s
        }
    } else if !had_results && s.first_hit.is_some() {
        GeneratorState {
            pending: s.pending.filter(survives(s.previous_alpha, s.first_hit.unwrap())),
            ..s
        }
    } else {
        s
    }
}

/// The value that a call of `next` hands out, if any.
pub open spec fn next_alpha(s: GeneratorState, had_results: bool) -> Option<int> {
    let queue = after_feedback(s, had_results).pending;
    if queue.len() == 0 {
        None
    } else {
        Some(queue.last())
    }
}

/// The state that a call of `next` leaves.
pub open spec fn next_state(s: GeneratorState, had_results: bool) -> GeneratorState {
    let heard = after_feedback(s, had_results);
    if heard.pending.len() == 0 {
        heard
    } else {
        GeneratorState {
            previous_alpha: heard.pending.last(),
            pending: heard.pending.drop_last(),
            eligible: heard.eligible.remove(heard.pending.last()),
            ..heard
        }
    }
}

/// Maintains the state necessary to generate opacity values in an
/// intelligent manner.
#[derive(Debug)]
pub struct AlphaGenerator {
    alpha_min: u8,
    alpha_max: u8,
    previous_alpha: u8,
    first_hit: Option<u8>,
    guesses: Vec<u8>,
    should_check: Vec<bool>,
}

impl View for AlphaGenerator {
    type V = GeneratorState;

    closed spec fn view(&self) -> GeneratorState {
        GeneratorState {
            alpha_min: self.alpha_min as int,
            alpha_max: self.alpha_max as int,
            previous_alpha: self.previous_alpha as int,
            first_hit: match self.first_hit {
                Some(hit) => Some(hit as int),
                None => None,
            },
            pending: as_ints(self.guesses@),
            eligible: Set::new(|a: int| 1 <= a <= ALPHA_COUNT && self.should_check@[a - 1]),
        }
    }
}

impl AlphaGenerator {
    /// There is one flag for each opacity value.
    pub closed spec fn has_all_flags(&self) -> bool {
        self.should_check@.len() == ALPHA_COUNT
    }

    /// The generator is in a state that `new` and `next` can have left.
    pub open spec fn wf(&self) -> bool {
        self.has_all_flags() && self@.valid()
    }

    /// Initializes a new generator for the opacities from `alpha_min` to
    /// `alpha_max`.
    pub fn new(alpha_min: u8, alpha_max: u8) -> (generator: Self)
        requires
            1 <= alpha_min <= alpha_max <= ALPHA_COUNT,
        ensures
            generator.wf(),
            generator@ == initial_state(alpha_min as int, alpha_max as int),
    {
        let guesses = generate_initial_guesses(alpha_min, alpha_max);
        let mut should_check: Vec<bool> = Vec::new();
        let mut alpha: u8 = 1;
        while alpha <= 99
            invariant
                1 <= alpha <= ALPHA_COUNT + 1,
                should_check.len() == alpha - 1,
                forall|a: int|
                    1 <= a < alpha ==> (#[trigger] should_check[a - 1] <==> alpha_min <= a
                        <= alpha_max),
            decreases 100 - alpha,
        {
            should_check.push(alpha_min <= alpha && alpha <= alpha_max);
            alpha = alpha + 1;
        }
        let generator = AlphaGenerator {
            alpha_min,
            alpha_max,
            previous_alpha: 0,
            first_hit: None,
            guesses,
            should_check,
        };
        proof {
            assert(generator@.eligible =~= initial_state(
                alpha_min as int,
                alpha_max as int,
            ).eligible);
            lemma_initial_state_is_valid(alpha_min as int, alpha_max as int);
        }
        generator
    }

    /// The queue that replaces the old one after the first hit: its
    /// neighbours that are still eligible.
    fn generate_guesses_after_first_hit(&self) -> (guesses: Vec<u8>)
        requires
            self.wf(),
            self.first_hit.is_some(),
        ensures
            as_ints(guesses@) == local_expansion(
                self@.eligible,
                self.first_hit.unwrap() as int,
                self@.alpha_min,
                self@.alpha_max,
            ).reverse(),
    {
        let first_hit: u8 = match self.first_hit {
            Some(hit) => hit,
            None => 0,
        };
        let ghost eligible = self@.eligible;
        let ghost lo = self.alpha_min as int;
        let ghost hi = self.alpha_max as int;
        let ghost downward = run_down(eligible, first_hit as int - 1, lo);
        let ghost upward = run_up(eligible, first_hit as int + 1, hi);
        let mut guesses: Vec<u8> = Vec::new();
        let mut below: u8 = first_hit;
        while below > self.alpha_min && self.should_check[(below - 2) as usize]
            invariant
                self.wf(),
                eligible == self@.eligible,
                lo == self.alpha_min,
                below <= first_hit <= ALPHA_COUNT,
                downward == as_ints(guesses@) + run_down(eligible, below as int - 1, lo),
            decreases below,
        {
            below = below - 1;
            guesses.push(below);
            proof {
                assert(eligible.contains(below as int));
                assert(as_ints(guesses@) + run_down(eligible, below as int - 1, lo) =~= downward);
            }
        }
        proof {
            assert(as_ints(guesses@) =~= downward);
        }
        let mut above: u8 = first_hit;
        while above < self.alpha_max && self.should_check[above as usize]
            invariant
                self.wf(),
                eligible == self@.eligible,
                hi == self.alpha_max,
                first_hit <= above <= ALPHA_COUNT,
                downward + upward == as_ints(guesses@) + run_up(eligible, above as int + 1, hi),
            decreases self.alpha_max - above,
        {
            above = above + 1;
            guesses.push(above);
            proof {
                assert(eligible.contains(above as int));
                assert(as_ints(guesses@) + run_up(eligible, above as int + 1, hi) =~= downward
                    + upward);
            }
        }
        proof {
            assert(as_ints(guesses@) =~= downward + upward);
        }
        let turned = reversed(guesses);
        proof {
            assert(as_ints(turned@) =~= as_ints(guesses@).reverse());
        }
        turned
    }

    /// What is left of the queue once the value handed out last has failed
    /// after the first hit.
    fn surviving_guesses(&self) -> (kept: Vec<u8>)
        requires
            self.first_hit.is_some(),
        ensures
            as_ints(kept@) == as_ints(self.guesses@).filter(
                survives(self.previous_alpha as int, self.first_hit.unwrap() as int),
            ),
    {
        broadcast use Seq::lemma_filter_push;

        let first_hit: u8 = match self.first_hit {
            Some(hit) => hit,
            None => 0,
        };
        let keep_upper: bool = self.previous_alpha < first_hit;
        let ghost keeps = survives(self.previous_alpha as int, first_hit as int);
        let mut kept: Vec<u8> = Vec::new();
        let mut i: usize = 0;
        proof {
            reveal(Seq::filter);
            assert(as_ints(self.guesses@.take(0)) =~= Seq::empty());
        }
        while i < self.guesses.len()
            invariant
                i <= self.guesses.len(),
                keep_upper == (self.previous_alpha < first_hit),
                keeps == survives(self.previous_alpha as int, first_hit as int),
                as_ints(kept@) == as_ints(self.guesses@.take(i as int)).filter(keeps),
            decreases self.guesses.len() - i,
        {
            let alpha: u8 = self.guesses[i];
            proof {
                let taken = as_ints(self.guesses@.take(i as int));
                assert(as_ints(self.guesses@.take(i + 1)) =~= taken.push(alpha as int));
                taken.lemma_filter_push(alpha as int, keeps);
                assert(keeps(alpha as int) == (if keep_upper {
                    alpha >= first_hit
                } else {
                    alpha <= first_hit
                }));
            }
            if (keep_upper && alpha >= first_hit) || (!keep_upper && alpha <= first_hit) {
                let ghost before = kept@;
                kept.push(alpha);
                proof {
                    assert(as_ints(kept@) =~= as_ints(before).push(alpha as int));
                }
            }
            i = i + 1;
        }
        proof {
            assert(self.guesses@.take(i as int) =~= self.guesses@);
        }
        kept
    }

    /// Generates the next opacity value to be searched, or `None` when the
    /// search is over. `had_results` says whether the value handed out by the
    /// call before this one has matched.
    ///
    /// Until something matches, the values come in the initial order: outwards
    /// from the centre of the range, first in large steps, then one by one
    /// over what is left. After the first match its neighbours are tried, and
    /// a side is given up as soon as a value on it fails.
    pub fn next(&mut self, had_results: bool) -> (alpha: Option<u8>)
        requires
            old(self).wf(),
        ensures
            final(self).wf(),
            final(self)@ == next_state(old(self)@, had_results),
            match alpha {
                Some(a) => next_alpha(old(self)@, had_results) == Some(a as int),
                None => next_alpha(old(self)@, had_results).is_none(),
            },
    {
        proof {
            lemma_feedback_keeps_valid(self@, had_results);
            lemma_next_keeps_valid(self@, had_results);
        }
        if had_results && self.first_hit.is_none() {
            self.first_hit = Some(self.previous_alpha);
            assert(self@.eligible == old(self)@.eligible);
            self.guesses = self.generate_guesses_after_first_hit();
        } else if !had_results && self.first_hit.is_some() {
            self.guesses = self.surviving_guesses();
        }
        let ghost heard = after_feedback(old(self)@, had_results);
        assert(self@ == heard);
        let alpha = self.guesses.pop();
        if let Some(a) = alpha {
            proof {
                assert(heard.pending.last() == a as int);
                assert(heard.eligible.contains(heard.pending[heard.pending.len() - 1]));
                assert(as_ints(self.guesses@) =~= heard.pending.drop_last());
            }
            self.should_check[(a - 1) as usize] = false;
            self.previous_alpha = a;
            proof {
                assert(self@.eligible =~= heard.eligible.remove(a as int));
            }
        }
        alpha
    }
}

/// The initial order names each value at most once, and only values of the
/// range.
pub proof fn lemma_delivery_order(lo: int, hi: int)
    requires
        lo <= hi,
    ensures
        delivery_order(lo, hi).no_duplicates(),
        forall|a: int| #[trigger] delivery_order(lo, hi).contains(a) ==> lo <= a <= hi,
{
    broadcast use vstd::seq_lib::lemma_seq_concat_contains_all_elements;

    let mid = midpoint(lo, hi);
    let walks = outward_walk(3, lo, hi) + outward_walk(1, lo, hi);
    lemma_first_occurrences(walks);
    lemma_spiral_in_range(mid + 3, mid - 3, 3, lo, hi);
    lemma_spiral_in_range(mid + 1, mid - 1, 1, lo, hi);
    assert forall|a: int| seq![mid].contains(a) implies lo <= a <= hi by {
        let i = choose|i: int| 0 <= i < seq![mid].len() && seq![mid][i] == a;
    }
    assert forall|a: int| #[trigger] delivery_order(lo, hi).contains(a) implies lo <= a <= hi by {
        assert(walks.contains(a));
    }
}

/// The fine pass reaches every value of the range that lies at or beyond
/// the two values it has come to.
pub proof fn lemma_spiral_covers(up: int, down: int, lo: int, hi: int)
    requires
        up + down == 2 * midpoint(lo, hi),
        up > down,
        lo <= hi,
    ensures
        forall|a: int|
            (up <= a <= hi || lo <= a <= down) ==> #[trigger] spiral(up, down, 1, lo, hi).contains(
                a,
            ),
    decreases hi - up + 1,
{
    let walk = spiral(up, down, 1, lo, hi);
    if up <= hi && down >= lo {
        lemma_spiral_covers(up + 1, down - 1, lo, hi);
        let rest = spiral(up + 1, down - 1, 1, lo, hi);
        assert forall|a: int| (up <= a <= hi || lo <= a <= down) implies #[trigger] walk.contains(
            a,
        ) by {
            if a == up {
                assert(walk[0] == a);
            } else if a == down {
                assert(walk[1] == a);
            } else {
                assert(rest.contains(a));
                let i = choose|i: int| 0 <= i < rest.len() && rest[i] == a;
                assert(walk[i + 2] == a);
            }
        }
    } else if up <= hi {
        assert forall|a: int| (up <= a <= hi || lo <= a <= down) implies #[trigger] walk.contains(
            a,
        ) by {
            assert(walk[0] == a);
        }
    }
}

/// The first of the first occurrences is the first value.
pub proof fn lemma_first_occurrences_head(s: Seq<int>)
    requires
        s.len() > 0,
    ensures
        first_occurrences(s).len() > 0,
        first_occurrences(s)[0] == s[0],
    decreases s.len(),
{
    let front = s.drop_last();
    if s.len() > 1 {
        lemma_first_occurrences_head(front);
        assert(front[0] == s[0]);
    } else {
        assert(first_occurrences(front) =~= Seq::empty());
        assert(!front.contains(s.last()));
        assert(first_occurrences(s) =~= seq![s[0]]);
    }
}

/// The initial order begins at the centre of the range and names every
/// value of the range, each once.
pub proof fn lemma_delivery_order_is_the_range(lo: int, hi: int)
    requires
        lo <= hi,
    ensures
        delivery_order(lo, hi).no_duplicates(),
        forall|a: int| #[trigger] delivery_order(lo, hi).contains(a) <==> lo <= a <= hi,
        delivery_order(lo, hi).len() == hi - lo + 1,
        delivery_order(lo, hi)[0] == midpoint(lo, hi),
{
    broadcast use vstd::seq_lib::lemma_seq_concat_contains_all_elements;

    let mid = midpoint(lo, hi);
    let fine = outward_walk(1, lo, hi);
    let walks = outward_walk(3, lo, hi) + fine;
    let order = delivery_order(lo, hi);
    lemma_delivery_order(lo, hi);
    lemma_first_occurrences(walks);
    lemma_first_occurrences_head(walks);
    lemma_spiral_covers(mid + 1, mid - 1, lo, hi);
    assert forall|a: int| lo <= a <= hi implies #[trigger] order.contains(a) by {
        if a == mid {
            assert(fine[0] == a);
        } else {
            let rest = spiral(mid + 1, mid - 1, 1, lo, hi);
            assert(rest.contains(a));
            let i = choose|i: int| 0 <= i < rest.len() && rest[i] == a;
            assert(fine[i + 1] == a);
        }
        assert(fine.contains(a));
        assert(walks.contains(a));
    }
    let range = vstd::set_lib::set_int_range(lo, hi + 1);
    vstd::set_lib::lemma_int_range(lo, hi + 1);
    order.unique_seq_to_set();
    assert(order.to_set() =~= range);
}

/// A new generator is in a valid state.
pub proof fn lemma_initial_state_is_valid(lo: int, hi: int)
    requires
        1 <= lo <= hi <= ALPHA_COUNT,
    ensures
        initial_state(lo, hi).valid(),
{
    let start = initial_state(lo, hi);
    lemma_delivery_order(lo, hi);
    lemma_reverse_keeps(delivery_order(lo, hi));
    assert forall|i: int| 0 <= i < start.pending.len() implies start.eligible.contains(
        #[trigger] start.pending[i],
    ) by {
        assert(delivery_order(lo, hi).reverse().contains(start.pending[i]));
    }
}

/// A range of one value is tried by trying that value.
pub proof fn lemma_single_value_range(value: int)
    ensures
        delivery_order(value, value) == seq![value],
{
    lemma_delivery_order_is_the_range(value, value);
    assert(delivery_order(value, value) =~= seq![value]);
}

/// Turning a sequence round changes neither what it holds nor whether it
/// holds something twice.
pub proof fn lemma_reverse_keeps(s: Seq<int>)
    ensures
        s.no_duplicates() ==> s.reverse().no_duplicates(),
        forall|a: int| #[trigger] s.reverse().contains(a) <==> s.contains(a),
{
    let turned = s.reverse();
    assert forall|a: int| #[trigger] turned.contains(a) <==> s.contains(a) by {
        if turned.contains(a) {
            let i = choose|i: int| 0 <= i < turned.len() && turned[i] == a;
            assert(s[s.len() - 1 - i] == a);
        }
        if s.contains(a) {
            let i = choose|i: int| 0 <= i < s.len() && s[i] == a;
            assert(turned[s.len() - 1 - i] == a);
        }
    }
}

/// The values that go down one by one from `from` are pairwise different and
/// all eligible.
pub proof fn lemma_run_down(eligible: Set<int>, from: int, lo: int)
    ensures
        forall|i: int|
            0 <= i < run_down(eligible, from, lo).len() ==> #[trigger] run_down(
                eligible,
                from,
                lo,
            )[i] == from - i && eligible.contains(from - i) && from - i >= lo,
    decreases from - lo + 1,
{
    if from >= lo && eligible.contains(from) {
        lemma_run_down(eligible, from - 1, lo);
        let rest = run_down(eligible, from - 1, lo);
        assert forall|i: int| 0 <= i < run_down(eligible, from, lo).len() implies #[trigger] run_down(
            eligible,
            from,
            lo,
        )[i] == from - i && eligible.contains(from - i) && from - i >= lo by {
            if i > 0 {
                assert(rest[i - 1] == from - 1 - (i - 1));
            }
        }
    }
}

/// The values that go up one by one from `from` are pairwise different and
/// all eligible.
pub proof fn lemma_run_up(eligible: Set<int>, from: int, hi: int)
    ensures
        forall|i: int|
            0 <= i < run_up(eligible, from, hi).len() ==> #[trigger] run_up(eligible, from, hi)[i]
                == from + i && eligible.contains(from + i) && from + i <= hi,
    decreases hi - from + 1,
{
    if from <= hi && eligible.contains(from) {
        lemma_run_up(eligible, from + 1, hi);
        let rest = run_up(eligible, from + 1, hi);
        assert forall|i: int| 0 <= i < run_up(eligible, from, hi).len() implies #[trigger] run_up(
            eligible,
            from,
            hi,
        )[i] == from + i && eligible.contains(from + i) && from + i <= hi by {
            if i > 0 {
                assert(rest[i - 1] == from + 1 + (i - 1));
            }
        }
    }
}

/// The neighbours tried after the first hit are pairwise different, eligible,
/// and none of them is the hit itself.
pub proof fn lemma_local_expansion(eligible: Set<int>, hit: int, lo: int, hi: int)
    ensures
        local_expansion(eligible, hit, lo, hi).no_duplicates(),
        forall|i: int|
            #![trigger local_expansion(eligible, hit, lo, hi)[i]]
            0 <= i < local_expansion(eligible, hit, lo, hi).len() ==> eligible.contains(
                local_expansion(eligible, hit, lo, hi)[i],
            ) && local_expansion(eligible, hit, lo, hi)[i] != hit,
{
    lemma_run_down(eligible, hit - 1, lo);
    lemma_run_up(eligible, hit + 1, hi);
    let down = run_down(eligible, hit - 1, lo);
    let up = run_up(eligible, hit + 1, hi);
    let all = local_expansion(eligible, hit, lo, hi);
    assert forall|i: int| 0 <= i < all.len() implies (if i < down.len() {
        #[trigger] all[i] == hit - 1 - i
    } else {
        all[i] == hit + 1 + (i - down.len())
    }) by {
        if i < down.len() {
            assert(all[i] == down[i]);
        } else {
            assert(all[i] == up[i - down.len()]);
        }
    }
    assert forall|i: int| #![trigger all[i]] 0 <= i < all.len() implies eligible.contains(all[i])
        && all[i] != hit by {
        if i < down.len() {
            assert(all[i] == down[i]);
        } else {
            assert(all[i] == up[i - down.len()]);
        }
    }
}

/// Filtering keeps a sequence free of repetitions, and adds nothing to it.
pub proof fn lemma_filter_keeps_distinct(s: Seq<int>, keeps: spec_fn(int) -> bool)
    ensures
        s.no_duplicates() ==> s.filter(keeps).no_duplicates(),
        forall|a: int| #[trigger] s.filter(keeps).contains(a) ==> s.contains(a),
    decreases s.len(),
{
    broadcast use vstd::seq_lib::lemma_seq_contains_after_push;
    broadcast use Seq::lemma_filter_push;

    reveal(Seq::filter);
    if s.len() > 0 {
        let front = s.drop_last();
        let last = s.last();
        lemma_filter_keeps_distinct(front, keeps);
        assert(s =~= front.push(last));
        let kept = front.filter(keeps);
        assert forall|a: int| #[trigger] s.filter(keeps).contains(a) implies s.contains(a) by {
            if a != last {
                assert(kept.contains(a));
                assert(front.contains(a));
            } else {
                assert(s[s.len() - 1] == a);
            }
        }
        if s.no_duplicates() {
            assert(front.no_duplicates());
            if keeps(last) {
                if kept.contains(last) {
                    let i = choose|i: int| 0 <= i < front.len() && front[i] == last;
                    assert(s[i] == s[s.len() - 1]);
                }
                assert forall|i: int, j: int|
                    0 <= i < kept.len() + 1 && 0 <= j < kept.len() + 1 && i != j implies kept.push(
                    last,
                )[i] != kept.push(last)[j] by {
                    if i < kept.len() {
                        assert(kept.contains(kept[i]));
                    }
                    if j < kept.len() {
                        assert(kept.contains(kept[j]));
                    }
                }
            }
        }
    }
}

/// Taking in a report leaves a valid state valid.
pub proof fn lemma_feedback_keeps_valid(s: GeneratorState, had_results: bool)
    requires
        s.valid(),
    ensures
        after_feedback(s, had_results).valid(),
        after_feedback(s, had_results).eligible == s.eligible,
{
    let heard = after_feedback(s, had_results);
    if had_results && s.first_hit.is_none() {
        let order = local_expansion(s.eligible, s.previous_alpha, s.alpha_min, s.alpha_max);
        lemma_local_expansion(s.eligible, s.previous_alpha, s.alpha_min, s.alpha_max);
        lemma_reverse_keeps(order);
        assert forall|i: int| 0 <= i < heard.pending.len() implies heard.eligible.contains(
            #[trigger] heard.pending[i],
        ) by {
            assert(heard.pending[i] == order[order.len() - 1 - i]);
        }
    } else if !had_results && s.first_hit.is_some() {
        lemma_filter_keeps_distinct(s.pending, survives(s.previous_alpha, s.first_hit.unwrap()));
        assert forall|i: int| 0 <= i < heard.pending.len() implies heard.eligible.contains(
            #[trigger] heard.pending[i],
        ) by {
            assert(heard.pending.contains(heard.pending[i]));
            let j = choose|j: int| 0 <= j < s.pending.len() && s.pending[j] == heard.pending[i];
            assert(s.eligible.contains(s.pending[j]));
        }
    }
}

/// A call of `next` leaves a valid state valid.
pub proof fn lemma_next_keeps_valid(s: GeneratorState, had_results: bool)
    requires
        s.valid(),
    ensures
        next_state(s, had_results).valid(),
{
    lemma_feedback_keeps_valid(s, had_results);
    let heard = after_feedback(s, had_results);
    let after = next_state(s, had_results);
    if heard.pending.len() > 0 {
        let a = heard.pending.last();
        assert(heard.eligible.contains(heard.pending[heard.pending.len() - 1]));
        assert forall|i: int| 0 <= i < after.pending.len() implies after.eligible.contains(
            #[trigger] after.pending[i],
        ) by {
            assert(after.pending[i] == heard.pending[i]);
            assert(heard.eligible.contains(heard.pending[i]));
            assert(heard.pending[i] != heard.pending[heard.pending.len() - 1]);
        }
    }
}

} // verus!
