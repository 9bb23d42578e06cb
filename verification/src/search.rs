//! The walk through the candidates for the overlay color at one opacity.
//! The cube of all colors is cut into 256 planes, one for each value of the
//! red channel, which can be walked independently of each other.

use crate::colors::Rgb;
use rayon::iter::{IntoParallelIterator, ParallelIterator};
use vstd::prelude::*;

verus! {

/// The number of candidates in one plane: each value of green with each
/// value of blue.
pub const PLANE_SIZE: usize = 65536;

/// The candidate that is judged at position `index` of the plane `red`:
/// green counts up slowly, blue quickly.
pub open spec fn plane_candidate(red: u8, index: int) -> Rgb {
    Rgb { red, green: (index / 256) as u8, blue: (index % 256) as u8 }
}

/// The verdicts are what `judge` has said of the candidates of the plane
/// `red`, one for each candidate, in the order of the candidates.
pub open spec fn judged_plane<R, F: Fn(Rgb) -> Option<R>>(
    judge: F,
    red: u8,
    verdicts: Seq<Option<R>>,
) -> bool {
    &&& verdicts.len() == PLANE_SIZE
    &&& forall|i: int|
        0 <= i < PLANE_SIZE ==> call_ensures(
            judge,
            (plane_candidate(red, i),),
            #[trigger] verdicts[i],
        )
}

/// The results among the verdicts, in their order.
pub open spec fn matches_of<R>(verdicts: Seq<Option<R>>) -> Seq<R>
    decreases verdicts.len(),
{
    if verdicts.len() == 0 {
        Seq::empty()
    } else {
        match verdicts.last() {
            Some(result) => matches_of(verdicts.drop_last()).push(result),
            None => matches_of(verdicts.drop_last()),
        }
    }
}

/// The results are those of a walk through the plane `red`: what is left of
/// the verdicts of `judge` on the candidates of the plane.
pub open spec fn plane_result<R, F: Fn(Rgb) -> Option<R>>(judge: F, red: u8, found: Seq<R>) -> bool {
    exists|verdicts: Seq<Option<R>>|
        #![trigger judged_plane(judge, red, verdicts)]
        judged_plane(judge, red, verdicts) && found == matches_of(verdicts)
}

/// Walks one plane of the cube: has `judge` judge every candidate whose red
/// channel is `red`, each once, and returns the results for those that it
/// accepted, in the order of the candidates.
pub fn scan_plane<R, F: Fn(Rgb) -> Option<R>>(red: u8, judge: F) -> (found: Vec<R>)
    requires
        forall|candidate: Rgb|
            candidate.red == red ==> #[trigger] call_requires(judge, (candidate,)),
    ensures
        plane_result(judge, red, found@),
{
    let mut found: Vec<R> = Vec::new();
    let ghost mut verdicts: Seq<Option<R>> = Seq::empty();
    let mut index: usize = 0;
    while index < PLANE_SIZE
        invariant
            index <= PLANE_SIZE,
            verdicts.len() == index,
            forall|candidate: Rgb|
            candidate.red == red ==> #[trigger] call_requires(judge, (candidate,)),
            forall|i: int|
                0 <= i < index ==> call_ensures(
                    judge,
                    (plane_candidate(red, i),),
                    #[trigger] verdicts[i],
                ),
            found@ == matches_of(verdicts),
        decreases PLANE_SIZE - index,
    {
        let candidate = Rgb { red, green: (index / 256) as u8, blue: (index % 256) as u8 };
        let verdict = judge(candidate);
        proof {
            assert(verdicts.push(verdict).drop_last() =~= verdicts);
            verdicts = verdicts.push(verdict);
        }
        if let Some(result) = verdict {
            found.push(result);
        }
        index = index + 1;
    }
    proof {
        assert(judged_plane(judge, red, verdicts));
    }
    found
}

/// `judge` can say only one thing of each candidate.
pub open spec fn single_valued<R, F: Fn(Rgb) -> Option<R>>(judge: F) -> bool {
    forall|candidate: Rgb, one: Option<R>, other: Option<R>|
        #![trigger call_ensures(judge, (candidate,), one), call_ensures(judge, (candidate,), other)]
        call_ensures(judge, (candidate,), one) && call_ensures(judge, (candidate,), other) ==> one
            == other
}

/// Where `judge` can say only one thing of each candidate, the walk through
/// a plane can give only one list of results.
pub proof fn lemma_scan_is_determined<R, F: Fn(Rgb) -> Option<R>>(
    judge: F,
    red: u8,
    first: Seq<R>,
    second: Seq<R>,
)
    requires
        single_valued(judge),
        plane_result(judge, red, first),
        plane_result(judge, red, second),
    ensures
        first == second,
{
    let one = choose|verdicts: Seq<Option<R>>|
        #![trigger judged_plane(judge, red, verdicts)]
        judged_plane(judge, red, verdicts) && first == matches_of(verdicts);
    let other = choose|verdicts: Seq<Option<R>>|
        #![trigger judged_plane(judge, red, verdicts)]
        judged_plane(judge, red, verdicts) && second == matches_of(verdicts);
    assert forall|i: int| 0 <= i < PLANE_SIZE implies one[i] == other[i] by {
        assert(call_ensures(judge, (plane_candidate(red, i),), one[i]));
        assert(call_ensures(judge, (plane_candidate(red, i),), other[i]));
    }
    assert(one =~= other);
}

/// The results of several lists, one list after the other.
pub open spec fn all_results<R>(lists: Seq<Vec<R>>) -> Seq<R>
    decreases lists.len(),
{
    if lists.len() == 0 {
        Seq::empty()
    } else {
        all_results(lists.drop_last()) + lists.last()@
    }
}

/// Joins the results of the planes into one list, plane after plane.
pub fn join_planes<R>(planes: Vec<Vec<R>>) -> (joined: Vec<R>)
    ensures
        joined@ == all_results(planes@),
{
    let mut planes = planes;
    let ghost lists = planes@;
    let mut joined: Vec<R> = Vec::new();
    let mut index: usize = 0;
    while index < planes.len()
        invariant
            index <= planes.len(),
            planes@.len() == lists.len(),
            forall|i: int| index <= i < lists.len() ==> planes@[i] == lists[i],
            joined@ == all_results(lists.take(index as int)),
        decreases planes.len() - index,
    {
        proof {
            assert(lists.take(index + 1).drop_last() =~= lists.take(index as int));
        }
        let mut plane: Vec<R> = Vec::new();
        std::mem::swap(&mut plane, &mut planes[index]);
        joined.append(&mut plane);
        index = index + 1;
    }
    proof {
        assert(lists.take(index as int) =~= lists);
    }
    joined
}

/// The lists are the results of the 256 planes of the cube, in the order of
/// the red channel.
pub open spec fn cube_result<R, F: Fn(Rgb) -> Option<R>>(judge: F, planes: Seq<Vec<R>>) -> bool {
    &&& planes.len() == 256
    &&& forall|red: int|
        0 <= red < 256 ==> plane_result(judge, red as u8, (#[trigger] planes[red])@)
}

/// Calls `into_par_iter`, `map` and `collect` of rayon on the values of the
/// red channel, which has the planes walked side by side on rayon's threads
/// and puts each plane's results at the place of its red value.
#[verifier::external_body]
fn scan_planes<R: Send, F: Fn(Rgb) -> Option<R> + Sync>(judge: &F) -> (planes: Vec<Vec<R>>)
    requires
        forall|candidate: Rgb| #[trigger] call_requires(*judge, (candidate,)),
    ensures
        cube_result(*judge, planes@),
{
    (0..256usize).into_par_iter().map(|red| scan_plane(red as u8, judge)).collect()
}

/// Searches the whole cube: has `judge` judge every color, each once, the
/// planes side by side, and returns the results for those that it accepted,
/// plane after plane.
pub fn search_alpha<R: Send, F: Fn(Rgb) -> Option<R> + Sync>(judge: F) -> (found: Vec<R>)
    requires
        forall|candidate: Rgb| #[trigger] call_requires(judge, (candidate,)),
    ensures
        exists|planes: Seq<Vec<R>>|
            #![trigger cube_result(judge, planes)]
            cube_result(judge, planes) && found@ == all_results(planes),
{
    let planes = scan_planes(&judge);
    join_planes(planes)
}

/// Lists that hold the same, one by one, hold the same when joined.
pub proof fn lemma_same_lists_join_alike<R>(first: Seq<Vec<R>>, second: Seq<Vec<R>>)
    requires
        first.len() == second.len(),
        forall|i: int| 0 <= i < first.len() ==> (#[trigger] first[i])@ == second[i]@,
    ensures
        all_results(first) == all_results(second),
    decreases first.len(),
{
    if first.len() > 0 {
        assert(first.last()@ == second[second.len() - 1]@);
        lemma_same_lists_join_alike(first.drop_last(), second.drop_last());
    }
}

/// Where `judge` can say only one thing of each candidate, a search of the
/// cube can give only one list of results, however the planes were shared
/// out among the threads.
pub proof fn lemma_search_is_determined<R, F: Fn(Rgb) -> Option<R>>(
    judge: F,
    first: Seq<Vec<R>>,
    second: Seq<Vec<R>>,
)
    requires
        single_valued(judge),
        cube_result(judge, first),
        cube_result(judge, second),
    ensures
        all_results(first) == all_results(second),
{
    assert forall|red: int| 0 <= red < 256 implies (#[trigger] first[red])@ == second[red]@ by {
        lemma_scan_is_determined(judge, red as u8, first[red]@, second[red]@);
    }
    lemma_same_lists_join_alike(first, second);
}

/// Taking one list out of several takes its results out of the joined
/// results, and nothing else.
pub proof fn lemma_join_without_one<R>(lists: Seq<Vec<R>>, at: int)
    requires
        0 <= at < lists.len(),
    ensures
        all_results(lists).to_multiset() == all_results(lists.remove(at)).to_multiset().add(
            lists[at]@.to_multiset(),
        ),
    decreases lists.len(),
{
    let front = lists.drop_last();
    let last = lists.last()@;
    vstd::seq_lib::lemma_multiset_commutative(all_results(front), last);
    if at == lists.len() - 1 {
        assert(lists.remove(at) =~= front);
    } else {
        let rest = lists.remove(at);
        assert(rest.drop_last() =~= front.remove(at));
        assert(rest.last() == lists.last());
        lemma_join_without_one(front, at);
        vstd::seq_lib::lemma_multiset_commutative(all_results(front.remove(at)), last);
        assert(all_results(lists).to_multiset() =~= all_results(rest).to_multiset().add(
            lists[at]@.to_multiset(),
        ));
    }
}

/// The order in which the lists are joined does not matter to what the
/// joined results hold: the same lists in another order give the same
/// results, each as often, in another order.
pub proof fn lemma_join_ignores_order<R>(first: Seq<Vec<R>>, second: Seq<Vec<R>>)
    requires
        first.to_multiset() == second.to_multiset(),
    ensures
        all_results(first).to_multiset() == all_results(second).to_multiset(),
    decreases first.len(),
{
    broadcast use vstd::seq_lib::group_to_multiset_ensures;

    if first.len() == 0 {
        vstd::seq_lib::to_multiset_len(first);
        vstd::seq_lib::to_multiset_len(second);
        assert(second =~= first);
    } else {
        let front = first.drop_last();
        let last = first.last();
        assert(first =~= front.push(last));
        assert(first.contains(last));
        assert(second.to_multiset().count(last) > 0);
        assert(second.contains(last));
        let at = choose|at: int| 0 <= at < second.len() && second[at] == last;
        let rest = second.remove(at);
        assert(front.to_multiset() =~= first.to_multiset().remove(last)) by {
            assert(front =~= first.remove(first.len() - 1));
        }
        assert(rest.to_multiset() =~= front.to_multiset());
        lemma_join_ignores_order(front, rest);
        lemma_join_without_one(second, at);
        vstd::seq_lib::lemma_multiset_commutative(all_results(front), last@);
    }
}

/// The verdicts are what `within` has said of the pairs of base and target
/// color from the first one on, in their order.
pub open spec fn judged_pairs<D, F: Fn(usize) -> Option<D>>(
    within: F,
    verdicts: Seq<Option<D>>,
) -> bool {
    forall|i: int|
        0 <= i < verdicts.len() ==> call_ensures(within, (i as usize,), #[trigger] verdicts[i])
}

/// The walk over `pairs` pairs went on as long as the pairs passed, and no
/// further: only the last verdict can be a failure, and only a failure
/// ends the walk early.
pub open spec fn stops_at_first_failure<D>(verdicts: Seq<Option<D>>, pairs: int) -> bool {
    &&& verdicts.len() <= pairs
    &&& forall|i: int| 0 <= i < verdicts.len() - 1 ==> (#[trigger] verdicts[i]).is_some()
    &&& (verdicts.len() == 0 || verdicts.last().is_some()) ==> verdicts.len() == pairs
}

/// Judges one candidate by all the pairs of base and target color: `within`
/// gives the distance for a pair if it is small enough. The pairs are taken
/// in their order, and the first one that fails ends the walk: the
/// candidate is given up and no later pair is looked at. Where no pair
/// fails, the distances of all pairs are returned.
pub fn judge_pairs<D, F: Fn(usize) -> Option<D>>(pairs: usize, within: F) -> (distances: Option<
    Vec<D>,
>)
    requires
        forall|i: usize| i < pairs ==> #[trigger] call_requires(within, (i,)),
    ensures
        exists|verdicts: Seq<Option<D>>|
            #![trigger judged_pairs(within, verdicts)]
            judged_pairs(within, verdicts) && stops_at_first_failure(verdicts, pairs as int)
                && match distances {
                Some(kept) => kept@.len() == pairs && kept@ == matches_of(verdicts),
                None => verdicts.len() > 0 && verdicts.last().is_none(),
            },
{
    let mut kept: Vec<D> = Vec::new();
    let ghost mut verdicts: Seq<Option<D>> = Seq::empty();
    let mut index: usize = 0;
    while index < pairs
        invariant
            index <= pairs,
            verdicts.len() == index,
            kept@.len() == index,
            forall|i: usize| i < pairs ==> #[trigger] call_requires(within, (i,)),
            judged_pairs(within, verdicts),
            forall|i: int| 0 <= i < index ==> (#[trigger] verdicts[i]).is_some(),
            kept@ == matches_of(verdicts),
        decreases pairs - index,
    {
        let verdict = within(index);
        proof {
            assert(verdicts.push(verdict).drop_last() =~= verdicts);
            verdicts = verdicts.push(verdict);
        }
        match verdict {
            Some(distance) => {
                kept.push(distance);
            },
            None => {
                proof {
                    assert(judged_pairs(within, verdicts));
                    assert(stops_at_first_failure(verdicts, pairs as int));
                }
                return None;
            },
        }
        index = index + 1;
    }
    proof {
        assert(judged_pairs(within, verdicts));
        assert(stops_at_first_failure(verdicts, pairs as int));
    }
    Some(kept)
}

} // verus!
