//! What holds of the matcher and the evaluator on every input.

use vstd::multiset::Multiset;
use vstd::prelude::*;
use crate::arbitrage::{
    arbitrages_of, best_index, draw_odds, draw_rank, evaluable, evaluation, first_side_odds,
    guarantees_profit, leftovers_of, lemma_best_index, providers_of, second_side_odds,
    selection, ArbitrageView, EvaluationError,
};
use crate::matching::{
    collect_matches, comparison, first_match, group_of, grouping, is_match, lemma_first_match,
    lemma_pass_keeps_pool_count, matched_record, oriented_like, pass_groups, pass_pools,
    pool_after, pools_after, same_sides, swapped_sides,
};
use crate::models::{EventView, ODDS_SCALE};
use crate::text::lowercase;

verus! {

/// How many records a sequence of lists holds.
pub open spec fn record_count(lists: Seq<Seq<EventView>>) -> nat
    decreases lists.len(),
{
    if lists.len() == 0 {
        0
    } else {
        record_count(lists.drop_last()) + lists.last().len()
    }
}

/// Every record of a group lists the sides as every other does.
pub open spec fn shares_orientation(group: Seq<EventView>) -> bool {
    forall|i: int, j: int|
        0 <= i < group.len() && 0 <= j < group.len() ==> same_sides(
            #[trigger] group[i],
            #[trigger] group[j],
        )
}

/// A group as the matcher builds them: not empty, at most one record per
/// list, and of one orientation.
pub open spec fn well_formed_group(group: Seq<EventView>, lists: nat) -> bool {
    1 <= group.len() <= lists && shares_orientation(group)
}

/// Counting records distributes over concatenation.
pub proof fn lemma_count_concat(a: Seq<Seq<EventView>>, b: Seq<Seq<EventView>>)
    ensures
        record_count(a + b) == record_count(a) + record_count(b),
    decreases b.len(),
{
    if b.len() == 0 {
        assert(a + b =~= a);
    } else {
        assert((a + b).drop_last() =~= a + b.drop_last());
        assert((a + b).last() == b.last());
        lemma_count_concat(a, b.drop_last());
    }
}

/// What the pools give to a group is what they lose.
pub proof fn lemma_matches_count(base: EventView, pools: Seq<Seq<EventView>>)
    ensures
        collect_matches(base, pools).len() + record_count(pools_after(base, pools))
            == record_count(pools),
        collect_matches(base, pools).len() <= pools.len(),
    decreases pools.len(),
{
    if pools.len() != 0 {
        lemma_matches_count(base, pools.drop_last());
        lemma_first_match(base, pools.last());
        assert(pools_after(base, pools).drop_last() =~= pools_after(base, pools.drop_last()));
        assert(pools_after(base, pools).last() == pool_after(base, pools.last()));
    }
}

/// A pass neither loses nor invents a record.
pub proof fn lemma_pass_count(bases: Seq<EventView>, pools: Seq<Seq<EventView>>)
    ensures
        record_count(pass_groups(bases, pools)) + record_count(pass_pools(bases, pools))
            == bases.len() + record_count(pools),
    decreases bases.len(),
{
    if bases.len() != 0 {
        let group = group_of(bases.last(), pools);
        let left = pools_after(bases.last(), pools);
        lemma_matches_count(bases.last(), pools);
        lemma_pass_count(bases.drop_last(), left);
        lemma_count_concat(seq![group], pass_groups(bases.drop_last(), left));
        assert(seq![group].drop_last() =~= Seq::<Seq<EventView>>::empty());
        assert(record_count(seq![group]) == group.len()) by {
            reveal_with_fuel(record_count, 2);
        }
    }
}

/// Coverage: the groups hold as many records as the lists that went in.
pub proof fn lemma_grouping_covers(providers: Seq<Seq<EventView>>)
    ensures
        record_count(grouping(providers)) == record_count(providers),
    decreases providers.len(),
{
    if providers.len() != 0 {
        let bases = providers.last();
        let pools = providers.drop_last();
        lemma_pass_keeps_pool_count(bases, pools);
        lemma_pass_count(bases, pools);
        lemma_grouping_covers(pass_pools(bases, pools));
        lemma_count_concat(pass_groups(bases, pools), grouping(pass_pools(bases, pools)));
    }
}

/// Orientation invariance: whether two records match does not depend on the
/// order in which either lists the sides, and switching one of them turns
/// equal orientation into opposite orientation and back.
pub proof fn lemma_match_ignores_orientation(a: EventView, b: EventView)
    ensures
        is_match(a, b) == is_match(a, b.switched()),
        is_match(a, b) == is_match(a.switched(), b),
        is_match(a, b) == is_match(b, a),
        same_sides(a, b) == swapped_sides(a, b.switched()),
        swapped_sides(a, b) == same_sides(a, b.switched()),
        comparison(a, b).0 == comparison(a, b.switched()).0,
{
}

/// Case insensitivity: a comparison sees the names of a record only through
/// their lowercase forms. Two records whose names agree up to letter case
/// compare alike with every other record.
pub proof fn lemma_match_ignores_case(a: EventView, b: EventView, c: EventView)
    requires
        lowercase(b.team1) == lowercase(c.team1),
        lowercase(b.team2) == lowercase(c.team2),
    ensures
        comparison(a, b) == comparison(a, c),
        comparison(b, a) == comparison(c, a),
        comparison(b, c) == (true, true),
{
}

/// A matching record, once re-oriented, lists the sides as the base does.
pub proof fn lemma_oriented_like_base(base: EventView, e: EventView)
    requires
        is_match(base, e),
    ensures
        same_sides(base, oriented_like(base, e)),
        oriented_like(base, e) == e || oriented_like(base, e) == e.switched(),
{
}

/// Every record collected for a base lists the sides as the base does.
pub proof fn lemma_matches_follow_base(base: EventView, pools: Seq<Seq<EventView>>)
    ensures
        forall|i: int|
            0 <= i < collect_matches(base, pools).len() ==> same_sides(
                base,
                #[trigger] collect_matches(base, pools)[i],
            ),
    decreases pools.len(),
{
    if pools.len() != 0 {
        let earlier = collect_matches(base, pools.drop_last());
        let all = collect_matches(base, pools);
        lemma_matches_follow_base(base, pools.drop_last());
        lemma_first_match(base, pools.last());
        assert forall|i: int| 0 <= i < all.len() implies same_sides(base, #[trigger] all[i]) by {
            if i < earlier.len() {
                assert(all[i] == earlier[i]);
            } else {
                let at = first_match(base, pools.last())->Some_0;
                assert(all[i] == oriented_like(base, pools.last()[at]));
            }
        }
    }
}

/// The group of a base record is well formed.
pub proof fn lemma_group_well_formed(base: EventView, pools: Seq<Seq<EventView>>)
    ensures
        well_formed_group(group_of(base, pools), pools.len() + 1),
{
    lemma_matches_follow_base(base, pools);
    lemma_matches_count(base, pools);
    let group = group_of(base, pools);
    assert forall|i: int, j: int| 0 <= i < group.len() && 0 <= j < group.len() implies same_sides(
        #[trigger] group[i],
        #[trigger] group[j],
    ) by {
        assert(same_sides(base, group[i]));
        assert(same_sides(base, group[j]));
    }
}

/// Every group of a pass is well formed.
pub proof fn lemma_pass_well_formed(bases: Seq<EventView>, pools: Seq<Seq<EventView>>)
    ensures
        forall|n: int|
            0 <= n < pass_groups(bases, pools).len() ==> well_formed_group(
                #[trigger] pass_groups(bases, pools)[n],
                pools.len() + 1,
            ),
    decreases bases.len(),
{
    if bases.len() != 0 {
        let group = group_of(bases.last(), pools);
        let later = pass_groups(bases.drop_last(), pools_after(bases.last(), pools));
        lemma_group_well_formed(bases.last(), pools);
        lemma_pass_well_formed(bases.drop_last(), pools_after(bases.last(), pools));
        assert forall|n: int| 0 <= n < pass_groups(bases, pools).len() implies well_formed_group(
            #[trigger] pass_groups(bases, pools)[n],
            pools.len() + 1,
        ) by {
            if n > 0 {
                assert(pass_groups(bases, pools)[n] == later[n - 1]);
            }
        }
    }
}

/// No spurious cross-match: every group is non-empty, holds at most one
/// record per list, and holds only records that name the same two sides in
/// the same order, letter case aside. Records that name other sides are
/// never grouped together.
pub proof fn lemma_groups_well_formed(providers: Seq<Seq<EventView>>)
    ensures
        forall|n: int|
            0 <= n < grouping(providers).len() ==> well_formed_group(
                #[trigger] grouping(providers)[n],
                providers.len(),
            ),
    decreases providers.len(),
{
    if providers.len() != 0 {
        let bases = providers.last();
        let pools = providers.drop_last();
        lemma_pass_keeps_pool_count(bases, pools);
        lemma_pass_well_formed(bases, pools);
        lemma_groups_well_formed(pass_pools(bases, pools));
        let now = pass_groups(bases, pools);
        let later = grouping(pass_pools(bases, pools));
        assert forall|n: int| 0 <= n < grouping(providers).len() implies well_formed_group(
            #[trigger] grouping(providers)[n],
            providers.len(),
        ) by {
            if n < now.len() {
                assert(grouping(providers)[n] == now[n]);
            } else {
                assert(grouping(providers)[n] == later[n - now.len()]);
            }
        }
    }
}

/// Two records of one group match each other.
pub proof fn lemma_group_members_match(providers: Seq<Seq<EventView>>, n: int, i: int, j: int)
    requires
        0 <= n < grouping(providers).len(),
        0 <= i < grouping(providers)[n].len(),
        0 <= j < grouping(providers)[n].len(),
    ensures
        is_match(grouping(providers)[n][i], grouping(providers)[n][j]),
{
    lemma_groups_well_formed(providers);
    let group = grouping(providers)[n];
    assert(well_formed_group(group, providers.len()));
    assert(same_sides(group[i], group[j]));
}

/// Nothing is collected for a base record that no pool has a match for, and
/// the pools stay as they are.
pub proof fn lemma_nothing_collected(base: EventView, pools: Seq<Seq<EventView>>)
    requires
        forall|k: int, j: int|
            0 <= k < pools.len() && 0 <= j < pools[k].len() ==> !is_match(
                base,
                #[trigger] pools[k][j],
            ),
    ensures
        collect_matches(base, pools) == Seq::<EventView>::empty(),
        pools_after(base, pools) == pools,
    decreases pools.len(),
{
    assert forall|k: int| 0 <= k < pools.len() implies first_match(base, #[trigger] pools[k])
        is None by {
        lemma_first_match(base, pools[k]);
        match first_match(base, pools[k]) {
            Some(i) => {
                assert(is_match(base, pools[k][i]));
            },
            None => {},
        }
    }
    assert(pools_after(base, pools) =~= pools);
    if pools.len() != 0 {
        let front = pools.drop_last();
        assert(forall|k: int| 0 <= k < front.len() ==> front[k] == pools[k]);
        lemma_nothing_collected(base, front);
        assert(matched_record(base, pools.last()) is None);
    }
}

/// Unmatched passthrough: a record that matches nothing in the other lists
/// forms a group by itself, and a group of one record is never evaluated:
/// the record is handed on unchanged among the leftovers.
pub proof fn lemma_unmatched_passes_through(base: EventView, pools: Seq<Seq<EventView>>)
    requires
        forall|k: int, j: int|
            0 <= k < pools.len() && 0 <= j < pools[k].len() ==> !is_match(
                base,
                #[trigger] pools[k][j],
            ),
    ensures
        group_of(base, pools) == seq![base],
        pools_after(base, pools) == pools,
        !evaluable(group_of(base, pools)),
        arbitrages_of(seq![group_of(base, pools)]) == Seq::<ArbitrageView>::empty(),
        leftovers_of(seq![group_of(base, pools)]) == seq![base],
{
    lemma_nothing_collected(base, pools);
    let group = group_of(base, pools);
    assert(group =~= seq![base]);
    assert(seq![group].drop_last() =~= Seq::<Seq<EventView>>::empty());
    assert(arbitrages_of(seq![group]) =~= Seq::<ArbitrageView>::empty()) by {
        reveal_with_fuel(arbitrages_of, 2);
    }
    assert(leftovers_of(seq![group]) =~= seq![base]) by {
        reveal_with_fuel(leftovers_of, 2);
    }
}

/// Evaluation is repeatable: two evaluations of one group agree in every
/// field, and in the reason where the group is refused.
pub proof fn lemma_evaluation_repeatable(
    group: Seq<EventView>,
    once: Result<ArbitrageView, EvaluationError>,
    again: Result<ArbitrageView, EvaluationError>,
)
    requires
        once == evaluation(group),
        again == evaluation(group),
    ensures
        once == again,
{
}

/// How many bookmakers a sequence of results lists, over all of them.
pub open spec fn listed_count(found: Seq<ArbitrageView>) -> nat
    decreases found.len(),
{
    if found.len() == 0 {
        0
    } else {
        listed_count(found.drop_last()) + found.last().providers_offering_bets.len()
    }
}

/// Every record of the groups is either listed by the result of its group or
/// handed on among the leftovers.
pub proof fn lemma_split_covers(groups: Seq<Seq<EventView>>)
    ensures
        listed_count(arbitrages_of(groups)) + leftovers_of(groups).len() == record_count(groups),
    decreases groups.len(),
{
    if groups.len() != 0 {
        lemma_split_covers(groups.drop_last());
        let earlier = arbitrages_of(groups.drop_last());
        if evaluable(groups.last()) {
            let now = earlier.push(selection(groups.last()));
            assert(now.drop_last() =~= earlier);
        }
    }
}

/// Best-odds selection: for each outcome the selected odds are the highest
/// that any record of the group quotes, and the bookmaker named beside them
/// is the one of the first record that quotes them.
pub proof fn lemma_selection_is_best(group: Seq<EventView>)
    requires
        group.len() > 0,
    ensures
        forall|j: int|
            0 <= j < group.len() ==> {
                &&& (#[trigger] group[j]).kof1 <= selection(group).kof1
                &&& group[j].kof2 <= selection(group).kof2
                &&& draw_rank(group[j].kof_draw) <= draw_rank(selection(group).kof_draw)
            },
        exists|i: int|
            {
                &&& 0 <= i < group.len()
                &&& (#[trigger] group[i]).kof1 == selection(group).kof1
                &&& group[i].provider == selection(group).kof1_provider
                &&& forall|j: int| 0 <= j < i ==> (#[trigger] group[j]).kof1 < selection(group).kof1
            },
        exists|i: int|
            {
                &&& 0 <= i < group.len()
                &&& (#[trigger] group[i]).kof2 == selection(group).kof2
                &&& group[i].provider == selection(group).kof2_provider
                &&& forall|j: int| 0 <= j < i ==> (#[trigger] group[j]).kof2 < selection(group).kof2
            },
        exists|i: int|
            {
                &&& 0 <= i < group.len()
                &&& (#[trigger] group[i]).kof_draw == selection(group).kof_draw
                &&& group[i].provider == selection(group).kof_draw_provider
                &&& forall|j: int|
                    0 <= j < i ==> draw_rank((#[trigger] group[j]).kof_draw) < draw_rank(
                        selection(group).kof_draw,
                    )
            },
{
    let ones = first_side_odds(group);
    let twos = second_side_odds(group);
    let draws = draw_odds(group);
    lemma_best_index(ones);
    lemma_best_index(twos);
    lemma_best_index(draws);
    let first = best_index(ones);
    let second = best_index(twos);
    let draw = best_index(draws);
    assert forall|j: int| 0 <= j < group.len() implies {
        &&& (#[trigger] group[j]).kof1 <= selection(group).kof1
        &&& group[j].kof2 <= selection(group).kof2
        &&& draw_rank(group[j].kof_draw) <= draw_rank(selection(group).kof_draw)
    } by {
        assert(ones[j] <= ones[first]);
        assert(twos[j] <= twos[second]);
        assert(draws[j] <= draws[draw]);
    }
    assert forall|j: int| 0 <= j < first implies (#[trigger] group[j]).kof1 < selection(
        group,
    ).kof1 by {
        assert(ones[j] < ones[first]);
    }
    assert forall|j: int| 0 <= j < second implies (#[trigger] group[j]).kof2 < selection(
        group,
    ).kof2 by {
        assert(twos[j] < twos[second]);
    }
    assert forall|j: int| 0 <= j < draw implies draw_rank((#[trigger] group[j]).kof_draw)
        < draw_rank(selection(group).kof_draw) by {
        assert(draws[j] < draws[draw]);
    }
    assert(group[first].kof1 == selection(group).kof1);
    assert(group[second].kof2 == selection(group).kof2);
    assert(group[draw].kof_draw == selection(group).kof_draw);
}

/// The arithmetic behind the decision, for a market with a draw. Stakes in
/// proportion to the reciprocals of the odds, here `kof_draw * kof2` on the
/// first side, `kof1 * kof2` on the draw and `kof1 * kof_draw` on the second
/// side, pay the same whichever outcome occurs, and a profit is guaranteed
/// exactly when that payout exceeds the sum of the stakes. Payouts and stakes
/// are both taken `ODDS_SCALE` times, which keeps them whole numbers.
pub proof fn lemma_equal_payout(kof1: u32, kof_draw: u32, kof2: u32)
    ensures
        (kof_draw * kof2) * kof1 == (kof1 * kof2) * kof_draw,
        (kof1 * kof2) * kof_draw == (kof1 * kof_draw) * kof2,
        guarantees_profit(kof1, Some(kof_draw), kof2) <==> (kof_draw * kof2) * kof1 > ODDS_SCALE
            * (kof_draw * kof2 + kof1 * kof2 + kof1 * kof_draw),
{
    let a = kof1 as int;
    let d = kof_draw as int;
    let b = kof2 as int;
    assert((d * b) * a == (a * b) * d) by (nonlinear_arith);
    assert((a * b) * d == (a * d) * b) by (nonlinear_arith);
}

/// The same for a market without a draw: stakes of `kof2` on the first side
/// and `kof1` on the second pay the same either way.
pub proof fn lemma_equal_payout_two_way(kof1: u32, kof2: u32)
    ensures
        kof2 * kof1 == kof1 * kof2,
        guarantees_profit(kof1, None, kof2) <==> kof2 * kof1 > ODDS_SCALE * (kof2 + kof1),
{
    let a = kof1 as int;
    let b = kof2 as int;
    assert(b * a == a * b) by (nonlinear_arith);
}

/// A record without its orientation: the record together with its switched
/// form.
pub open spec fn unoriented(e: EventView) -> Set<EventView> {
    set![e, e.switched()]
}

/// The records of one list, without order and orientation.
pub open spec fn records_of(list: Seq<EventView>) -> Multiset<Set<EventView>>
    decreases list.len(),
{
    if list.len() == 0 {
        Multiset::empty()
    } else {
        records_of(list.drop_last()).insert(unoriented(list.last()))
    }
}

/// The records of several lists, without order and orientation.
pub open spec fn all_records(lists: Seq<Seq<EventView>>) -> Multiset<Set<EventView>>
    decreases lists.len(),
{
    if lists.len() == 0 {
        Multiset::empty()
    } else {
        all_records(lists.drop_last()).add(records_of(lists.last()))
    }
}

/// Switching the sides of a record does not change which record it is.
pub proof fn lemma_unoriented_switched(e: EventView)
    ensures
        unoriented(e.switched()) == unoriented(e),
{
    assert(e.switched().switched() == e);
    assert(unoriented(e.switched()) =~= unoriented(e));
}

/// Taking a record out of a list takes exactly that record out of its records.
pub proof fn lemma_records_of_remove(list: Seq<EventView>, i: int)
    requires
        0 <= i < list.len(),
    ensures
        records_of(list.remove(i)).insert(unoriented(list[i])) == records_of(list),
    decreases list.len(),
{
    if i == list.len() - 1 {
        assert(list.remove(i) =~= list.drop_last());
    } else {
        lemma_records_of_remove(list.drop_last(), i);
        assert(list.remove(i).drop_last() =~= list.drop_last().remove(i));
        assert(list.remove(i).last() == list.last());
        assert(records_of(list.remove(i)).insert(unoriented(list[i])) =~= records_of(list));
    }
}

/// The records of concatenated lists are those of both parts.
pub proof fn lemma_all_records_concat(a: Seq<Seq<EventView>>, b: Seq<Seq<EventView>>)
    ensures
        all_records(a + b) == all_records(a).add(all_records(b)),
    decreases b.len(),
{
    if b.len() == 0 {
        assert(a + b =~= a);
        assert(all_records(a).add(all_records(b)) =~= all_records(a));
    } else {
        assert((a + b).drop_last() =~= a + b.drop_last());
        assert((a + b).last() == b.last());
        lemma_all_records_concat(a, b.drop_last());
        assert(all_records(a + b) =~= all_records(a).add(all_records(b)));
    }
}

/// The records collected for a base are the records that the pools lose.
pub proof fn lemma_matches_records(base: EventView, pools: Seq<Seq<EventView>>)
    ensures
        records_of(collect_matches(base, pools)).add(all_records(pools_after(base, pools)))
            == all_records(pools),
    decreases pools.len(),
{
    if pools.len() == 0 {
        assert(pools_after(base, pools) =~= pools);
        assert(records_of(collect_matches(base, pools)).add(
            all_records(pools_after(base, pools)),
        ) =~= all_records(pools));
    } else {
        let front = pools.drop_last();
        let pool = pools.last();
        lemma_matches_records(base, front);
        lemma_first_match(base, pool);
        assert(pools_after(base, pools).drop_last() =~= pools_after(base, front));
        assert(pools_after(base, pools).last() == pool_after(base, pool));
        match first_match(base, pool) {
            Some(i) => {
                let taken = oriented_like(base, pool[i]);
                lemma_unoriented_switched(pool[i]);
                lemma_records_of_remove(pool, i);
                let collected = collect_matches(base, pools);
                assert(collected.drop_last() =~= collect_matches(base, front));
                assert(collected.last() == taken);
            },
            None => {},
        }
        assert(records_of(collect_matches(base, pools)).add(
            all_records(pools_after(base, pools)),
        ) =~= all_records(pools));
    }
}

/// A pass hands every record of the base list and of the pools on, either in
/// a group or in what is left of the pools.
pub proof fn lemma_pass_records(bases: Seq<EventView>, pools: Seq<Seq<EventView>>)
    ensures
        all_records(pass_groups(bases, pools)).add(all_records(pass_pools(bases, pools)))
            == records_of(bases).add(all_records(pools)),
    decreases bases.len(),
{
    if bases.len() == 0 {
        assert(all_records(pass_groups(bases, pools)).add(all_records(pass_pools(bases, pools)))
            =~= records_of(bases).add(all_records(pools)));
    } else {
        let base = bases.last();
        let group = group_of(base, pools);
        let left = pools_after(base, pools);
        let later = pass_groups(bases.drop_last(), left);
        lemma_matches_records(base, pools);
        lemma_pass_records(bases.drop_last(), left);
        lemma_all_records_concat(seq![group], later);
        assert(seq![group].drop_last() =~= Seq::<Seq<EventView>>::empty());
        assert(all_records(seq![group]) =~= records_of(group)) by {
            reveal_with_fuel(all_records, 2);
        }
        assert(group.drop_last() =~= collect_matches(base, pools));
        let collected = records_of(collect_matches(base, pools));
        let grouped_later = all_records(later);
        let left_at_end = all_records(pass_pools(bases.drop_last(), left));
        let earlier_bases = records_of(bases.drop_last());
        let before = all_records(pass_groups(bases, pools)).add(
            all_records(pass_pools(bases, pools)),
        );
        let after = records_of(bases).add(all_records(pools));
        assert forall|x: Set<EventView>| before.count(x) == after.count(x) by {
            assert(grouped_later.add(left_at_end).count(x) == earlier_bases.add(
                all_records(left),
            ).count(x));
            assert(collected.add(all_records(left)).count(x) == all_records(pools).count(x));
        }
        assert(before =~= after);
    }
}

/// Coverage, record by record: the groups hold exactly the records that went
/// in, each as often as it went in, up to the order of its sides. No record
/// is lost, none is duplicated, none is invented.
pub proof fn lemma_grouping_keeps_records(providers: Seq<Seq<EventView>>)
    ensures
        all_records(grouping(providers)) == all_records(providers),
    decreases providers.len(),
{
    if providers.len() != 0 {
        let bases = providers.last();
        let pools = providers.drop_last();
        lemma_pass_keeps_pool_count(bases, pools);
        lemma_pass_records(bases, pools);
        lemma_grouping_keeps_records(pass_pools(bases, pools));
        lemma_all_records_concat(pass_groups(bases, pools), grouping(pass_pools(bases, pools)));
        assert(all_records(grouping(providers)) =~= all_records(providers));
    }
}

/// Every record of the list names `tag` as its bookmaker.
pub open spec fn tagged(list: Seq<EventView>, tag: Seq<char>) -> bool {
    forall|j: int| 0 <= j < list.len() ==> (#[trigger] list[j]).provider == tag
}

/// List `k` is tagged with `tags[k]`, for every `k`.
pub open spec fn all_tagged(lists: Seq<Seq<EventView>>, tags: Seq<Seq<char>>) -> bool {
    &&& tags.len() == lists.len()
    &&& forall|k: int| 0 <= k < lists.len() ==> tagged(#[trigger] lists[k], tags[k])
}

/// No two records of the group name the same bookmaker.
pub open spec fn distinct_providers(group: Seq<EventView>) -> bool {
    forall|i: int, j: int|
        0 <= i < j < group.len() ==> (#[trigger] group[i]).provider != (
        #[trigger] group[j]).provider
}

/// Pools that give up a record keep their tags.
pub proof fn lemma_pools_stay_tagged(
    base: EventView,
    pools: Seq<Seq<EventView>>,
    tags: Seq<Seq<char>>,
)
    requires
        all_tagged(pools, tags),
    ensures
        all_tagged(pools_after(base, pools), tags),
{
    let left = pools_after(base, pools);
    assert forall|k: int| 0 <= k < left.len() implies tagged(#[trigger] left[k], tags[k]) by {
        lemma_first_match(base, pools[k]);
        assert(tagged(pools[k], tags[k]));
        match first_match(base, pools[k]) {
            Some(i) => {
                assert forall|j: int| 0 <= j < left[k].len() implies (#[trigger] left[k][j]).provider
                    == tags[k] by {
                    if j < i {
                        assert(left[k][j] == pools[k][j]);
                    } else {
                        assert(left[k][j] == pools[k][j + 1]);
                    }
                }
            },
            None => {},
        }
    }
}

/// A bookmaker that tags none of the pools is named by no collected record.
pub proof fn lemma_collected_avoid(
    base: EventView,
    pools: Seq<Seq<EventView>>,
    tags: Seq<Seq<char>>,
    other: Seq<char>,
)
    requires
        all_tagged(pools, tags),
        forall|k: int| 0 <= k < tags.len() ==> #[trigger] tags[k] != other,
    ensures
        forall|i: int|
            0 <= i < collect_matches(base, pools).len() ==> (#[trigger] collect_matches(
                base,
                pools,
            )[i]).provider != other,
    decreases pools.len(),
{
    if pools.len() != 0 {
        let front = pools.drop_last();
        let front_tags = tags.drop_last();
        assert forall|k: int| 0 <= k < front.len() implies tagged(
            #[trigger] front[k],
            front_tags[k],
        ) by {
            assert(tagged(pools[k], tags[k]));
        }
        assert forall|k: int| 0 <= k < front_tags.len() implies #[trigger] front_tags[k]
            != other by {
            assert(tags[k] != other);
        }
        lemma_collected_avoid(base, front, front_tags, other);
        lemma_first_match(base, pools.last());
        assert(tagged(pools[pools.len() - 1], tags[pools.len() - 1]));
        assert(tags[tags.len() - 1] != other);
        let earlier = collect_matches(base, front);
        let all = collect_matches(base, pools);
        assert forall|i: int| 0 <= i < all.len() implies (#[trigger] all[i]).provider != other by {
            if i < earlier.len() {
                assert(all[i] == earlier[i]);
            } else {
                let at = first_match(base, pools.last())->Some_0;
                assert(all[i] == oriented_like(base, pools.last()[at]));
                assert(pools.last()[at].provider == tags.last());
            }
        }
    }
}

/// Records collected from pools with distinct tags name distinct bookmakers.
pub proof fn lemma_collected_distinct(
    base: EventView,
    pools: Seq<Seq<EventView>>,
    tags: Seq<Seq<char>>,
)
    requires
        all_tagged(pools, tags),
        tags.no_duplicates(),
    ensures
        distinct_providers(collect_matches(base, pools)),
    decreases pools.len(),
{
    if pools.len() != 0 {
        let front = pools.drop_last();
        let front_tags = tags.drop_last();
        assert forall|k: int| 0 <= k < front.len() implies tagged(
            #[trigger] front[k],
            front_tags[k],
        ) by {
            assert(tagged(pools[k], tags[k]));
        }
        assert forall|k: int| 0 <= k < front_tags.len() implies #[trigger] front_tags[k]
            != tags.last() by {
            assert(tags[k] != tags[tags.len() - 1]);
        }
        lemma_collected_distinct(base, front, front_tags);
        lemma_collected_avoid(base, front, front_tags, tags.last());
        lemma_first_match(base, pools.last());
        assert(tagged(pools[pools.len() - 1], tags[pools.len() - 1]));
        let earlier = collect_matches(base, front);
        let all = collect_matches(base, pools);
        assert forall|i: int, j: int| 0 <= i < j < all.len() implies (#[trigger] all[i]).provider != (
        #[trigger] all[j]).provider by {
            if j < earlier.len() {
                assert(all[i] == earlier[i]);
                assert(all[j] == earlier[j]);
            } else {
                let at = first_match(base, pools.last())->Some_0;
                assert(all[j] == oriented_like(base, pools.last()[at]));
                assert(pools.last()[at].provider == tags.last());
                assert(all[i] == earlier[i]);
            }
        }
    }
}

/// One pass over lists with distinct tags builds groups of distinct
/// bookmakers, and leaves the pools tagged as they were.
pub proof fn lemma_pass_distinct(
    bases: Seq<EventView>,
    pools: Seq<Seq<EventView>>,
    tags: Seq<Seq<char>>,
    base_tag: Seq<char>,
)
    requires
        tagged(bases, base_tag),
        all_tagged(pools, tags),
        tags.no_duplicates(),
        forall|k: int| 0 <= k < tags.len() ==> #[trigger] tags[k] != base_tag,
    ensures
        forall|n: int|
            0 <= n < pass_groups(bases, pools).len() ==> distinct_providers(
                #[trigger] pass_groups(bases, pools)[n],
            ),
        all_tagged(pass_pools(bases, pools), tags),
    decreases bases.len(),
{
    if bases.len() != 0 {
        let base = bases.last();
        let left = pools_after(base, pools);
        let group = group_of(base, pools);
        let later = pass_groups(bases.drop_last(), left);
        assert(bases[bases.len() - 1].provider == base_tag);
        assert forall|j: int| 0 <= j < bases.drop_last().len() implies (
        #[trigger] bases.drop_last()[j]).provider == base_tag by {
            assert(bases[j].provider == base_tag);
        }
        lemma_pools_stay_tagged(base, pools, tags);
        lemma_collected_distinct(base, pools, tags);
        lemma_collected_avoid(base, pools, tags, base_tag);
        lemma_pass_distinct(bases.drop_last(), left, tags, base_tag);
        let collected = collect_matches(base, pools);
        assert forall|i: int, j: int| 0 <= i < j < group.len() implies (
        #[trigger] group[i]).provider != (#[trigger] group[j]).provider by {
            assert(group[i] == collected[i]);
            if j < collected.len() {
                assert(group[j] == collected[j]);
            }
        }
        assert forall|n: int| 0 <= n < pass_groups(bases, pools).len() implies distinct_providers(
            #[trigger] pass_groups(bases, pools)[n],
        ) by {
            if n > 0 {
                assert(pass_groups(bases, pools)[n] == later[n - 1]);
            }
        }
    }
}

/// Where every list carries its own bookmaker's name and no two lists carry
/// the same, no group holds two records of one bookmaker, and the bookmakers
/// that a result lists are all different.
pub proof fn lemma_groups_name_distinct_providers(
    providers: Seq<Seq<EventView>>,
    tags: Seq<Seq<char>>,
)
    requires
        all_tagged(providers, tags),
        tags.no_duplicates(),
    ensures
        forall|n: int|
            0 <= n < grouping(providers).len() ==> {
                &&& distinct_providers(#[trigger] grouping(providers)[n])
                &&& selection(grouping(providers)[n]).providers_offering_bets.no_duplicates()
            },
    decreases providers.len(),
{
    if providers.len() != 0 {
        let bases = providers.last();
        let pools = providers.drop_last();
        let pool_tags = tags.drop_last();
        assert(tagged(providers[providers.len() - 1], tags[providers.len() - 1]));
        assert forall|k: int| 0 <= k < pools.len() implies tagged(
            #[trigger] pools[k],
            pool_tags[k],
        ) by {
            assert(tagged(providers[k], tags[k]));
        }
        assert forall|k: int| 0 <= k < pool_tags.len() implies #[trigger] pool_tags[k]
            != tags.last() by {
            assert(tags[k] != tags[tags.len() - 1]);
        }
        lemma_pass_keeps_pool_count(bases, pools);
        lemma_pass_distinct(bases, pools, pool_tags, tags.last());
        lemma_groups_name_distinct_providers(pass_pools(bases, pools), pool_tags);
        let now = pass_groups(bases, pools);
        let later = grouping(pass_pools(bases, pools));
        assert forall|n: int| 0 <= n < grouping(providers).len() implies {
            &&& distinct_providers(#[trigger] grouping(providers)[n])
            &&& selection(grouping(providers)[n]).providers_offering_bets.no_duplicates()
        } by {
            let group = grouping(providers)[n];
            if n < now.len() {
                assert(group == now[n]);
            } else {
                assert(group == later[n - now.len()]);
            }
            assert forall|i: int, j: int|
                0 <= i < providers_of(group).len() && 0 <= j < providers_of(group).len() && i
                    != j implies providers_of(group)[i] != providers_of(group)[j] by {
                if i < j {
                    assert(group[i].provider != group[j].provider);
                } else {
                    assert(group[j].provider != group[i].provider);
                }
            }
        }
    }
}

} // verus!
