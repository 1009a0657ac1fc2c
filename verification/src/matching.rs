//! The event matcher: which records quote the same fixture, and how the
//! bookmakers' lists are partitioned into groups.
//!
//! Matching is greedy. The last remaining list is the base of a pass; its
//! records are taken from the back, one at a time. For a base record, every
//! other remaining list gives up the first of its records that matches, which
//! joins the base record's group turned to the base record's orientation.

use vstd::prelude::*;
use crate::laws::{
    all_records, lemma_grouping_covers, lemma_grouping_keeps_records, lemma_groups_well_formed,
    record_count, well_formed_group,
};
use crate::models::{EventView, SportEvent};
use crate::text::{lowercase, to_lowercase};

verus! {

/// Both records name the same sides in the same order, letter case aside.
pub open spec fn same_sides(a: EventView, b: EventView) -> bool {
    lowercase(a.team1) == lowercase(b.team1) && lowercase(a.team2) == lowercase(b.team2)
}

/// The records name the same sides in opposite order, letter case aside.
pub open spec fn swapped_sides(a: EventView, b: EventView) -> bool {
    lowercase(a.team2) == lowercase(b.team1) && lowercase(a.team1) == lowercase(b.team2)
}

/// The records quote the same fixture.
pub open spec fn is_match(a: EventView, b: EventView) -> bool {
    same_sides(a, b) || swapped_sides(a, b)
}

/// The answer of the match predicate: whether the records match, and whether
/// they do so in the same orientation. Equal orientation is tried first.
pub open spec fn comparison(a: EventView, b: EventView) -> (bool, bool) {
    if same_sides(a, b) {
        (true, true)
    } else if swapped_sides(a, b) {
        (true, false)
    } else {
        (false, false)
    }
}

/// A matching record turned to the orientation of `base`.
pub open spec fn oriented_like(base: EventView, e: EventView) -> EventView {
    if same_sides(base, e) {
        e
    } else {
        e.switched()
    }
}

/// The position of the first record in `pool` that matches `base`.
pub open spec fn first_match(base: EventView, pool: Seq<EventView>) -> Option<int>
    decreases pool.len(),
{
    if pool.len() == 0 {
        None
    } else if is_match(base, pool[0]) {
        Some(0)
    } else {
        match first_match(base, pool.drop_first()) {
            Some(i) => Some(i + 1),
            None => None,
        }
    }
}

/// What `pool` contributes to the group of `base`: its first matching record,
/// re-oriented, if it has one.
pub open spec fn matched_record(base: EventView, pool: Seq<EventView>) -> Option<EventView> {
    match first_match(base, pool) {
        Some(i) => Some(oriented_like(base, pool[i])),
        None => None,
    }
}

/// `pool` once it has given up its match for `base`.
pub open spec fn pool_after(base: EventView, pool: Seq<EventView>) -> Seq<EventView> {
    match first_match(base, pool) {
        Some(i) => pool.remove(i),
        None => pool,
    }
}

/// The records that `pools` contribute to the group of `base`, in the order
/// of the pools.
pub open spec fn collect_matches(base: EventView, pools: Seq<Seq<EventView>>) -> Seq<EventView>
    decreases pools.len(),
{
    if pools.len() == 0 {
        Seq::empty()
    } else {
        let earlier = collect_matches(base, pools.drop_last());
        match matched_record(base, pools.last()) {
            Some(e) => earlier.push(e),
            None => earlier,
        }
    }
}

/// The pools once each has given up its match for `base`.
pub open spec fn pools_after(base: EventView, pools: Seq<Seq<EventView>>) -> Seq<Seq<EventView>> {
    Seq::new(pools.len(), |k: int| pool_after(base, pools[k]))
}

/// The group built for `base`: the matches found, then `base` itself.
pub open spec fn group_of(base: EventView, pools: Seq<Seq<EventView>>) -> Seq<EventView> {
    collect_matches(base, pools).push(base)
}

/// The groups of one pass: one per record of the base list, taken from the
/// back, each against the pools as the earlier records left them.
pub open spec fn pass_groups(bases: Seq<EventView>, pools: Seq<Seq<EventView>>) -> Seq<
    Seq<EventView>,
>
    decreases bases.len(),
{
    if bases.len() == 0 {
        Seq::empty()
    } else {
        seq![group_of(bases.last(), pools)] + pass_groups(
            bases.drop_last(),
            pools_after(bases.last(), pools),
        )
    }
}

/// The pools as one pass leaves them.
pub open spec fn pass_pools(bases: Seq<EventView>, pools: Seq<Seq<EventView>>) -> Seq<
    Seq<EventView>,
>
    decreases bases.len(),
{
    if bases.len() == 0 {
        pools
    } else {
        pass_pools(bases.drop_last(), pools_after(bases.last(), pools))
    }
}

/// The matched groups of a set of bookmaker lists: the groups of the pass
/// whose base is the last list, then the groups of what that pass leaves.
pub open spec fn grouping(providers: Seq<Seq<EventView>>) -> Seq<Seq<EventView>>
    decreases providers.len(),
    via grouping_terminates
{
    if providers.len() == 0 {
        Seq::empty()
    } else {
        pass_groups(providers.last(), providers.drop_last()) + grouping(
            pass_pools(providers.last(), providers.drop_last()),
        )
    }
}

#[via_fn]
proof fn grouping_terminates(providers: Seq<Seq<EventView>>) {
    if providers.len() != 0 {
        lemma_pass_keeps_pool_count(providers.last(), providers.drop_last());
    }
}

/// A pass removes records from the pools, never a pool.
pub proof fn lemma_pass_keeps_pool_count(bases: Seq<EventView>, pools: Seq<Seq<EventView>>)
    ensures
        pass_pools(bases, pools).len() == pools.len(),
    decreases bases.len(),
{
    if bases.len() != 0 {
        lemma_pass_keeps_pool_count(bases.drop_last(), pools_after(bases.last(), pools));
    }
}

/// `first_match` gives the least matching position, and `None` exactly when
/// nothing in the pool matches.
pub proof fn lemma_first_match(base: EventView, pool: Seq<EventView>)
    ensures
        match first_match(base, pool) {
            Some(i) => {
                &&& 0 <= i < pool.len()
                &&& is_match(base, pool[i])
                &&& forall|j: int| 0 <= j < i ==> !is_match(base, #[trigger] pool[j])
            },
            None => forall|j: int| 0 <= j < pool.len() ==> !is_match(base, #[trigger] pool[j]),
        },
    decreases pool.len(),
{
    if pool.len() != 0 && !is_match(base, pool[0]) {
        let rest = pool.drop_first();
        lemma_first_match(base, rest);
        assert(forall|j: int| 0 <= j < rest.len() ==> rest[j] == pool[j + 1]);
        match first_match(base, rest) {
            Some(i) => {
                assert forall|j: int| 0 <= j < i + 1 implies !is_match(base, #[trigger] pool[j]) by {
                    if j > 0 {
                        assert(pool[j] == rest[j - 1]);
                    }
                }
            },
            None => {
                assert forall|j: int| 0 <= j < pool.len() implies !is_match(
                    base,
                    #[trigger] pool[j],
                ) by {
                    if j > 0 {
                        assert(pool[j] == rest[j - 1]);
                    }
                }
            },
        }
    }
}

/// Compares two records by their side names, ignoring letter case.
///
/// Returns whether they quote the same fixture and, if so, whether they list
/// the sides in the same order.
pub fn compare_events(event_1: &SportEvent, event_2: &SportEvent) -> (answer: (bool, bool))
    ensures
        answer == comparison(event_1@, event_2@),
{
    let event_1_team_1 = to_lowercase(&event_1.team1);
    let event_1_team_2 = to_lowercase(&event_1.team2);
    let event_2_team_1 = to_lowercase(&event_2.team1);
    let event_2_team_2 = to_lowercase(&event_2.team2);

    if event_1_team_1 == event_2_team_1 && event_1_team_2 == event_2_team_2 {
        return (true, true);
    }
    if event_1_team_2 == event_2_team_1 && event_1_team_1 == event_2_team_2 {
        return (true, false);
    }
    (false, false)
}

/// Takes out of `pool` the first record that matches `base` and returns it in
/// the orientation of `base`. Leaves `pool` alone when nothing matches.
pub fn take_match(base: &SportEvent, pool: &mut Vec<SportEvent>) -> (found: Option<SportEvent>)
    ensures
        found.deep_view() == matched_record(base@, old(pool).deep_view()),
        final(pool).deep_view() == pool_after(base@, old(pool).deep_view()),
{
    let ghost before = pool.deep_view();
    let mut i: usize = 0;
    while i < pool.len()
        invariant
            i <= pool.len(),
            pool.deep_view() == before,
            before == old(pool).deep_view(),
            forall|j: int| 0 <= j < i ==> !is_match(base@, #[trigger] before[j]),
        decreases pool.len() - i,
    {
        assert(before[i as int] == pool[i as int]@);
        let (events_match, order_matches) = compare_events(base, &pool[i]);
        if events_match {
            let mut event = pool.remove(i);
            if !order_matches {
                event.switch_teams();
            }
            proof {
                lemma_first_match(base@, before);
                assert(is_match(base@, before[i as int]));
                assert(first_match(base@, before) == Some(i as int));
                assert(pool.deep_view() =~= before.remove(i as int));
            }
            return Some(event);
        }
        i += 1;
    }
    proof {
        lemma_first_match(base@, before);
    }
    None
}

/// Builds the group of one base record: asks every pool in turn for its match,
/// and puts the base record last.
pub fn collect_group(base: SportEvent, pools: &mut Vec<Vec<SportEvent>>) -> (group: Vec<SportEvent>)
    ensures
        group.deep_view() == group_of(base@, old(pools).deep_view()),
        final(pools).deep_view() == pools_after(base@, old(pools).deep_view()),
{
    let ghost before = pools.deep_view();
    let mut matching_events: Vec<SportEvent> = Vec::new();
    let mut k: usize = 0;
    assert(before.take(0) =~= Seq::<Seq<EventView>>::empty());
    while k < pools.len()
        invariant
            k <= pools.len(),
            pools.len() == before.len(),
            before == old(pools).deep_view(),
            matching_events.deep_view() == collect_matches(base@, before.take(k as int)),
            forall|j: int| 0 <= j < k ==> #[trigger] pools.deep_view()[j] == pool_after(base@, before[j]),
            forall|j: int| k <= j < pools.len() ==> #[trigger] pools.deep_view()[j] == before[j],
        decreases pools.len() - k,
    {
        let ghost pools_here = pools.deep_view();
        let ghost collected = matching_events.deep_view();
        assert(pools[k as int].deep_view() == pools_here[k as int]);
        let found = take_match(&base, &mut pools[k]);
        proof {
            let prefix = before.take(k as int + 1);
            assert(prefix.drop_last() =~= before.take(k as int));
            assert(prefix.last() == before[k as int]);
            assert(pools.deep_view()[k as int] == pool_after(base@, before[k as int]));
            assert forall|j: int| 0 <= j < pools.len() && j != k implies #[trigger] pools.deep_view()[j]
                == pools_here[j] by {}
        }
        match found {
            Some(event) => {
                matching_events.push(event);
                assert(matching_events.deep_view() =~= collected.push(event@));
            },
            None => {},
        }
        k += 1;
    }
    assert(before.take(k as int) =~= before);
    assert(pools.deep_view() =~= pools_after(base@, before));
    let ghost collected = matching_events.deep_view();
    matching_events.push(base);
    assert(matching_events.deep_view() =~= collected.push(base@));
    matching_events
}

/// Partitions the bookmakers' lists into matched groups.
///
/// Every record ends up in exactly one group. A group holds the matches that
/// the other lists gave, in the order of the lists, and the base record last;
/// its records all carry the base record's orientation.
pub fn group_events(events_by_provider: Vec<Vec<SportEvent>>) -> (grouped_events: Vec<
    Vec<SportEvent>,
>)
    ensures
        grouped_events.deep_view() == grouping(events_by_provider.deep_view()),
        record_count(grouped_events.deep_view()) == record_count(events_by_provider.deep_view()),
        all_records(grouped_events.deep_view()) == all_records(events_by_provider.deep_view()),
        forall|n: int|
            0 <= n < grouped_events.len() ==> well_formed_group(
                #[trigger] grouped_events.deep_view()[n],
                events_by_provider.len() as nat,
            ),
{
    proof {
        lemma_grouping_covers(events_by_provider.deep_view());
        lemma_grouping_keeps_records(events_by_provider.deep_view());
        lemma_groups_well_formed(events_by_provider.deep_view());
    }
    let ghost whole = grouping(events_by_provider.deep_view());
    let mut events_by_provider = events_by_provider;
    let mut grouped_events: Vec<Vec<SportEvent>> = Vec::new();
    assert(grouped_events.deep_view() =~= Seq::<Seq<EventView>>::empty());

    while events_by_provider.len() > 0
        invariant
            grouped_events.deep_view() + grouping(events_by_provider.deep_view()) == whole,
        decreases events_by_provider.len(),
    {
        let ghost lists = events_by_provider.deep_view();
        let ghost done = grouped_events.deep_view();
        let mut base_provider_events = events_by_provider.pop().unwrap();
        assert(events_by_provider.deep_view() =~= lists.drop_last());
        assert(base_provider_events.deep_view() == lists.last());

        while base_provider_events.len() > 0
            invariant
                events_by_provider.len() + 1 == lists.len(),
                grouped_events.deep_view() + pass_groups(
                    base_provider_events.deep_view(),
                    events_by_provider.deep_view(),
                ) + grouping(
                    pass_pools(base_provider_events.deep_view(), events_by_provider.deep_view()),
                ) == whole,
            decreases base_provider_events.len(),
        {
            let ghost bases = base_provider_events.deep_view();
            let ghost pools = events_by_provider.deep_view();
            let ghost so_far = grouped_events.deep_view();
            let base_sport_event = base_provider_events.pop().unwrap();
            assert(base_provider_events.deep_view() =~= bases.drop_last());
            assert(base_sport_event@ == bases.last());
            let matching_events = collect_group(base_sport_event, &mut events_by_provider);
            grouped_events.push(matching_events);
            proof {
                let group = group_of(bases.last(), pools);
                let later = pass_groups(bases.drop_last(), pools_after(bases.last(), pools));
                assert(grouped_events.deep_view() =~= so_far.push(group));
                assert(so_far.push(group) + later =~= so_far + (seq![group] + later));
            }
        }
        assert(pass_groups(base_provider_events.deep_view(), events_by_provider.deep_view())
            =~= Seq::<Seq<EventView>>::empty());
        assert(grouped_events.deep_view() + Seq::<Seq<EventView>>::empty()
            =~= grouped_events.deep_view());
    }
    assert(grouped_events.deep_view() + Seq::<Seq<EventView>>::empty()
        =~= grouped_events.deep_view());
    grouped_events
}

} // verus!
