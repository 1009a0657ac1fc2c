//! The arbitrage evaluator and the pipeline that drives matcher and evaluator.
//!
//! For a matched group the evaluator keeps, per outcome, the highest odds and
//! the bookmaker that quoted them first. Staking on every outcome in
//! proportion to the reciprocal of its best odds pays the same whichever
//! outcome occurs; it pays more than was staked exactly when the reciprocals
//! of the best decimal odds sum to less than one.

use vstd::prelude::*;
use crate::laws::{lemma_split_covers, listed_count, record_count};
use crate::matching::{group_events, grouping};
use crate::models::{EventView, SportEvent, ODDS_SCALE};

verus! {

/// The best odds per outcome over one matched group, and the verdict.
#[derive(Debug, Clone, PartialEq, Eq)]
pub struct PossibleArbitrage {
    pub team1: String,
    pub team2: String,
    pub kof1: u32,
    pub kof_draw: Option<u32>,
    pub kof2: u32,
    pub kof1_provider: String,
    pub kof_draw_provider: String,
    pub kof2_provider: String,
    pub is_arbitrage: bool,
    pub providers_offering_bets: Vec<String>,
}

/// The mathematical value of a [`PossibleArbitrage`].
pub struct ArbitrageView {
    pub team1: Seq<char>,
    pub team2: Seq<char>,
    pub kof1: u32,
    pub kof_draw: Option<u32>,
    pub kof2: u32,
    pub kof1_provider: Seq<char>,
    pub kof_draw_provider: Seq<char>,
    pub kof2_provider: Seq<char>,
    pub is_arbitrage: bool,
    pub providers_offering_bets: Seq<Seq<char>>,
}

impl View for PossibleArbitrage {
    type V = ArbitrageView;

    open spec fn view(&self) -> ArbitrageView {
        ArbitrageView {
            team1: self.team1@,
            team2: self.team2@,
            kof1: self.kof1,
            kof_draw: self.kof_draw,
            kof2: self.kof2,
            kof1_provider: self.kof1_provider@,
            kof_draw_provider: self.kof_draw_provider@,
            kof2_provider: self.kof2_provider@,
            is_arbitrage: self.is_arbitrage,
            providers_offering_bets: self.providers_offering_bets.deep_view(),
        }
    }
}

impl DeepView for PossibleArbitrage {
    type V = ArbitrageView;

    open spec fn deep_view(&self) -> ArbitrageView {
        self@
    }
}

/// Why a group has no verdict.
#[derive(Debug, Clone, Copy, PartialEq, Eq, Structural)]
pub enum EvaluationError {
    /// The group holds no record.
    EmptyGroup,
    /// The best odds of some outcome are zero: a price is missing.
    IncompleteMarket,
}

/// Staking on every outcome at these best odds returns more than was staked.
///
/// With decimal odds `k = odds / ODDS_SCALE`, this is `1/k1 + 1/kd + 1/k2 < 1`
/// cleared of fractions, and `1/k1 + 1/k2 < 1` for a market without a draw.
/// It is false as soon as one of the odds is zero.
pub open spec fn guarantees_profit(kof1: u32, kof_draw: Option<u32>, kof2: u32) -> bool {
    match kof_draw {
        Some(draw) => ODDS_SCALE * (draw * kof2 + kof1 * kof2 + kof1 * draw) < kof1 * draw * kof2,
        None => ODDS_SCALE * (kof1 + kof2) < kof1 * kof2,
    }
}

/// No outcome has zero for its best odds.
pub open spec fn market_complete(kof1: u32, kof_draw: Option<u32>, kof2: u32) -> bool {
    kof1 > 0 && kof2 > 0 && kof_draw != Some(0u32)
}

/// How draw odds are ordered: a market without a draw ranks below every price.
pub open spec fn draw_rank(kof_draw: Option<u32>) -> int {
    match kof_draw {
        Some(draw) => draw as int,
        None => -1,
    }
}

/// The odds for the first side, record by record.
pub open spec fn first_side_odds(group: Seq<EventView>) -> Seq<int> {
    Seq::new(group.len(), |i: int| group[i].kof1 as int)
}

/// The odds for the second side, record by record.
pub open spec fn second_side_odds(group: Seq<EventView>) -> Seq<int> {
    Seq::new(group.len(), |i: int| group[i].kof2 as int)
}

/// The rank of the draw odds, record by record.
pub open spec fn draw_odds(group: Seq<EventView>) -> Seq<int> {
    Seq::new(group.len(), |i: int| draw_rank(group[i].kof_draw))
}

/// The bookmakers of a group, record by record.
pub open spec fn providers_of(group: Seq<EventView>) -> Seq<Seq<char>> {
    Seq::new(group.len(), |i: int| group[i].provider)
}

/// The position that a scan from the front ends on when it moves only to a
/// strictly higher price: the first position that holds the maximum.
pub open spec fn best_index(prices: Seq<int>) -> int
    decreases prices.len(),
{
    if prices.len() <= 1 {
        0
    } else {
        let earlier = best_index(prices.drop_last());
        if prices.last() > prices[earlier] {
            prices.len() - 1
        } else {
            earlier
        }
    }
}

/// The best odds of a non-empty group with their bookmakers, the names of its
/// first record, and the verdict.
pub open spec fn selection(group: Seq<EventView>) -> ArbitrageView {
    let first = best_index(first_side_odds(group));
    let draw = best_index(draw_odds(group));
    let second = best_index(second_side_odds(group));
    ArbitrageView {
        team1: group[0].team1,
        team2: group[0].team2,
        kof1: group[first].kof1,
        kof_draw: group[draw].kof_draw,
        kof2: group[second].kof2,
        kof1_provider: group[first].provider,
        kof_draw_provider: group[draw].provider,
        kof2_provider: group[second].provider,
        is_arbitrage: guarantees_profit(
            group[first].kof1,
            group[draw].kof_draw,
            group[second].kof2,
        ),
        providers_offering_bets: providers_of(group),
    }
}

/// What the evaluator makes of a group.
pub open spec fn evaluation(group: Seq<EventView>) -> Result<ArbitrageView, EvaluationError> {
    if group.len() == 0 {
        Err(EvaluationError::EmptyGroup)
    } else {
        let best = selection(group);
        if market_complete(best.kof1, best.kof_draw, best.kof2) {
            Ok(best)
        } else {
            Err(EvaluationError::IncompleteMarket)
        }
    }
}

/// `best_index` points at the maximum, and at its first occurrence.
pub proof fn lemma_best_index(prices: Seq<int>)
    requires
        prices.len() > 0,
    ensures
        0 <= best_index(prices) < prices.len(),
        forall|j: int| 0 <= j < prices.len() ==> #[trigger] prices[j] <= prices[best_index(prices)],
        forall|j: int| 0 <= j < best_index(prices) ==> #[trigger] prices[j] < prices[best_index(prices)],
    decreases prices.len(),
{
    if prices.len() > 1 {
        let front = prices.drop_last();
        lemma_best_index(front);
        assert(forall|j: int| 0 <= j < front.len() ==> front[j] == prices[j]);
    }
}

/// Decides whether the given best odds guarantee a profit.
pub fn profit_is_guaranteed(kof1: u32, kof_draw: Option<u32>, kof2: u32) -> (yes: bool)
    ensures
        yes == guarantees_profit(kof1, kof_draw, kof2),
{
    let scale: u128 = ODDS_SCALE as u128;
    let a: u128 = kof1 as u128;
    let b: u128 = kof2 as u128;
    assert(a * b <= 0xFFFF_FFFF * 0xFFFF_FFFF) by (nonlinear_arith)
        requires
            a <= 0xFFFF_FFFF,
            b <= 0xFFFF_FFFF,
    ;
    match kof_draw {
        Some(draw) => {
            let d: u128 = draw as u128;
            assert(d * b <= 0xFFFF_FFFF * 0xFFFF_FFFF) by (nonlinear_arith)
                requires
                    d <= 0xFFFF_FFFF,
                    b <= 0xFFFF_FFFF,
            ;
            assert(a * d <= 0xFFFF_FFFF * 0xFFFF_FFFF) by (nonlinear_arith)
                requires
                    a <= 0xFFFF_FFFF,
                    d <= 0xFFFF_FFFF,
            ;
            assert(a * d * b <= 0xFFFF_FFFF * 0xFFFF_FFFF * 0xFFFF_FFFF) by (nonlinear_arith)
                requires
                    a * d <= 0xFFFF_FFFF * 0xFFFF_FFFF,
                    b <= 0xFFFF_FFFF,
            ;
            let pairs: u128 = d * b + a * b + a * d;
            let product: u128 = a * d * b;
            scale * pairs < product
        },
        None => scale * (a + b) < a * b,
    }
}

impl PossibleArbitrage {
    /// Sets the verdict from the best odds that the record holds.
    pub fn mark_is_arbitrage(&mut self)
        ensures
            final(self)@ == (ArbitrageView {
                is_arbitrage: guarantees_profit(
                    old(self).kof1,
                    old(self).kof_draw,
                    old(self).kof2,
                ),
                ..old(self)@
            }),
    {
        self.is_arbitrage = profit_is_guaranteed(self.kof1, self.kof_draw, self.kof2);
    }
}

/// Tells whether `candidate` ranks strictly above `best` as draw odds.
fn draw_exceeds(candidate: Option<u32>, best: Option<u32>) -> (yes: bool)
    ensures
        yes == (draw_rank(candidate) > draw_rank(best)),
{
    match candidate {
        Some(c) => match best {
            Some(b) => c > b,
            None => true,
        },
        None => false,
    }
}

/// Evaluates one matched group.
///
/// Per outcome the highest odds win, and among equal odds the record that
/// comes first in the group. The names are those of the first record, and
/// every record's bookmaker is listed in group order. An empty group and a
/// group whose best odds include a zero are refused.
pub fn evaluate_group(group: &Vec<SportEvent>) -> (outcome: Result<
    PossibleArbitrage,
    EvaluationError,
>)
    ensures
        match outcome {
            Ok(found) => evaluation(group.deep_view()) == Ok::<ArbitrageView, EvaluationError>(
                found@,
            ),
            Err(e) => evaluation(group.deep_view()) == Err::<ArbitrageView, EvaluationError>(e),
        },
{
    let n: usize = group.len();
    if n == 0 {
        return Err(EvaluationError::EmptyGroup);
    }
    let ghost records = group.deep_view();
    let mut first: usize = 0;
    let mut draw: usize = 0;
    let mut second: usize = 0;
    let mut providers_offering_bets: Vec<String> = Vec::new();
    providers_offering_bets.push(group[0].provider.clone());
    assert(providers_offering_bets.deep_view() =~= providers_of(records).take(1));
    let mut i: usize = 1;
    while i < n
        invariant
            1 <= i <= n,
            n == group.len(),
            records == group.deep_view(),
            first < i,
            draw < i,
            second < i,
            first == best_index(first_side_odds(records).take(i as int)),
            draw == best_index(draw_odds(records).take(i as int)),
            second == best_index(second_side_odds(records).take(i as int)),
            providers_offering_bets.deep_view() == providers_of(records).take(i as int),
        decreases n - i,
    {
        proof {
            let next = i as int + 1;
            assert(first_side_odds(records).take(next).drop_last() =~= first_side_odds(
                records,
            ).take(i as int));
            assert(draw_odds(records).take(next).drop_last() =~= draw_odds(records).take(i as int));
            assert(second_side_odds(records).take(next).drop_last() =~= second_side_odds(
                records,
            ).take(i as int));
            assert(records[i as int] == group[i as int]@);
            assert(records[first as int] == group[first as int]@);
            assert(records[draw as int] == group[draw as int]@);
            assert(records[second as int] == group[second as int]@);
        }
        let event = &group[i];
        if event.kof1 > group[first].kof1 {
            first = i;
        }
        if event.kof2 > group[second].kof2 {
            second = i;
        }
        if draw_exceeds(event.kof_draw, group[draw].kof_draw) {
            draw = i;
        }
        let ghost listed = providers_offering_bets.deep_view();
        providers_offering_bets.push(event.provider.clone());
        assert(providers_offering_bets.deep_view() =~= listed.push(event.provider@));
        assert(listed.push(event.provider@) =~= providers_of(records).take(i as int + 1));
        i += 1;
    }
    proof {
        assert(first_side_odds(records).take(n as int) =~= first_side_odds(records));
        assert(draw_odds(records).take(n as int) =~= draw_odds(records));
        assert(second_side_odds(records).take(n as int) =~= second_side_odds(records));
        assert(providers_of(records).take(n as int) =~= providers_of(records));
        assert(records[0] == group[0]@);
        assert(records[first as int] == group[first as int]@);
        assert(records[draw as int] == group[draw as int]@);
        assert(records[second as int] == group[second as int]@);
    }
    let kof1: u32 = group[first].kof1;
    let kof_draw: Option<u32> = group[draw].kof_draw;
    let kof2: u32 = group[second].kof2;
    let draw_missing = match kof_draw {
        Some(d) => d == 0,
        None => false,
    };
    if kof1 == 0 || kof2 == 0 || draw_missing {
        return Err(EvaluationError::IncompleteMarket);
    }
    let mut possible_arbitrage = PossibleArbitrage {
        team1: group[0].team1.clone(),
        team2: group[0].team2.clone(),
        kof1,
        kof_draw,
        kof2,
        kof1_provider: group[first].provider.clone(),
        kof_draw_provider: group[draw].provider.clone(),
        kof2_provider: group[second].provider.clone(),
        is_arbitrage: false,
        providers_offering_bets,
    };
    possible_arbitrage.mark_is_arbitrage();
    Ok(possible_arbitrage)
}

/// A group that the evaluator decides on: two records or more, and a complete market.
pub open spec fn evaluable(group: Seq<EventView>) -> bool {
    group.len() >= 2 && evaluation(group) is Ok
}

/// The verdicts of the evaluable groups, in the order of the groups.
pub open spec fn arbitrages_of(groups: Seq<Seq<EventView>>) -> Seq<ArbitrageView>
    decreases groups.len(),
{
    if groups.len() == 0 {
        Seq::empty()
    } else {
        let earlier = arbitrages_of(groups.drop_last());
        if evaluable(groups.last()) {
            earlier.push(selection(groups.last()))
        } else {
            earlier
        }
    }
}

/// The records of all other groups, in the order of the groups and, within a
/// group, in the order of its records.
pub open spec fn leftovers_of(groups: Seq<Seq<EventView>>) -> Seq<EventView>
    decreases groups.len(),
{
    if groups.len() == 0 {
        Seq::empty()
    } else {
        let earlier = leftovers_of(groups.drop_last());
        if evaluable(groups.last()) {
            earlier
        } else {
            earlier + groups.last()
        }
    }
}

/// Evaluates every group that has more than one record. Returns the verdicts,
/// and the records of the groups that gave none: the unmatched fixtures, and
/// the members of groups whose market is incomplete.
pub fn split_groups(groups: Vec<Vec<SportEvent>>) -> (split: (
    Vec<PossibleArbitrage>,
    Vec<SportEvent>,
))
    ensures
        split.0.deep_view() == arbitrages_of(groups.deep_view()),
        split.1.deep_view() == leftovers_of(groups.deep_view()),
{
    let ghost all = groups.deep_view();
    let mut groups = groups;
    let mut possible_arbitrages: Vec<PossibleArbitrage> = Vec::new();
    let mut events_wo_pairs: Vec<SportEvent> = Vec::new();
    let mut i: usize = 0;
    assert(all.take(0) =~= Seq::<Seq<EventView>>::empty());
    assert(possible_arbitrages.deep_view() =~= Seq::<ArbitrageView>::empty());
    assert(events_wo_pairs.deep_view() =~= Seq::<EventView>::empty());
    while i < groups.len()
        invariant
            i <= groups.len(),
            groups.len() == all.len(),
            forall|j: int| i <= j < groups.len() ==> #[trigger] groups.deep_view()[j] == all[j],
            possible_arbitrages.deep_view() == arbitrages_of(all.take(i as int)),
            events_wo_pairs.deep_view() == leftovers_of(all.take(i as int)),
        decreases groups.len() - i,
    {
        let ghost groups_here = groups.deep_view();
        let ghost verdicts = possible_arbitrages.deep_view();
        let ghost leftovers = events_wo_pairs.deep_view();
        proof {
            let prefix = all.take(i as int + 1);
            assert(prefix.drop_last() =~= all.take(i as int));
            assert(prefix.last() == all[i as int]);
            assert(groups[i as int].deep_view() == groups_here[i as int]);
        }
        let mut verdict: Option<PossibleArbitrage> = None;
        if groups[i].len() >= 2 {
            match evaluate_group(&groups[i]) {
                Ok(found) => {
                    verdict = Some(found);
                },
                Err(_) => {},
            }
        }
        match verdict {
            Some(found) => {
                possible_arbitrages.push(found);
                assert(possible_arbitrages.deep_view() =~= verdicts.push(found@));
            },
            None => {
                events_wo_pairs.append(&mut groups[i]);
                assert(events_wo_pairs.deep_view() =~= leftovers + all[i as int]);
                assert forall|j: int| i < j < groups.len() implies #[trigger] groups.deep_view()[j]
                    == all[j] by {
                    assert(groups.deep_view()[j] == groups_here[j]);
                }
            },
        }
        i += 1;
    }
    assert(all.take(i as int) =~= all);
    (possible_arbitrages, events_wo_pairs)
}

/// Matches the bookmakers' lists and evaluates the groups.
///
/// Returns a verdict for every group of two or more records whose market is
/// complete, and every other record as it left the matcher.
pub fn find_arbitrages(events_by_provider: Vec<Vec<SportEvent>>) -> (found: (
    Vec<PossibleArbitrage>,
    Vec<SportEvent>,
))
    ensures
        found.0.deep_view() == arbitrages_of(grouping(events_by_provider.deep_view())),
        found.1.deep_view() == leftovers_of(grouping(events_by_provider.deep_view())),
        listed_count(found.0.deep_view()) + found.1.len() == record_count(
            events_by_provider.deep_view(),
        ),
{
    let grouped_events = group_events(events_by_provider);
    proof {
        lemma_split_covers(grouped_events.deep_view());
    }
    split_groups(grouped_events)
}

} // verus!
