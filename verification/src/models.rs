//! The odds record that every bookmaker's listing is normalised into.

use vstd::prelude::*;

verus! {

/// How many units of a fixed-point odds value make decimal odds of 1.0.
pub const ODDS_SCALE: u32 = 1000;

/// One bookmaker's quote for one fixture.
///
/// `kof1` and `kof2` are the odds for the first and the second named side,
/// `kof_draw` the odds for a draw where the market offers one. Odds count
/// thousandths: `2100` stands for 2.10.
#[derive(Debug, Clone, PartialEq, Eq)]
pub struct SportEvent {
    pub team1: String,
    pub team2: String,
    pub kof1: u32,
    pub kof2: u32,
    pub kof_draw: Option<u32>,
    pub provider: String,
}

/// The mathematical value of a [`SportEvent`].
pub struct EventView {
    pub team1: Seq<char>,
    pub team2: Seq<char>,
    pub kof1: u32,
    pub kof2: u32,
    pub kof_draw: Option<u32>,
    pub provider: Seq<char>,
}

impl EventView {
    /// The same quote with the two sides listed the other way round. The draw
    /// odds and the bookmaker stay as they are.
    pub open spec fn switched(self) -> EventView {
        EventView {
            team1: self.team2,
            team2: self.team1,
            kof1: self.kof2,
            kof2: self.kof1,
            kof_draw: self.kof_draw,
            provider: self.provider,
        }
    }

    /// Every quoted price is strictly above decimal odds of 1.0.
    pub open spec fn valid(self) -> bool {
        &&& self.kof1 > ODDS_SCALE
        &&& self.kof2 > ODDS_SCALE
        &&& match self.kof_draw {
            Some(d) => d > ODDS_SCALE,
            None => true,
        }
    }
}

impl View for SportEvent {
    type V = EventView;

    open spec fn view(&self) -> EventView {
        EventView {
            team1: self.team1@,
            team2: self.team2@,
            kof1: self.kof1,
            kof2: self.kof2,
            kof_draw: self.kof_draw,
            provider: self.provider@,
        }
    }
}

impl DeepView for SportEvent {
    type V = EventView;

    open spec fn deep_view(&self) -> EventView {
        self@
    }
}

impl SportEvent {
    /// Swaps the two sides in place: the names and the odds that go with them.
    pub fn switch_teams(&mut self)
        ensures
            final(self)@ == old(self)@.switched(),
    {
        let team1 = self.team1.clone();
        let kof1 = self.kof1;

        self.team1 = self.team2.clone();
        self.team2 = team1;
        self.kof1 = self.kof2;
        self.kof2 = kof1;
    }

    /// Tells whether every quoted price is strictly above decimal odds of 1.0.
    /// A record for which this is false is malformed and should not be handed
    /// to the matcher.
    pub fn is_valid(&self) -> (ok: bool)
        ensures
            ok == self@.valid(),
    {
        let draw_ok = match self.kof_draw {
            Some(d) => d > ODDS_SCALE,
            None => true,
        };
        self.kof1 > ODDS_SCALE && self.kof2 > ODDS_SCALE && draw_ok
    }
}

/// Switching the sides twice gives the record back.
pub proof fn lemma_switched_twice(e: EventView)
    ensures
        e.switched().switched() == e,
{
}

} // verus!
