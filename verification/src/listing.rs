//! From the texts of one row of a bookmaker's listing to the fields of a
//! quote.
//!
//! A row comes as the texts that were found in it: the names of the sides and
//! the prices, both in page order. Each bookmaker lays its rows out in its own
//! way; the rules here say which texts make up the quote, when a row quotes
//! nothing and is skipped, and when it is broken. The prices stay text: how
//! they are read as numbers is not decided here.

use vstd::prelude::*;

verus! {

/// The texts that make up one quote.
#[derive(Debug, Clone, PartialEq, Eq)]
pub struct RowTexts {
    pub team1: String,
    pub team2: String,
    pub kof1: String,
    pub kof_draw: Option<String>,
    pub kof2: String,
}

/// The mathematical value of a [`RowTexts`].
pub struct RowView {
    pub team1: Seq<char>,
    pub team2: Seq<char>,
    pub kof1: Seq<char>,
    pub kof_draw: Option<Seq<char>>,
    pub kof2: Seq<char>,
}

impl View for RowTexts {
    type V = RowView;

    open spec fn view(&self) -> RowView {
        RowView {
            team1: self.team1@,
            team2: self.team2@,
            kof1: self.kof1@,
            kof_draw: match self.kof_draw {
                Some(text) => Some(text@),
                None => None,
            },
            kof2: self.kof2@,
        }
    }
}

impl DeepView for RowTexts {
    type V = RowView;

    open spec fn deep_view(&self) -> RowView {
        self@
    }
}

/// What a row lacks.
#[derive(Debug, Clone, Copy, PartialEq, Eq, Structural)]
pub enum RowError {
    /// A price column that the layout promises is not there.
    MissingColumn,
    /// There is no name for the first side.
    MissingTeam1,
    /// There is no name for the second side.
    MissingTeam2,
    /// There is no price for the first side.
    MissingCoefficient1,
    /// There is no price for the second side.
    MissingCoefficient2,
}

/// The two names at the head of `team_names`, or which of them is missing.
pub open spec fn sides_of(team_names: Seq<Seq<char>>) -> Result<(Seq<char>, Seq<char>), RowError> {
    if team_names.len() < 1 {
        Err(RowError::MissingTeam1)
    } else if team_names.len() < 2 {
        Err(RowError::MissingTeam2)
    } else {
        Ok((team_names[0], team_names[1]))
    }
}

/// A row of the first layout: the row names its sides, and the first two
/// prices are those of the two sides. There is no draw.
pub open spec fn top_sport_rule(team_names: Seq<Seq<char>>, kofs: Seq<Seq<char>>) -> Result<
    RowView,
    RowError,
> {
    match sides_of(team_names) {
        Err(e) => Err(e),
        Ok(sides) => if kofs.len() < 1 {
            Err(RowError::MissingCoefficient1)
        } else if kofs.len() < 2 {
            Err(RowError::MissingCoefficient2)
        } else {
            Ok(RowView { team1: sides.0, team2: sides.1, kof1: kofs[0], kof_draw: None, kof2: kofs[1] })
        },
    }
}

/// A row of the second layout. Columns 1 and 2 hold the prices of the two
/// sides and may be locked. The row is skipped when one of them is locked, a
/// column that is needed to tell is an error, and the row is skipped as well
/// when fewer than two prices are shown. There is no draw.
pub open spec fn bet_safe_rule(
    team_names: Seq<Seq<char>>,
    kofs: Seq<Seq<char>>,
    locked: Seq<bool>,
) -> Result<Option<RowView>, RowError> {
    if locked.len() < 2 {
        Err(RowError::MissingColumn)
    } else if locked[1] {
        Ok(None)
    } else if locked.len() < 3 {
        Err(RowError::MissingColumn)
    } else if locked[2] {
        Ok(None)
    } else if kofs.len() < 2 {
        Ok(None)
    } else {
        match sides_of(team_names) {
            Err(e) => Err(e),
            Ok(sides) => Ok(
                Some(
                    RowView {
                        team1: sides.0,
                        team2: sides.1,
                        kof1: kofs[0],
                        kof_draw: None,
                        kof2: kofs[1],
                    },
                ),
            ),
        }
    }
}

/// A row of the third layout. The prices for the first side, the draw and
/// the second side are the texts 1, 2 and 3; text 0 is no price. The row is
/// skipped when one of the three is missing or empty.
pub open spec fn oly_bet_rule(team_names: Seq<Seq<char>>, kofs: Seq<Seq<char>>) -> Result<
    Option<RowView>,
    RowError,
> {
    if kofs.len() < 4 || kofs[1].len() == 0 || kofs[2].len() == 0 || kofs[3].len() == 0 {
        Ok(None)
    } else {
        match sides_of(team_names) {
            Err(e) => Err(e),
            Ok(sides) => Ok(
                Some(
                    RowView {
                        team1: sides.0,
                        team2: sides.1,
                        kof1: kofs[1],
                        kof_draw: Some(kofs[2]),
                        kof2: kofs[3],
                    },
                ),
            ),
        }
    }
}

/// Picks the names of the two sides.
fn sides(team_names: &Vec<String>) -> (picked: Result<(String, String), RowError>)
    ensures
        match picked {
            Ok(names) => sides_of(team_names.deep_view()) == Ok::<
                (Seq<char>, Seq<char>),
                RowError,
            >((names.0@, names.1@)),
            Err(e) => sides_of(team_names.deep_view()) == Err::<(Seq<char>, Seq<char>), RowError>(
                e,
            ),
        },
{
    if team_names.len() < 1 {
        return Err(RowError::MissingTeam1);
    }
    if team_names.len() < 2 {
        return Err(RowError::MissingTeam2);
    }
    assert(team_names.deep_view()[0] == team_names[0]@);
    assert(team_names.deep_view()[1] == team_names[1]@);
    Ok((team_names[0].clone(), team_names[1].clone()))
}

/// Reads a row of the first layout.
pub fn top_sport_row(team_names: &Vec<String>, kofs: &Vec<String>) -> (row: Result<
    RowTexts,
    RowError,
>)
    ensures
        match row {
            Ok(texts) => top_sport_rule(team_names.deep_view(), kofs.deep_view()) == Ok::<
                RowView,
                RowError,
            >(texts@),
            Err(e) => top_sport_rule(team_names.deep_view(), kofs.deep_view()) == Err::<
                RowView,
                RowError,
            >(e),
        },
{
    let (team1, team2) = match sides(team_names) {
        Ok(names) => names,
        Err(e) => {
            return Err(e);
        },
    };
    if kofs.len() < 1 {
        return Err(RowError::MissingCoefficient1);
    }
    if kofs.len() < 2 {
        return Err(RowError::MissingCoefficient2);
    }
    assert(kofs.deep_view()[0] == kofs[0]@);
    assert(kofs.deep_view()[1] == kofs[1]@);
    Ok(RowTexts { team1, team2, kof1: kofs[0].clone(), kof_draw: None, kof2: kofs[1].clone() })
}

/// Reads a row of the second layout. `locked` tells of each column of the
/// row whether it is locked.
pub fn bet_safe_row(team_names: &Vec<String>, kofs: &Vec<String>, locked: &Vec<bool>) -> (row:
    Result<Option<RowTexts>, RowError>)
    ensures
        match row {
            Ok(texts) => bet_safe_rule(team_names.deep_view(), kofs.deep_view(), locked@) == Ok::<
                Option<RowView>,
                RowError,
            >(texts.deep_view()),
            Err(e) => bet_safe_rule(team_names.deep_view(), kofs.deep_view(), locked@) == Err::<
                Option<RowView>,
                RowError,
            >(e),
        },
{
    if locked.len() < 2 {
        return Err(RowError::MissingColumn);
    }
    if locked[1] {
        return Ok(None);
    }
    if locked.len() < 3 {
        return Err(RowError::MissingColumn);
    }
    if locked[2] {
        return Ok(None);
    }
    if kofs.len() < 2 {
        return Ok(None);
    }
    let (team1, team2) = match sides(team_names) {
        Ok(names) => names,
        Err(e) => {
            return Err(e);
        },
    };
    assert(kofs.deep_view()[0] == kofs[0]@);
    assert(kofs.deep_view()[1] == kofs[1]@);
    Ok(Some(RowTexts { team1, team2, kof1: kofs[0].clone(), kof_draw: None, kof2: kofs[1].clone() }))
}

/// Reads a row of the third layout.
pub fn oly_bet_row(team_names: &Vec<String>, kofs: &Vec<String>) -> (row: Result<
    Option<RowTexts>,
    RowError,
>)
    ensures
        match row {
            Ok(texts) => oly_bet_rule(team_names.deep_view(), kofs.deep_view()) == Ok::<
                Option<RowView>,
                RowError,
            >(texts.deep_view()),
            Err(e) => oly_bet_rule(team_names.deep_view(), kofs.deep_view()) == Err::<
                Option<RowView>,
                RowError,
            >(e),
        },
{
    if kofs.len() < 4 {
        return Ok(None);
    }
    assert(kofs.deep_view()[1] == kofs[1]@);
    assert(kofs.deep_view()[2] == kofs[2]@);
    assert(kofs.deep_view()[3] == kofs[3]@);
    if kofs[1].as_str().is_empty() || kofs[2].as_str().is_empty() || kofs[3].as_str().is_empty() {
        return Ok(None);
    }
    let (team1, team2) = match sides(team_names) {
        Ok(names) => names,
        Err(e) => {
            return Err(e);
        },
    };
    Ok(
        Some(
            RowTexts {
                team1,
                team2,
                kof1: kofs[1].clone(),
                kof_draw: Some(kofs[2].clone()),
                kof2: kofs[3].clone(),
            },
        ),
    )
}

} // verus!
