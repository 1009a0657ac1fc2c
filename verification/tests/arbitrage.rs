use bet_arbitrage::arbitrage::{
    evaluate_group, find_arbitrages, profit_is_guaranteed, split_groups, EvaluationError,
    PossibleArbitrage,
};
use bet_arbitrage::models::SportEvent;

fn quote3(kof1: u32, kof_draw: Option<u32>, kof2: u32, provider: &str) -> SportEvent {
    SportEvent {
        team1: "Lakers".to_string(),
        team2: "Celtics".to_string(),
        kof1,
        kof2,
        kof_draw,
        provider: provider.to_string(),
    }
}

fn named(team1: &str, team2: &str, kof1: u32, kof2: u32, provider: &str) -> SportEvent {
    SportEvent {
        team1: team1.to_string(),
        team2: team2.to_string(),
        kof1,
        kof2,
        kof_draw: None,
        provider: provider.to_string(),
    }
}

fn bare(kof1: u32, kof_draw: Option<u32>, kof2: u32) -> PossibleArbitrage {
    PossibleArbitrage {
        team1: "Lakers".to_string(),
        team2: "Celtics".to_string(),
        kof1,
        kof_draw,
        kof2,
        kof1_provider: "a".to_string(),
        kof_draw_provider: "b".to_string(),
        kof2_provider: "c".to_string(),
        is_arbitrage: false,
        providers_offering_bets: vec!["a".to_string(), "b".to_string(), "c".to_string()],
    }
}

#[test]
fn margin_means_no_arbitrage() {
    assert!(!profit_is_guaranteed(2100, Some(3500), 4000));
    let mut found = bare(2100, Some(3500), 4000);
    found.mark_is_arbitrage();
    assert!(!found.is_arbitrage);
}

#[test]
fn reciprocals_below_one_mean_arbitrage() {
    assert!(profit_is_guaranteed(2200, Some(4000), 4500));
    let mut found = bare(2200, Some(4000), 4500);
    found.mark_is_arbitrage();
    assert!(found.is_arbitrage);
    let mut expected = bare(2200, Some(4000), 4500);
    expected.is_arbitrage = true;
    assert_eq!(found, expected);
}

#[test]
fn break_even_is_no_arbitrage() {
    assert!(!profit_is_guaranteed(3000, Some(3000), 3000));
    assert!(profit_is_guaranteed(3000, Some(3000), 3001));
    assert!(!profit_is_guaranteed(2000, Some(4000), 4000));
    assert!(!profit_is_guaranteed(2000, None, 2000));
    assert!(profit_is_guaranteed(2000, None, 2001));
    assert!(!profit_is_guaranteed(2000, None, 1999));
}

#[test]
fn mark_resets_a_stale_verdict() {
    let mut found = bare(2100, Some(3500), 4000);
    found.is_arbitrage = true;
    found.mark_is_arbitrage();
    assert_eq!(found, bare(2100, Some(3500), 4000));
}

#[test]
fn zero_odds_never_guarantee_profit() {
    assert!(!profit_is_guaranteed(0, Some(4000), 4500));
    assert!(!profit_is_guaranteed(2200, Some(0), 4500));
    assert!(!profit_is_guaranteed(2200, Some(4000), 0));
    assert!(!profit_is_guaranteed(0, None, 0));
}

#[test]
fn largest_odds_do_not_overflow() {
    assert!(profit_is_guaranteed(u32::MAX, Some(u32::MAX), u32::MAX));
    assert!(profit_is_guaranteed(u32::MAX, None, u32::MAX));
    assert!(!profit_is_guaranteed(1000, Some(u32::MAX), u32::MAX));
}

#[test]
fn best_odds_are_the_maximum_with_their_provider() {
    let group = vec![
        quote3(2000, Some(3400), 3900, "topSport"),
        quote3(2100, Some(3500), 3800, "betSafe"),
        quote3(1950, Some(3300), 4000, "olyBet"),
    ];
    let found = evaluate_group(&group).unwrap();
    assert_eq!(
        found,
        PossibleArbitrage {
            team1: "Lakers".to_string(),
            team2: "Celtics".to_string(),
            kof1: 2100,
            kof_draw: Some(3500),
            kof2: 4000,
            kof1_provider: "betSafe".to_string(),
            kof_draw_provider: "betSafe".to_string(),
            kof2_provider: "olyBet".to_string(),
            is_arbitrage: false,
            providers_offering_bets: vec![
                "topSport".to_string(),
                "betSafe".to_string(),
                "olyBet".to_string(),
            ],
        }
    );
}

#[test]
fn evaluation_finds_arbitrage_across_providers() {
    let group = vec![
        quote3(2200, Some(3000), 3000, "topSport"),
        quote3(1500, Some(4000), 3100, "betSafe"),
        quote3(1400, Some(2900), 4500, "olyBet"),
    ];
    let found = evaluate_group(&group).unwrap();
    assert_eq!(found.kof1, 2200);
    assert_eq!(found.kof_draw, Some(4000));
    assert_eq!(found.kof2, 4500);
    assert_eq!(found.kof1_provider, "topSport");
    assert_eq!(found.kof_draw_provider, "betSafe");
    assert_eq!(found.kof2_provider, "olyBet");
    assert!(found.is_arbitrage);
}

#[test]
fn ties_keep_the_earlier_provider() {
    let group = vec![
        quote3(2100, Some(3500), 4000, "topSport"),
        quote3(2100, Some(3500), 4000, "betSafe"),
    ];
    let found = evaluate_group(&group).unwrap();
    assert_eq!(found.kof1_provider, "topSport");
    assert_eq!(found.kof_draw_provider, "topSport");
    assert_eq!(found.kof2_provider, "topSport");
    assert_eq!(found.providers_offering_bets, vec!["topSport".to_string(), "betSafe".to_string()]);
}

#[test]
fn names_come_from_the_first_record() {
    let group = vec![
        named("lakers", "celtics", 2000, 1900, "betSafe"),
        named("LAKERS", "CELTICS", 2100, 1800, "olyBet"),
    ];
    let found = evaluate_group(&group).unwrap();
    assert_eq!(found.team1, "lakers");
    assert_eq!(found.team2, "celtics");
}

#[test]
fn market_without_draw_uses_two_outcomes() {
    let group = vec![quote3(2100, None, 1800, "topSport"), quote3(1900, None, 2050, "betSafe")];
    let found = evaluate_group(&group).unwrap();
    assert_eq!(found.kof1, 2100);
    assert_eq!(found.kof2, 2050);
    assert_eq!(found.kof_draw, None);
    assert_eq!(found.kof_draw_provider, "topSport");
    assert!(found.is_arbitrage);
}

#[test]
fn any_draw_price_outranks_none() {
    let group = vec![quote3(2100, None, 1800, "topSport"), quote3(1900, Some(3500), 2050, "olyBet")];
    let found = evaluate_group(&group).unwrap();
    assert_eq!(found.kof_draw, Some(3500));
    assert_eq!(found.kof_draw_provider, "olyBet");
    assert!(!found.is_arbitrage);
}

#[test]
fn single_record_group_can_be_evaluated() {
    let group = vec![quote3(2100, Some(3500), 4000, "topSport")];
    let found = evaluate_group(&group).unwrap();
    assert_eq!(found.kof1, 2100);
    assert_eq!(found.providers_offering_bets, vec!["topSport".to_string()]);
    assert!(!found.is_arbitrage);
}

#[test]
fn empty_group_is_refused() {
    assert_eq!(evaluate_group(&vec![]), Err(EvaluationError::EmptyGroup));
}

#[test]
fn zero_best_odds_make_the_market_incomplete() {
    let group = vec![quote3(0, Some(3500), 4000, "topSport"), quote3(0, Some(3400), 4100, "betSafe")];
    assert_eq!(evaluate_group(&group), Err(EvaluationError::IncompleteMarket));
    let group = vec![quote3(2000, Some(0), 4000, "topSport"), quote3(2100, None, 4100, "betSafe")];
    assert_eq!(evaluate_group(&group), Err(EvaluationError::IncompleteMarket));
    let group = vec![quote3(2000, Some(3500), 0, "topSport")];
    assert_eq!(evaluate_group(&group), Err(EvaluationError::IncompleteMarket));
    let group = vec![quote3(0, Some(3500), 4000, "topSport"), quote3(2000, Some(3400), 4100, "betSafe")];
    assert!(evaluate_group(&group).is_ok());
}

#[test]
fn evaluation_is_repeatable() {
    let group = vec![
        quote3(2000, Some(3400), 3900, "topSport"),
        quote3(2100, Some(3500), 3800, "betSafe"),
    ];
    let once = evaluate_group(&group);
    let again = evaluate_group(&group);
    assert_eq!(once, again);
    assert!(once.is_ok());
}

#[test]
fn split_sends_singletons_and_incomplete_groups_to_leftovers() {
    let groups = vec![
        vec![named("Knicks", "Nets", 1800, 2000, "betSafe")],
        vec![named("Lakers", "Celtics", 2100, 1800, "topSport"), named("Lakers", "Celtics", 1900, 2050, "betSafe")],
        vec![],
        vec![named("Bulls", "Heat", 0, 1800, "topSport"), named("Bulls", "Heat", 0, 2050, "betSafe")],
    ];
    let (arbitrages, leftovers) = split_groups(groups);
    assert_eq!(arbitrages.len(), 1);
    assert_eq!(arbitrages[0].team1, "Lakers");
    assert!(arbitrages[0].is_arbitrage);
    assert_eq!(
        leftovers,
        vec![
            named("Knicks", "Nets", 1800, 2000, "betSafe"),
            named("Bulls", "Heat", 0, 1800, "topSport"),
            named("Bulls", "Heat", 0, 2050, "betSafe"),
        ]
    );
}

#[test]
fn find_arbitrages_on_nothing() {
    let (arbitrages, leftovers) = find_arbitrages(vec![]);
    assert!(arbitrages.is_empty());
    assert!(leftovers.is_empty());
}

#[test]
fn unmatched_fixture_passes_through_unchanged() {
    let (arbitrages, leftovers) = find_arbitrages(vec![
        vec![named("Lakers", "Celtics", 2000, 1900, "topSport")],
        vec![named("Bulls", "Heat", 1500, 2600, "betSafe")],
    ]);
    assert!(arbitrages.is_empty());
    assert_eq!(
        leftovers,
        vec![
            named("Bulls", "Heat", 1500, 2600, "betSafe"),
            named("Lakers", "Celtics", 2000, 1900, "topSport"),
        ]
    );
}

#[test]
fn find_arbitrages_end_to_end() {
    let (arbitrages, leftovers) = find_arbitrages(vec![
        vec![
            named("Lakers", "Celtics", 2000, 1900, "topSport"),
            named("Bulls", "Heat", 1500, 2600, "topSport"),
        ],
        vec![
            named("celtics", "lakers", 1950, 2050, "betSafe"),
            named("Knicks", "Nets", 1800, 2000, "betSafe"),
        ],
        vec![named("LAKERS", "CELTICS", 2100, 1800, "olyBet")],
    ]);
    assert_eq!(
        arbitrages,
        vec![PossibleArbitrage {
            team1: "Lakers".to_string(),
            team2: "Celtics".to_string(),
            kof1: 2100,
            kof_draw: None,
            kof2: 1950,
            kof1_provider: "olyBet".to_string(),
            kof_draw_provider: "topSport".to_string(),
            kof2_provider: "betSafe".to_string(),
            is_arbitrage: true,
            providers_offering_bets: vec![
                "topSport".to_string(),
                "betSafe".to_string(),
                "olyBet".to_string(),
            ],
        }]
    );
    assert_eq!(
        leftovers,
        vec![
            named("Knicks", "Nets", 1800, 2000, "betSafe"),
            named("Bulls", "Heat", 1500, 2600, "topSport"),
        ]
    );
}

#[test]
fn proportional_stakes_pay_the_same_on_every_outcome() {
    let (k1, kd, k2): (u128, u128, u128) = (2200, 4000, 4500);
    let (s1, sd, s2) = (kd * k2, k1 * k2, k1 * kd);
    assert_eq!(s1 * k1, sd * kd);
    assert_eq!(sd * kd, s2 * k2);
    assert_eq!(s1 * k1, 39_600_000_000);
    assert_eq!(1000 * (s1 + sd + s2), 36_700_000_000);
    assert!(profit_is_guaranteed(2200, Some(4000), 4500));
    let (k1, kd, k2): (u128, u128, u128) = (2100, 3500, 4000);
    assert_eq!(kd * k2 * k1, 29_400_000_000);
    assert_eq!(1000 * (kd * k2 + k1 * k2 + k1 * kd), 29_750_000_000);
    assert!(!profit_is_guaranteed(2100, Some(3500), 4000));
}

#[test]
fn every_record_is_listed_or_left_over() {
    let input = vec![
        vec![
            named("Lakers", "Celtics", 2000, 1900, "topSport"),
            named("Bulls", "Heat", 1500, 2600, "topSport"),
            named("Suns", "Jazz", 0, 2600, "topSport"),
        ],
        vec![
            named("celtics", "lakers", 1950, 2050, "betSafe"),
            named("jazz", "suns", 2500, 0, "betSafe"),
        ],
        vec![named("LAKERS", "CELTICS", 2100, 1800, "olyBet")],
    ];
    let records: usize = input.iter().map(|list| list.len()).sum();
    let (arbitrages, leftovers) = find_arbitrages(input);
    let listed: usize = arbitrages.iter().map(|a| a.providers_offering_bets.len()).sum();
    assert_eq!(listed + leftovers.len(), records);
    assert_eq!(arbitrages.len(), 1);
    assert_eq!(
        leftovers,
        vec![
            named("Jazz", "Suns", 2600, 0, "topSport"),
            named("jazz", "suns", 2500, 0, "betSafe"),
            named("Bulls", "Heat", 1500, 2600, "topSport"),
        ]
    );
    for found in &arbitrages {
        let mut names = found.providers_offering_bets.clone();
        names.sort();
        names.dedup();
        assert_eq!(names.len(), found.providers_offering_bets.len());
    }
}
