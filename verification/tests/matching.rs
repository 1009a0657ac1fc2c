use bet_arbitrage::matching::{collect_group, compare_events, group_events, take_match};
use bet_arbitrage::models::SportEvent;

fn quote(team1: &str, team2: &str, kof1: u32, kof2: u32, provider: &str) -> SportEvent {
    SportEvent {
        team1: team1.to_string(),
        team2: team2.to_string(),
        kof1,
        kof2,
        kof_draw: None,
        provider: provider.to_string(),
    }
}

fn total(lists: &Vec<Vec<SportEvent>>) -> usize {
    let mut n = 0;
    for list in lists {
        n += list.len();
    }
    n
}

#[test]
fn compare_same_orientation() {
    let a = quote("Lakers", "Celtics", 2000, 1900, "topSport");
    let b = quote("Lakers", "Celtics", 2100, 1800, "olyBet");
    assert_eq!(compare_events(&a, &b), (true, true));
}

#[test]
fn compare_ignores_letter_case() {
    let a = quote("lakers", "celtics", 2000, 1900, "topSport");
    let b = quote("Lakers", "CELTICS", 2100, 1800, "olyBet");
    assert_eq!(compare_events(&a, &b), (true, true));
}

#[test]
fn compare_lowercases_beyond_ascii() {
    let a = quote("ŽALGIRIS", "Rytas", 1500, 2500, "topSport");
    let b = quote("žalgiris", "rytas", 1550, 2400, "betSafe");
    assert_eq!(compare_events(&a, &b), (true, true));
}

#[test]
fn compare_swapped_orientation() {
    let a = quote("Lakers", "Celtics", 2000, 1900, "topSport");
    let b = quote("Celtics", "Lakers", 1900, 2000, "betSafe");
    assert_eq!(compare_events(&a, &b), (true, false));
}

#[test]
fn compare_equal_names_counts_as_same_orientation() {
    let a = quote("Derby", "derby", 2000, 1900, "topSport");
    let b = quote("DERBY", "Derby", 1900, 2000, "betSafe");
    assert_eq!(compare_events(&a, &b), (true, true));
}

#[test]
fn compare_other_fixture() {
    let a = quote("Lakers", "Celtics", 2000, 1900, "topSport");
    let b = quote("Lakers", "Heat", 1900, 2000, "betSafe");
    assert_eq!(compare_events(&a, &b), (false, false));
    let c = quote("Bulls", "Celtics", 1900, 2000, "betSafe");
    assert_eq!(compare_events(&a, &c), (false, false));
}

#[test]
fn compare_is_exact_after_case_folding() {
    let a = quote("Lakers", "Celtics", 2000, 1900, "topSport");
    let b = quote("Lakers ", "Celtics", 1900, 2000, "betSafe");
    assert_eq!(compare_events(&a, &b), (false, false));
}

#[test]
fn take_match_removes_first_candidate_only() {
    let base = quote("Lakers", "Celtics", 2000, 1900, "olyBet");
    let mut pool = vec![
        quote("Bulls", "Heat", 1500, 2600, "topSport"),
        quote("Celtics", "Lakers", 1910, 2010, "topSport"),
        quote("Lakers", "Celtics", 2020, 1920, "topSport"),
    ];
    let found = take_match(&base, &mut pool);
    assert_eq!(found, Some(quote("Lakers", "Celtics", 2010, 1910, "topSport")));
    assert_eq!(
        pool,
        vec![
            quote("Bulls", "Heat", 1500, 2600, "topSport"),
            quote("Lakers", "Celtics", 2020, 1920, "topSport"),
        ]
    );
}

#[test]
fn take_match_leaves_pool_without_match() {
    let base = quote("Lakers", "Celtics", 2000, 1900, "olyBet");
    let mut pool = vec![quote("Bulls", "Heat", 1500, 2600, "topSport")];
    assert_eq!(take_match(&base, &mut pool), None);
    assert_eq!(pool, vec![quote("Bulls", "Heat", 1500, 2600, "topSport")]);
    let mut empty: Vec<SportEvent> = vec![];
    assert_eq!(take_match(&base, &mut empty), None);
}

#[test]
fn collect_group_puts_base_last() {
    let mut pools = vec![
        vec![quote("Lakers", "Celtics", 2000, 1900, "topSport")],
        vec![quote("Bulls", "Heat", 1500, 2600, "betSafe")],
        vec![quote("celtics", "lakers", 1950, 2050, "other")],
    ];
    let group = collect_group(quote("LAKERS", "CELTICS", 2100, 1800, "olyBet"), &mut pools);
    assert_eq!(
        group,
        vec![
            quote("Lakers", "Celtics", 2000, 1900, "topSport"),
            quote("lakers", "celtics", 2050, 1950, "other"),
            quote("LAKERS", "CELTICS", 2100, 1800, "olyBet"),
        ]
    );
    assert_eq!(
        pools,
        vec![vec![], vec![quote("Bulls", "Heat", 1500, 2600, "betSafe")], vec![]]
    );
}

#[test]
fn group_events_empty_input() {
    assert_eq!(group_events(vec![]), Vec::<Vec<SportEvent>>::new());
    assert_eq!(group_events(vec![vec![], vec![]]), Vec::<Vec<SportEvent>>::new());
}

#[test]
fn group_events_reorients_the_matched_record() {
    let groups = group_events(vec![
        vec![quote("Celtics", "Lakers", 1900, 2000, "betSafe")],
        vec![quote("Lakers", "Celtics", 2000, 1900, "topSport")],
    ]);
    assert_eq!(
        groups,
        vec![vec![
            quote("Lakers", "Celtics", 2000, 1900, "betSafe"),
            quote("Lakers", "Celtics", 2000, 1900, "topSport"),
        ]]
    );
}

#[test]
fn group_events_three_providers() {
    let input = vec![
        vec![
            quote("Lakers", "Celtics", 2000, 1900, "topSport"),
            quote("Bulls", "Heat", 1500, 2600, "topSport"),
        ],
        vec![
            quote("celtics", "lakers", 1950, 2050, "betSafe"),
            quote("Knicks", "Nets", 1800, 2000, "betSafe"),
        ],
        vec![quote("LAKERS", "CELTICS", 2100, 1800, "olyBet")],
    ];
    let records = total(&input);
    let groups = group_events(input);
    assert_eq!(total(&groups), records);
    assert_eq!(
        groups,
        vec![
            vec![
                quote("Lakers", "Celtics", 2000, 1900, "topSport"),
                quote("lakers", "celtics", 2050, 1950, "betSafe"),
                quote("LAKERS", "CELTICS", 2100, 1800, "olyBet"),
            ],
            vec![quote("Knicks", "Nets", 1800, 2000, "betSafe")],
            vec![quote("Bulls", "Heat", 1500, 2600, "topSport")],
        ]
    );
}

#[test]
fn group_events_takes_base_records_from_the_back() {
    let groups = group_events(vec![vec![
        quote("A", "B", 2000, 1900, "topSport"),
        quote("C", "D", 2000, 1900, "topSport"),
        quote("E", "F", 2000, 1900, "topSport"),
    ]]);
    assert_eq!(
        groups,
        vec![
            vec![quote("E", "F", 2000, 1900, "topSport")],
            vec![quote("C", "D", 2000, 1900, "topSport")],
            vec![quote("A", "B", 2000, 1900, "topSport")],
        ]
    );
}

#[test]
fn group_events_duplicates_are_distinct_candidates() {
    let input = vec![
        vec![
            quote("Lakers", "Celtics", 2000, 1900, "topSport"),
            quote("Lakers", "Celtics", 2010, 1910, "topSport"),
        ],
        vec![
            quote("Lakers", "Celtics", 2100, 1800, "olyBet"),
            quote("Lakers", "Celtics", 2110, 1810, "olyBet"),
        ],
    ];
    let groups = group_events(input);
    assert_eq!(
        groups,
        vec![
            vec![
                quote("Lakers", "Celtics", 2000, 1900, "topSport"),
                quote("Lakers", "Celtics", 2110, 1810, "olyBet"),
            ],
            vec![
                quote("Lakers", "Celtics", 2010, 1910, "topSport"),
                quote("Lakers", "Celtics", 2100, 1800, "olyBet"),
            ],
        ]
    );
}

#[test]
fn group_events_never_mixes_fixtures() {
    let input = vec![
        vec![
            quote("Lakers", "Celtics", 2000, 1900, "topSport"),
            quote("Lakers", "Heat", 1500, 2600, "topSport"),
        ],
        vec![
            quote("Heat", "Celtics", 1950, 2050, "betSafe"),
            quote("heat", "lakers", 2500, 1550, "betSafe"),
        ],
    ];
    let records = total(&input);
    let groups = group_events(input);
    assert_eq!(total(&groups), records);
    for group in &groups {
        assert!(group.len() >= 1 && group.len() <= 2);
        let base = &group[group.len() - 1];
        for member in group {
            assert_eq!(compare_events(base, member), (true, true));
        }
    }
    assert_eq!(groups.len(), 3);
}

#[test]
fn group_events_single_provider_yields_singletons() {
    let groups = group_events(vec![vec![quote("Lakers", "Celtics", 2000, 1900, "topSport")]]);
    assert_eq!(groups, vec![vec![quote("Lakers", "Celtics", 2000, 1900, "topSport")]]);
}
