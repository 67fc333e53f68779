use match_scheduler::engine::CSPMatches;
use match_scheduler::engine::GROUP_COUNT;
use match_scheduler::entity::Match;
use match_scheduler::entity::Team;
use match_scheduler::entity::constraint_different_country;
use match_scheduler::export::export_rows;

fn team(name: &str, country: &str, group: u8) -> Team {
    Team::new(name.to_string(), country.to_string(), group)
}

fn name_pairs(matches: &[Match]) -> Vec<(String, String)> {
    matches
        .iter()
        .map(|m| (m.home_team.name.clone(), m.away_team.name.clone()))
        .collect()
}

#[test]
fn different_country_rule() {
    let a = team("A", "X", 1);
    let b = team("B", "X", 2);
    let c = team("C", "Y", 1);
    assert!(!constraint_different_country(&a, &b));
    assert!(constraint_different_country(&a, &c));
    assert!(constraint_different_country(&c, &a));
}

#[test]
fn satisfies_constraints_matches_rule() {
    let csp = CSPMatches::new(vec![team("A", "X", 1), team("B", "X", 2), team("C", "Y", 1)]);
    assert!(!csp.satisfies_constraints(&csp.teams[0], &csp.teams[1]));
    assert!(csp.satisfies_constraints(&csp.teams[0], &csp.teams[2]));
}

#[test]
fn initial_domains_exclude_self() {
    let teams = vec![team("A", "X", 1), team("B", "Y", 2), team("C", "Z", 3)];
    let domains = CSPMatches::initialize_domains(&teams);
    assert_eq!(domains.len(), 3);
    for (i, row) in domains.iter().enumerate() {
        assert_eq!(row.len(), 3);
        for (j, &flag) in row.iter().enumerate() {
            assert_eq!(flag, i != j);
        }
    }
}

#[test]
fn initial_group_requirements_zeroed() {
    let teams = vec![team("A", "X", 1), team("B", "Y", 2)];
    let reqs = CSPMatches::initialize_group_requirements(&teams, GROUP_COUNT);
    assert_eq!(reqs.len(), 2);
    for row in &reqs {
        assert_eq!(row.len(), GROUP_COUNT as usize);
        for cell in row {
            assert_eq!(*cell, (0, 0));
        }
    }
}

#[test]
fn candidates_listed_in_roster_order() {
    let csp = CSPMatches::new(vec![team("A", "X", 1), team("B", "Y", 1), team("C", "Z", 1)]);
    assert_eq!(csp.candidates_of(0), vec![1, 2]);
    assert_eq!(csp.candidates_of(1), vec![0, 2]);
    assert_eq!(csp.candidates_of(2), vec![0, 1]);
}

#[test]
fn remove_mutual_is_permanent_and_idempotent() {
    let mut csp = CSPMatches::new(vec![team("A", "X", 1), team("B", "Y", 1), team("C", "Z", 1)]);
    csp.remove_mutual(0, 1);
    assert_eq!(csp.candidates_of(0), vec![2]);
    assert_eq!(csp.candidates_of(1), vec![2]);
    assert_eq!(csp.candidates_of(2), vec![0, 1]);
    // removing an absent candidate is a no-op, not an error
    csp.remove_mutual(0, 1);
    assert_eq!(csp.candidates_of(0), vec![2]);
    assert_eq!(csp.candidates_of(1), vec![2]);
}

#[test]
fn update_group_tracking_records_both_sides() {
    let mut csp = CSPMatches::new(vec![team("A", "X", 1), team("B", "Y", 3)]);
    csp.update_group_tracking(0, 1);
    // A gains a home fixture against group 3
    assert_eq!(csp.group_requirements[0][2], (1, 0));
    // B gains an away fixture against group 1
    assert_eq!(csp.group_requirements[1][0], (0, 1));
    // every other cell is untouched
    assert_eq!(csp.group_requirements[0][0], (0, 0));
    assert_eq!(csp.group_requirements[1][2], (0, 0));
}

#[test]
fn empty_roster_yields_empty_fixture_list() {
    let mut csp = CSPMatches::new(Vec::new());
    csp.schedule_matches();
    assert!(csp.scheduled_matches.is_empty());
    assert!(csp.completed);
}

#[test]
fn single_competitor_yields_empty_fixture_list() {
    let mut csp = CSPMatches::new(vec![team("A", "X", 1)]);
    csp.schedule_matches();
    assert!(csp.scheduled_matches.is_empty());
    assert!(csp.completed);
}

#[test]
fn same_country_competitors_never_paired() {
    let mut csp = CSPMatches::new(vec![
        team("A", "X", 1),
        team("B", "X", 1),
        team("C", "Y", 1),
    ]);
    csp.schedule_matches();
    let pairs = name_pairs(&csp.scheduled_matches);
    assert!(!pairs.is_empty());
    for (home, away) in &pairs {
        assert!(!(home == "A" && away == "B"));
        assert!(!(home == "B" && away == "A"));
        assert_ne!(home, away);
    }
    // greedy first-fit in roster order: A picks C, then B picks C
    let expected: Vec<(String, String)> = vec![
        ("A".to_string(), "C".to_string()),
        ("C".to_string(), "A".to_string()),
        ("B".to_string(), "C".to_string()),
        ("C".to_string(), "B".to_string()),
    ];
    assert_eq!(pairs, expected);
}

#[test]
fn fixtures_come_in_two_leg_pairs() {
    let mut csp = CSPMatches::new(vec![
        team("A", "W", 1),
        team("B", "X", 2),
        team("C", "Y", 3),
        team("D", "Z", 4),
    ]);
    csp.schedule_matches();
    let pairs = name_pairs(&csp.scheduled_matches);
    assert_eq!(pairs.len() % 2, 0);
    for k in (0..pairs.len()).step_by(2) {
        assert_eq!(pairs[k].0, pairs[k + 1].1);
        assert_eq!(pairs[k].1, pairs[k + 1].0);
    }
}

#[test]
fn balance_counters_match_fixture_list() {
    let mut csp = CSPMatches::new(vec![
        team("A", "X", 1),
        team("B", "Y", 2),
        team("C", "Z", 1),
    ]);
    csp.schedule_matches();
    // pass: A picks B, B picks C, C picks A
    let pairs = name_pairs(&csp.scheduled_matches);
    let expected: Vec<(String, String)> = vec![
        ("A".to_string(), "B".to_string()),
        ("B".to_string(), "A".to_string()),
        ("B".to_string(), "C".to_string()),
        ("C".to_string(), "B".to_string()),
        ("C".to_string(), "A".to_string()),
        ("A".to_string(), "C".to_string()),
    ];
    assert_eq!(pairs, expected);
    // A against group 2 (B): one home, one away
    assert_eq!(csp.group_requirements[0][1], (1, 1));
    // A against group 1 (C): one home, one away
    assert_eq!(csp.group_requirements[0][0], (1, 1));
    // B against group 1 (A and C): two home, two away
    assert_eq!(csp.group_requirements[1][0], (2, 2));
    // C against group 1 (A): one home, one away
    assert_eq!(csp.group_requirements[2][0], (1, 1));
    // C against group 2 (B): one home, one away
    assert_eq!(csp.group_requirements[2][1], (1, 1));
    // untouched groups stay zeroed
    assert_eq!(csp.group_requirements[0][2], (0, 0));
    assert_eq!(csp.group_requirements[1][3], (0, 0));
    // every competitor and group: home + away equals the fixtures involving
    // that competitor against that group
    for (i, t) in csp.teams.iter().enumerate() {
        for g in 1..=GROUP_COUNT {
            let (home, away) = csp.group_requirements[i][(g - 1) as usize];
            let involved = csp
                .scheduled_matches
                .iter()
                .filter(|m| {
                    (m.home_team.name == t.name && m.away_team.group == g)
                        || (m.away_team.name == t.name && m.home_team.group == g)
                })
                .count() as u64;
            assert_eq!(home + away, involved);
        }
    }
}

#[test]
fn domains_shrink_after_run() {
    let mut csp = CSPMatches::new(vec![team("A", "X", 1), team("B", "Y", 2)]);
    csp.schedule_matches();
    // A and B paired, so each left the other's domain for good
    assert!(csp.candidates_of(0).is_empty());
    assert!(csp.candidates_of(1).is_empty());
}

#[test]
fn export_sorts_rows_by_home_name() {
    let rows = export_rows(&vec![
        Match::new(team("C", "Y", 1), team("A", "X", 1)),
        Match::new(team("A", "X", 1), team("C", "Y", 1)),
        Match::new(team("B", "Z", 2), team("A", "X", 1)),
    ]);
    let expected: Vec<(String, String)> = vec![
        ("A".to_string(), "C".to_string()),
        ("B".to_string(), "A".to_string()),
        ("C".to_string(), "A".to_string()),
    ];
    assert_eq!(rows, expected);
}

#[test]
fn export_keeps_commit_order_on_equal_home_names() {
    let rows = export_rows(&vec![
        Match::new(team("B", "Y", 1), team("A", "X", 1)),
        Match::new(team("A", "X", 1), team("C", "Z", 1)),
        Match::new(team("A", "X", 1), team("B", "Y", 1)),
    ]);
    let expected: Vec<(String, String)> = vec![
        ("A".to_string(), "C".to_string()),
        ("A".to_string(), "B".to_string()),
        ("B".to_string(), "A".to_string()),
    ];
    assert_eq!(rows, expected);
}

#[test]
fn export_twice_yields_identical_rows() {
    let mut csp = CSPMatches::new(vec![
        team("B", "X", 1),
        team("A", "Y", 2),
        team("C", "Z", 1),
    ]);
    csp.schedule_matches();
    let first = export_rows(&csp.scheduled_matches);
    let second = export_rows(&csp.scheduled_matches);
    assert_eq!(first, second);
}

#[test]
fn empty_name_orders_before_others() {
    let rows = export_rows(&vec![
        Match::new(team("B", "Y", 1), team("A", "X", 1)),
        Match::new(team("", "X", 1), team("B", "Y", 1)),
    ]);
    let expected: Vec<(String, String)> = vec![
        ("".to_string(), "B".to_string()),
        ("B".to_string(), "A".to_string()),
    ];
    assert_eq!(rows, expected);
}
