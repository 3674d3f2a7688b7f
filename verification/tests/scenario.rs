use splaunch::scenario::{
    check_format, commander_index, warnings, escape, goal_fields, install_problems, key, problems, unit_list, FieldValue,
    Goal, Objective, Placement, ScenarioFacts, Team, DEFAULT_DIFFICULTY, DEFAULT_MAP_ELMOS,
};

fn team(id: u32, ally: u32, ai: Option<&str>) -> Team {
    Team { id, ally, ai: ai.map(str::to_string), colour: "0 0 1".to_string() }
}

fn sound() -> ScenarioFacts {
    ScenarioFacts {
        map: "Comet Catcher Redux".into(),
        game: "Zero-K v1.14.8.0".into(),
        teams: vec![team(0, 0, None), team(1, 1, Some("NullAI"))],
        units: vec![Placement { unit: "armcom1".into(), team: 0, neutral: false }],
        outside: None,
        map_elmos: DEFAULT_MAP_ELMOS,
        depth_elmos: DEFAULT_MAP_ELMOS,
        goals: vec![],
    }
}

#[test]
fn a_sound_scenario_has_no_problems() {
    assert!(problems(&sound()).is_empty());
    assert_eq!(DEFAULT_MAP_ELMOS, 4096);
    assert_eq!(DEFAULT_DIFFICULTY, 2);
}

#[test]
fn a_scenario_with_no_zero_k_version_is_told_so() {
    let mut s = sound();
    s.game = "  ".into();
    assert_eq!(problems(&s), vec!["No Zero-K version chosen - the game cannot start without one."]);
}

#[test]
fn one_sided_and_playerless_scenarios_are_caught() {
    let mut s = sound();
    s.teams = vec![team(0, 0, Some("NullAI")), team(1, 0, Some("NullAI"))];
    assert_eq!(
        problems(&s),
        vec![
            "No player team - somebody has to be you.",
            "Every team is on the same side, so the game ends immediately.",
        ]
    );
}

#[test]
fn every_problem_is_a_sentence_in_order() {
    let s = ScenarioFacts {
        map: "".into(),
        game: "".into(),
        teams: vec![],
        units: vec![
            Placement { unit: "cloakraid".into(), team: 3, neutral: false },
            Placement { unit: "cloakcon".into(), team: 4, neutral: false },
        ],
        outside: Some(("cloakraid".into(), -12, 5000)),
        map_elmos: 4096,
        depth_elmos: 6144,
        goals: vec![Objective { description: " ".into(), goal: Goal::WinBefore { seconds: 60 } }],
    };
    assert_eq!(
        problems(&s),
        vec![
            "No map chosen.",
            "No Zero-K version chosen - the game cannot start without one.",
            "No teams.",
            "No player team - somebody has to be you.",
            "A cloakraid belongs to team 3, which does not exist.",
            "A cloakraid sits outside the map, at -12, 5000. The map is 4096 by 6144 elmos.",
            "An objective has no description, so the player cannot read it.",
        ]
    );
    let empty = ScenarioFacts { units: vec![], outside: None, goals: vec![], ..s };
    assert!(problems(&empty).contains(&"Nothing placed yet.".to_string()));
}

#[test]
fn delimiters_are_removed_and_everything_else_kept() {
    assert_eq!(escape("Qrow's; {test}\nmission\r"), "Qrow's testmission");
}

#[test]
fn a_script_line_is_key_equals_value() {
    let mut out = String::from("[GAME]\n");
    key(&mut out, "\t", "Mapname", "Icy Crater v4");
    assert_eq!(out, "[GAME]\n\tMapname=Icy Crater v4;\n");
}

fn names(list: &[&str]) -> FieldValue {
    FieldValue::Names(list.iter().map(|s| s.to_string()).collect())
}

fn fields(goal: Goal) -> Vec<(String, FieldValue)> {
    goal_fields(&Objective { description: "Do it".into(), goal })
}

fn field(k: &str, v: FieldValue) -> (String, FieldValue) {
    (k.to_string(), v)
}

#[test]
fn a_survival_goal_has_the_fields_zero_k_checks() {
    assert_eq!(
        fields(Goal::SurviveUntil { seconds: 600, units: vec!["armcom1".into()] }),
        vec![
            field("description", FieldValue::Text("Do it".into())),
            field("satisfyUntilTime", FieldValue::Number(600)),
            field("comparisionType", FieldValue::Number(1)),
            field("targetNumber", FieldValue::Number(1)),
            field("unitTypes", names(&["armcom1"])),
        ]
    );
    assert_eq!(fields(Goal::SurviveUntil { seconds: 1, units: vec![] }).len(), 4);
}

#[test]
fn build_counts_the_dead_and_have_does_not() {
    let build = fields(Goal::BuildBy { unit: "cloakraid".into(), count: 5, seconds: 300 });
    assert!(build.contains(&field("countRemovedUnits", FieldValue::Flag(true))));
    assert!(build.contains(&field("satisfyByTime", FieldValue::Number(300))));
    let have = fields(Goal::HaveAtOnce { unit: "cloakraid".into(), count: 5 });
    assert!(!have.iter().any(|(k, _)| k == "countRemovedUnits"));
    assert!(have.contains(&field("lockUnitsOnSatisfy", FieldValue::Flag(true))));
}

#[test]
fn killing_uses_the_enemys_units_not_ours() {
    let kill = fields(Goal::KillCount { unit: "cloakraid".into(), count: 3 });
    assert!(kill.contains(&field("enemyUnitTypes", names(&["cloakraid"]))));
    assert!(kill.contains(&field("onlyCountRemovedUnits", FieldValue::Flag(true))));
    let destroy = fields(Goal::DestroyAllBy { unit: "turretlaser".into(), seconds: 900 });
    assert_eq!(
        destroy[1..],
        [
            field("satisfyByTime", FieldValue::Number(900)),
            field("comparisionType", FieldValue::Number(2)),
            field("targetNumber", FieldValue::Number(0)),
            field("enemyUnitTypes", names(&["turretlaser"])),
        ]
    );
    assert_eq!(
        fields(Goal::WinBefore { seconds: 60 })[1],
        field("victoryByTime", FieldValue::Number(60))
    );
}

#[test]
fn a_unit_list_keeps_its_order() {
    let list = vec!["b".to_string(), "a".to_string()];
    assert_eq!(unit_list(&list), names(&["b", "a"]));
}

/// The sample the scenario checks are measured against: a player and an
/// AI on two sides, a commander and a raider placed for the player.
fn sample() -> ScenarioFacts {
    ScenarioFacts {
        map: "Comet Catcher Redux".into(),
        game: "Zero-K v1.14.8.0".into(),
        teams: vec![
            Team { id: 0, ally: 0, ai: None, colour: "0 0 1".into() },
            Team { id: 1, ally: 1, ai: Some("NullAI".into()), colour: "1 0 0".into() },
        ],
        units: vec![
            Placement { unit: "armcom1".into(), team: 0, neutral: false },
            Placement { unit: "cloakraid".into(), team: 0, neutral: false },
        ],
        outside: None,
        map_elmos: DEFAULT_MAP_ELMOS,
        depth_elmos: DEFAULT_MAP_ELMOS,
        goals: vec![],
    }
}

#[test]
fn problems_are_sentences_rather_than_codes() {
    let empty = ScenarioFacts {
        map: "".into(),
        game: "".into(),
        teams: vec![],
        units: vec![],
        outside: None,
        map_elmos: DEFAULT_MAP_ELMOS,
        depth_elmos: DEFAULT_MAP_ELMOS,
        goals: vec![],
    };
    let p = problems(&empty);
    assert!(p.len() >= 3);
    for line in &p {
        assert!(line.ends_with('.'), "{line:?} is not a sentence");
    }
}

#[test]
fn one_sided_scenarios_are_caught_before_launch() {
    let mut sc = sample();
    sc.teams[1].ally = 0;
    assert!(problems(&sc).iter().any(|p| p.contains("same side")));
}

#[test]
fn a_unit_on_a_team_that_does_not_exist_is_caught() {
    let mut sc = sample();
    sc.units[0].team = 7;
    assert!(problems(&sc).iter().any(|p| p.contains("does not exist")));
}

#[test]
fn a_unit_off_the_edge_of_the_map_is_caught() {
    // The caller found the first unit past an edge; the check says so.
    let mut sc = sample();
    sc.outside = Some(("armcom1".into(), 99_000, 512));
    assert!(problems(&sc).iter().any(|p| p.contains("outside the map")));
}

#[test]
fn a_newer_scenario_format_is_refused_by_name() {
    assert!(check_format(1).is_ok());
    assert_eq!(
        check_format(2).unwrap_err(),
        "This scenario was written by a newer Splaunch (format 2, this build reads 1)."
    );
}

#[test]
fn a_map_that_is_not_installed_is_said_only_when_the_machine_can_answer() {
    let installed = vec!["Comet Catcher Redux v3.1".to_string()];
    assert!(install_problems(&installed, "Comet Catcher Redux").is_empty());
    assert!(install_problems(&[], "Anything").is_empty());
    assert!(install_problems(&installed, "  ").is_empty());
    assert_eq!(
        install_problems(&installed, "Icy Crater"),
        vec!["The map Icy Crater is not installed. Play it once in the Zero-K lobby to download it."]
    );
}

#[test]
fn escaping_twice_changes_nothing_and_leaves_no_delimiter() {
    let once = escape("a;b{c}d\ne\rf");
    assert_eq!(once, "abcdef");
    assert_eq!(escape(&once), once);
    assert!(!once.contains([';', '{', '}', '\n', '\r']));
}

#[test]
fn a_sound_scenario_can_start() {
    let s = sample();
    assert!(problems(&s).is_empty());
    assert!(s.teams.iter().any(|t| t.ai.is_none()));
    assert!(s.teams.iter().any(|t| t.ally != s.teams[0].ally));
}

#[test]
fn a_placed_commander_is_the_teams_own_and_not_gaias() {
    let units = vec![
        Placement { unit: "cloakraid".into(), team: 0, neutral: false },
        Placement { unit: "armcom1".into(), team: 1, neutral: false },
        Placement { unit: "armcom1".into(), team: 0, neutral: true },
        Placement { unit: "commsupport1".into(), team: 0, neutral: false },
    ];
    assert_eq!(commander_index(&units, 0), Some(3));
    assert_eq!(commander_index(&units, 1), Some(1));
    assert_eq!(commander_index(&units, 2), None);
}

#[test]
fn a_team_without_a_placed_commander_is_told_where_it_starts() {
    let teams = vec![
        Team { id: 0, ally: 0, ai: None, colour: "0 0 1".into() },
        Team { id: 1, ally: 1, ai: Some("NullAI".into()), colour: "1 0 0".into() },
        Team { id: 2, ally: 1, ai: Some("NullAI".into()), colour: "0 1 0".into() },
    ];
    let units = vec![
        Placement { unit: "cloakraid".into(), team: 0, neutral: false },
        Placement { unit: "armcom1".into(), team: 1, neutral: false },
    ];
    let said = warnings(&teams, &units, &[(576, 576), (100, 100), (2048, -1)]);
    assert_eq!(
        said,
        vec![
            "Zero-K gives your team 0 a commander whether or not you place one. With none placed it \
             will start at 576, 576 - the middle of its units. Place a commander to say where.",
            "Zero-K gives team 2 a commander whether or not you place one. With none placed it will \
             start at 2048, -1 - the middle of the map. Place a commander to say where.",
        ]
    );
}

#[test]
fn each_check_speaks_only_about_its_own_fault() {
    let mut s = sound();
    s.map = "   ".into();
    s.units.clear();
    let said = problems(&s);
    assert!(said.contains(&"No map chosen.".to_string()));
    assert!(said.contains(&"Nothing placed yet.".to_string()));
    assert!(!said.contains(&"No teams.".to_string()));
    assert!(!said.contains(&"No Zero-K version chosen - the game cannot start without one.".to_string()));
    assert!(!said.contains(&"No player team - somebody has to be you.".to_string()));
    assert!(!said.contains(&"Every team is on the same side, so the game ends immediately.".to_string()));
}

#[test]
fn units_on_missing_teams_are_told_once_naming_the_first() {
    let mut s = sound();
    s.units = vec![
        Placement { unit: "armcom1".into(), team: 0, neutral: false },
        Placement { unit: "cloakcon".into(), team: 9, neutral: false },
        Placement { unit: "cloakraid".into(), team: 8, neutral: false },
    ];
    let said: Vec<String> =
        problems(&s).into_iter().filter(|p| p.ends_with(", which does not exist.")).collect();
    assert_eq!(said, vec!["A cloakcon belongs to team 9, which does not exist."]);
    assert!(problems(&sound()).iter().all(|p| !p.ends_with(", which does not exist.")));
}

#[test]
fn a_unit_off_the_map_is_told_once_in_the_callers_words() {
    let mut s = sound();
    s.outside = Some(("armcom1".into(), 5000, -1));
    let said: Vec<String> = problems(&s).into_iter().filter(|p| p.ends_with(" elmos.")).collect();
    assert_eq!(said, vec!["A armcom1 sits outside the map, at 5000, -1. The map is 4096 by 4096 elmos."]);
    assert!(problems(&sound()).iter().all(|p| !p.ends_with(" elmos.")));
}
