use splaunch::scenario::{Placement, ScenarioFacts, Team, DEFAULT_MAP_ELMOS};
use splaunch::script::assemble_script;

fn facts() -> ScenarioFacts {
    ScenarioFacts {
        map: "Comet Catcher Redux".into(),
        game: "Zero-K v1.14.8.0".into(),
        teams: vec![
            Team { id: 0, ally: 0, ai: None, colour: "0 0 1".into() },
            Team { id: 1, ally: 1, ai: Some("NullAI".into()), colour: "1 0 0".into() },
        ],
        units: vec![
            Placement { unit: "armcom1".into(), team: 0, neutral: false },
            Placement { unit: "cloakraid".into(), team: 0, neutral: false },
        ],
        outside: None,
        map_elmos: DEFAULT_MAP_ELMOS,
        depth_elmos: DEFAULT_MAP_ELMOS,
        goals: vec![],
    }
}

fn pairs(list: &[(&str, &str)]) -> Vec<(String, String)> {
    list.iter().map(|(k, v)| (k.to_string(), v.to_string())).collect()
}

fn script(s: &ScenarioFacts, player: &str) -> Result<String, String> {
    let starts = vec![(512, 512), (2048, -3)];
    let units = vec![pairs(&[("extrastartunits_1", "e3tuYW1l")]), vec![]];
    assemble_script(
        s,
        player,
        &pairs(&[("startmetal", "1000"), ("weird;key", "a{b}")]),
        &pairs(&[("singleplayercampaignbattleid", "splaunch"), ("fixedstartpos", "1")]),
        &starts,
        &units,
    )
}

#[test]
fn a_scenario_compiles_to_a_script_the_engine_shape_matches() {
    let s = script(&facts(), "Qrow").unwrap();
    assert!(s.starts_with("[GAME]\n{\n"));
    assert!(s.contains("Mapname=Comet Catcher Redux;"));
    assert!(s.contains("OnlyLocal=1;"));
    assert!(s.contains("[PLAYER0]"));
    assert!(s.contains("[AI0]"));
    assert!(s.contains("ShortName=NullAI;"));
    assert!(s.contains("[TEAM0]") && s.contains("[TEAM1]"));
    assert!(s.contains("[ALLYTEAM0]") && s.contains("[ALLYTEAM1]"));
    assert!(s.contains("StartposType=2;"));
    assert!(s.trim_end().ends_with('}'));
}

#[test]
fn the_whole_script_is_written_in_the_engines_order() {
    let text = script(&facts(), "Qrow").unwrap();
    let expected = "[GAME]\n{\n\
        \tMapname=Comet Catcher Redux;\n\
        \tGameType=Zero-K v1.14.8.0;\n\
        \tMyPlayerName=Qrow;\n\
        \tIsHost=1;\n\
        \tOnlyLocal=1;\n\
        \tStartposType=2;\n\
        \tGameStartDelay=0;\n\
        \tNumRestrictions=0;\n\
        \t[MODOPTIONS]\n\t{\n\
        \t\tnoelo=1;\n\
        \t\tstartmetal=1000;\n\
        \t\tweirdkey=ab;\n\
        \t\tsingleplayercampaignbattleid=splaunch;\n\
        \t\tfixedstartpos=1;\n\
        \t}\n\
        \t[PLAYER0]\n\t{\n\
        \t\tName=Qrow;\n\
        \t\tTeam=0;\n\
        \t}\n\
        \t[AI0]\n\t{\n\
        \t\tName=AI 1;\n\
        \t\tShortName=NullAI;\n\
        \t\tTeam=1;\n\
        \t\tHost=0;\n\
        \t}\n\
        \t[TEAM0]\n\t{\n\
        \t\tTeamLeader=0;\n\
        \t\tAllyTeam=0;\n\
        \t\tRGBColor=0 0 1;\n\
        \t\tstart_x=512;\n\
        \t\tstart_z=512;\n\
        \t\textrastartunits_1=e3tuYW1l;\n\
        \t}\n\
        \t[TEAM1]\n\t{\n\
        \t\tTeamLeader=0;\n\
        \t\tAllyTeam=1;\n\
        \t\tRGBColor=1 0 0;\n\
        \t\tstart_x=2048;\n\
        \t\tstart_z=-3;\n\
        \t}\n\
        \t[ALLYTEAM0]\n\t{\n\
        \t\tNumAllies=0;\n\
        \t\tStartRectTop=0;\n\
        \t\tStartRectBottom=0;\n\
        \t\tStartRectLeft=1;\n\
        \t\tStartRectRight=1;\n\
        \t}\n\
        \t[ALLYTEAM1]\n\t{\n\
        \t\tNumAllies=0;\n\
        \t\tStartRectTop=0;\n\
        \t\tStartRectBottom=0;\n\
        \t\tStartRectLeft=1;\n\
        \t\tStartRectRight=1;\n\
        \t}\n\
        }\n";
    assert_eq!(text, expected);
}

#[test]
fn assembled_braces_are_balanced() {
    let s = script(&facts(), "Qrow").unwrap();
    assert_eq!(s.matches('{').count(), s.matches('}').count());
}

#[test]
fn an_assembled_name_that_would_break_the_script_is_escaped() {
    let mut sc = facts();
    sc.map = "Weird; }Map{".into();
    let s = script(&sc, "Qrow").unwrap();
    assert!(s.contains("Mapname=Weird Map;"));
    assert_eq!(s.matches('{').count(), s.matches('}').count());
    let s = script(&sc, "Q}r{o;w\n").unwrap();
    assert!(s.contains("\tMyPlayerName=Qrow;\n"), "{s}");
}

#[test]
fn assembling_without_a_player_fails() {
    let mut s = facts();
    s.teams[0].ai = Some("NullAI".into());
    let err = script(&s, "Qrow").unwrap_err();
    assert!(err.contains("player team"), "{err}");
}

#[test]
fn assembling_without_a_zero_k_version_fails() {
    let mut s = facts();
    s.game = String::new();
    let err = script(&s, "Qrow").unwrap_err();
    assert!(err.contains("Zero-K version"), "{err}");
}

#[test]
fn allyteams_are_written_once_each_in_ascending_order() {
    let mut s = facts();
    s.teams = vec![
        Team { id: 0, ally: 3, ai: None, colour: "0 0 1".into() },
        Team { id: 1, ally: 1, ai: Some("CircuitAI".into()), colour: "1 0 0".into() },
        Team { id: 2, ally: 3, ai: Some("NullAI".into()), colour: "0 1 0".into() },
    ];
    let text = assemble_script(&s, "Qrow", &[], &[], &[(0, 0), (0, 0), (0, 0)], &[vec![], vec![], vec![]])
        .unwrap();
    let sections: Vec<&str> = text
        .lines()
        .map(str::trim)
        .filter(|l| l.starts_with("[ALLYTEAM") || l.starts_with("[AI"))
        .collect();
    assert_eq!(sections, vec!["[AI0]", "[AI1]", "[ALLYTEAM1]", "[ALLYTEAM3]"]);
}
