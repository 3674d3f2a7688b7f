use splaunch::campaign::{is_encoded, pack_entries, payloads, single, HOLE_GAME, HOLE_MAP, HOLE_PLAYER};
use splaunch::codec::base64url_decode;
use splaunch::mission::{
    mission_modoptions, placed_fields, start_unit_keys, write_script as compile, FeatureFacts,
    MarkerFacts, MissionFacts, PlacedFacts,
};
use splaunch::scenario::{
    check_format, problems, Defeat, FieldValue, Goal, Objective, Placement, ScenarioFacts, Team,
    DEFAULT_DIFFICULTY, DEFAULT_MAP_ELMOS, FORMAT_VERSION,
};

#[derive(Debug, Clone, Default)]
struct Placed {
    unit: String,
    team: u32,
    x: f32,
    z: f32,
    facing: Option<u32>,
    build_progress: Option<f32>,
    experience: Option<f32>,
    movestate: Option<u32>,
    invincible: Option<bool>,
    terraform_height: Option<f32>,
    neutral: bool,
    patrol: Vec<[f32; 2]>,
    self_patrol: bool,
    difficulty_at_least: Option<u32>,
    difficulty_at_most: Option<u32>,
}

#[derive(Debug, Clone)]
struct Marker {
    x: f32,
    z: f32,
    text: String,
}

#[derive(Debug, Clone)]
struct Feature {
    name: String,
    x: f32,
    z: f32,
    facing: Option<u32>,
}

#[derive(Debug, Clone)]
struct Scenario {
    name: String,
    map: String,
    game: String,
    teams: Vec<Team>,
    units: Vec<Placed>,
    objectives: Vec<String>,
    goals: Vec<Objective>,
    features: Vec<Feature>,
    briefing: Option<String>,
    defeat: Vec<Defeat>,
    map_elmos: u32,
    map_elmos_z: Option<u32>,
    mod_options: Vec<(String, String)>,
    markers: Vec<Marker>,
    difficulty: u32,
}

fn scenario_sample() -> Scenario {
    Scenario {
        name: "Test".into(),
        map: "Comet Catcher Redux".into(),
        game: "Zero-K v1.14.8.0".into(),
        teams: vec![
            Team { id: 0, ally: 0, ai: None, colour: "0 0 1".into() },
            Team { id: 1, ally: 1, ai: Some("NullAI".into()), colour: "1 0 0".into() },
        ],
        units: vec![
            Placed { unit: "armcom1".into(), team: 0, x: 512.0, z: 512.0, ..Default::default() },
            Placed { unit: "cloakraid".into(), team: 0, x: 640.0, z: 640.0, ..Default::default() },
        ],
        objectives: vec!["Destroy the enemy commander".into()],
        goals: vec![],
        features: vec![],
        briefing: None,
        defeat: vec![],
        map_elmos: DEFAULT_MAP_ELMOS,
        map_elmos_z: None,
        mod_options: vec![],
        markers: vec![],
        difficulty: DEFAULT_DIFFICULTY,
    }
}

fn number(x: f32) -> String {
    format!("{}", x as f64)
}

fn depth(s: &Scenario) -> u32 {
    s.map_elmos_z.unwrap_or(s.map_elmos)
}

fn facts_of(s: &Scenario) -> ScenarioFacts {
    let across = s.map_elmos as f32;
    let down = depth(s) as f32;
    let outside = s
        .units
        .iter()
        .find(|u| u.x < 0.0 || u.z < 0.0 || u.x > across || u.z > down)
        .map(|u| (u.unit.clone(), u.x as i64, u.z as i64));
    ScenarioFacts {
        map: s.map.clone(),
        game: s.game.clone(),
        teams: s.teams.clone(),
        units: s
            .units
            .iter()
            .map(|u| Placement { unit: u.unit.clone(), team: u.team, neutral: u.neutral })
            .collect(),
        outside,
        map_elmos: s.map_elmos,
        depth_elmos: depth(s),
        goals: s.goals.clone(),
    }
}

fn placed(u: &Placed) -> PlacedFacts {
    PlacedFacts {
        unit: u.unit.clone(),
        team: u.team,
        x: number(u.x),
        z: number(u.z),
        at_x: u.x.round() as i64,
        at_z: u.z.round() as i64,
        facing: u.facing,
        build_progress: u.build_progress.map(number),
        experience: u.experience.map(number),
        movestate: u.movestate,
        invincible: u.invincible,
        terraform_height: u.terraform_height.map(number),
        neutral: u.neutral,
        patrol: u.patrol.iter().map(|p| (number(p[0]), number(p[1]))).collect(),
        self_patrol: u.self_patrol,
        difficulty_at_least: u.difficulty_at_least,
        difficulty_at_most: u.difficulty_at_most,
    }
}

fn mission_of(s: &Scenario) -> MissionFacts {
    MissionFacts {
        name: s.name.clone(),
        objectives: s.objectives.clone(),
        briefing: s.briefing.clone(),
        difficulty: s.difficulty,
        markers: s
            .markers
            .iter()
            .map(|m| MarkerFacts { x: number(m.x), z: number(m.z), text: m.text.clone() })
            .collect(),
        features: s
            .features
            .iter()
            .map(|f| FeatureFacts { name: f.name.clone(), x: number(f.x), z: number(f.z), facing: f.facing })
            .collect(),
        defeat: s.defeat.clone(),
        units: s.units.iter().map(placed).collect(),
    }
}

fn is_commander(name: &str) -> bool {
    splaunch::game::is_commander(name)
}

fn fallback(s: &Scenario) -> Vec<(i64, i64)> {
    s.teams
        .iter()
        .map(|t| {
            let commander = s.units.iter().find(|u| !u.neutral && u.team == t.id && is_commander(&u.unit));
            let (x, z) = match commander {
                Some(u) => (u.x, u.z),
                None => {
                    let mine: Vec<&Placed> = s.units.iter().filter(|u| !u.neutral && u.team == t.id).collect();
                    if mine.is_empty() {
                        (s.map_elmos as f32 / 2.0, depth(s) as f32 / 2.0)
                    } else {
                        let n = mine.len() as f32;
                        (
                            mine.iter().map(|u| u.x).sum::<f32>() / n,
                            mine.iter().map(|u| u.z).sum::<f32>() / n,
                        )
                    }
                },
            };
            (x.round() as i64, z.round() as i64)
        })
        .collect()
}

fn write_script(s: &Scenario, player: &str) -> Result<String, String> {
    compile(&facts_of(s), &mission_of(s), player, &s.mod_options, &fallback(s))
}

/// The value of `key=` inside a script section.
fn value_of(section: &str, name: &str) -> Option<String> {
    section.lines().map(str::trim).find_map(|line| {
        let (k, v) = line.split_once('=')?;
        if k.trim() == name {
            Some(v.trim_end_matches(';').to_string())
        } else {
            None
        }
    })
}

fn decode(value: &str) -> String {
    String::from_utf8(base64url_decode(value).expect("not base64url")).expect("not text")
}

/// A modoption, decoded.
fn modoption_lua(script: &str, name: &str) -> String {
    let block = script.split("[MODOPTIONS]").nth(1).expect("no [MODOPTIONS] section");
    let raw = value_of(block, name).unwrap_or_else(|| panic!("no {name} modoption"));
    decode(&raw)
}

fn team0(script: &str) -> String {
    script.split("[TEAM0]").nth(1).unwrap().split("[TEAM1]").next().unwrap().to_string()
}

fn with_goals(goals: Vec<Objective>) -> Scenario {
    let mut sc = scenario_sample();
    sc.goals = goals;
    sc
}

fn lua_of(fields: &[(String, FieldValue)]) -> String {
    splaunch::customkey::lua_record_text(&fields.to_vec())
}

#[test]
fn the_mission_engine_is_armed() {
    let script = write_script(&scenario_sample(), "Qrow").unwrap();
    let block = script.split("[MODOPTIONS]").nth(1).unwrap();
    assert_eq!(value_of(block, "singleplayercampaignbattleid").as_deref(), Some("splaunch"));
}

#[test]
fn a_survival_goal_compiles_to_the_fields_zero_k_checks() {
    let sc = with_goals(vec![Objective {
        description: "Hold out for two minutes.".into(),
        goal: Goal::SurviveUntil { seconds: 120, units: vec!["armcom1".into()] },
    }]);
    let lua = modoption_lua(&write_script(&sc, "Qrow").unwrap(), "bonusobjectiveconfig");
    assert!(lua.contains("satisfyUntilTime=120"), "{lua}");
    assert!(lua.contains("comparisionType=1"), "{lua}");
    assert!(lua.contains("targetNumber=1"), "{lua}");
    assert!(lua.contains("armcom1"), "{lua}");
}

#[test]
fn build_counts_the_dead_and_have_does_not_in_the_script() {
    let build = with_goals(vec![Objective {
        description: "Build five Glaives.".into(),
        goal: Goal::BuildBy { unit: "cloakraid".into(), count: 5, seconds: 300 },
    }]);
    let lua = modoption_lua(&write_script(&build, "Qrow").unwrap(), "bonusobjectiveconfig");
    assert!(lua.contains("countRemovedUnits=true"), "{lua}");

    let have = with_goals(vec![Objective {
        description: "Have five Glaives.".into(),
        goal: Goal::HaveAtOnce { unit: "cloakraid".into(), count: 5 },
    }]);
    let lua = modoption_lua(&write_script(&have, "Qrow").unwrap(), "bonusobjectiveconfig");
    assert!(!lua.contains("countRemovedUnits"), "{lua}");
    assert!(lua.contains("lockUnitsOnSatisfy=true"), "{lua}");
}

#[test]
fn killing_uses_the_enemys_units_not_ours_in_the_script() {
    let sc = with_goals(vec![Objective {
        description: "Kill three Reavers.".into(),
        goal: Goal::KillCount { unit: "cloakriot".into(), count: 3 },
    }]);
    let lua = modoption_lua(&write_script(&sc, "Qrow").unwrap(), "bonusobjectiveconfig");
    assert!(lua.contains("enemyUnitTypes"), "{lua}");
    assert!(!lua.contains("unitTypes={"), "counted our own units: {lua}");
    assert!(lua.contains("onlyCountRemovedUnits=true"), "{lua}");
}

#[test]
fn a_question_mark_in_a_description_does_not_destroy_the_objectives() {
    for text in ["Can you hold the ridge?", "Ready? Set? Go?", "Halte den Grat fünf Minuten", "Продержись 5 минут"] {
        let sc = with_goals(vec![Objective { description: text.into(), goal: Goal::WinBefore { seconds: 60 } }]);
        let script = write_script(&sc, "Qrow").unwrap();
        let block = script.split("[MODOPTIONS]").nth(1).unwrap();
        let raw = value_of(block, "bonusobjectiveconfig").unwrap();
        assert!(!raw.contains('_'), "{raw}");
        let lua = decode(&raw);
        assert!(lua.contains("victoryByTime=60"), "lost objectives for {text:?}: {lua}");
    }
}

#[test]
fn features_reach_the_script() {
    let mut sc = scenario_sample();
    sc.features = vec![Feature { name: "armcom1_dead".into(), x: 100.0, z: 200.0, facing: Some(1) }];
    let lua = modoption_lua(&write_script(&sc, "Qrow").unwrap(), "featurestospawn");
    assert!(lua.contains("armcom1_dead"), "{lua}");
    assert!(lua.contains("x=100") && lua.contains("z=200"), "{lua}");
}

#[test]
fn a_briefing_is_sent_whether_or_not_there_is_something_to_read() {
    let mut bare = scenario_sample();
    bare.objectives.clear();
    bare.briefing = None;
    let script = write_script(&bare, "Qrow").unwrap();
    assert!(script.contains("planetmissioninformationtext"), "{script}");

    let mut sc = scenario_sample();
    sc.briefing = Some("The dam will not hold.".into());
    let lua = modoption_lua(&write_script(&sc, "Qrow").unwrap(), "planetmissioninformationtext");
    assert!(lua.contains("The dam will not hold."), "{lua}");
}

#[test]
fn a_written_objective_reaches_the_player() {
    let mut sc = scenario_sample();
    sc.objectives = vec!["Hold the northern ridge.".into(), "Do not lose the dam.".into()];
    let lua = modoption_lua(&write_script(&sc, "Qrow").unwrap(), "planetmissioninformationtext");
    assert!(lua.contains("Hold the northern ridge."), "{lua}");
    assert!(lua.contains("Do not lose the dam."), "{lua}");
    assert!(lua.contains("tips="), "notes should travel as briefing tips: {lua}");
}

#[test]
fn nothing_is_sent_to_the_key_the_gadget_does_not_read() {
    let sc = with_goals(vec![Objective { description: "Win.".into(), goal: Goal::WinBefore { seconds: 60 } }]);
    let script = write_script(&sc, "Qrow").unwrap();
    assert!(script.contains("bonusobjectiveconfig"));
    let block = script.split("[MODOPTIONS]").nth(1).unwrap();
    assert!(value_of(block, "objectiveconfig").is_none(), "{block}");
}

#[test]
fn a_scenario_with_no_zero_k_version_does_not_compile() {
    let mut sc = scenario_sample();
    sc.game = String::new();
    assert!(problems(&facts_of(&sc)).iter().any(|p| p.contains("Zero-K version")));
    let err = write_script(&sc, "Qrow").unwrap_err();
    assert!(err.contains("Zero-K version"), "{err}");
}

#[test]
fn the_briefing_key_is_sent_even_with_nothing_to_say() {
    let mut sc = scenario_sample();
    sc.briefing = None;
    sc.objectives = vec![];
    let script = write_script(&sc, "Qrow").unwrap();
    let lua = modoption_lua(&script, "planetmissioninformationtext");
    assert!(lua.contains("name="), "no name in {lua}");
    assert!(lua.contains("description="), "no description in {lua}");
}

#[test]
fn the_two_map_axes_are_checked_separately() {
    let mut sc = scenario_sample();
    sc.map_elmos = 12 * 512;
    sc.map_elmos_z = Some(16 * 512);

    sc.units[0].x = 7000.0;
    sc.units[0].z = 100.0;
    assert!(problems(&facts_of(&sc)).iter().any(|p| p.contains("outside the map")));

    sc.units[0].x = 100.0;
    sc.units[0].z = 7000.0;
    assert!(!problems(&facts_of(&sc)).iter().any(|p| p.contains("outside the map")));
}

#[test]
fn optional_unit_fields_are_omitted_rather_than_defaulted() {
    let plain = lua_of(&placed_fields(&placed(&Placed {
        unit: "cloakraid".into(),
        team: 0,
        x: 1.0,
        z: 2.0,
        ..Default::default()
    })));
    assert_eq!(plain, "{name=\"cloakraid\",x=1,z=2,facing=0,}");

    let dressed = lua_of(&placed_fields(&placed(&Placed {
        unit: "armcom1".into(),
        team: 0,
        x: 1.0,
        z: 2.0,
        facing: Some(2),
        build_progress: Some(0.5),
        experience: Some(1.0),
        invincible: Some(true),
        ..Default::default()
    })));
    assert!(dressed.contains("facing=2"), "{dressed}");
    assert!(dressed.contains("buildProgress=0.5"), "{dressed}");
    assert!(dressed.contains("invincible=true"), "{dressed}");
}

#[test]
fn a_patrol_route_travels_as_a_list_of_points() {
    let mut sc = scenario_sample();
    sc.units[1].patrol = vec![[100.0, 200.0], [800.0, 900.0]];
    let script = write_script(&sc, "Qrow").unwrap();
    let lua = decode(&value_of(&team0(&script), "extrastartunits_1").unwrap());
    assert!(lua.contains("patrolRoute={[1]={[1]=100,[2]=200,},[2]={[1]=800,[2]=900,},}"), "{lua}");
}

#[test]
fn a_route_beats_patrolling_on_the_spot() {
    let mut sc = scenario_sample();
    sc.units[1].patrol = vec![[10.0, 20.0], [30.0, 40.0]];
    sc.units[1].self_patrol = true;
    let script = write_script(&sc, "Qrow").unwrap();
    let lua = decode(&value_of(&team0(&script), "extrastartunits_1").unwrap());
    assert!(lua.contains("patrolRoute"), "{lua}");
    assert!(!lua.contains("selfPatrol"), "{lua}");

    sc.units[1].patrol = vec![[10.0, 20.0]];
    let script = write_script(&sc, "Qrow").unwrap();
    let lua = decode(&value_of(&team0(&script), "extrastartunits_1").unwrap());
    assert!(!lua.contains("patrolRoute"), "{lua}");
    assert!(lua.contains("selfPatrol=true"), "{lua}");
}

#[test]
fn difficulty_is_only_sent_when_it_is_not_the_games_own_default() {
    let script = write_script(&scenario_sample(), "Qrow").unwrap();
    let block = script.split("[MODOPTIONS]").nth(1).unwrap();
    assert!(value_of(block, "planetmissiondifficulty").is_none(), "{block}");

    let mut sc = scenario_sample();
    sc.difficulty = 3;
    sc.units[1].difficulty_at_least = Some(3);
    let script = write_script(&sc, "Qrow").unwrap();
    let block = script.split("[MODOPTIONS]").nth(1).unwrap();
    assert_eq!(value_of(block, "planetmissiondifficulty").as_deref(), Some("3"));
    let lua = decode(&value_of(&team0(&script), "extrastartunits_1").unwrap());
    assert!(lua.contains("difficultyAtLeast=3"), "{lua}");
}

#[test]
fn markers_reach_the_map() {
    let mut sc = scenario_sample();
    sc.markers = vec![Marker { x: 900.0, z: 1200.0, text: "Here?".into() }];
    let lua = modoption_lua(&write_script(&sc, "Qrow").unwrap(), "planetmissionmapmarkers");
    assert!(lua.contains("x=900") && lua.contains("z=1200"), "{lua}");
    assert!(lua.contains(r#"text="Here\063""#), "{lua}");
    assert!(!lua.contains("Here?"), "an unescaped ? would truncate: {lua}");
}

#[test]
fn gaias_units_ride_on_the_modoptions_not_on_a_team() {
    let mut sc = scenario_sample();
    sc.units.push(Placed {
        unit: "turretlaser".into(),
        team: 0,
        x: 700.0,
        z: 700.0,
        neutral: true,
        ..Default::default()
    });
    let script = write_script(&sc, "Qrow").unwrap();
    let block = script.split("[MODOPTIONS]").nth(1).unwrap();
    let value = value_of(block, "neutralstartunits_1").expect("no neutral units");
    assert!(decode(&value).contains("turretlaser"));
    let owned = decode(&value_of(&team0(&script), "extrastartunits_1").unwrap());
    assert!(!owned.contains("turretlaser"), "{owned}");
}

#[test]
fn a_unit_with_no_facing_still_reaches_the_game_with_one() {
    let mut sc = scenario_sample();
    sc.units[0].facing = None;
    let script = write_script(&sc, "Qrow").unwrap();
    let placed = decode(&value_of(&team0(&script), "extrastartunits_1").expect("no units on team 0"));
    assert!(placed.contains("facing=0"), "{placed}");
}

#[test]
fn a_feature_with_no_facing_still_reaches_the_game_with_one() {
    let mut sc = scenario_sample();
    sc.features = vec![Feature { name: "cloakraid_dead".into(), x: 100.0, z: 200.0, facing: None }];
    let spawned = modoption_lua(&write_script(&sc, "Qrow").unwrap(), "featurestospawn");
    assert!(spawned.contains("facing=0"), "{spawned}");
}

#[test]
fn a_scenario_from_a_newer_splaunch_is_refused_by_name() {
    let err = check_format(FORMAT_VERSION + 1).unwrap_err();
    assert!(err.contains("newer Splaunch"), "{err}");
    assert!(check_format(FORMAT_VERSION).is_ok());
}

#[test]
fn defeat_conditions_are_indexed_by_allyteam() {
    let mut sc = scenario_sample();
    sc.defeat = vec![Defeat { ally: 0, vital_units: vec!["armcom1".into()], lose_after_seconds: Some(600) }];
    let lua = modoption_lua(&write_script(&sc, "Qrow").unwrap(), "defeatconditionconfig");
    assert!(lua.starts_with("{[0]="), "not indexed by allyteam: {lua}");
    assert!(lua.contains("vitalUnitTypes"), "{lua}");
    assert!(lua.contains("loseAfterSeconds=600"), "{lua}");
}

#[test]
fn many_units_are_chunked_the_way_zero_k_chunks_them() {
    let mut sc = scenario_sample();
    sc.units = (0..85)
        .map(|i| Placed { unit: "cloakraid".into(), team: 0, x: i as f32, z: 0.0, ..Default::default() })
        .collect();
    let script = write_script(&sc, "Qrow").unwrap();
    let team = team0(&script);
    assert!(value_of(&team, "extrastartunits_1").is_some());
    assert!(value_of(&team, "extrastartunits_2").is_some());
    assert!(value_of(&team, "extrastartunits_3").is_some());
    assert!(value_of(&team, "extrastartunits_4").is_none());
    assert_eq!(decode(&value_of(&team, "extrastartunits_3").unwrap()).matches("cloakraid").count(), 5);
}

#[test]
fn braces_are_balanced() {
    let s = write_script(&scenario_sample(), "Qrow").unwrap();
    assert_eq!(s.matches('{').count(), s.matches('}').count());
}

#[test]
fn a_name_that_would_break_the_script_is_escaped_not_refused() {
    let mut sc = scenario_sample();
    sc.map = "Weird; }Map{".into();
    let s = write_script(&sc, "Qrow").unwrap();
    assert!(s.contains("Mapname=Weird Map;"));
    assert_eq!(s.matches('{').count(), s.matches('}').count());
}

#[test]
fn a_scenario_with_no_player_does_not_compile() {
    let mut sc = scenario_sample();
    sc.teams[0].ai = Some("NullAI".into());
    let err = write_script(&sc, "Qrow").unwrap_err();
    assert!(err.contains("player team"), "{err}");
}

fn sections(script: &str) -> Vec<String> {
    script
        .lines()
        .map(str::trim)
        .filter(|l| l.starts_with('[') && l.ends_with(']'))
        .map(|l| l.trim_matches(['[', ']']).to_string())
        .collect()
}

fn keys(script: &str) -> std::collections::HashSet<String> {
    script
        .split(';')
        .filter_map(|assignment| assignment.split_once('='))
        .map(|(k, _)| {
            k.trim_matches(|c: char| c.is_whitespace() || c == '{' || c == '}')
                .rsplit(['\n', '\r'])
                .next()
                .unwrap_or_default()
                .trim()
                .to_ascii_lowercase()
        })
        .filter(|k| !k.is_empty())
        .collect()
}

#[test]
fn our_script_has_the_sections_the_engine_expects() {
    let ours = write_script(&scenario_sample(), "Qrow").unwrap();
    let mine = sections(&ours);
    for want in ["GAME", "MODOPTIONS", "PLAYER0", "AI0", "TEAM0", "TEAM1", "ALLYTEAM0"] {
        assert!(mine.iter().any(|s| s == want), "ours has no [{want}]");
    }
}

#[test]
fn our_script_sets_the_keys_the_engine_reads() {
    let ours = write_script(&scenario_sample(), "Qrow").unwrap();
    let mine = keys(&ours);
    for want in [
        "mapname", "gametype", "myplayername", "ishost", "onlylocal", "gamestartdelay", "name", "team",
        "shortname", "allyteam", "startpostype", "numallies", "startrecttop", "startrectbottom",
        "startrectleft", "startrectright",
    ] {
        assert!(mine.contains(want), "ours does not set {want}");
    }
}

#[test]
fn our_script_parses_the_way_theirs_does() {
    let mut sc = scenario_sample();
    sc.goals = vec![Objective { description: "Hold? Ready?".into(), goal: Goal::WinBefore { seconds: 60 } }];
    sc.units.push(Placed { unit: "turretlaser".into(), team: 0, x: 7.0, z: 9.0, neutral: true, ..Default::default() });
    let ours = write_script(&sc, "Qrow").unwrap();
    let script = ours.as_str();
    assert_eq!(script.matches('{').count(), script.matches('}').count());
    let bytes = script.as_bytes();
    let mut at = 0;
    while let Some(offset) = script[at..].find('=') {
        let i = at + offset;
        let rest = &bytes[i + 1..];
        let end = rest.iter().position(|c| matches!(c, b';' | b'}')).expect("a value with no terminator");
        assert_eq!(rest[end], b';', "unterminated value at {:?}", &script[i.saturating_sub(24)..(i + 8).min(script.len())]);
        at = i + 1 + end;
    }
}

#[test]
fn placed_units_travel_on_their_team() {
    let script = write_script(&scenario_sample(), "Qrow").unwrap();
    let value = value_of(&team0(&script), "extrastartunits_1").expect("no units on team 0");
    assert!(decode(&value).contains("cloakraid"));
}

#[test]
fn a_placed_commander_is_where_the_team_starts_not_a_unit_to_spawn() {
    let script = write_script(&scenario_sample(), "Qrow").unwrap();
    let block = script.split("[MODOPTIONS]").nth(1).unwrap();
    assert_eq!(value_of(block, "fixedstartpos").as_deref(), Some("1"), "{block}");
    let team = team0(&script);
    assert_eq!(value_of(&team, "start_x").as_deref(), Some("512"), "{team}");
    assert_eq!(value_of(&team, "start_z").as_deref(), Some("512"), "{team}");
    let lua = decode(&value_of(&team, "extrastartunits_1").unwrap());
    assert!(!lua.contains("armcom1"), "the commander was spawned as well: {lua}");
    let team1 = script.split("[TEAM1]").nth(1).unwrap().split("[ALLYTEAM").next().unwrap();
    assert_eq!(value_of(team1, "start_x").as_deref(), Some("2048"), "{team1}");
    assert_eq!(value_of(team1, "start_z").as_deref(), Some("2048"), "{team1}");
}

#[test]
fn a_team_with_no_commander_starts_among_its_own_units() {
    let mut sc = scenario_sample();
    sc.units = vec![
        Placed { unit: "cloakraid".into(), team: 0, x: 1000.0, z: 2000.0, ..Default::default() },
        Placed { unit: "cloakraid".into(), team: 0, x: 3000.0, z: 4000.0, ..Default::default() },
    ];
    let script = write_script(&sc, "Qrow").unwrap();
    let team = team0(&script);
    assert_eq!(value_of(&team, "start_x").as_deref(), Some("2000"), "{team}");
    assert_eq!(value_of(&team, "start_z").as_deref(), Some("3000"), "{team}");

    let script = write_script(&scenario_sample(), "Qrow").unwrap();
    let team1 = script.split("[TEAM1]").nth(1).unwrap().split("[ALLYTEAM").next().unwrap();
    assert_eq!(value_of(team1, "start_x").as_deref(), Some("2048"), "{team1}");
    assert_eq!(value_of(team1, "start_z").as_deref(), Some("2048"), "{team1}");
}

#[test]
fn a_preset_cannot_disarm_the_mission_engine() {
    let mut sc = scenario_sample();
    sc.mod_options = vec![("singleplayercampaignbattleid".into(), "hijacked".into())];
    let script = write_script(&sc, "Qrow").unwrap();
    let block = script.split("[MODOPTIONS]").nth(1).unwrap().split("[PLAYER0]").next().unwrap();
    let last = block
        .lines()
        .map(str::trim)
        .filter(|l| l.starts_with("singleplayercampaignbattleid="))
        .last()
        .unwrap();
    assert_eq!(last, "singleplayercampaignbattleid=splaunch;");
    let noelo = block.find("noelo=1;").unwrap();
    let hijacked = block.find("=hijacked;").unwrap();
    assert!(noelo < hijacked);
}

#[test]
fn the_modoptions_arm_the_engine_first_and_send_the_briefing_always() {
    let sc = scenario_sample();
    let m = mission_modoptions(&facts_of(&sc), &mission_of(&sc));
    let names: Vec<&str> = m.iter().map(|(k, _)| k.as_str()).collect();
    assert_eq!(names, vec!["singleplayercampaignbattleid", "fixedstartpos", "planetmissioninformationtext"]);
    assert_eq!(m[0].1, "splaunch");
    assert_eq!(m[1].1, "1");
    assert_eq!(decode(&m[2].1), "{name=\"Test\",description=\"\",tips={[1]={text=\"Destroy the enemy commander\"},},}");
}

#[test]
fn forty_units_make_one_key_and_forty_one_make_two() {
    let row = |i: u32| vec![("name".to_string(), FieldValue::Number(i))];
    let forty: Vec<Vec<(String, FieldValue)>> = (0..40).map(row).collect();
    let keys = start_unit_keys(&forty, "extrastartunits");
    assert_eq!(keys.len(), 1);
    assert_eq!(keys[0].0, "extrastartunits_1");
    let forty_one: Vec<Vec<(String, FieldValue)>> = (0..41).map(row).collect();
    let keys = start_unit_keys(&forty_one, "extrastartunits");
    assert_eq!(keys.iter().map(|k| k.0.as_str()).collect::<Vec<_>>(), vec!["extrastartunits_1", "extrastartunits_2"]);
    assert_eq!(decode(&keys[1].1), "{[1]={name=40,},}");
    assert!(start_unit_keys(&[], "extrastartunits").is_empty());
}

#[test]
fn a_key_that_is_not_a_lua_name_is_quoted() {
    let lua = lua_of(&[
        ("end".to_string(), FieldValue::Flag(true)),
        ("two words".to_string(), FieldValue::Decimal("1.5x".into())),
        ("n".to_string(), FieldValue::Decimal("nan".into())),
    ]);
    assert_eq!(lua, "{[\"end\"]=true,[\"two words\"]=1.5,n=0,}");
}

#[test]
fn every_byte_that_would_become_an_underscore_is_escaped() {
    let text: String = (1u8..=127).map(|b| b as char).chain("é€😀?".chars()).collect();
    let lua = lua_of(&[("t".to_string(), FieldValue::Text(text))]);
    assert!(lua.bytes().all(|b| (32..=126).contains(&b) && b != b'?'), "{lua}");
    assert!(lua.contains("\\063") && lua.contains("\\195\\169") && lua.contains("\\\"") && lua.contains("\\\\"));
    let payload = splaunch::customkey::encode(&lua);
    assert!(!payload.contains('_') && !payload.contains('='), "{payload}");
    assert_eq!(decode(&payload), lua);
}

fn example() -> Scenario {
    let mut sc = scenario_sample();
    sc.name = "First Contact".into();
    sc.briefing = Some("  Hold the ridge.  ".into());
    sc.goals = vec![Objective {
        description: "Survive?".into(),
        goal: Goal::SurviveUntil { seconds: 300, units: vec!["armcom1".into()] },
    }];
    sc.markers = vec![Marker { x: 10.5, z: 20.0, text: "Ridge".into() }];
    sc.features = vec![Feature { name: "armcom1_dead".into(), x: 1.0, z: 2.0, facing: None }];
    sc.defeat = vec![Defeat { ally: 0, vital_units: vec!["armcom1".into()], lose_after_seconds: None }];
    sc
}

fn template(sc: &Scenario) -> Result<String, String> {
    let mut f = facts_of(sc);
    splaunch::campaign::mission_template(&mut f, &mission_of(sc), &sc.mod_options, &fallback(sc))
}

fn fill(template: &str, map: &str, game: &str, player: &str) -> String {
    template.replace(HOLE_MAP, map).replace(HOLE_GAME, game).replace(HOLE_PLAYER, player)
}

#[test]
fn every_payload_the_compiler_writes_is_one_this_checks() {
    let mut sc = example();
    sc.units[1].neutral = true;
    let script = template(&sc).unwrap();
    let mut checked = 0;
    for (key, value) in payloads(&script) {
        let decoded = base64url_decode(&value).unwrap_or_default();
        let is_a_table = value.len() >= 8 && decoded.first() == Some(&b'{');
        assert_eq!(is_a_table, is_encoded(&key), "{key} decodes to a Lua table but is not named, or the reverse");
        checked += usize::from(is_a_table);
    }
    assert!(checked >= 5, "the example should exercise more than {checked} payloads");
}

#[test]
fn a_template_carries_no_machine_of_its_own() {
    let script = template(&example()).unwrap();
    assert!(script.contains(HOLE_MAP), "{script}");
    assert!(script.contains(HOLE_GAME));
    assert!(script.contains(HOLE_PLAYER));
    assert!(!script.contains("Comet Catcher"), "{script}");
}

#[test]
fn filling_a_template_produces_the_script_the_editor_would_have_written() {
    let mut here = example();
    here.map = "Icy Crater v4".into();
    here.game = "Zero-K v1.14.8.0".into();
    let direct = write_script(&here, "Qrow").unwrap();
    let filled = fill(&template(&example()).unwrap(), "Icy Crater v4", "Zero-K v1.14.8.0", "Qrow");
    assert_eq!(filled, direct);
}

#[test]
fn every_payload_survives_the_games_decoder() {
    let script = template(&example()).expect("the example does not survive");
    assert!(script.contains("extrastartunits_1"), "{script}");
}

#[test]
fn a_template_of_a_broken_scenario_says_what_is_wrong() {
    let mut sc = example();
    sc.teams.clear();
    assert_eq!(template(&sc).unwrap_err(), "No teams.");
}

#[test]
fn one_scenario_makes_a_campaign_that_packs() {
    let sc = example();
    let campaign = single(&sc.name, &sc.map, &sc.game, sc.briefing.as_deref(), "Qrow");
    assert_eq!(campaign.id, "first-contact");
    assert_eq!(campaign.missions.len(), 1);
    assert_eq!(campaign.missions[0].map, "Comet Catcher Redux");
    let templates = vec![(campaign.id.clone(), template(&sc))];
    assert!(splaunch::campaign::problems(&campaign, &templates).is_empty());
    let entries = pack_entries(&campaign, &templates).unwrap();
    assert_eq!(entries.len(), 1);
    assert_eq!(entries[0].0, "missions/first-contact.script");
    assert_eq!(Ok(entries[0].1.clone()), template(&sc));
}

#[test]
fn a_mission_whose_template_fails_is_named_when_packing() {
    let sc = example();
    let campaign = single(&sc.name, &sc.map, &sc.game, None, "Qrow");
    let templates = vec![(campaign.id.clone(), Err("No teams.".to_string()))];
    assert_eq!(pack_entries(&campaign, &templates).unwrap_err(), "First Contact: No teams.");
    assert_eq!(pack_entries(&campaign, &[]).unwrap_err(), "The mission first-contact is listed but has no scenario.");
}

#[test]
fn a_map_holding_a_later_marker_would_be_filled_twice() {
    // Why the fill law asks that the map hold neither of the later markers:
    // the game's replacement finds one inside it.
    let mut here = example();
    here.map = format!("Icy{}Crater", HOLE_GAME);
    here.game = "Zero-K v1.14.8.0".into();
    let direct = write_script(&here, "Qrow").unwrap();
    let filled = fill(&template(&example()).unwrap(), &here.map, "Zero-K v1.14.8.0", "Qrow");
    assert_ne!(filled, direct);
    assert!(filled.contains("Mapname=IcyZero-K v1.14.8.0Crater;"));
}

#[test]
fn a_filled_template_carries_the_battle_and_the_player() {
    let mut sc = example();
    sc.mod_options = vec![("startmetal".into(), "1000".into())];
    let mut here = sc.clone();
    here.map = "Icy Crater v4".into();
    let direct = write_script(&here, "Someone Else").unwrap();
    let filled = fill(&template(&sc).unwrap(), "Icy Crater v4", &sc.game, "Someone Else");
    assert_eq!(filled, direct);
    assert!(filled.contains("\tMyPlayerName=Someone Else;\n") && filled.contains("\t\tName=Someone Else;\n"));
}
