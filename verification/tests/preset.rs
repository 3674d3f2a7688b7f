use splaunch::preset::{
    apply, script_value, ModValue,
    ignored, seats_of, spectating_human, teams_of, Battle, Limits, PresetAi, Seat, KIND,
    KIND_VERSION, RANDOM_SIDE,
};
use splaunch::scenario::{ScenarioFacts, Team};

fn seat(kind: &str, side: &str, ally: u32, spectator: bool) -> Seat {
    Seat {
        id: "p".into(),
        kind: kind.into(),
        name: "n".into(),
        ai: None,
        side: side.into(),
        colour: "0 0 1".into(),
        ally_team: ally,
        spectator,
        handicapped: false,
        team: None,
    }
}

/// The participants of the preset Coilbox's tests share: you, an enemy
/// CircuitAI with a faction and a handicap, and a human watching.
fn shared() -> Battle {
    let mut enemy = seat("ai", "Cortex", 1, false);
    enemy.ai = Some(PresetAi { short_name: "CircuitAI".into(), kind: "native".into(), name: None });
    enemy.colour = "1 0 0".into();
    enemy.handicapped = true;
    Battle {
        participants: vec![seat("you", RANDOM_SIDE, 0, false), enemy, seat("you", RANDOM_SIDE, 0, true)],
        start_pos_type: 2,
        restrictions: Some(Limits {
            disabled_units: Some(vec!["cloakraid".into()]),
            advantage: false,
            income_multiplier: false,
        }),
    }
}

#[test]
fn a_preset_becomes_teams_without_its_spectator() {
    let teams = teams_of(&shared().participants);
    assert_eq!(teams.len(), 2);
    assert_eq!(teams[0].ai, None);
    assert_eq!(teams[0].ally, 0);
    assert_eq!(teams[1].ai.as_deref(), Some("CircuitAI"));
    assert_eq!(teams[1].ally, 1);
    assert_eq!(teams[1].colour, "1 0 0");
    assert_eq!(teams[1].id, 1);
}

#[test]
fn what_cannot_be_kept_is_said_rather_than_dropped() {
    assert_eq!(
        ignored(&shared()),
        vec![
            "Factions are not kept: Cortex. Zero-K picks its own.",
            "Handicaps are not kept - Splaunch writes no Handicap field.",
            "1 spectator(s) dropped - a scenario has none.",
            "Disabled units are not applied yet - Splaunch writes NumRestrictions=0.",
        ]
    );
}

#[test]
fn a_battle_you_only_watched_still_gives_you_a_team() {
    let mut watched = vec![seat("you", RANDOM_SIDE, 0, true)];
    for ally in [0, 0, 1, 1] {
        let mut ai = seat("ai", "Arm", ally, false);
        ai.ai = Some(PresetAi { short_name: "SurvivalAI".into(), kind: "lua".into(), name: None });
        watched.push(ai);
    }
    assert!(spectating_human(&watched));
    let teams = teams_of(&watched);
    assert_eq!(teams.iter().filter(|t| t.ai.is_none()).count(), 1);
    assert_eq!(teams.len(), 5);
    let notes = ignored(&Battle { participants: watched, start_pos_type: 3, restrictions: None });
    assert!(notes.iter().any(|n| n.contains("spectator in that battle")), "{notes:?}");
    assert_eq!(
        notes.last().map(String::as_str),
        Some("Start positions stay Splaunch's: a mission places its own, so startPosType 3 is not used.")
    );
    assert!(notes[0].contains("Arm, Arm, Arm, Arm"), "{notes:?}");
}

#[test]
fn an_ai_with_no_ai_named_is_still_not_the_human() {
    let teams = teams_of(&[seat("ai", "", 1, false)]);
    assert_eq!(teams[0].ai.as_deref(), Some("NullAI"));
}

#[test]
fn a_scenario_exports_its_teams_as_participants() {
    let teams = vec![
        Team { id: 0, ally: 0, ai: None, colour: "0 0 1".into() },
        Team { id: 1, ally: 1, ai: Some("CircuitAI".into()), colour: "1 0 0".into() },
    ];
    let seats = seats_of(&teams);
    assert_eq!(seats.len(), 2);
    assert_eq!(seats[0].id, "team0");
    assert_eq!(seats[0].kind, "you");
    assert_eq!(seats[0].name, "You");
    assert_eq!(seats[1].kind, "ai");
    assert_eq!(seats[1].ai.as_ref().map(|a| a.kind.as_str()), Some("native"));
    assert_eq!(seats[1].side, RANDOM_SIDE);
    assert_eq!(seats[1].colour, "1 0 0");
    assert_eq!(KIND, "preset");
    assert_eq!(KIND_VERSION, 1);
    // And back again: the same teams.
    assert_eq!(teams_of(&seats), teams);
}

#[test]
fn advantage_and_income_are_reported_together() {
    let b = Battle {
        participants: vec![seat("you", "", 0, false)],
        start_pos_type: -1,
        restrictions: Some(Limits { disabled_units: Some(vec![]), advantage: true, income_multiplier: false }),
    };
    assert_eq!(
        ignored(&b),
        vec![
            "Advantage and income multiplier are not applied yet.",
            "Start positions stay Splaunch's: a mission places its own, so startPosType -1 is not used.",
        ]
    );
}

#[test]
fn a_preset_keeps_what_it_does_not_speak_to() {
    let mut s = ScenarioFacts {
        map: "Old Map".into(),
        game: "Zero-K v1.14.8.0".into(),
        teams: vec![Team { id: 0, ally: 0, ai: None, colour: "0 0 1".into() }],
        units: vec![],
        outside: None,
        map_elmos: 4096,
        depth_elmos: 4096,
        goals: vec![],
    };
    apply(&mut s, "Icy Crater v4", "", vec![]);
    assert_eq!(s.map, "Icy Crater v4");
    assert_eq!(s.game, "Zero-K v1.14.8.0");
    assert_eq!(s.teams.len(), 1);
    let two = vec![
        Team { id: 0, ally: 0, ai: None, colour: "0 0 1".into() },
        Team { id: 1, ally: 1, ai: Some("NullAI".into()), colour: "1 0 0".into() },
    ];
    apply(&mut s, "Icy Crater v4", "Zero-K v1.15.0.0", two.clone());
    assert_eq!(s.game, "Zero-K v1.15.0.0");
    assert_eq!(s.teams, two);
}

#[test]
fn a_bool_modoption_reaches_the_script_as_one_and_zero() {
    assert_eq!(script_value(&ModValue::Flag(true)), "1");
    assert_eq!(script_value(&ModValue::Flag(false)), "0");
    assert_eq!(script_value(&ModValue::Text("fast".into())), "fast");
    assert_eq!(script_value(&ModValue::Empty), "");
    assert_eq!(script_value(&ModValue::Json("1000".into())), "1000");
}

#[test]
fn a_preset_with_nothing_to_drop_is_taken_whole() {
    let mut enemy = seat("ai", "", 1, false);
    enemy.ai = Some(PresetAi { short_name: "CircuitAI".into(), kind: "native".into(), name: None });
    let whole = Battle {
        participants: vec![seat("you", RANDOM_SIDE, 0, false), enemy],
        start_pos_type: 2,
        restrictions: None,
    };
    assert!(ignored(&whole).is_empty());
    let mut watched = whole.clone();
    watched.participants.push(seat("you", RANDOM_SIDE, 0, true));
    assert_eq!(ignored(&watched), vec!["1 spectator(s) dropped - a scenario has none."]);
}
