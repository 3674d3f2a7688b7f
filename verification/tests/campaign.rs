use splaunch::campaign::{
    is_encoded, payloads, problems, single, slug, verify_payloads, Campaign, CampaignMission,
};

#[test]
fn a_slug_is_safe_on_every_platform() {
    assert_eq!(slug("First Contact"), "first-contact");
    assert_eq!(slug("Mission 2: The Outpost"), "mission-2-the-outpost");
    assert_eq!(slug("  ../etc/passwd  "), "etc-passwd");
    assert_eq!(slug("???"), "mission");
}

// ------------------------------------------------------------------ own ---

fn mission(id: &str, name: &str, requires: &[&str]) -> CampaignMission {
    CampaignMission {
        id: id.to_string(),
        name: name.to_string(),
        map: "Comet Catcher Redux".to_string(),
        requires: requires.iter().map(|r| r.to_string()).collect(),
        summary: None,
    }
}

fn one_mission() -> (Campaign, Vec<(String, ())>) {
    let campaign = Campaign {
        format_version: 1,
        id: "first-contact".into(),
        name: "First Contact".into(),
        author: "Qrow".into(),
        version: "1.0.0".into(),
        description: "One mission.".into(),
        built_against: Some("Zero-K v1.14.8.0".into()),
        missions: vec![mission("01-first-contact", "First Contact", &[])],
    };
    (campaign, vec![("01-first-contact".into(), ())])
}

#[test]
fn a_sound_campaign_has_no_problems() {
    let (campaign, missions) = one_mission();
    assert!(problems(&campaign, &missions).is_empty());
}

#[test]
fn a_mission_that_needs_one_outside_the_campaign_is_named() {
    let (mut campaign, missions) = one_mission();
    campaign.missions[0].requires = vec!["02-nowhere".into()];
    assert_eq!(
        problems(&campaign, &missions),
        vec![
            "First Contact needs 02-nowhere, which is not a mission in this campaign.",
            "Every mission requires another, so none of them can be played first.",
        ]
    );
}

#[test]
fn a_campaign_where_every_mission_waits_is_refused() {
    let (mut campaign, mut missions) = one_mission();
    campaign.missions[0].requires = vec!["02-the-outpost".into()];
    campaign.missions.push(mission("02-the-outpost", "The Outpost", &["01-first-contact"]));
    missions.push(("02-the-outpost".into(), ()));
    let said = problems(&campaign, &missions);
    assert_eq!(said, vec!["Every mission requires another, so none of them can be played first."]);
}

#[test]
fn every_kind_of_problem_is_said_in_order() {
    let campaign = Campaign {
        format_version: 1,
        id: "x".into(),
        name: "   ".into(),
        author: String::new(),
        version: "1".into(),
        description: String::new(),
        built_against: None,
        missions: vec![mission("a", "Alpha", &["a"]), mission("a", "Again", &[])],
    };
    let said = problems(&campaign, &[] as &[(String, ())]);
    assert_eq!(
        said,
        vec![
            "The campaign has no name.",
            "The mission a is listed but has no scenario.",
            "Two missions share the id a.",
            "The mission a is listed but has no scenario.",
            "Alpha requires itself.",
        ]
    );
    let empty = Campaign { missions: vec![], ..campaign };
    assert_eq!(
        problems(&empty, &[] as &[(String, ())]),
        vec!["The campaign has no name.", "The campaign has no missions."]
    );
}

#[test]
fn a_single_scenario_makes_a_campaign_of_one() {
    let c = single("First Contact", "Comet Catcher Redux", "Zero-K v1.14.8.0", Some("Go."), "  Qrow ");
    assert_eq!(c.id, "first-contact");
    assert_eq!(c.author, "Qrow");
    assert_eq!(c.version, "1.0.0");
    assert_eq!(c.description, "Go.");
    assert_eq!(c.built_against.as_deref(), Some("Zero-K v1.14.8.0"));
    assert_eq!(c.missions.len(), 1);
    assert_eq!(c.missions[0].id, "first-contact");
    assert_eq!(c.missions[0].map, "Comet Catcher Redux");
    assert!(c.missions[0].requires.is_empty());
    assert!(problems(&c, &[("first-contact".to_string(), ())]).is_empty());
    let bare = single("???", "m", "  ", None, "");
    assert_eq!(bare.id, "mission");
    assert_eq!(bare.built_against, None);
    assert_eq!(bare.description, "");
}

#[test]
fn payloads_are_the_key_value_lines() {
    let script = "[GAME]\n{\n\tMapname=__SHIRO_MAP__;\n\t[MODOPTIONS]\n\t{\n\t\tbonusobjectiveconfig=abc-def;;\n\t\tnoelo=1;\n\t\t=x;\n\t}\r\n}\n";
    assert_eq!(
        payloads(script),
        vec![
            ("Mapname".to_string(), "__SHIRO_MAP__".to_string()),
            ("bonusobjectiveconfig".to_string(), "abc-def".to_string()),
            ("noelo".to_string(), "1".to_string()),
        ]
    );
}

#[test]
fn payload_keys_are_known_by_name_in_any_case() {
    assert!(is_encoded("bonusobjectiveconfig"));
    assert!(is_encoded("  PlanetMissionMapMarkers "));
    assert!(is_encoded("extrastartunits_3"));
    assert!(is_encoded("neutralstartunits_1"));
    assert!(!is_encoded("Mapname"));
    assert!(!is_encoded("extrastartunits"));
}

#[test]
fn an_underscore_in_a_payload_is_refused_with_its_byte() {
    assert!(verify_payloads("Mapname=__SHIRO_MAP__;\nbonusobjectiveconfig=abc-def;\n").is_ok());
    let err = verify_payloads("Mapname=__SHIRO_MAP__;\nfeaturestospawn=é_x;\n").unwrap_err();
    assert_eq!(
        err,
        "the featurestospawn payload carries a '_' at byte 2, which Zero-K's decoder reads as \
         end-of-data - this mission would start with nothing on the map"
    );
}

#[test]
fn a_mission_that_needs_one_outside_the_campaign_is_refused() {
    let (mut campaign, missions) = one_mission();
    campaign.missions[0].requires = vec!["02-nowhere".into()];
    let said = problems(&campaign, &missions);
    assert!(said.iter().any(|p| p.contains("02-nowhere")), "{said:?}");
}

#[test]
fn a_campaign_with_no_first_mission_is_refused() {
    let (mut campaign, mut missions) = one_mission();
    let second = CampaignMission {
        id: "02-the-outpost".into(),
        name: "The Outpost".into(),
        map: "Icy Crater v4".into(),
        requires: vec!["01-first-contact".into()],
        summary: None,
    };
    campaign.missions[0].requires = vec!["02-the-outpost".into()];
    campaign.missions.push(second);
    missions.push(("02-the-outpost".into(), ()));
    let said = problems(&campaign, &missions);
    assert!(said.iter().any(|p| p.contains("played first")), "{said:?}");
}

#[test]
fn a_listed_mission_with_no_scenario_is_refused() {
    let (campaign, _) = one_mission();
    let said = problems(&campaign, &[] as &[(String, ())]);
    assert!(said.iter().any(|p| p.contains("no scenario")), "{said:?}");
}

#[test]
fn a_slug_holds_only_lower_case_letters_digits_and_inner_dashes() {
    for name in ["Élan -- vital!", "--x--", "A_B.C", "日本", "  9 lives  "] {
        let s = slug(name);
        assert!(!s.is_empty());
        assert!(s.chars().all(|c| c.is_ascii_lowercase() || c.is_ascii_digit() || c == '-'), "{s}");
        assert!(!s.starts_with('-') && !s.ends_with('-'), "{s}");
    }
    assert_eq!(slug("Élan -- vital!"), "lan-vital");
    assert_eq!(slug("A_B.C"), "a-b-c");
}

#[test]
fn payloads_that_pass_carry_no_underscore() {
    let script = "Mapname=__SHIRO_MAP__;\nbonusobjectiveconfig=e30-;\nextrastartunits_1=abc;\n";
    assert!(verify_payloads(script).is_ok());
    for (key, value) in payloads(script) {
        if is_encoded(&key) {
            assert!(!value.contains('_'));
        }
    }
}

#[test]
fn a_slug_is_its_own_slug_and_never_doubles_a_dash() {
    for name in ["First Contact", "--a--b--", "Mission 2: The Outpost", "???", "ÄÖÜ x"] {
        let once = slug(name);
        assert_eq!(slug(&once), once, "{name:?}");
        assert!(!once.contains("--"), "{once:?}");
    }
    assert_eq!(slug("a -- b"), "a-b");
}

#[test]
fn only_the_missions_without_a_scenario_are_named() {
    let (mut campaign, missions) = one_mission();
    campaign.missions.push(mission("02-outpost", "The Outpost", &["01-first-contact"]));
    let said = problems(&campaign, &missions);
    assert_eq!(said, vec!["The mission 02-outpost is listed but has no scenario."]);
    let both = vec![("01-first-contact".to_string(), ()), ("02-outpost".to_string(), ())];
    assert!(problems(&campaign, &both).is_empty());
}
