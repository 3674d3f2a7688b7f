//! What a scenario tells Zero-K's mission gadget: the modoptions that arm it
//! and carry the objectives, briefing, markers, features and defeat
//! conditions, and the placed units, forty to a custom key.
//!
//! Every number that is floating point in the editor - positions, build
//! progress, experience, terraform heights - arrives here already written
//! out in decimal; what is done with it is decided here.
use vstd::prelude::*;
use crate::customkey::{encode, lua_indexed, lua_indexed_text, lua_list, lua_list_range, lua_list_text, lua_record, lua_record_text, rows_view, indexed_view, spec_encode};
use crate::game::strings_view;
use crate::scenario::{commander_from, commander_index, commands, spec_problems, field, fields_view, goal_fields, spec_goal_fields, unit_list, Defeat, FieldValue, FieldView, Objective, Placement, ScenarioFacts, DEFAULT_DIFFICULTY};
use crate::scenario::{reads_as, distinct_names, joined_fields, lemma_joined_says, lemma_says_field, names_field, says, silent};
use crate::script::{assemble_script, brace_count, brace_free, law_a_script_is_balanced, law_the_modoptions_are_written_in_order, modoptions, option_lines, option_pairs, pairs_of, spec_script, units_view};
use crate::customkey::{law_a_printable_payload_survives, law_tables_are_printable};
use crate::codec::url_alphabet;
use crate::fill::no_dunder;
use crate::text::{chars_of, concat, decimal, decimal_string, owned, string_of, trim, trimmed};

verus! {

/// How many placed units ride in one custom key: Zero-K's own script
/// builder chunks them forty to a key, since a start script value has a
/// length limit.
pub const START_UNITS_BLOCK: usize = 40;

/// One placed unit, as the gadget reads it, with its floating-point values
/// written out in decimal.
#[derive(Debug, Clone, PartialEq)]
pub struct PlacedFacts {
    /// Zero-K's unit name, e.g. `cloakraid`.
    pub unit: String,
    pub team: u32,
    /// Map position in elmos.
    pub x: String,
    pub z: String,
    /// The same position rounded to whole elmos, for a commander's start.
    pub at_x: i64,
    pub at_z: i64,
    /// Quarter turns, 0-3.
    pub facing: Option<u32>,
    pub build_progress: Option<String>,
    pub experience: Option<String>,
    pub movestate: Option<u32>,
    pub invincible: Option<bool>,
    pub terraform_height: Option<String>,
    /// Gaia's rather than its team's.
    pub neutral: bool,
    /// Points to walk, in order, for ever.
    pub patrol: Vec<(String, String)>,
    /// Patrol on the spot.
    pub self_patrol: bool,
    pub difficulty_at_least: Option<u32>,
    pub difficulty_at_most: Option<u32>,
}

/// A label on the map.
#[derive(Debug, Clone, PartialEq)]
pub struct MarkerFacts {
    pub x: String,
    pub z: String,
    pub text: String,
}

/// A wreck, rock or other feature placed on the map.
#[derive(Debug, Clone, PartialEq)]
pub struct FeatureFacts {
    pub name: String,
    pub x: String,
    pub z: String,
    pub facing: Option<u32>,
}

/// What the mission gadget is told of a scenario besides its teams and
/// goals.
#[derive(Debug, Clone)]
pub struct MissionFacts {
    pub name: String,
    /// Free-text objectives, shown in the briefing.
    pub objectives: Vec<String>,
    pub briefing: Option<String>,
    /// 1 easy, 2 normal, 3 hard.
    pub difficulty: u32,
    pub markers: Vec<MarkerFacts>,
    pub features: Vec<FeatureFacts>,
    pub defeat: Vec<Defeat>,
    /// The placed units, in the scenario's order.
    pub units: Vec<PlacedFacts>,
}

// ----------------------------------------------------------- placed unit ---

pub open spec fn decimal_field(k: Seq<char>, v: Option<String>) -> Seq<(Seq<char>, FieldView)> {
    match v {
        Some(t) => seq![(k, FieldView::Decimal(t@))],
        None => Seq::empty(),
    }
}

pub open spec fn number_field(k: Seq<char>, v: Option<u32>) -> Seq<(Seq<char>, FieldView)> {
    match v {
        Some(n) => seq![(k, FieldView::Number(n))],
        None => Seq::empty(),
    }
}

pub open spec fn facing_of(f: Option<u32>) -> u32 {
    match f {
        Some(n) => n,
        None => 0,
    }
}

/// The fields one placed unit is sent with. `name`, the position and the
/// facing always, a missing facing as 0: the gadget hands it to the engine
/// as a positional argument. The rest only when set, since the gadget tells
/// a field's absence from any value of it; `invincible` only when true. A
/// route of more than one point wins over patrolling on the spot, because
/// the gadget takes the first of them it finds.
pub open spec fn spec_placed_fields(u: PlacedFacts) -> Seq<(Seq<char>, FieldView)> {
    seq![
        ("name"@, FieldView::Text(u.unit@)),
        ("x"@, FieldView::Decimal(u.x@)),
        ("z"@, FieldView::Decimal(u.z@)),
        ("facing"@, FieldView::Number(facing_of(u.facing))),
    ] + decimal_field("buildProgress"@, u.build_progress) + decimal_field("experience"@, u.experience)
        + number_field("movestate"@, u.movestate) + if u.invincible == Some(true) {
        seq![("invincible"@, FieldView::Flag(true))]
    } else {
        Seq::empty()
    } + decimal_field("terraformHeight"@, u.terraform_height) + number_field(
        "difficultyAtLeast"@,
        u.difficulty_at_least,
    ) + number_field("difficultyAtMost"@, u.difficulty_at_most) + if u.patrol@.len() > 1 {
        seq![("patrolRoute"@, FieldView::Points(pairs_of(u.patrol@)))]
    } else if u.self_patrol {
        seq![("selfPatrol"@, FieldView::Flag(true))]
    } else {
        Seq::empty()
    }
}

fn decimal_into(out: &mut Vec<(String, FieldValue)>, name: &str, value: &Option<String>)
    ensures
        fields_view(final(out)@) == fields_view(old(out)@) + decimal_field(name@, *value),
{
    match value {
        Some(t) => {
            field(out, name, FieldValue::Decimal(owned(t.as_str())));
        },
        None => {
            assert(fields_view(out@) =~= fields_view(out@) + decimal_field(name@, *value));
        },
    }
}

fn number_into(out: &mut Vec<(String, FieldValue)>, name: &str, value: Option<u32>)
    ensures
        fields_view(final(out)@) == fields_view(old(out)@) + number_field(name@, value),
{
    match value {
        Some(n) => {
            field(out, name, FieldValue::Number(n));
        },
        None => {
            assert(fields_view(out@) =~= fields_view(out@) + number_field(name@, value));
        },
    }
}

fn copy_pairs(v: &Vec<(String, String)>) -> (r: Vec<(String, String)>)
    ensures
        pairs_of(r@) == pairs_of(v@),
{
    let mut r: Vec<(String, String)> = Vec::new();
    let mut i: usize = 0;
    while i < v.len()
        invariant
            i <= v@.len(),
            pairs_of(r@) == pairs_of(v@).take(i as int),
        decreases v.len() - i,
    {
        let ghost before = pairs_of(r@);
        r.push((owned(v[i].0.as_str()), owned(v[i].1.as_str())));
        assert(pairs_of(r@) =~= before.push((v@[i as int].0@, v@[i as int].1@)));
        i = i + 1;
        assert(pairs_of(r@) =~= pairs_of(v@).take(i as int));
    }
    assert(pairs_of(v@).take(v@.len() as int) =~= pairs_of(v@));
    r
}

/// One placed unit, as the fields the gadget reads.
pub fn placed_fields(u: &PlacedFacts) -> (r: Vec<(String, FieldValue)>)
    ensures
        fields_view(r@) == spec_placed_fields(*u),
{
    let mut t: Vec<(String, FieldValue)> = Vec::new();
    field(&mut t, "name", FieldValue::Text(owned(u.unit.as_str())));
    field(&mut t, "x", FieldValue::Decimal(owned(u.x.as_str())));
    field(&mut t, "z", FieldValue::Decimal(owned(u.z.as_str())));
    let facing: u32 = match u.facing {
        Some(n) => n,
        None => 0,
    };
    field(&mut t, "facing", FieldValue::Number(facing));
    let ghost head = fields_view(t@);
    decimal_into(&mut t, "buildProgress", &u.build_progress);
    decimal_into(&mut t, "experience", &u.experience);
    number_into(&mut t, "movestate", u.movestate);
    let ghost mid = fields_view(t@);
    match u.invincible {
        Some(true) => {
            field(&mut t, "invincible", FieldValue::Flag(true));
        },
        _ => {},
    }
    let ghost flagged = fields_view(t@);
    decimal_into(&mut t, "terraformHeight", &u.terraform_height);
    number_into(&mut t, "difficultyAtLeast", u.difficulty_at_least);
    number_into(&mut t, "difficultyAtMost", u.difficulty_at_most);
    let ghost before_route = fields_view(t@);
    if u.patrol.len() > 1 {
        field(&mut t, "patrolRoute", FieldValue::Points(copy_pairs(&u.patrol)));
    } else if u.self_patrol {
        field(&mut t, "selfPatrol", FieldValue::Flag(true));
    }
    assert(fields_view(t@) =~= spec_placed_fields(*u));
    t
}

// ------------------------------------------------------------ unit keys ---

pub open spec fn chunk_count(n: nat) -> nat {
    (n + 39) / 40
}

/// The `k`th forty of `rows`, counting from 0.
pub open spec fn chunk<A>(rows: Seq<A>, k: int) -> Seq<A> {
    let lo = 40 * k;
    let hi = if 40 * k + 40 < rows.len() {
        40 * k + 40
    } else {
        rows.len() as int
    };
    rows.subrange(lo, hi)
}

/// The first `k` keys: `prefix_1` onwards, each carrying the next forty rows.
pub open spec fn unit_keys(rows: Seq<Seq<(Seq<char>, FieldView)>>, prefix: Seq<char>, k: nat) -> Seq<
    (Seq<char>, Seq<char>),
>
    decreases k,
{
    if k == 0 {
        Seq::empty()
    } else {
        let j = (k - 1) as nat;
        unit_keys(rows, prefix, j).push(
            (prefix + "_"@ + decimal(k), spec_encode(lua_list(chunk(rows, j as int)))),
        )
    }
}

/// Units chunked into the numbered custom keys the gadget walks: it reads
/// `prefix_1`, `prefix_2` and so on until one is missing, so the numbering
/// starts at 1 and has no holes.
pub open spec fn spec_unit_keys(rows: Seq<Seq<(Seq<char>, FieldView)>>, prefix: Seq<char>) -> Seq<
    (Seq<char>, Seq<char>),
> {
    unit_keys(rows, prefix, chunk_count(rows.len()))
}

/// Placed units, already as their fields, as the custom keys Zero-K reads
/// them from: forty to a key, numbered from 1.
pub fn start_unit_keys(rows: &[Vec<(String, FieldValue)>], prefix: &str) -> (r: Vec<(String, String)>)
    ensures
        pairs_of(r@) == spec_unit_keys(rows_view(rows@), prefix@),
{
    let ghost v = rows_view(rows@);
    let n = rows.len();
    let mut out: Vec<(String, String)> = Vec::new();
    let mut lo: usize = 0;
    let mut k: usize = 0;
    let stem = concat(prefix, "_");
    while lo < n
        invariant
            n == rows@.len(),
            v == rows_view(rows@),
            stem@ == prefix@ + "_"@,
            lo <= n,
            lo < n ==> lo == 40 * k && k < chunk_count(n as nat),
            lo == n ==> k == chunk_count(n as nat),
            pairs_of(out@) == unit_keys(v, prefix@, k as nat),
        decreases n - lo,
    {
        let hi: usize = if n - lo > 40 {
            lo + 40
        } else {
            n
        };
        let list = lua_list_range(rows, lo, hi);
        let mut name = owned(stem.as_str());
        name.append(decimal_string((k + 1) as u128).as_str());
        let payload = encode(list.as_str());
        let ghost before = pairs_of(out@);
        assert(chunk(v, k as int) =~= v.subrange(lo as int, hi as int));
        out.push((name, payload));
        assert(pairs_of(out@) =~= before.push((prefix@ + "_"@ + decimal((k + 1) as nat), spec_encode(lua_list(chunk(v, k as int))))));
        k = k + 1;
        lo = hi;
    }
    out
}

// ------------------------------------------------------------ modoptions ---

pub open spec fn goal_rows(goals: Seq<Objective>) -> Seq<Seq<(Seq<char>, FieldView)>> {
    goals.map_values(|o: Objective| spec_goal_fields(o))
}

pub open spec fn marker_fields(mk: MarkerFacts) -> Seq<(Seq<char>, FieldView)> {
    seq![("x"@, FieldView::Decimal(mk.x@)), ("z"@, FieldView::Decimal(mk.z@)), ("text"@, FieldView::Text(mk.text@))]
}

/// A feature, its facing written as 0 when absent: the gadget multiplies
/// by it.
pub open spec fn feature_fields(f: FeatureFacts) -> Seq<(Seq<char>, FieldView)> {
    seq![
        ("name"@, FieldView::Text(f.name@)),
        ("x"@, FieldView::Decimal(f.x@)),
        ("z"@, FieldView::Decimal(f.z@)),
        ("facing"@, FieldView::Number(facing_of(f.facing))),
    ]
}

pub open spec fn marker_rows(markers: Seq<MarkerFacts>) -> Seq<Seq<(Seq<char>, FieldView)>> {
    markers.map_values(|mk: MarkerFacts| marker_fields(mk))
}

pub open spec fn feature_rows(features: Seq<FeatureFacts>) -> Seq<Seq<(Seq<char>, FieldView)>> {
    features.map_values(|f: FeatureFacts| feature_fields(f))
}

/// The free-text objectives that say something, in order and as written.
pub open spec fn notes(objectives: Seq<String>) -> Seq<Seq<char>>
    decreases objectives.len(),
{
    if objectives.len() == 0 {
        Seq::empty()
    } else {
        notes(objectives.drop_last()) + if trim(objectives.last()@).len() > 0 {
            seq![objectives.last()@]
        } else {
            Seq::empty()
        }
    }
}

/// The briefing, trimmed; nothing where there is none.
pub open spec fn briefing_text(b: Option<String>) -> Seq<char> {
    match b {
        Some(t) => trim(t@),
        None => Seq::empty(),
    }
}

/// The briefing window's table: the scenario's name, its briefing, and the
/// free-text objectives as tips where there are any.
pub open spec fn info_fields(m: MissionFacts) -> Seq<(Seq<char>, FieldView)> {
    seq![("name"@, FieldView::Text(m.name@)), ("description"@, FieldView::Text(briefing_text(m.briefing)))]
        + if notes(m.objectives@).len() > 0 {
        seq![("tips"@, FieldView::Notes(notes(m.objectives@)))]
    } else {
        Seq::empty()
    }
}

/// One side's defeat condition: the units it loses with, where it names
/// any, and its clock, where it has one.
pub open spec fn defeat_fields(d: Defeat) -> Seq<(Seq<char>, FieldView)> {
    let vital = if d.vital_units@.len() > 0 {
        seq![("vitalUnitTypes"@, FieldView::Names(strings_view(d.vital_units@)))]
    } else {
        Seq::empty()
    };
    vital + number_field("loseAfterSeconds"@, d.lose_after_seconds)
}

/// Defeat conditions under their allyteams, as the gadget indexes them.
pub open spec fn defeat_rows(defeat: Seq<Defeat>) -> Seq<(u32, Seq<(Seq<char>, FieldView)>)> {
    defeat.map_values(|d: Defeat| (d.ally, defeat_fields(d)))
}

/// Gaia's units among the first `n`, as their fields.
pub open spec fn neutral_rows(units: Seq<PlacedFacts>, n: int) -> Seq<Seq<(Seq<char>, FieldView)>>
    decreases n,
{
    if n <= 0 || n > units.len() {
        Seq::empty()
    } else {
        neutral_rows(units, n - 1) + if units[n - 1].neutral {
            seq![spec_placed_fields(units[n - 1])]
        } else {
            Seq::empty()
        }
    }
}

pub open spec fn optional(c: bool, k: Seq<char>, v: Seq<char>) -> Seq<(Seq<char>, Seq<char>)> {
    if c {
        seq![(k, v)]
    } else {
        Seq::empty()
    }
}

/// The mission modoptions, in order. The mission engine is armed and
/// `fixedstartpos` set first; the objectives, a difficulty other than
/// Zero-K's default, the markers, the features and the defeat conditions
/// only where the scenario has them; the briefing always, since the
/// briefing window fails without one; Gaia's units last.
pub open spec fn spec_mission_modoptions(s: ScenarioFacts, m: MissionFacts) -> Seq<(Seq<char>, Seq<char>)> {
    mission_head(s, m) + mission_tail(m)
}

/// The modoptions up to the briefing.
pub open spec fn mission_head(s: ScenarioFacts, m: MissionFacts) -> Seq<(Seq<char>, Seq<char>)> {
    seq![("singleplayercampaignbattleid"@, "splaunch"@), ("fixedstartpos"@, "1"@)] + optional(
        s.goals@.len() > 0,
        "bonusobjectiveconfig"@,
        spec_encode(lua_list(goal_rows(s.goals@))),
    ) + optional(m.difficulty != DEFAULT_DIFFICULTY, "planetmissiondifficulty"@, decimal(m.difficulty as nat))
        + optional(
        m.markers@.len() > 0,
        "planetmissionmapmarkers"@,
        spec_encode(lua_list(marker_rows(m.markers@))),
    ) + optional(m.features@.len() > 0, "featurestospawn"@, spec_encode(lua_list(feature_rows(m.features@))))
}

/// The briefing and what follows it.
pub open spec fn mission_tail(m: MissionFacts) -> Seq<(Seq<char>, Seq<char>)> {
    seq![("planetmissioninformationtext"@, spec_encode(lua_record(info_fields(m))))] + optional(
        m.defeat@.len() > 0,
        "defeatconditionconfig"@,
        spec_encode(lua_indexed(defeat_rows(m.defeat@))),
    ) + spec_unit_keys(neutral_rows(m.units@, m.units@.len() as int), "neutralstartunits"@)
}

fn push_row(rows: &mut Vec<Vec<(String, FieldValue)>>, row: Vec<(String, FieldValue)>)
    ensures
        rows_view(final(rows)@) == rows_view(old(rows)@).push(fields_view(row@)),
{
    let ghost before = rows_view(rows@);
    rows.push(row);
    assert(rows_view(rows@) =~= before.push(fields_view(row@)));
}

fn goal_table(goals: &Vec<Objective>) -> (r: Vec<Vec<(String, FieldValue)>>)
    ensures
        rows_view(r@) == goal_rows(goals@),
{
    let mut rows: Vec<Vec<(String, FieldValue)>> = Vec::new();
    let mut i: usize = 0;
    while i < goals.len()
        invariant
            i <= goals@.len(),
            rows_view(rows@) == goal_rows(goals@).take(i as int),
        decreases goals.len() - i,
    {
        push_row(&mut rows, goal_fields(&goals[i]));
        i = i + 1;
        assert(rows_view(rows@) =~= goal_rows(goals@).take(i as int));
    }
    assert(goal_rows(goals@).take(goals@.len() as int) =~= goal_rows(goals@));
    rows
}

fn marker_table(markers: &Vec<MarkerFacts>) -> (r: Vec<Vec<(String, FieldValue)>>)
    ensures
        rows_view(r@) == marker_rows(markers@),
{
    let mut rows: Vec<Vec<(String, FieldValue)>> = Vec::new();
    let mut i: usize = 0;
    while i < markers.len()
        invariant
            i <= markers@.len(),
            rows_view(rows@) == marker_rows(markers@).take(i as int),
        decreases markers.len() - i,
    {
        let mk = &markers[i];
        let mut t: Vec<(String, FieldValue)> = Vec::new();
        field(&mut t, "x", FieldValue::Decimal(owned(mk.x.as_str())));
        field(&mut t, "z", FieldValue::Decimal(owned(mk.z.as_str())));
        field(&mut t, "text", FieldValue::Text(owned(mk.text.as_str())));
        assert(fields_view(t@) =~= marker_fields(*mk));
        push_row(&mut rows, t);
        i = i + 1;
        assert(rows_view(rows@) =~= marker_rows(markers@).take(i as int));
    }
    assert(marker_rows(markers@).take(markers@.len() as int) =~= marker_rows(markers@));
    rows
}

fn feature_table(features: &Vec<FeatureFacts>) -> (r: Vec<Vec<(String, FieldValue)>>)
    ensures
        rows_view(r@) == feature_rows(features@),
{
    let mut rows: Vec<Vec<(String, FieldValue)>> = Vec::new();
    let mut i: usize = 0;
    while i < features.len()
        invariant
            i <= features@.len(),
            rows_view(rows@) == feature_rows(features@).take(i as int),
        decreases features.len() - i,
    {
        let f = &features[i];
        let mut t: Vec<(String, FieldValue)> = Vec::new();
        field(&mut t, "name", FieldValue::Text(owned(f.name.as_str())));
        field(&mut t, "x", FieldValue::Decimal(owned(f.x.as_str())));
        field(&mut t, "z", FieldValue::Decimal(owned(f.z.as_str())));
        let facing: u32 = match f.facing {
            Some(n) => n,
            None => 0,
        };
        field(&mut t, "facing", FieldValue::Number(facing));
        assert(fields_view(t@) =~= feature_fields(*f));
        push_row(&mut rows, t);
        i = i + 1;
        assert(rows_view(rows@) =~= feature_rows(features@).take(i as int));
    }
    assert(feature_rows(features@).take(features@.len() as int) =~= feature_rows(features@));
    rows
}

fn note_list(objectives: &Vec<String>) -> (r: Vec<String>)
    ensures
        strings_view(r@) == notes(objectives@),
{
    let mut out: Vec<String> = Vec::new();
    let mut i: usize = 0;
    while i < objectives.len()
        invariant
            i <= objectives@.len(),
            strings_view(out@) == notes(objectives@.take(i as int)),
        decreases objectives.len() - i,
    {
        let ghost before = strings_view(out@);
        let cs = chars_of(objectives[i].as_str());
        let t = trimmed(cs.as_slice());
        assert(objectives@.take(i + 1).drop_last() =~= objectives@.take(i as int));
        if t.len() > 0 {
            out.push(owned(objectives[i].as_str()));
            assert(strings_view(out@) =~= before.push(objectives@[i as int]@));
        }
        i = i + 1;
        assert(strings_view(out@) =~= notes(objectives@.take(i as int)));
    }
    assert(objectives@.take(objectives@.len() as int) =~= objectives@);
    out
}

fn info_table(m: &MissionFacts) -> (r: Vec<(String, FieldValue)>)
    ensures
        fields_view(r@) == info_fields(*m),
{
    let mut t: Vec<(String, FieldValue)> = Vec::new();
    field(&mut t, "name", FieldValue::Text(owned(m.name.as_str())));
    let description = match &m.briefing {
        Some(b) => {
            let cs = chars_of(b.as_str());
            let tr = trimmed(cs.as_slice());
            string_of(tr.as_slice())
        },
        None => String::new(),
    };
    field(&mut t, "description", FieldValue::Text(description));
    let tips = note_list(&m.objectives);
    if tips.len() > 0 {
        field(&mut t, "tips", FieldValue::Notes(tips));
    }
    assert(fields_view(t@) =~= info_fields(*m));
    t
}

fn defeat_table(defeat: &Vec<Defeat>) -> (r: Vec<(u32, Vec<(String, FieldValue)>)>)
    ensures
        indexed_view(r@) == defeat_rows(defeat@),
{
    let mut rows: Vec<(u32, Vec<(String, FieldValue)>)> = Vec::new();
    let mut i: usize = 0;
    while i < defeat.len()
        invariant
            i <= defeat@.len(),
            indexed_view(rows@) == defeat_rows(defeat@).take(i as int),
        decreases defeat.len() - i,
    {
        let d = &defeat[i];
        let mut t: Vec<(String, FieldValue)> = Vec::new();
        if d.vital_units.len() > 0 {
            field(&mut t, "vitalUnitTypes", unit_list(d.vital_units.as_slice()));
        }
        number_into(&mut t, "loseAfterSeconds", d.lose_after_seconds);
        assert(fields_view(t@) =~= defeat_fields(*d));
        let ghost before = indexed_view(rows@);
        rows.push((d.ally, t));
        assert(indexed_view(rows@) =~= before.push((d.ally, defeat_fields(*d))));
        i = i + 1;
        assert(indexed_view(rows@) =~= defeat_rows(defeat@).take(i as int));
    }
    assert(defeat_rows(defeat@).take(defeat@.len() as int) =~= defeat_rows(defeat@));
    rows
}

fn neutral_table(units: &Vec<PlacedFacts>) -> (r: Vec<Vec<(String, FieldValue)>>)
    ensures
        rows_view(r@) == neutral_rows(units@, units@.len() as int),
{
    let mut rows: Vec<Vec<(String, FieldValue)>> = Vec::new();
    let mut i: usize = 0;
    while i < units.len()
        invariant
            i <= units@.len(),
            rows_view(rows@) == neutral_rows(units@, i as int),
        decreases units.len() - i,
    {
        if units[i].neutral {
            push_row(&mut rows, placed_fields(&units[i]));
        }
        i = i + 1;
    }
    rows
}

fn option(out: &mut Vec<(String, String)>, k: &str, v: String)
    ensures
        pairs_of(final(out)@) == pairs_of(old(out)@).push((k@, v@)),
{
    let ghost before = pairs_of(out@);
    out.push((owned(k), v));
    assert(pairs_of(out@) =~= before.push((k@, v@)));
}

fn head_options(s: &ScenarioFacts, m: &MissionFacts) -> (r: Vec<(String, String)>)
    ensures
        pairs_of(r@) == mission_head(*s, *m),
{
    let mut out: Vec<(String, String)> = Vec::new();
    option(&mut out, "singleplayercampaignbattleid", owned("splaunch"));
    option(&mut out, "fixedstartpos", owned("1"));
    let ghost p0 = pairs_of(out@);
    assert(p0 =~= seq![("singleplayercampaignbattleid"@, "splaunch"@), ("fixedstartpos"@, "1"@)]);
    if s.goals.len() > 0 {
        let rows = goal_table(&s.goals);
        option(&mut out, "bonusobjectiveconfig", encode(lua_list_text(rows.as_slice()).as_str()));
    }
    let ghost p1 = pairs_of(out@);
    assert(p1 =~= p0 + optional(
        s.goals@.len() > 0,
        "bonusobjectiveconfig"@,
        spec_encode(lua_list(goal_rows(s.goals@))),
    ));
    if m.difficulty != DEFAULT_DIFFICULTY {
        option(&mut out, "planetmissiondifficulty", decimal_string(m.difficulty as u128));
    }
    let ghost p2 = pairs_of(out@);
    assert(p2 =~= p1 + optional(m.difficulty != DEFAULT_DIFFICULTY, "planetmissiondifficulty"@, decimal(m.difficulty as nat)));
    if m.markers.len() > 0 {
        let rows = marker_table(&m.markers);
        option(&mut out, "planetmissionmapmarkers", encode(lua_list_text(rows.as_slice()).as_str()));
    }
    let ghost p3 = pairs_of(out@);
    assert(p3 =~= p2 + optional(
        m.markers@.len() > 0,
        "planetmissionmapmarkers"@,
        spec_encode(lua_list(marker_rows(m.markers@))),
    ));
    if m.features.len() > 0 {
        let rows = feature_table(&m.features);
        option(&mut out, "featurestospawn", encode(lua_list_text(rows.as_slice()).as_str()));
    }
    let ghost p4 = pairs_of(out@);
    assert(p4 =~= p3 + optional(m.features@.len() > 0, "featurestospawn"@, spec_encode(lua_list(feature_rows(m.features@)))));
    out
}

fn tail_options(m: &MissionFacts) -> (r: Vec<(String, String)>)
    ensures
        pairs_of(r@) == mission_tail(*m),
{
    let mut out: Vec<(String, String)> = Vec::new();
    let info = info_table(m);
    option(&mut out, "planetmissioninformationtext", encode(lua_record_text(&info).as_str()));
    let ghost p5 = pairs_of(out@);
    if m.defeat.len() > 0 {
        let rows = defeat_table(&m.defeat);
        option(&mut out, "defeatconditionconfig", encode(lua_indexed_text(rows.as_slice()).as_str()));
    }
    let ghost p6 = pairs_of(out@);
    assert(p6 =~= p5 + optional(
        m.defeat@.len() > 0,
        "defeatconditionconfig"@,
        spec_encode(lua_indexed(defeat_rows(m.defeat@))),
    ));
    let neutral = neutral_table(&m.units);
    let mut keys = start_unit_keys(neutral.as_slice(), "neutralstartunits");
    let ghost k = pairs_of(keys@);
    out.append(&mut keys);
    assert(pairs_of(out@) =~= p6 + k);
    out
}

/// The mission modoptions for a scenario, as `(key, value)` pairs, the
/// tables among them encoded.
pub fn mission_modoptions(s: &ScenarioFacts, m: &MissionFacts) -> (r: Vec<(String, String)>)
    ensures
        pairs_of(r@) == spec_mission_modoptions(*s, *m),
{
    let mut out = head_options(s, m);
    let mut tail = tail_options(m);
    let ghost h = pairs_of(out@);
    let ghost t = pairs_of(tail@);
    out.append(&mut tail);
    assert(pairs_of(out@) =~= h + t);
    out
}

// ---------------------------------------------------------------- script ---

/// The checks' placed units and the gadget's describe the same units, in
/// the same order.
pub open spec fn agrees(placements: Seq<Placement>, units: Seq<PlacedFacts>) -> bool {
    &&& placements.len() == units.len()
    &&& forall|i: int|
        0 <= i < placements.len() ==> (#[trigger] placements[i]).unit@ == units[i].unit@ && placements[i].team
            == units[i].team && placements[i].neutral == units[i].neutral
}

/// A team's own units among the first `n`, as their fields, leaving out the
/// one at `skip`.
pub open spec fn team_rows(units: Seq<PlacedFacts>, team: u32, skip: Option<int>, n: int) -> Seq<
    Seq<(Seq<char>, FieldView)>,
>
    decreases n,
{
    if n <= 0 || n > units.len() {
        Seq::empty()
    } else {
        let u = units[n - 1];
        team_rows(units, team, skip, n - 1) + if !u.neutral && u.team == team && skip != Some(n - 1) {
            seq![spec_placed_fields(u)]
        } else {
            Seq::empty()
        }
    }
}

/// Where team `i`'s commander arrives: where the author placed it, and
/// where there is none, where the caller worked out it should.
pub open spec fn start_of(s: ScenarioFacts, m: MissionFacts, fallback: Seq<(i64, i64)>, i: int) -> (i64, i64) {
    match commander_from(s.units@, s.teams@[i].id, 0) {
        Some(c) => (m.units@[c].at_x, m.units@[c].at_z),
        None => fallback[i],
    }
}

pub open spec fn spec_starts(s: ScenarioFacts, m: MissionFacts, fallback: Seq<(i64, i64)>) -> Seq<(i64, i64)> {
    Seq::new(s.teams@.len(), |i: int| start_of(s, m, fallback, i))
}

/// Team `i`'s placed units as its custom keys: its own units but for its
/// commander, which the game spawns at its start.
pub open spec fn team_keys(s: ScenarioFacts, m: MissionFacts, i: int) -> Seq<(Seq<char>, Seq<char>)> {
    let team = s.teams@[i].id;
    spec_unit_keys(
        team_rows(m.units@, team, commander_from(s.units@, team, 0), m.units@.len() as int),
        "extrastartunits"@,
    )
}

pub open spec fn spec_team_keys(s: ScenarioFacts, m: MissionFacts) -> Seq<Seq<(Seq<char>, Seq<char>)>> {
    Seq::new(s.teams@.len(), |i: int| team_keys(s, m, i))
}

/// The script a sound scenario compiles to.
pub open spec fn spec_compiled(
    s: ScenarioFacts,
    m: MissionFacts,
    player: Seq<char>,
    battle: Seq<(Seq<char>, Seq<char>)>,
    fallback: Seq<(i64, i64)>,
) -> Seq<char> {
    spec_script(s, player, battle, spec_mission_modoptions(s, m), spec_starts(s, m, fallback), spec_team_keys(s, m))
}

proof fn lemma_commander_from(units: Seq<Placement>, team: u32, i: int)
    ensures
        commander_from(units, team, i) matches Some(k) ==> i <= k < units.len() && commands(units[k], team),
    decreases units.len() - i,
{
    if 0 <= i < units.len() && !commands(units[i], team) {
        lemma_commander_from(units, team, i + 1);
    }
}

fn team_table(units: &Vec<PlacedFacts>, team: u32, skip: Option<usize>) -> (r: Vec<Vec<(String, FieldValue)>>)
    ensures
        rows_view(r@) == team_rows(
            units@,
            team,
            match skip {
                Some(j) => Some(j as int),
                None => None,
            },
            units@.len() as int,
        ),
{
    let ghost sk: Option<int> = match skip {
        Some(j) => Some(j as int),
        None => None,
    };
    let mut rows: Vec<Vec<(String, FieldValue)>> = Vec::new();
    let mut i: usize = 0;
    while i < units.len()
        invariant
            i <= units@.len(),
            sk == match skip {
                Some(j) => Some(j as int),
                None => None::<int>,
            },
            rows_view(rows@) == team_rows(units@, team, sk, i as int),
        decreases units.len() - i,
    {
        let u = &units[i];
        let skipped = match skip {
            Some(j) => j == i,
            None => false,
        };
        if !u.neutral && u.team == team && !skipped {
            push_row(&mut rows, placed_fields(u));
        }
        i = i + 1;
    }
    rows
}

/// Compile a scenario to a Spring start script, or say the first thing
/// wrong with it. `battle` is the battle's own modoptions, from a preset;
/// they are written before the mission's, so where a key repeats the
/// mission's value is the one the engine keeps. `fallback` is, for each
/// team, where its commander arrives when the author placed none.
pub fn write_script(
    s: &ScenarioFacts,
    m: &MissionFacts,
    player: &str,
    battle: &[(String, String)],
    fallback: &[(i64, i64)],
) -> (r: Result<String, String>)
    requires
        agrees(s.units@, m.units@),
        fallback@.len() == s.teams@.len(),
    ensures
        spec_problems(*s).len() > 0 ==> (r matches Err(e) && e@ == spec_problems(*s)[0]),
        spec_problems(*s).len() == 0 ==> (r matches Ok(text) && text@ == spec_compiled(
            *s,
            *m,
            player@,
            pairs_of(battle@),
            fallback@,
        )),
{
    let mission = mission_modoptions(s, m);
    let mut starts: Vec<(i64, i64)> = Vec::new();
    let mut keys: Vec<Vec<(String, String)>> = Vec::new();
    let mut i: usize = 0;
    while i < s.teams.len()
        invariant
            agrees(s.units@, m.units@),
            fallback@.len() == s.teams@.len(),
            i <= s.teams@.len(),
            starts@ == spec_starts(*s, *m, fallback@).take(i as int),
            units_view(keys@) == spec_team_keys(*s, *m).take(i as int),
        decreases s.teams.len() - i,
    {
        let team = s.teams[i].id;
        let c = commander_index(s.units.as_slice(), team);
        proof {
            lemma_commander_from(s.units@, team, 0);
        }
        let start = match c {
            Some(j) => (m.units[j].at_x, m.units[j].at_z),
            None => fallback[i],
        };
        let ghost before = starts@;
        starts.push(start);
        assert(starts@ =~= spec_starts(*s, *m, fallback@).take(i + 1));
        let rows = team_table(&m.units, team, c);
        let ghost kb = units_view(keys@);
        keys.push(start_unit_keys(rows.as_slice(), "extrastartunits"));
        assert(units_view(keys@) =~= kb.push(team_keys(*s, *m, i as int)));
        i = i + 1;
        assert(units_view(keys@) =~= spec_team_keys(*s, *m).take(i as int));
    }
    assert(starts@ =~= spec_starts(*s, *m, fallback@));
    assert(units_view(keys@) =~= spec_team_keys(*s, *m));
    assemble_script(s, player, battle, mission.as_slice(), starts.as_slice(), keys.as_slice())
}

// ---------------------------------------------------------------- laws ---

/// `s` holds no `_`.
pub open spec fn no_underscore(s: Seq<char>) -> bool {
    forall|j: int| 0 <= j < s.len() ==> #[trigger] s[j] != '_'
}

/// Pairs the start script can carry and the gadget can read: no brace in a
/// key or a value, and no `_` in a value.
pub open spec fn gadget_safe(p: Seq<(Seq<char>, Seq<char>)>) -> bool {
    forall|i: int|
        0 <= i < p.len() ==> brace_free((#[trigger] p[i]).0) && brace_free(p[i].1) && no_underscore(p[i].1)
            && no_dunder(p[i].0)
}

proof fn lemma_safe_cat(a: Seq<(Seq<char>, Seq<char>)>, b: Seq<(Seq<char>, Seq<char>)>)
    requires
        gadget_safe(a),
        gadget_safe(b),
    ensures
        gadget_safe(a + b),
{
    assert forall|i: int| 0 <= i < (a + b).len() implies brace_free((#[trigger] (a + b)[i]).0) && brace_free(
        (a + b)[i].1,
    ) && no_underscore((a + b)[i].1) && no_dunder((a + b)[i].0) by {
        if i < a.len() {
            assert((a + b)[i] == a[i]);
        } else {
            assert((a + b)[i] == b[i - a.len()]);
        }
    }
}

proof fn lemma_payload(text: Seq<char>)
    requires
        crate::customkey::printable_text(text),
    ensures
        brace_free(spec_encode(text)),
        no_underscore(spec_encode(text)),
{
    law_a_printable_payload_survives(text);
    let e = spec_encode(text);
    assert forall|k: int| 0 <= k < e.len() implies #[trigger] e[k] != '{' && e[k] != '}' by {
        assert(url_alphabet(e[k]));
    }
}

proof fn lemma_digits(n: nat)
    ensures
        forall|i: int| 0 <= i < decimal(n).len() ==> '0' <= #[trigger] decimal(n)[i] <= '9',
    decreases n,
{
    if n >= 10 {
        lemma_digits(n / 10);
        let d = (48 + n % 10) as char;
        assert(decimal(n) == decimal(n / 10).push(d));
        assert forall|i: int| 0 <= i < decimal(n).len() implies '0' <= #[trigger] decimal(n)[i] <= '9' by {
            if i < decimal(n / 10).len() {
                assert(decimal(n)[i] == decimal(n / 10)[i]);
            }
        }
    }
}

proof fn lemma_one(k: Seq<char>, v: Seq<char>)
    requires
        brace_free(k),
        brace_free(v),
        no_underscore(v),
        no_dunder(k),
    ensures
        gadget_safe(seq![(k, v)]),
{
    assert(seq![(k, v)][0] == (k, v));
}

proof fn lemma_optional(c: bool, k: Seq<char>, v: Seq<char>)
    requires
        c ==> brace_free(k) && brace_free(v) && no_underscore(v) && no_dunder(k),
    ensures
        gadget_safe(optional(c, k, v)),
{
    if c {
        lemma_one(k, v);
    }
}

proof fn lemma_unit_keys_shape(rows: Seq<Seq<(Seq<char>, FieldView)>>, prefix: Seq<char>, k: nat)
    ensures
        unit_keys(rows, prefix, k).len() == k,
        forall|j: int|
            0 <= j < k ==> (#[trigger] unit_keys(rows, prefix, k)[j]) == (
                prefix + "_"@ + decimal((j + 1) as nat),
                spec_encode(lua_list(chunk(rows, j))),
            ),
    decreases k,
{
    if k > 0 {
        lemma_unit_keys_shape(rows, prefix, (k - 1) as nat);
    }
}

proof fn lemma_unit_keys(rows: Seq<Seq<(Seq<char>, FieldView)>>, prefix: Seq<char>, k: nat)
    requires
        brace_free(prefix),
        no_underscore(prefix),
    ensures
        gadget_safe(unit_keys(rows, prefix, k)),
        unit_keys(rows, prefix, k).len() == k,
        forall|j: int|
            0 <= j < k ==> (#[trigger] unit_keys(rows, prefix, k)[j]) == (
                prefix + "_"@ + decimal((j + 1) as nat),
                spec_encode(lua_list(chunk(rows, j))),
            ),
    decreases k,
{
    if k > 0 {
        let j = (k - 1) as nat;
        lemma_unit_keys(rows, prefix, j);
        reveal_strlit("_");
        lemma_digits(k);
        let key = prefix + "_"@ + decimal(k);
        assert forall|i: int| 0 <= i < key.len() implies #[trigger] key[i] != '{' && key[i] != '}' by {
            if i < prefix.len() {
                assert(key[i] == prefix[i]);
            } else if i == prefix.len() {
                assert(key[i] == '_');
            } else {
                assert(key[i] == decimal(k)[i - prefix.len() - 1]);
            }
        }
        assert forall|i: int| 0 <= i < key.len() - 1 implies !(#[trigger] key[i] == '_' && key[i + 1] == '_') by {
            if i < prefix.len() {
                assert(key[i] == prefix[i]);
            } else {
                assert(key[i + 1] == decimal(k)[i + 1 - prefix.len() - 1]);
            }
        }
        law_tables_are_printable(Seq::empty(), chunk(rows, j as int), Seq::empty());
        lemma_payload(lua_list(chunk(rows, j as int)));
        let one = seq![(key, spec_encode(lua_list(chunk(rows, j as int))))];
        lemma_one(key, spec_encode(lua_list(chunk(rows, j as int))));
        lemma_safe_cat(unit_keys(rows, prefix, j), one);
        assert(unit_keys(rows, prefix, k) == unit_keys(rows, prefix, j) + one);
    }
}

proof fn lemma_literals()
    ensures
        brace_free("singleplayercampaignbattleid"@) && no_dunder("singleplayercampaignbattleid"@),
        brace_free("splaunch"@) && no_underscore("splaunch"@),
        brace_free("fixedstartpos"@) && no_dunder("fixedstartpos"@),
        brace_free("1"@) && no_underscore("1"@),
        brace_free("bonusobjectiveconfig"@) && no_dunder("bonusobjectiveconfig"@),
        brace_free("planetmissiondifficulty"@) && no_dunder("planetmissiondifficulty"@),
        brace_free("planetmissionmapmarkers"@) && no_dunder("planetmissionmapmarkers"@),
        brace_free("featurestospawn"@) && no_dunder("featurestospawn"@),
        brace_free("planetmissioninformationtext"@) && no_dunder("planetmissioninformationtext"@),
        brace_free("defeatconditionconfig"@) && no_dunder("defeatconditionconfig"@),
        brace_free("neutralstartunits"@) && no_underscore("neutralstartunits"@),
        brace_free("extrastartunits"@) && no_underscore("extrastartunits"@),
{
    reveal_strlit("singleplayercampaignbattleid");
    reveal_strlit("splaunch");
    reveal_strlit("fixedstartpos");
    reveal_strlit("1");
    reveal_strlit("bonusobjectiveconfig");
    reveal_strlit("planetmissiondifficulty");
    reveal_strlit("planetmissionmapmarkers");
    reveal_strlit("featurestospawn");
    reveal_strlit("planetmissioninformationtext");
    reveal_strlit("defeatconditionconfig");
    reveal_strlit("neutralstartunits");
    reveal_strlit("extrastartunits");
}

proof fn lemma_head(s: ScenarioFacts, m: MissionFacts)
    ensures
        gadget_safe(mission_head(s, m)),
{
    lemma_literals();
    let fixed = seq![("singleplayercampaignbattleid"@, "splaunch"@), ("fixedstartpos"@, "1"@)];
    lemma_one("singleplayercampaignbattleid"@, "splaunch"@);
    lemma_one("fixedstartpos"@, "1"@);
    lemma_safe_cat(seq![("singleplayercampaignbattleid"@, "splaunch"@)], seq![("fixedstartpos"@, "1"@)]);
    assert(fixed == seq![("singleplayercampaignbattleid"@, "splaunch"@)] + seq![("fixedstartpos"@, "1"@)]);
    law_tables_are_printable(Seq::empty(), goal_rows(s.goals@), Seq::empty());
    lemma_payload(lua_list(goal_rows(s.goals@)));
    let a = optional(s.goals@.len() > 0, "bonusobjectiveconfig"@, spec_encode(lua_list(goal_rows(s.goals@))));
    lemma_optional(s.goals@.len() > 0, "bonusobjectiveconfig"@, spec_encode(lua_list(goal_rows(s.goals@))));
    lemma_digits(m.difficulty as nat);
    let d = decimal(m.difficulty as nat);
    assert(brace_free(d) && no_underscore(d)) by {
        assert forall|k: int| 0 <= k < d.len() implies #[trigger] d[k] != '{' && d[k] != '}' && d[k] != '_' by {
            assert('0' <= d[k] <= '9');
        }
    }
    let b = optional(m.difficulty != DEFAULT_DIFFICULTY, "planetmissiondifficulty"@, d);
    lemma_optional(m.difficulty != DEFAULT_DIFFICULTY, "planetmissiondifficulty"@, d);
    law_tables_are_printable(Seq::empty(), marker_rows(m.markers@), Seq::empty());
    lemma_payload(lua_list(marker_rows(m.markers@)));
    let c = optional(m.markers@.len() > 0, "planetmissionmapmarkers"@, spec_encode(lua_list(marker_rows(m.markers@))));
    lemma_optional(m.markers@.len() > 0, "planetmissionmapmarkers"@, spec_encode(lua_list(marker_rows(m.markers@))));
    law_tables_are_printable(Seq::empty(), feature_rows(m.features@), Seq::empty());
    lemma_payload(lua_list(feature_rows(m.features@)));
    let e = optional(m.features@.len() > 0, "featurestospawn"@, spec_encode(lua_list(feature_rows(m.features@))));
    lemma_optional(m.features@.len() > 0, "featurestospawn"@, spec_encode(lua_list(feature_rows(m.features@))));
    lemma_safe_cat(fixed, a);
    lemma_safe_cat(fixed + a, b);
    lemma_safe_cat(fixed + a + b, c);
    lemma_safe_cat(fixed + a + b + c, e);
}

proof fn lemma_tail(m: MissionFacts)
    ensures
        gadget_safe(mission_tail(m)),
{
    lemma_literals();
    law_tables_are_printable(info_fields(m), Seq::empty(), defeat_rows(m.defeat@));
    lemma_payload(lua_record(info_fields(m)));
    lemma_payload(lua_indexed(defeat_rows(m.defeat@)));
    let a = seq![("planetmissioninformationtext"@, spec_encode(lua_record(info_fields(m))))];
    lemma_one("planetmissioninformationtext"@, spec_encode(lua_record(info_fields(m))));
    let b = optional(m.defeat@.len() > 0, "defeatconditionconfig"@, spec_encode(lua_indexed(defeat_rows(m.defeat@))));
    lemma_optional(m.defeat@.len() > 0, "defeatconditionconfig"@, spec_encode(lua_indexed(defeat_rows(m.defeat@))));
    let rows = neutral_rows(m.units@, m.units@.len() as int);
    lemma_unit_keys(rows, "neutralstartunits"@, chunk_count(rows.len()));
    lemma_safe_cat(a, b);
    lemma_safe_cat(a + b, spec_unit_keys(rows, "neutralstartunits"@));
}

/// Whatever a scenario holds, what its mission tells the gadget can stand
/// in a start script and be read back: no key or value holds a brace, and
/// no value holds the `_` that Zero-K's decoder takes for the end of the
/// data. The same holds of each team's placed units.
pub proof fn law_what_the_gadget_is_sent_survives(s: ScenarioFacts, m: MissionFacts)
    ensures
        gadget_safe(spec_mission_modoptions(s, m)),
        forall|t: int| 0 <= t < s.teams@.len() ==> gadget_safe(#[trigger] spec_team_keys(s, m)[t]),
{
    lemma_head(s, m);
    lemma_tail(m);
    lemma_safe_cat(mission_head(s, m), mission_tail(m));
    assert forall|t: int| 0 <= t < s.teams@.len() implies gadget_safe(#[trigger] spec_team_keys(s, m)[t]) by {
        lemma_literals();
        let team = s.teams@[t].id;
        let rows = team_rows(m.units@, team, commander_from(s.units@, team, 0), m.units@.len() as int);
        lemma_unit_keys(rows, "extrastartunits"@, chunk_count(rows.len()));
        assert(spec_team_keys(s, m)[t] == team_keys(s, m, t));
    }
}

/// Every script a scenario compiles to holds as many `{` as `}`, whatever
/// the scenario, the player and the battle's options hold.
pub proof fn law_a_compiled_script_is_balanced(
    s: ScenarioFacts,
    m: MissionFacts,
    player: Seq<char>,
    battle: Seq<(Seq<char>, Seq<char>)>,
    fallback: Seq<(i64, i64)>,
)
    ensures
        brace_count(spec_compiled(s, m, player, battle, fallback)) == 0,
{
    law_what_the_gadget_is_sent_survives(s, m);
    let mission = spec_mission_modoptions(s, m);
    let keys = spec_team_keys(s, m);
    assert forall|i: int| 0 <= i < mission.len() implies brace_free((#[trigger] mission[i]).0) && brace_free(
        mission[i].1,
    ) by {}
    assert forall|t: int, i: int| 0 <= t < keys.len() && 0 <= i < keys[t].len() implies brace_free(
        (#[trigger] keys[t][i]).0,
    ) && brace_free(keys[t][i].1) by {
        assert(gadget_safe(keys[t]));
    }
    law_a_script_is_balanced(s, player, battle, mission, spec_starts(s, m, fallback), keys);
}

/// Placed units go forty to a key: as many keys as it takes, named
/// `prefix_1` onwards with no holes, the `k`th carrying units `40k` to
/// `40k + 39`, and every unit in exactly the key its position says.
pub proof fn law_units_go_forty_to_a_key(rows: Seq<Seq<(Seq<char>, FieldView)>>, prefix: Seq<char>)
    ensures
        spec_unit_keys(rows, prefix).len() == (rows.len() + 39) / 40,
        forall|k: int|
            0 <= k < spec_unit_keys(rows, prefix).len() ==> (#[trigger] spec_unit_keys(rows, prefix)[k]).0 == prefix
                + "_"@ + decimal((k + 1) as nat) && spec_unit_keys(rows, prefix)[k].1 == spec_encode(
                lua_list(chunk(rows, k)),
            ) && 0 < chunk(rows, k).len() <= 40,
        forall|i: int| 0 <= i < rows.len() ==> #[trigger] chunk(rows, i / 40)[i % 40] == rows[i],
{
    lemma_unit_keys_shape(rows, prefix, chunk_count(rows.len()));
    assert forall|k: int| 0 <= k < chunk_count(rows.len()) implies 0 < #[trigger] chunk(rows, k).len() <= 40 by {}
    assert forall|i: int| 0 <= i < rows.len() implies #[trigger] chunk(rows, i / 40)[i % 40] == rows[i] by {
        assert(40 * (i / 40) + i % 40 == i);
    }
}

proof fn lemma_head_keys(s: ScenarioFacts, m: MissionFacts)
    ensures
        mission_head(s, m).len() >= 2,
        mission_head(s, m)[0] == ("singleplayercampaignbattleid"@, "splaunch"@),
        mission_head(s, m)[1] == ("fixedstartpos"@, "1"@),
        forall|i: int| 1 <= i < mission_head(s, m).len() ==> (#[trigger] mission_head(s, m)[i]).0[0] != 's',
{
    reveal_strlit("fixedstartpos");
    reveal_strlit("bonusobjectiveconfig");
    reveal_strlit("planetmissiondifficulty");
    reveal_strlit("planetmissionmapmarkers");
    reveal_strlit("featurestospawn");
}

proof fn lemma_tail_keys(m: MissionFacts)
    ensures
        forall|i: int| 0 <= i < mission_tail(m).len() ==> (#[trigger] mission_tail(m)[i]).0[0] != 's',
{
    reveal_strlit("planetmissioninformationtext");
    reveal_strlit("defeatconditionconfig");
    reveal_strlit("neutralstartunits");
    lemma_literals();
    let rows = neutral_rows(m.units@, m.units@.len() as int);
    lemma_unit_keys(rows, "neutralstartunits"@, chunk_count(rows.len()));
    let u = spec_unit_keys(rows, "neutralstartunits"@);
    let pre = seq![("planetmissioninformationtext"@, spec_encode(lua_record(info_fields(m))))] + optional(
        m.defeat@.len() > 0,
        "defeatconditionconfig"@,
        spec_encode(lua_indexed(defeat_rows(m.defeat@))),
    );
    let t = mission_tail(m);
    assert(t == pre + u);
    assert forall|i: int| 0 <= i < t.len() implies (#[trigger] t[i]).0[0] != 's' by {
        if i >= pre.len() {
            let j = i - pre.len();
            assert(t[i] == u[j]);
            assert(u[j].0 == "neutralstartunits"@ + "_"@ + decimal((j + 1) as nat));
            assert(u[j].0[0] == 'n');
        } else {
            assert(t[i] == pre[i]);
        }
    }
}

/// The mission engine is armed before anything else is said, and nothing
/// the mission says after disarms it: no later key is
/// `singleplayercampaignbattleid`.
pub proof fn law_the_mission_engine_is_armed(s: ScenarioFacts, m: MissionFacts)
    ensures
        spec_mission_modoptions(s, m)[0] == ("singleplayercampaignbattleid"@, "splaunch"@),
        spec_mission_modoptions(s, m)[1] == ("fixedstartpos"@, "1"@),
        forall|i: int|
            1 <= i < spec_mission_modoptions(s, m).len() ==> (#[trigger] spec_mission_modoptions(s, m)[i]).0
                != "singleplayercampaignbattleid"@,
{
    let p = spec_mission_modoptions(s, m);
    let h = mission_head(s, m);
    let t = mission_tail(m);
    lemma_head_keys(s, m);
    lemma_tail_keys(m);
    reveal_strlit("singleplayercampaignbattleid");
    assert(p == h + t);
    assert forall|i: int| 1 <= i < p.len() implies (#[trigger] p[i]).0 != "singleplayercampaignbattleid"@ by {
        if i < h.len() {
            assert(p[i] == h[i]);
        } else {
            assert(p[i] == t[i - h.len()]);
        }
        assert(p[i].0[0] != 's');
    }
}

/// Some pair of `p` is under key `k`.
pub open spec fn has_key(p: Seq<(Seq<char>, Seq<char>)>, k: Seq<char>) -> bool {
    exists|i: int| 0 <= i < p.len() && (#[trigger] p[i]).0 == k
}

proof fn lemma_has_key_cat(a: Seq<(Seq<char>, Seq<char>)>, b: Seq<(Seq<char>, Seq<char>)>, k: Seq<char>)
    ensures
        has_key(a + b, k) <==> has_key(a, k) || has_key(b, k),
{
    if has_key(a, k) {
        let i = choose|i: int| 0 <= i < a.len() && (#[trigger] a[i]).0 == k;
        assert((a + b)[i] == a[i]);
    }
    if has_key(b, k) {
        let i = choose|i: int| 0 <= i < b.len() && (#[trigger] b[i]).0 == k;
        assert((a + b)[a.len() + i] == b[i]);
    }
    if has_key(a + b, k) {
        let i = choose|i: int| 0 <= i < (a + b).len() && (#[trigger] (a + b)[i]).0 == k;
        if i < a.len() {
            assert(a[i] == (a + b)[i]);
        } else {
            assert(b[i - a.len()] == (a + b)[i]);
        }
    }
}

proof fn lemma_has_key_optional(c: bool, k: Seq<char>, v: Seq<char>, x: Seq<char>)
    ensures
        has_key(optional(c, k, v), x) <==> c && k == x,
{
    if c && k == x {
        assert(optional(c, k, v)[0].0 == x);
    }
}

proof fn lemma_key_words()
    ensures
        "singleplayercampaignbattleid"@.len() == 28 && "singleplayercampaignbattleid"@[0] == 's',
        "fixedstartpos"@.len() == 13,
        "bonusobjectiveconfig"@.len() == 20,
        "planetmissiondifficulty"@.len() == 23 && "planetmissiondifficulty"@[13] == 'd',
        "planetmissionmapmarkers"@.len() == 23 && "planetmissionmapmarkers"@[13] == 'm',
        "featurestospawn"@.len() == 15 && "featurestospawn"@[0] == 'f',
        "planetmissioninformationtext"@.len() == 28 && "planetmissioninformationtext"@[0] == 'p',
        "defeatconditionconfig"@.len() == 21,
        "objectiveconfig"@.len() == 15 && "objectiveconfig"@[0] == 'o',
        "neutralstartunits"@[0] == 'n' && "neutralstartunits"@.len() > 0,
        "bonusobjectiveconfig"@[0] == 'b' && "planetmissiondifficulty"@[0] == 'p'
            && "planetmissionmapmarkers"@[0] == 'p' && "defeatconditionconfig"@[0] == 'd'
            && "fixedstartpos"@[0] == 'f',
{
    reveal_strlit("singleplayercampaignbattleid");
    reveal_strlit("fixedstartpos");
    reveal_strlit("bonusobjectiveconfig");
    reveal_strlit("planetmissiondifficulty");
    reveal_strlit("planetmissionmapmarkers");
    reveal_strlit("featurestospawn");
    reveal_strlit("planetmissioninformationtext");
    reveal_strlit("defeatconditionconfig");
    reveal_strlit("objectiveconfig");
    reveal_strlit("neutralstartunits");
}

/// The keys Gaia's units ride under all open with an `n`.
proof fn lemma_neutral_keys(rows: Seq<Seq<(Seq<char>, FieldView)>>, x: Seq<char>)
    requires
        x.len() == 0 || x[0] != 'n',
    ensures
        !has_key(spec_unit_keys(rows, "neutralstartunits"@), x),
{
    lemma_key_words();
    let u = spec_unit_keys(rows, "neutralstartunits"@);
    lemma_unit_keys_shape(rows, "neutralstartunits"@, chunk_count(rows.len()));
    if has_key(u, x) {
        let i = choose|i: int| 0 <= i < u.len() && (#[trigger] u[i]).0 == x;
        assert(u[i].0 == "neutralstartunits"@ + "_"@ + decimal((i + 1) as nat));
        assert(u[i].0[0] == 'n');
    }
}

/// The parts the mission modoptions are made of.
proof fn lemma_mission_parts(s: ScenarioFacts, m: MissionFacts)
    ensures
        spec_mission_modoptions(s, m) == seq![("singleplayercampaignbattleid"@, "splaunch"@), ("fixedstartpos"@, "1"@)]
            + optional(s.goals@.len() > 0, "bonusobjectiveconfig"@, spec_encode(lua_list(goal_rows(s.goals@))))
            + optional(m.difficulty != DEFAULT_DIFFICULTY, "planetmissiondifficulty"@, decimal(m.difficulty as nat))
            + optional(m.markers@.len() > 0, "planetmissionmapmarkers"@, spec_encode(lua_list(marker_rows(m.markers@))))
            + optional(m.features@.len() > 0, "featurestospawn"@, spec_encode(lua_list(feature_rows(m.features@))))
            + seq![("planetmissioninformationtext"@, spec_encode(lua_record(info_fields(m))))] + optional(
            m.defeat@.len() > 0,
            "defeatconditionconfig"@,
            spec_encode(lua_indexed(defeat_rows(m.defeat@))),
        ) + spec_unit_keys(neutral_rows(m.units@, m.units@.len() as int), "neutralstartunits"@),
{
    let info = seq![("planetmissioninformationtext"@, spec_encode(lua_record(info_fields(m))))];
    let ox = optional(m.defeat@.len() > 0, "defeatconditionconfig"@, spec_encode(lua_indexed(defeat_rows(m.defeat@))));
    let u = spec_unit_keys(neutral_rows(m.units@, m.units@.len() as int), "neutralstartunits"@);
    lemma_regroup_pairs(mission_head(s, m), info, ox, u);
}

proof fn lemma_regroup_pairs(
    h: Seq<(Seq<char>, Seq<char>)>,
    a: Seq<(Seq<char>, Seq<char>)>,
    b: Seq<(Seq<char>, Seq<char>)>,
    c: Seq<(Seq<char>, Seq<char>)>,
)
    ensures
        h + (a + b + c) == h + a + b + c,
{
    assert(h + (a + b + c) =~= h + a + b + c);
}

/// Whether a key other than the first two and Gaia's stands in the mission
/// modoptions.
proof fn lemma_mission_key(s: ScenarioFacts, m: MissionFacts, x: Seq<char>)
    requires
        x.len() > 0 && x[0] != 'n',
        x != "singleplayercampaignbattleid"@,
        x != "fixedstartpos"@,
    ensures
        has_key(spec_mission_modoptions(s, m), x) <==> (s.goals@.len() > 0 && x == "bonusobjectiveconfig"@) || (
        m.difficulty != DEFAULT_DIFFICULTY && x == "planetmissiondifficulty"@) || (m.markers@.len() > 0 && x
            == "planetmissionmapmarkers"@) || (m.features@.len() > 0 && x == "featurestospawn"@) || x
            == "planetmissioninformationtext"@ || (m.defeat@.len() > 0 && x == "defeatconditionconfig"@),
{
    lemma_mission_parts(s, m);
    let fixed = seq![("singleplayercampaignbattleid"@, "splaunch"@), ("fixedstartpos"@, "1"@)];
    let ob = optional(s.goals@.len() > 0, "bonusobjectiveconfig"@, spec_encode(lua_list(goal_rows(s.goals@))));
    let od = optional(m.difficulty != DEFAULT_DIFFICULTY, "planetmissiondifficulty"@, decimal(m.difficulty as nat));
    let om = optional(m.markers@.len() > 0, "planetmissionmapmarkers"@, spec_encode(lua_list(marker_rows(m.markers@))));
    let of = optional(m.features@.len() > 0, "featurestospawn"@, spec_encode(lua_list(feature_rows(m.features@))));
    let info = seq![("planetmissioninformationtext"@, spec_encode(lua_record(info_fields(m))))];
    let ox = optional(m.defeat@.len() > 0, "defeatconditionconfig"@, spec_encode(lua_indexed(defeat_rows(m.defeat@))));
    let rows = neutral_rows(m.units@, m.units@.len() as int);
    let u = spec_unit_keys(rows, "neutralstartunits"@);
    lemma_has_key_cat(fixed, ob, x);
    lemma_has_key_cat(fixed + ob, od, x);
    lemma_has_key_cat(fixed + ob + od, om, x);
    lemma_has_key_cat(fixed + ob + od + om, of, x);
    lemma_has_key_cat(fixed + ob + od + om + of, info, x);
    lemma_has_key_cat(fixed + ob + od + om + of + info, ox, x);
    lemma_has_key_cat(fixed + ob + od + om + of + info + ox, u, x);
    lemma_neutral_keys(rows, x);
    if has_key(fixed, x) {
        let i = choose|i: int| 0 <= i < fixed.len() && (#[trigger] fixed[i]).0 == x;
        assert(i == 0 || i == 1);
    }
    lemma_has_key_optional(s.goals@.len() > 0, "bonusobjectiveconfig"@, spec_encode(lua_list(goal_rows(s.goals@))), x);
    lemma_has_key_optional(m.difficulty != DEFAULT_DIFFICULTY, "planetmissiondifficulty"@, decimal(m.difficulty as nat), x);
    lemma_has_key_optional(m.markers@.len() > 0, "planetmissionmapmarkers"@, spec_encode(lua_list(marker_rows(m.markers@))), x);
    lemma_has_key_optional(m.features@.len() > 0, "featurestospawn"@, spec_encode(lua_list(feature_rows(m.features@))), x);
    lemma_has_key_optional(m.defeat@.len() > 0, "defeatconditionconfig"@, spec_encode(lua_indexed(defeat_rows(m.defeat@))), x);
    if has_key(info, x) {
        let i = choose|i: int| 0 <= i < info.len() && (#[trigger] info[i]).0 == x;
        assert(i == 0);
    }
    if x == "planetmissioninformationtext"@ {
        assert(info[0].0 == x);
    }
}

/// The briefing's key stands in the mission modoptions once.
#[verifier::spinoff_prover]
#[verifier::rlimit(40)]
proof fn lemma_briefing_once(s: ScenarioFacts, m: MissionFacts)
    ensures
        forall|i: int, j: int|
            0 <= i < spec_mission_modoptions(s, m).len() && 0 <= j < spec_mission_modoptions(s, m).len()
                && (#[trigger] spec_mission_modoptions(s, m)[i]).0 == "planetmissioninformationtext"@
                && (#[trigger] spec_mission_modoptions(s, m)[j]).0 == "planetmissioninformationtext"@ ==> i == j,
{
    lemma_key_words();
    lemma_mission_parts(s, m);
    let ki = "planetmissioninformationtext"@;
    let fixed = seq![("singleplayercampaignbattleid"@, "splaunch"@), ("fixedstartpos"@, "1"@)];
    let ob = optional(s.goals@.len() > 0, "bonusobjectiveconfig"@, spec_encode(lua_list(goal_rows(s.goals@))));
    let od = optional(m.difficulty != DEFAULT_DIFFICULTY, "planetmissiondifficulty"@, decimal(m.difficulty as nat));
    let om = optional(m.markers@.len() > 0, "planetmissionmapmarkers"@, spec_encode(lua_list(marker_rows(m.markers@))));
    let of = optional(m.features@.len() > 0, "featurestospawn"@, spec_encode(lua_list(feature_rows(m.features@))));
    let info = seq![(ki, spec_encode(lua_record(info_fields(m))))];
    let ox = optional(m.defeat@.len() > 0, "defeatconditionconfig"@, spec_encode(lua_indexed(defeat_rows(m.defeat@))));
    let rows = neutral_rows(m.units@, m.units@.len() as int);
    let u = spec_unit_keys(rows, "neutralstartunits"@);
    let head = fixed + ob + od + om + of;
    let at = head.len() as int;
    assert(ki != "singleplayercampaignbattleid"@) by {
        assert(ki[0] != "singleplayercampaignbattleid"@[0]);
    }
    lemma_has_key_cat(fixed, ob, ki);
    lemma_has_key_cat(fixed + ob, od, ki);
    lemma_has_key_cat(fixed + ob + od, om, ki);
    lemma_has_key_cat(fixed + ob + od + om, of, ki);
    lemma_has_key_cat(ox, u, ki);
    lemma_has_key_optional(s.goals@.len() > 0, "bonusobjectiveconfig"@, spec_encode(lua_list(goal_rows(s.goals@))), ki);
    lemma_has_key_optional(m.difficulty != DEFAULT_DIFFICULTY, "planetmissiondifficulty"@, decimal(m.difficulty as nat), ki);
    lemma_has_key_optional(m.markers@.len() > 0, "planetmissionmapmarkers"@, spec_encode(lua_list(marker_rows(m.markers@))), ki);
    lemma_has_key_optional(m.features@.len() > 0, "featurestospawn"@, spec_encode(lua_list(feature_rows(m.features@))), ki);
    lemma_has_key_optional(m.defeat@.len() > 0, "defeatconditionconfig"@, spec_encode(lua_indexed(defeat_rows(m.defeat@))), ki);
    lemma_neutral_keys(rows, ki);
    if has_key(fixed, ki) {
        let i = choose|i: int| 0 <= i < fixed.len() && (#[trigger] fixed[i]).0 == ki;
        assert(i == 0 || i == 1);
    }
    let p = spec_mission_modoptions(s, m);
    assert(p == head + info + (ox + u));
    assert forall|i: int| 0 <= i < p.len() && (#[trigger] p[i]).0 == ki implies i == at by {
        if i < at {
            assert(head[i] == p[i]);
        } else if i > at {
            assert((ox + u)[i - at - 1] == p[i]);
        }
    }
}

/// What the mission modoptions say, by key: the objectives, a difficulty,
/// the markers, the features and the defeat conditions exactly when the
/// scenario has them; the briefing always, and once; and never the key the
/// gadget does not read.
pub proof fn law_what_the_mission_says(s: ScenarioFacts, m: MissionFacts)
    ensures
        has_key(spec_mission_modoptions(s, m), "bonusobjectiveconfig"@) <==> s.goals@.len() > 0,
        has_key(spec_mission_modoptions(s, m), "planetmissiondifficulty"@) <==> m.difficulty != DEFAULT_DIFFICULTY,
        has_key(spec_mission_modoptions(s, m), "planetmissionmapmarkers"@) <==> m.markers@.len() > 0,
        has_key(spec_mission_modoptions(s, m), "featurestospawn"@) <==> m.features@.len() > 0,
        has_key(spec_mission_modoptions(s, m), "defeatconditionconfig"@) <==> m.defeat@.len() > 0,
        has_key(spec_mission_modoptions(s, m), "planetmissioninformationtext"@),
        forall|i: int, j: int|
            0 <= i < spec_mission_modoptions(s, m).len() && 0 <= j < spec_mission_modoptions(s, m).len()
                && (#[trigger] spec_mission_modoptions(s, m)[i]).0 == "planetmissioninformationtext"@
                && (#[trigger] spec_mission_modoptions(s, m)[j]).0 == "planetmissioninformationtext"@ ==> i == j,
        !has_key(spec_mission_modoptions(s, m), "objectiveconfig"@),
{
    lemma_key_words();
    let k0 = "singleplayercampaignbattleid"@;
    let k1 = "fixedstartpos"@;
    let kb = "bonusobjectiveconfig"@;
    let kd = "planetmissiondifficulty"@;
    let km = "planetmissionmapmarkers"@;
    let kf = "featurestospawn"@;
    let ki = "planetmissioninformationtext"@;
    let kx = "defeatconditionconfig"@;
    let ko = "objectiveconfig"@;
    assert(kd != km) by {
        assert(kd[13] != km[13]);
    }
    assert(k0 != ki) by {
        assert(k0[0] != ki[0]);
    }
    assert(kf != ko) by {
        assert(kf[0] != ko[0]);
    }
    lemma_mission_key(s, m, kb);
    lemma_mission_key(s, m, kd);
    lemma_mission_key(s, m, km);
    lemma_mission_key(s, m, kf);
    lemma_mission_key(s, m, kx);
    lemma_mission_key(s, m, ki);
    lemma_mission_key(s, m, ko);
    lemma_briefing_once(s, m);
}

/// The mission modoptions open with the battle id the mission engine
/// answers to and the fixed start positions, and name that battle id
/// nowhere else.
#[verifier::spinoff_prover]
#[verifier::rlimit(40)]
pub proof fn law_the_battle_id_comes_first(s: ScenarioFacts, m: MissionFacts)
    ensures
        spec_mission_modoptions(s, m).len() >= 2,
        spec_mission_modoptions(s, m)[0] == ("singleplayercampaignbattleid"@, "splaunch"@),
        spec_mission_modoptions(s, m)[1] == ("fixedstartpos"@, "1"@),
        forall|i: int|
            0 <= i < spec_mission_modoptions(s, m).len() && (#[trigger] spec_mission_modoptions(s, m)[i]).0
                == "singleplayercampaignbattleid"@ ==> i == 0,
{
    lemma_key_words();
    lemma_mission_parts(s, m);
    let k0 = "singleplayercampaignbattleid"@;
    let fixed = seq![(k0, "splaunch"@), ("fixedstartpos"@, "1"@)];
    let ob = optional(s.goals@.len() > 0, "bonusobjectiveconfig"@, spec_encode(lua_list(goal_rows(s.goals@))));
    let od = optional(m.difficulty != DEFAULT_DIFFICULTY, "planetmissiondifficulty"@, decimal(m.difficulty as nat));
    let om = optional(m.markers@.len() > 0, "planetmissionmapmarkers"@, spec_encode(lua_list(marker_rows(m.markers@))));
    let of = optional(m.features@.len() > 0, "featurestospawn"@, spec_encode(lua_list(feature_rows(m.features@))));
    let info = seq![("planetmissioninformationtext"@, spec_encode(lua_record(info_fields(m))))];
    let ox = optional(m.defeat@.len() > 0, "defeatconditionconfig"@, spec_encode(lua_indexed(defeat_rows(m.defeat@))));
    let rows = neutral_rows(m.units@, m.units@.len() as int);
    let u = spec_unit_keys(rows, "neutralstartunits"@);
    assert(k0 != "planetmissioninformationtext"@) by {
        assert(k0[0] != "planetmissioninformationtext"@[0]);
    }
    lemma_has_key_cat(ob, od, k0);
    lemma_has_key_cat(ob + od, om, k0);
    lemma_has_key_cat(ob + od + om, of, k0);
    lemma_has_key_cat(ob + od + om + of, info, k0);
    lemma_has_key_cat(ob + od + om + of + info, ox, k0);
    lemma_has_key_cat(ob + od + om + of + info + ox, u, k0);
    lemma_has_key_optional(s.goals@.len() > 0, "bonusobjectiveconfig"@, spec_encode(lua_list(goal_rows(s.goals@))), k0);
    lemma_has_key_optional(m.difficulty != DEFAULT_DIFFICULTY, "planetmissiondifficulty"@, decimal(m.difficulty as nat), k0);
    lemma_has_key_optional(m.markers@.len() > 0, "planetmissionmapmarkers"@, spec_encode(lua_list(marker_rows(m.markers@))), k0);
    lemma_has_key_optional(m.features@.len() > 0, "featurestospawn"@, spec_encode(lua_list(feature_rows(m.features@))), k0);
    lemma_has_key_optional(m.defeat@.len() > 0, "defeatconditionconfig"@, spec_encode(lua_indexed(defeat_rows(m.defeat@))), k0);
    lemma_neutral_keys(rows, k0);
    if has_key(info, k0) {
        let i = choose|i: int| 0 <= i < info.len() && (#[trigger] info[i]).0 == k0;
        assert(i == 0);
    }
    let rest = ob + od + om + of + info + ox + u;
    let p = spec_mission_modoptions(s, m);
    assert(p =~= fixed + rest);
    assert(!has_key(rest, k0));
    assert(p[0] == fixed[0] && p[1] == fixed[1]);
    assert(k0 != "fixedstartpos"@);
    assert forall|i: int| 0 <= i < p.len() && (#[trigger] p[i]).0 == k0 implies i == 0 by {
        if i >= 2 {
            assert(rest[i - 2] == p[i]);
        }
    }
}

/// Whatever the battle's own options say, the last assignment of the battle
/// id in a compiled script's modoptions is the mission engine's: the
/// mission's options are written after the battle's, and name it once.
pub proof fn law_a_battle_cannot_disarm_the_mission_engine(
    s: ScenarioFacts,
    m: MissionFacts,
    battle: Seq<(Seq<char>, Seq<char>)>,
)
    ensures
        modoptions(battle, spec_mission_modoptions(s, m)) == "\t[MODOPTIONS]\n\t{\n"@ + option_lines(
            option_pairs(battle, spec_mission_modoptions(s, m)),
            false,
            option_pairs(battle, spec_mission_modoptions(s, m)).len() as int,
        ) + "\t}\n"@,
        option_pairs(battle, spec_mission_modoptions(s, m))[battle.len() + 1int] == (
            "singleplayercampaignbattleid"@,
            "splaunch"@,
        ),
        forall|j: int|
            battle.len() + 1 < j < option_pairs(battle, spec_mission_modoptions(s, m)).len() ==> (
            #[trigger] option_pairs(battle, spec_mission_modoptions(s, m))[j]).0 != "singleplayercampaignbattleid"@,
{
    let mission = spec_mission_modoptions(s, m);
    law_the_battle_id_comes_first(s, m);
    law_the_modoptions_are_written_in_order(battle, mission);
    let p = option_pairs(battle, mission);
    let b: int = battle.len() + 1int;
    assert(p[b] == mission[0]);
    assert forall|j: int| b < j < p.len() implies (#[trigger] p[j]).0 != "singleplayercampaignbattleid"@ by {
        assert(p[b + (j - b)] == mission[j - b]);
    }
}

/// `p` holds the pair (`k`, `v`).
pub open spec fn has_pair(p: Seq<(Seq<char>, Seq<char>)>, k: Seq<char>, v: Seq<char>) -> bool {
    exists|i: int| 0 <= i < p.len() && #[trigger] p[i] == (k, v)
}

/// Each side loses on its own terms. With any defeat conditions the mission
/// sends them under `defeatconditionconfig`, one row for each in the
/// scenario's order, each row under that condition's own allyteam, naming
/// its vital units when it has any and its clock when it has one.
#[verifier::spinoff_prover]
#[verifier::rlimit(40)]
pub proof fn law_each_side_loses_on_its_own_terms(s: ScenarioFacts, m: MissionFacts)
    ensures
        m.defeat@.len() > 0 ==> has_pair(
            spec_mission_modoptions(s, m),
            "defeatconditionconfig"@,
            spec_encode(lua_indexed(defeat_rows(m.defeat@))),
        ),
        defeat_rows(m.defeat@).len() == m.defeat@.len(),
        forall|k: int| 0 <= k < m.defeat@.len() ==> (#[trigger] defeat_rows(m.defeat@)[k]).0 == m.defeat@[k].ally,
        forall|k: int|
            0 <= k < m.defeat@.len() ==> {
                let f = (#[trigger] defeat_rows(m.defeat@)[k]).1;
                let d = m.defeat@[k];
                &&& distinct_names(f)
                &&& d.vital_units@.len() > 0 ==> says(f, "vitalUnitTypes"@, FieldView::Names(strings_view(d.vital_units@)))
                &&& d.vital_units@.len() == 0 ==> silent(f, "vitalUnitTypes"@)
                &&& d.lose_after_seconds matches Some(t) ==> says(f, "loseAfterSeconds"@, FieldView::Number(t))
                &&& d.lose_after_seconds is None ==> silent(f, "loseAfterSeconds"@)
            },
{
    reveal_strlit("vitalUnitTypes");
    reveal_strlit("loseAfterSeconds");
    assert("vitalUnitTypes"@.len() == 14 && "loseAfterSeconds"@.len() == 16);
    assert("vitalUnitTypes"@ != "loseAfterSeconds"@);
    let ds = m.defeat@;
    let rows = defeat_rows(ds);
    assert forall|k: int| 0 <= k < ds.len() implies {
        let f = (#[trigger] rows[k]).1;
        let d = ds[k];
        &&& distinct_names(f)
        &&& d.vital_units@.len() > 0 ==> says(f, "vitalUnitTypes"@, FieldView::Names(strings_view(d.vital_units@)))
        &&& d.vital_units@.len() == 0 ==> silent(f, "vitalUnitTypes"@)
        &&& d.lose_after_seconds matches Some(t) ==> says(f, "loseAfterSeconds"@, FieldView::Number(t))
        &&& d.lose_after_seconds is None ==> silent(f, "loseAfterSeconds"@)
    } by {
        let d = ds[k];
        let f = rows[k].1;
        assert(f == defeat_fields(d));
        let v = ("vitalUnitTypes"@, FieldView::Names(strings_view(d.vital_units@)));
        match d.lose_after_seconds {
            Some(t) => {
                let l = ("loseAfterSeconds"@, FieldView::Number(t));
                if d.vital_units@.len() > 0 {
                    assert(f =~= seq![v, l]);
                    assert(distinct_names(f));
                    lemma_says_field(f, 0);
                    lemma_says_field(f, 1);
                } else {
                    assert(f =~= seq![l]);
                    lemma_says_field(f, 0);
                }
            },
            None => {
                if d.vital_units@.len() > 0 {
                    assert(f =~= seq![v]);
                    lemma_says_field(f, 0);
                } else {
                    assert(f =~= Seq::<(Seq<char>, FieldView)>::empty());
                }
            },
        }
    }
    if ds.len() > 0 {
        lemma_mission_parts(s, m);
        let fixed = seq![("singleplayercampaignbattleid"@, "splaunch"@), ("fixedstartpos"@, "1"@)];
        let ob = optional(s.goals@.len() > 0, "bonusobjectiveconfig"@, spec_encode(lua_list(goal_rows(s.goals@))));
        let od = optional(m.difficulty != DEFAULT_DIFFICULTY, "planetmissiondifficulty"@, decimal(m.difficulty as nat));
        let om = optional(m.markers@.len() > 0, "planetmissionmapmarkers"@, spec_encode(lua_list(marker_rows(m.markers@))));
        let of = optional(m.features@.len() > 0, "featurestospawn"@, spec_encode(lua_list(feature_rows(m.features@))));
        let info = seq![("planetmissioninformationtext"@, spec_encode(lua_record(info_fields(m))))];
        let ox = optional(true, "defeatconditionconfig"@, spec_encode(lua_indexed(defeat_rows(ds))));
        let u = spec_unit_keys(neutral_rows(m.units@, m.units@.len() as int), "neutralstartunits"@);
        let head = fixed + ob + od + om + of + info;
        let p = spec_mission_modoptions(s, m);
        assert(p =~= head + ox + u);
        assert(p[head.len() as int] == ox[0]);
    }
}


/// A placed unit's fields, piece by piece.
pub open spec fn unit_pieces(u: PlacedFacts) -> Seq<Seq<(Seq<char>, FieldView)>> {
    seq![
        seq![
            ("name"@, FieldView::Text(u.unit@)),
            ("x"@, FieldView::Decimal(u.x@)),
            ("z"@, FieldView::Decimal(u.z@)),
            ("facing"@, FieldView::Number(facing_of(u.facing))),
        ],
        decimal_field("buildProgress"@, u.build_progress),
        decimal_field("experience"@, u.experience),
        number_field("movestate"@, u.movestate),
        invincible_field(u),
        decimal_field("terraformHeight"@, u.terraform_height),
        number_field("difficultyAtLeast"@, u.difficulty_at_least),
        number_field("difficultyAtMost"@, u.difficulty_at_most),
        route_field(u),
    ]
}

proof fn lemma_unit_pieces(u: PlacedFacts)
    ensures
        spec_placed_fields(u) == joined_fields(unit_pieces(u), 9),
{
    let ps = unit_pieces(u);
    reveal_with_fuel(joined_fields, 10);
    assert(spec_placed_fields(u) =~= ps[0] + ps[1] + ps[2] + ps[3] + ps[4] + ps[5] + ps[6] + ps[7] + ps[8]);
    assert(joined_fields(ps, 9) =~= ps[0] + ps[1] + ps[2] + ps[3] + ps[4] + ps[5] + ps[6] + ps[7] + ps[8]);
}

/// What a placed unit's fields say under `k`, from its pieces.
proof fn lemma_unit_reads(u: PlacedFacts, k: Seq<char>, v: FieldView)
    requires
        forall|i: int| 0 <= i < 9 ==> reads_as(#[trigger] unit_pieces(u)[i], k, v),
    ensures
        (exists|i: int| 0 <= i < 9 && names_field(#[trigger] unit_pieces(u)[i], k)) ==> says(spec_placed_fields(u), k, v),
        (forall|i: int| 0 <= i < 9 ==> !names_field(#[trigger] unit_pieces(u)[i], k)) ==> silent(spec_placed_fields(u), k),
{
    lemma_unit_pieces(u);
    lemma_joined_says(unit_pieces(u), 9, k, v);
}

proof fn lemma_unit_head_reads(u: PlacedFacts)
    ensures
        says(spec_placed_fields(u), "name"@, FieldView::Text(u.unit@)),
        says(spec_placed_fields(u), "x"@, FieldView::Decimal(u.x@)),
        says(spec_placed_fields(u), "z"@, FieldView::Decimal(u.z@)),
        says(spec_placed_fields(u), "facing"@, FieldView::Number(facing_of(u.facing))),
{
    lemma_field_words();
    let ps = unit_pieces(u);
    assert(ps[0][0] == ("name"@, FieldView::Text(u.unit@)));
    assert(ps[0][1] == ("x"@, FieldView::Decimal(u.x@)));
    assert(ps[0][2] == ("z"@, FieldView::Decimal(u.z@)));
    assert(ps[0][3] == ("facing"@, FieldView::Number(facing_of(u.facing))));
    lemma_unit_reads(u, "name"@, FieldView::Text(u.unit@));
    lemma_unit_reads(u, "x"@, FieldView::Decimal(u.x@));
    lemma_unit_reads(u, "z"@, FieldView::Decimal(u.z@));
    lemma_unit_reads(u, "facing"@, FieldView::Number(facing_of(u.facing)));
}

proof fn lemma_unit_decimal_reads(u: PlacedFacts, slot: int, k: Seq<char>, o: Option<String>)
    requires
        1 <= slot < 9,
        unit_pieces(u)[slot] == decimal_field(k, o),
        forall|i: int| 0 <= i < 9 && i != slot ==> silent(#[trigger] unit_pieces(u)[i], k),
    ensures
        o matches Some(t) ==> says(spec_placed_fields(u), k, FieldView::Decimal(t@)),
        o is None ==> silent(spec_placed_fields(u), k),
{
    let ps = unit_pieces(u);
    let v = match o {
        Some(t) => FieldView::Decimal(t@),
        None => FieldView::Flag(true),
    };
    if o is Some {
        assert(ps[slot][0].0 == k);
    }
    lemma_unit_reads(u, k, v);
}

proof fn lemma_unit_number_reads(u: PlacedFacts, slot: int, k: Seq<char>, o: Option<u32>)
    requires
        1 <= slot < 9,
        unit_pieces(u)[slot] == number_field(k, o),
        forall|i: int| 0 <= i < 9 && i != slot ==> silent(#[trigger] unit_pieces(u)[i], k),
    ensures
        o matches Some(n) ==> says(spec_placed_fields(u), k, FieldView::Number(n)),
        o is None ==> silent(spec_placed_fields(u), k),
{
    let ps = unit_pieces(u);
    let v = match o {
        Some(n) => FieldView::Number(n),
        None => FieldView::Flag(true),
    };
    if o is Some {
        assert(ps[slot][0].0 == k);
    }
    lemma_unit_reads(u, k, v);
}

/// No piece of a unit other than its own names the key `k`.
proof fn lemma_unit_elsewhere(u: PlacedFacts, slot: int, k: Seq<char>)
    requires
        0 <= slot < 9,
        k.len() > 0,
        k != "name"@ && k != "x"@ && k != "z"@ && k != "facing"@ || slot == 0,
        slot == 1 || k != "buildProgress"@,
        slot == 2 || k != "experience"@,
        slot == 3 || k != "movestate"@,
        slot == 4 || k != "invincible"@,
        slot == 5 || k != "terraformHeight"@,
        slot == 6 || k != "difficultyAtLeast"@,
        slot == 7 || k != "difficultyAtMost"@,
        slot == 8 || (k != "patrolRoute"@ && k != "selfPatrol"@),
    ensures
        forall|i: int| 0 <= i < 9 && i != slot ==> silent(#[trigger] unit_pieces(u)[i], k),
{
    let ps = unit_pieces(u);
    assert forall|i: int| 0 <= i < 9 && i != slot implies silent(#[trigger] unit_pieces(u)[i], k) by {
        assert forall|j: int| 0 <= j < ps[i].len() implies (#[trigger] ps[i][j]).0 != k by {
            if i == 0 {
                assert(j == 0 || j == 1 || j == 2 || j == 3);
            } else {
                assert(j == 0);
            }
        }
    }
}

/// What a placed unit is sent with, field by field: its name, position and
/// facing (none as 0) always; each optional setting with the value the unit
/// has for it, and nothing under that name when it has none; invincibility
/// only as true; a route of two or more points as its points in order, and
/// otherwise patrolling on the spot when asked for.
#[verifier::spinoff_prover]
#[verifier::rlimit(60)]
pub proof fn law_what_a_unit_is_sent_with(u: PlacedFacts)
    ensures
        says(spec_placed_fields(u), "name"@, FieldView::Text(u.unit@)),
        says(spec_placed_fields(u), "x"@, FieldView::Decimal(u.x@)),
        says(spec_placed_fields(u), "z"@, FieldView::Decimal(u.z@)),
        says(
            spec_placed_fields(u),
            "facing"@,
            FieldView::Number(
                match u.facing {
                    Some(n) => n,
                    None => 0,
                },
            ),
        ),
        u.build_progress matches Some(t) ==> says(spec_placed_fields(u), "buildProgress"@, FieldView::Decimal(t@)),
        u.build_progress is None ==> silent(spec_placed_fields(u), "buildProgress"@),
        u.experience matches Some(t) ==> says(spec_placed_fields(u), "experience"@, FieldView::Decimal(t@)),
        u.experience is None ==> silent(spec_placed_fields(u), "experience"@),
        u.movestate matches Some(n) ==> says(spec_placed_fields(u), "movestate"@, FieldView::Number(n)),
        u.movestate is None ==> silent(spec_placed_fields(u), "movestate"@),
        u.terraform_height matches Some(t) ==> says(spec_placed_fields(u), "terraformHeight"@, FieldView::Decimal(t@)),
        u.terraform_height is None ==> silent(spec_placed_fields(u), "terraformHeight"@),
        u.difficulty_at_least matches Some(n) ==> says(spec_placed_fields(u), "difficultyAtLeast"@, FieldView::Number(n)),
        u.difficulty_at_least is None ==> silent(spec_placed_fields(u), "difficultyAtLeast"@),
        u.difficulty_at_most matches Some(n) ==> says(spec_placed_fields(u), "difficultyAtMost"@, FieldView::Number(n)),
        u.difficulty_at_most is None ==> silent(spec_placed_fields(u), "difficultyAtMost"@),
        u.invincible == Some(true) ==> says(spec_placed_fields(u), "invincible"@, FieldView::Flag(true)),
        u.invincible != Some(true) ==> silent(spec_placed_fields(u), "invincible"@),
        u.patrol@.len() > 1 ==> says(spec_placed_fields(u), "patrolRoute"@, FieldView::Points(pairs_of(u.patrol@)))
            && silent(spec_placed_fields(u), "selfPatrol"@),
        u.patrol@.len() <= 1 && u.self_patrol ==> says(spec_placed_fields(u), "selfPatrol"@, FieldView::Flag(true))
            && silent(spec_placed_fields(u), "patrolRoute"@),
        u.patrol@.len() <= 1 && !u.self_patrol ==> silent(spec_placed_fields(u), "selfPatrol"@) && silent(
            spec_placed_fields(u),
            "patrolRoute"@,
        ),
{
    lemma_field_words();
    lemma_unit_head_reads(u);
    let bp = "buildProgress"@;
    let ex = "experience"@;
    let mv = "movestate"@;
    let iv = "invincible"@;
    let th = "terraformHeight"@;
    let dl = "difficultyAtLeast"@;
    let dm = "difficultyAtMost"@;
    let pr = "patrolRoute"@;
    let sp = "selfPatrol"@;
    assert(dl != dm);
    lemma_unit_elsewhere(u, 1, bp);
    lemma_unit_decimal_reads(u, 1, bp, u.build_progress);
    lemma_unit_elsewhere(u, 2, ex);
    lemma_unit_decimal_reads(u, 2, ex, u.experience);
    lemma_unit_elsewhere(u, 3, mv);
    lemma_unit_number_reads(u, 3, mv, u.movestate);
    lemma_unit_elsewhere(u, 5, th);
    lemma_unit_decimal_reads(u, 5, th, u.terraform_height);
    lemma_unit_elsewhere(u, 6, dl);
    lemma_unit_number_reads(u, 6, dl, u.difficulty_at_least);
    lemma_unit_elsewhere(u, 7, dm);
    lemma_unit_number_reads(u, 7, dm, u.difficulty_at_most);
    lemma_unit_flag_reads(u);
}

#[verifier::spinoff_prover]
proof fn lemma_unit_flag_reads(u: PlacedFacts)
    ensures
        u.invincible == Some(true) ==> says(spec_placed_fields(u), "invincible"@, FieldView::Flag(true)),
        u.invincible != Some(true) ==> silent(spec_placed_fields(u), "invincible"@),
        u.patrol@.len() > 1 ==> says(spec_placed_fields(u), "patrolRoute"@, FieldView::Points(pairs_of(u.patrol@)))
            && silent(spec_placed_fields(u), "selfPatrol"@),
        u.patrol@.len() <= 1 && u.self_patrol ==> says(spec_placed_fields(u), "selfPatrol"@, FieldView::Flag(true))
            && silent(spec_placed_fields(u), "patrolRoute"@),
        u.patrol@.len() <= 1 && !u.self_patrol ==> silent(spec_placed_fields(u), "selfPatrol"@) && silent(
            spec_placed_fields(u),
            "patrolRoute"@,
        ),
{
    lemma_field_words();
    let iv = "invincible"@;
    let pr = "patrolRoute"@;
    let sp = "selfPatrol"@;
    lemma_unit_elsewhere(u, 4, iv);
    lemma_unit_elsewhere(u, 8, pr);
    lemma_unit_elsewhere(u, 8, sp);
    let ps = unit_pieces(u);
    if u.invincible == Some(true) {
        assert(ps[4][0].0 == iv);
    }
    lemma_unit_reads(u, iv, FieldView::Flag(true));
    if u.patrol@.len() > 1 {
        assert(ps[8][0].0 == pr);
        lemma_unit_reads(u, pr, FieldView::Points(pairs_of(u.patrol@)));
        lemma_unit_reads(u, sp, FieldView::Flag(true));
    } else {
        if u.self_patrol {
            assert(ps[8][0].0 == sp);
        }
        lemma_unit_reads(u, sp, FieldView::Flag(true));
        lemma_unit_reads(u, pr, FieldView::Flag(true));
    }
}

/// The pairs a mission's modoptions are made of, sent where the mission has
/// them.
proof fn lemma_mission_pairs(s: ScenarioFacts, m: MissionFacts)
    ensures
        s.goals@.len() > 0 ==> has_pair(
            spec_mission_modoptions(s, m),
            "bonusobjectiveconfig"@,
            spec_encode(lua_list(goal_rows(s.goals@))),
        ),
        m.difficulty != 2 ==> has_pair(spec_mission_modoptions(s, m), "planetmissiondifficulty"@, decimal(m.difficulty as nat)),
        m.markers@.len() > 0 ==> has_pair(
            spec_mission_modoptions(s, m),
            "planetmissionmapmarkers"@,
            spec_encode(lua_list(marker_rows(m.markers@))),
        ),
        m.features@.len() > 0 ==> has_pair(
            spec_mission_modoptions(s, m),
            "featurestospawn"@,
            spec_encode(lua_list(feature_rows(m.features@))),
        ),
        has_pair(spec_mission_modoptions(s, m), "planetmissioninformationtext"@, spec_encode(lua_record(info_fields(m)))),
{
    lemma_mission_parts(s, m);
    let fixed = seq![("singleplayercampaignbattleid"@, "splaunch"@), ("fixedstartpos"@, "1"@)];
    let ob = optional(s.goals@.len() > 0, "bonusobjectiveconfig"@, spec_encode(lua_list(goal_rows(s.goals@))));
    let od = optional(m.difficulty != DEFAULT_DIFFICULTY, "planetmissiondifficulty"@, decimal(m.difficulty as nat));
    let om = optional(m.markers@.len() > 0, "planetmissionmapmarkers"@, spec_encode(lua_list(marker_rows(m.markers@))));
    let of = optional(m.features@.len() > 0, "featurestospawn"@, spec_encode(lua_list(feature_rows(m.features@))));
    let info = seq![("planetmissioninformationtext"@, spec_encode(lua_record(info_fields(m))))];
    let ox = optional(m.defeat@.len() > 0, "defeatconditionconfig"@, spec_encode(lua_indexed(defeat_rows(m.defeat@))));
    let u = spec_unit_keys(neutral_rows(m.units@, m.units@.len() as int), "neutralstartunits"@);
    let p = spec_mission_modoptions(s, m);
    let a = fixed;
    let b = a + ob;
    let c = b + od;
    let d = c + om;
    let e = d + of;
    let f = e + info;
    assert(p =~= f + ox + u);
    if s.goals@.len() > 0 {
        assert(p[a.len() as int] == ob[0]);
    }
    if m.difficulty != 2 {
        assert(p[b.len() as int] == od[0]);
    }
    if m.markers@.len() > 0 {
        assert(p[c.len() as int] == om[0]);
    }
    if m.features@.len() > 0 {
        assert(p[d.len() as int] == of[0]);
    }
    assert(p[e.len() as int] == info[0]);
}

/// What the mission sends, by what it holds: the objectives under
/// `bonusobjectiveconfig`, one row each in order, each row the objective's
/// own fields; a difficulty other than normal as its number; the map
/// markers, one row each, each with its position and text; the features,
/// one row each, with name, position and facing (none as 0); and the
/// briefing under `planetmissioninformationtext`, with the mission's name,
/// its trimmed briefing text (empty without one) and its non-blank
/// objectives as tips when there are any.
#[verifier::spinoff_prover]
#[verifier::rlimit(60)]
pub proof fn law_what_the_mission_carries(s: ScenarioFacts, m: MissionFacts)
    ensures
        s.goals@.len() > 0 ==> has_pair(
            spec_mission_modoptions(s, m),
            "bonusobjectiveconfig"@,
            spec_encode(lua_list(goal_rows(s.goals@))),
        ),
        goal_rows(s.goals@).len() == s.goals@.len(),
        forall|k: int| 0 <= k < s.goals@.len() ==> #[trigger] goal_rows(s.goals@)[k] == spec_goal_fields(s.goals@[k]),
        m.difficulty != 2 ==> has_pair(spec_mission_modoptions(s, m), "planetmissiondifficulty"@, decimal(m.difficulty as nat)),
        m.markers@.len() > 0 ==> has_pair(
            spec_mission_modoptions(s, m),
            "planetmissionmapmarkers"@,
            spec_encode(lua_list(marker_rows(m.markers@))),
        ),
        marker_rows(m.markers@).len() == m.markers@.len(),
        forall|k: int|
            0 <= k < m.markers@.len() ==> {
                let f = #[trigger] marker_rows(m.markers@)[k];
                &&& says(f, "x"@, FieldView::Decimal(m.markers@[k].x@))
                &&& says(f, "z"@, FieldView::Decimal(m.markers@[k].z@))
                &&& says(f, "text"@, FieldView::Text(m.markers@[k].text@))
            },
        m.features@.len() > 0 ==> has_pair(
            spec_mission_modoptions(s, m),
            "featurestospawn"@,
            spec_encode(lua_list(feature_rows(m.features@))),
        ),
        feature_rows(m.features@).len() == m.features@.len(),
        forall|k: int|
            0 <= k < m.features@.len() ==> {
                let f = #[trigger] feature_rows(m.features@)[k];
                let ft = m.features@[k];
                &&& says(f, "name"@, FieldView::Text(ft.name@))
                &&& says(f, "x"@, FieldView::Decimal(ft.x@))
                &&& says(f, "z"@, FieldView::Decimal(ft.z@))
                &&& says(
                    f,
                    "facing"@,
                    FieldView::Number(
                        match ft.facing {
                            Some(n) => n,
                            None => 0,
                        },
                    ),
                )
            },
        has_pair(spec_mission_modoptions(s, m), "planetmissioninformationtext"@, spec_encode(lua_record(info_fields(m)))),
        says(info_fields(m), "name"@, FieldView::Text(m.name@)),
        says(
            info_fields(m),
            "description"@,
            FieldView::Text(
                match m.briefing {
                    Some(b) => trim(b@),
                    None => Seq::empty(),
                },
            ),
        ),
        notes(m.objectives@).len() > 0 ==> says(info_fields(m), "tips"@, FieldView::Notes(notes(m.objectives@))),
        notes(m.objectives@).len() == 0 ==> silent(info_fields(m), "tips"@),
{
    lemma_mission_pairs(s, m);
    lemma_marker_rows_say(m.markers@);
    lemma_feature_rows_say(m.features@);
    lemma_info_says(m);
}

proof fn lemma_marker_rows_say(ms: Seq<MarkerFacts>)
    ensures
        marker_rows(ms).len() == ms.len(),
        forall|k: int|
            0 <= k < ms.len() ==> {
                let f = #[trigger] marker_rows(ms)[k];
                &&& says(f, "x"@, FieldView::Decimal(ms[k].x@))
                &&& says(f, "z"@, FieldView::Decimal(ms[k].z@))
                &&& says(f, "text"@, FieldView::Text(ms[k].text@))
            },
{
    lemma_field_words();
    reveal_strlit("text");
    assert forall|k: int| 0 <= k < ms.len() implies {
        let f = #[trigger] marker_rows(ms)[k];
        &&& says(f, "x"@, FieldView::Decimal(ms[k].x@))
        &&& says(f, "z"@, FieldView::Decimal(ms[k].z@))
        &&& says(f, "text"@, FieldView::Text(ms[k].text@))
    } by {
        let f = marker_rows(ms)[k];
        assert(f == marker_fields(ms[k]));
        assert("text"@[0] == 't');
        assert(distinct_names(f));
        lemma_says_field(f, 0);
        lemma_says_field(f, 1);
        lemma_says_field(f, 2);
    }
}

proof fn lemma_feature_rows_say(fs: Seq<FeatureFacts>)
    ensures
        feature_rows(fs).len() == fs.len(),
        forall|k: int|
            0 <= k < fs.len() ==> {
                let f = #[trigger] feature_rows(fs)[k];
                let ft = fs[k];
                &&& says(f, "name"@, FieldView::Text(ft.name@))
                &&& says(f, "x"@, FieldView::Decimal(ft.x@))
                &&& says(f, "z"@, FieldView::Decimal(ft.z@))
                &&& says(
                    f,
                    "facing"@,
                    FieldView::Number(
                        match ft.facing {
                            Some(n) => n,
                            None => 0,
                        },
                    ),
                )
            },
{
    lemma_field_words();
    assert forall|k: int| 0 <= k < fs.len() implies {
        let f = #[trigger] feature_rows(fs)[k];
        let ft = fs[k];
        &&& says(f, "name"@, FieldView::Text(ft.name@))
        &&& says(f, "x"@, FieldView::Decimal(ft.x@))
        &&& says(f, "z"@, FieldView::Decimal(ft.z@))
        &&& says(
            f,
            "facing"@,
            FieldView::Number(
                match ft.facing {
                    Some(n) => n,
                    None => 0,
                },
            ),
        )
    } by {
        let f = feature_rows(fs)[k];
        assert(f == feature_fields(fs[k]));
        assert(distinct_names(f));
        lemma_says_field(f, 0);
        lemma_says_field(f, 1);
        lemma_says_field(f, 2);
        lemma_says_field(f, 3);
    }
}

proof fn lemma_info_says(m: MissionFacts)
    ensures
        says(info_fields(m), "name"@, FieldView::Text(m.name@)),
        says(
            info_fields(m),
            "description"@,
            FieldView::Text(
                match m.briefing {
                    Some(b) => trim(b@),
                    None => Seq::empty(),
                },
            ),
        ),
        notes(m.objectives@).len() > 0 ==> says(info_fields(m), "tips"@, FieldView::Notes(notes(m.objectives@))),
        notes(m.objectives@).len() == 0 ==> silent(info_fields(m), "tips"@),
{
    reveal_strlit("name");
    reveal_strlit("description");
    reveal_strlit("tips");
    let inf = info_fields(m);
    assert("name"@.len() == 4 && "description"@.len() == 11 && "tips"@.len() == 4);
    assert("name"@ != "tips"@) by {
        assert("name"@[0] != "tips"@[0]);
    }
    assert(distinct_names(inf));
    lemma_says_field(inf, 0);
    lemma_says_field(inf, 1);
    if notes(m.objectives@).len() > 0 {
        lemma_says_field(inf, 2);
    }
}

/// The keys the mission modoptions are sent under: the battle id, the fixed
/// start positions, the difficulty, the five named payloads, and Gaia's
/// units in keys that open with `neutralstartunits_`.
pub proof fn law_the_mission_keys(s: ScenarioFacts, m: MissionFacts)
    ensures
        forall|i: int|
            0 <= i < spec_mission_modoptions(s, m).len() ==> {
                let k = (#[trigger] spec_mission_modoptions(s, m)[i]).0;
                ||| k == "singleplayercampaignbattleid"@
                ||| k == "fixedstartpos"@
                ||| k == "planetmissiondifficulty"@
                ||| k == "bonusobjectiveconfig"@
                ||| k == "planetmissionmapmarkers"@
                ||| k == "featurestospawn"@
                ||| k == "planetmissioninformationtext"@
                ||| k == "defeatconditionconfig"@
                ||| crate::text::starts_with(k, "neutralstartunits_"@)
            },
{
    lemma_mission_parts(s, m);
    reveal_strlit("neutralstartunits_");
    reveal_strlit("neutralstartunits");
    reveal_strlit("_");
    assert("neutralstartunits"@ + "_"@ =~= "neutralstartunits_"@);
    let fixed = seq![("singleplayercampaignbattleid"@, "splaunch"@), ("fixedstartpos"@, "1"@)];
    let ob = optional(s.goals@.len() > 0, "bonusobjectiveconfig"@, spec_encode(lua_list(goal_rows(s.goals@))));
    let od = optional(m.difficulty != DEFAULT_DIFFICULTY, "planetmissiondifficulty"@, decimal(m.difficulty as nat));
    let om = optional(m.markers@.len() > 0, "planetmissionmapmarkers"@, spec_encode(lua_list(marker_rows(m.markers@))));
    let of = optional(m.features@.len() > 0, "featurestospawn"@, spec_encode(lua_list(feature_rows(m.features@))));
    let info = seq![("planetmissioninformationtext"@, spec_encode(lua_record(info_fields(m))))];
    let ox = optional(m.defeat@.len() > 0, "defeatconditionconfig"@, spec_encode(lua_indexed(defeat_rows(m.defeat@))));
    let rows = neutral_rows(m.units@, m.units@.len() as int);
    let u = spec_unit_keys(rows, "neutralstartunits"@);
    lemma_unit_keys_shape(rows, "neutralstartunits"@, chunk_count(rows.len()));
    let p = spec_mission_modoptions(s, m);
    let a = fixed + ob + od + om + of + info + ox;
    assert(p =~= a + u);
    assert forall|i: int| 0 <= i < p.len() implies {
        let k = (#[trigger] p[i]).0;
        ||| k == "singleplayercampaignbattleid"@
        ||| k == "fixedstartpos"@
        ||| k == "planetmissiondifficulty"@
        ||| k == "bonusobjectiveconfig"@
        ||| k == "planetmissionmapmarkers"@
        ||| k == "featurestospawn"@
        ||| k == "planetmissioninformationtext"@
        ||| k == "defeatconditionconfig"@
        ||| crate::text::starts_with(k, "neutralstartunits_"@)
    } by {
        if i < a.len() {
            assert(p[i] == a[i]);
            let b1 = fixed + ob;
            let b2 = b1 + od;
            let b3 = b2 + om;
            let b4 = b3 + of;
            let b5 = b4 + info;
            if i < 2 {
                assert(a[i] == fixed[i]);
            } else if i < b1.len() {
                assert(a[i] == ob[i - 2]);
            } else if i < b2.len() {
                assert(a[i] == od[i - b1.len()]);
            } else if i < b3.len() {
                assert(a[i] == om[i - b2.len()]);
            } else if i < b4.len() {
                assert(a[i] == of[i - b3.len()]);
            } else if i < b5.len() {
                assert(a[i] == info[i - b4.len()]);
            } else {
                assert(a[i] == ox[i - b5.len()]);
            }
        } else {
            let j = i - a.len();
            assert(p[i] == u[j]);
            let key = "neutralstartunits"@ + "_"@ + decimal((j + 1) as nat);
            assert(u[j].0 == key);
            assert(key.take(18) =~= "neutralstartunits_"@);
        }
    }
}

/// Some field of `f` is named `k`.
pub open spec fn has_field(f: Seq<(Seq<char>, FieldView)>, k: Seq<char>) -> bool {
    exists|i: int| 0 <= i < f.len() && (#[trigger] f[i]).0 == k
}

proof fn lemma_has_field_cat(a: Seq<(Seq<char>, FieldView)>, b: Seq<(Seq<char>, FieldView)>, k: Seq<char>)
    ensures
        has_field(a + b, k) <==> has_field(a, k) || has_field(b, k),
{
    if has_field(a, k) {
        let i = choose|i: int| 0 <= i < a.len() && (#[trigger] a[i]).0 == k;
        assert((a + b)[i] == a[i]);
    }
    if has_field(b, k) {
        let i = choose|i: int| 0 <= i < b.len() && (#[trigger] b[i]).0 == k;
        assert((a + b)[a.len() + i] == b[i]);
    }
    if has_field(a + b, k) {
        let i = choose|i: int| 0 <= i < (a + b).len() && (#[trigger] (a + b)[i]).0 == k;
        if i < a.len() {
            assert(a[i] == (a + b)[i]);
        } else {
            assert(b[i - a.len()] == (a + b)[i]);
        }
    }
}

proof fn lemma_has_one(k: Seq<char>, v: FieldView, x: Seq<char>)
    ensures
        has_field(seq![(k, v)], x) <==> k == x,
{
    if k == x {
        assert(seq![(k, v)][0].0 == x);
    }
}

proof fn lemma_field_words()
    ensures
        "name"@[0] == 'n' && "x"@[0] == 'x' && "z"@[0] == 'z' && "facing"@[0] == 'f',
        "name"@.len() > 0 && "x"@.len() > 0 && "z"@.len() > 0 && "facing"@.len() > 0,
        "buildProgress"@[0] == 'b' && "experience"@[0] == 'e' && "movestate"@[0] == 'm' && "invincible"@[0]
            == 'i' && "terraformHeight"@[0] == 't' && "patrolRoute"@[0] == 'p' && "selfPatrol"@[0] == 's',
        "difficultyAtLeast"@[0] == 'd' && "difficultyAtMost"@[0] == 'd',
        "difficultyAtLeast"@.len() == 17 && "difficultyAtMost"@.len() == 16,
        "buildProgress"@.len() > 0 && "experience"@.len() > 0 && "movestate"@.len() > 0 && "invincible"@.len()
            > 0 && "terraformHeight"@.len() > 0 && "patrolRoute"@.len() > 0 && "selfPatrol"@.len() > 0,
{
    reveal_strlit("name");
    reveal_strlit("x");
    reveal_strlit("z");
    reveal_strlit("facing");
    reveal_strlit("buildProgress");
    reveal_strlit("experience");
    reveal_strlit("movestate");
    reveal_strlit("invincible");
    reveal_strlit("terraformHeight");
    reveal_strlit("patrolRoute");
    reveal_strlit("selfPatrol");
    reveal_strlit("difficultyAtLeast");
    reveal_strlit("difficultyAtMost");
}

pub open spec fn route_field(u: PlacedFacts) -> Seq<(Seq<char>, FieldView)> {
    if u.patrol@.len() > 1 {
        seq![("patrolRoute"@, FieldView::Points(pairs_of(u.patrol@)))]
    } else if u.self_patrol {
        seq![("selfPatrol"@, FieldView::Flag(true))]
    } else {
        Seq::empty()
    }
}

pub open spec fn invincible_field(u: PlacedFacts) -> Seq<(Seq<char>, FieldView)> {
    if u.invincible == Some(true) {
        seq![("invincible"@, FieldView::Flag(true))]
    } else {
        Seq::empty()
    }
}

/// Whether an optional field other than the four a unit always has is sent.
proof fn lemma_unit_field(u: PlacedFacts, x: Seq<char>)
    requires
        x.len() > 0,
        x[0] != 'n' && x[0] != 'x' && x[0] != 'z' && x[0] != 'f',
    ensures
        has_field(spec_placed_fields(u), x) <==> (u.build_progress is Some && x == "buildProgress"@) || (
        u.experience is Some && x == "experience"@) || (u.movestate is Some && x == "movestate"@) || (u.invincible
            == Some(true) && x == "invincible"@) || (u.terraform_height is Some && x == "terraformHeight"@) || (
        u.difficulty_at_least is Some && x == "difficultyAtLeast"@) || (u.difficulty_at_most is Some && x
            == "difficultyAtMost"@) || (u.patrol@.len() > 1 && x == "patrolRoute"@) || (u.patrol@.len() <= 1
            && u.self_patrol && x == "selfPatrol"@),
{
    lemma_field_words();
    let f0 = seq![
        ("name"@, FieldView::Text(u.unit@)),
        ("x"@, FieldView::Decimal(u.x@)),
        ("z"@, FieldView::Decimal(u.z@)),
        ("facing"@, FieldView::Number(facing_of(u.facing))),
    ];
    let a = decimal_field("buildProgress"@, u.build_progress);
    let b = decimal_field("experience"@, u.experience);
    let c = number_field("movestate"@, u.movestate);
    let d = invincible_field(u);
    let e = decimal_field("terraformHeight"@, u.terraform_height);
    let g = number_field("difficultyAtLeast"@, u.difficulty_at_least);
    let h = number_field("difficultyAtMost"@, u.difficulty_at_most);
    let r = route_field(u);
    assert(spec_placed_fields(u) == f0 + a + b + c + d + e + g + h + r);
    lemma_has_field_cat(f0, a, x);
    lemma_has_field_cat(f0 + a, b, x);
    lemma_has_field_cat(f0 + a + b, c, x);
    lemma_has_field_cat(f0 + a + b + c, d, x);
    lemma_has_field_cat(f0 + a + b + c + d, e, x);
    lemma_has_field_cat(f0 + a + b + c + d + e, g, x);
    lemma_has_field_cat(f0 + a + b + c + d + e + g, h, x);
    lemma_has_field_cat(f0 + a + b + c + d + e + g + h, r, x);
    if has_field(f0, x) {
        let i = choose|i: int| 0 <= i < f0.len() && (#[trigger] f0[i]).0 == x;
        assert(0 <= i < 4);
        assert(f0[i].0[0] != x[0]);
    }
    match u.build_progress {
        Some(t) => lemma_has_one("buildProgress"@, FieldView::Decimal(t@), x),
        None => {},
    }
    match u.experience {
        Some(t) => lemma_has_one("experience"@, FieldView::Decimal(t@), x),
        None => {},
    }
    match u.movestate {
        Some(n) => lemma_has_one("movestate"@, FieldView::Number(n), x),
        None => {},
    }
    if u.invincible == Some(true) {
        lemma_has_one("invincible"@, FieldView::Flag(true), x);
    }
    match u.terraform_height {
        Some(t) => lemma_has_one("terraformHeight"@, FieldView::Decimal(t@), x),
        None => {},
    }
    match u.difficulty_at_least {
        Some(n) => lemma_has_one("difficultyAtLeast"@, FieldView::Number(n), x),
        None => {},
    }
    match u.difficulty_at_most {
        Some(n) => lemma_has_one("difficultyAtMost"@, FieldView::Number(n), x),
        None => {},
    }
    if u.patrol@.len() > 1 {
        lemma_has_one("patrolRoute"@, FieldView::Points(pairs_of(u.patrol@)), x);
    } else if u.self_patrol {
        lemma_has_one("selfPatrol"@, FieldView::Flag(true), x);
    }
}

/// How a placed unit is sent: its name, position and facing always, a
/// missing facing as 0; each optional field exactly when it is set, and
/// `invincible` only when true; a route of more than one point, or else
/// patrolling on the spot where asked - never both.
proof fn lemma_first_four(u: PlacedFacts)
    ensures
        spec_placed_fields(u).len() >= 4,
        spec_placed_fields(u)[0] == ("name"@, FieldView::Text(u.unit@)),
        spec_placed_fields(u)[1] == ("x"@, FieldView::Decimal(u.x@)),
        spec_placed_fields(u)[2] == ("z"@, FieldView::Decimal(u.z@)),
        spec_placed_fields(u)[3] == ("facing"@, FieldView::Number(facing_of(u.facing))),
{
    let f0 = seq![
        ("name"@, FieldView::Text(u.unit@)),
        ("x"@, FieldView::Decimal(u.x@)),
        ("z"@, FieldView::Decimal(u.z@)),
        ("facing"@, FieldView::Number(facing_of(u.facing))),
    ];
    let a = decimal_field("buildProgress"@, u.build_progress);
    let b = decimal_field("experience"@, u.experience);
    let c = number_field("movestate"@, u.movestate);
    let d = invincible_field(u);
    let e = decimal_field("terraformHeight"@, u.terraform_height);
    let g = number_field("difficultyAtLeast"@, u.difficulty_at_least);
    let h = number_field("difficultyAtMost"@, u.difficulty_at_most);
    let r = route_field(u);
    assert(spec_placed_fields(u) == f0 + a + b + c + d + e + g + h + r);
    lemma_prefix_kept(f0, a, b, c, d, e, g, h, r);
}

proof fn lemma_prefix_kept<A>(f0: Seq<A>, a: Seq<A>, b: Seq<A>, c: Seq<A>, d: Seq<A>, e: Seq<A>, g: Seq<A>, h: Seq<A>, r: Seq<A>)
    ensures
        (f0 + a + b + c + d + e + g + h + r).len() >= f0.len(),
        forall|k: int| 0 <= k < f0.len() ==> #[trigger] (f0 + a + b + c + d + e + g + h + r)[k] == f0[k],
{
    assert((f0 + a + b + c + d + e + g + h + r).subrange(0, f0.len() as int) =~= f0);
    assert forall|k: int| 0 <= k < f0.len() implies #[trigger] (f0 + a + b + c + d + e + g + h + r)[k] == f0[k] by {
        assert((f0 + a + b + c + d + e + g + h + r).subrange(0, f0.len() as int)[k] == f0[k]);
    }
}

/// A placed unit is always sent with its name, position and facing, first
/// and in that order; each optional setting is sent exactly when the unit
/// has it; and a route of two or more points is sent in place of
/// patrolling on the spot, never beside it.
#[verifier::spinoff_prover]
pub proof fn law_how_a_unit_is_sent(u: PlacedFacts)
    ensures
        spec_placed_fields(u).len() >= 4,
        spec_placed_fields(u)[0] == ("name"@, FieldView::Text(u.unit@)),
        spec_placed_fields(u)[1] == ("x"@, FieldView::Decimal(u.x@)),
        spec_placed_fields(u)[2] == ("z"@, FieldView::Decimal(u.z@)),
        spec_placed_fields(u)[3] == ("facing"@, FieldView::Number(facing_of(u.facing))),
        has_field(spec_placed_fields(u), "buildProgress"@) <==> u.build_progress is Some,
        has_field(spec_placed_fields(u), "experience"@) <==> u.experience is Some,
        has_field(spec_placed_fields(u), "movestate"@) <==> u.movestate is Some,
        has_field(spec_placed_fields(u), "invincible"@) <==> u.invincible == Some(true),
        has_field(spec_placed_fields(u), "terraformHeight"@) <==> u.terraform_height is Some,
        has_field(spec_placed_fields(u), "difficultyAtLeast"@) <==> u.difficulty_at_least is Some,
        has_field(spec_placed_fields(u), "difficultyAtMost"@) <==> u.difficulty_at_most is Some,
        has_field(spec_placed_fields(u), "patrolRoute"@) <==> u.patrol@.len() > 1,
        has_field(spec_placed_fields(u), "selfPatrol"@) <==> u.patrol@.len() <= 1 && u.self_patrol,
        !(has_field(spec_placed_fields(u), "patrolRoute"@) && has_field(spec_placed_fields(u), "selfPatrol"@)),
{
    lemma_first_four(u);
    lemma_field_words();
    let bp = "buildProgress"@;
    let ex = "experience"@;
    let mv = "movestate"@;
    let iv = "invincible"@;
    let th = "terraformHeight"@;
    let dl = "difficultyAtLeast"@;
    let dm = "difficultyAtMost"@;
    let pr = "patrolRoute"@;
    let sp = "selfPatrol"@;
    assert(dl != dm);
    assert(bp != ex && bp != mv && bp != iv && bp != th && bp != dl && bp != dm && bp != pr && bp != sp) by {
        assert(bp[0] == 'b');
    }
    assert(ex != mv && ex != iv && ex != th && ex != dl && ex != dm && ex != pr && ex != sp) by {
        assert(ex[0] == 'e');
    }
    assert(mv != iv && mv != th && mv != dl && mv != dm && mv != pr && mv != sp) by {
        assert(mv[0] == 'm');
    }
    assert(iv != th && iv != dl && iv != dm && iv != pr && iv != sp) by {
        assert(iv[0] == 'i');
    }
    assert(th != dl && th != dm && th != pr && th != sp) by {
        assert(th[0] == 't');
    }
    assert(dl != pr && dl != sp && dm != pr && dm != sp && pr != sp) by {
        assert(dl[0] == 'd' && dm[0] == 'd' && pr[0] == 'p' && sp[0] == 's');
    }
    lemma_unit_field(u, bp);
    lemma_unit_field(u, ex);
    lemma_unit_field(u, mv);
    lemma_unit_field(u, iv);
    lemma_unit_field(u, th);
    lemma_unit_field(u, dl);
    lemma_unit_field(u, dm);
    lemma_unit_field(u, pr);
    lemma_unit_field(u, sp);
}

} // verus!
