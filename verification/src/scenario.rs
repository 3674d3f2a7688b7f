//! Scenarios: the teams, objectives and defeat conditions a scenario holds,
//! the checks a scenario must pass before it is compiled, and the pieces of
//! the start script the compiler writes.
//!
//! Positions and everything else in a scenario that is floating point stay
//! with the caller; what is decided over them arrives here as plain values.
use vstd::prelude::*;
use crate::game::{spec_group_by_name, strings_view};
use crate::text::{chars_of, decimal, decimal_string, owned, signed_decimal, signed_decimal_string, string_of, trim, trimmed};

verus! {

/// How wide a map is by default, in elmos: Spring maps are `size * 512`
/// elmos on a side.
pub const DEFAULT_MAP_ELMOS: u32 = 8 * 512;

/// Zero-K's own default difficulty: 1 easy, 2 normal, 3 hard.
pub const DEFAULT_DIFFICULTY: u32 = 2;

/// The scenario format this build writes.
pub const FORMAT_VERSION: u32 = 1;

/// A team in the scenario. Team 0 is the player unless `ai` says otherwise.
#[derive(Debug, Clone, PartialEq)]
pub struct Team {
    pub id: u32,
    pub ally: u32,
    /// None for the human player; otherwise the AI's short name.
    pub ai: Option<String>,
    /// "1 0 0", as the start script's `RGBColor` spells it.
    pub colour: String,
}

/// What an author is trying to say, rather than the fields it takes.
#[derive(Debug, Clone, PartialEq)]
pub enum Goal {
    /// Keep at least one of these alive to the deadline.
    SurviveUntil { seconds: u32, units: Vec<String> },
    /// Produce this many, counting ones that died on the way.
    BuildBy { unit: String, count: u32, seconds: u32 },
    /// Have this many at one moment; the satisfying set is frozen.
    HaveAtOnce { unit: String, count: u32 },
    /// None of the enemy's left by the deadline.
    DestroyAllBy { unit: String, seconds: u32 },
    /// Kill this many, however long it takes.
    KillCount { unit: String, count: u32 },
    /// Win the match before the clock runs out.
    WinBefore { seconds: u32 },
}

/// One objective: what the player is told, and what the game checks.
#[derive(Debug, Clone, PartialEq)]
pub struct Objective {
    pub description: String,
    pub goal: Goal,
}

/// What losing looks like, for one side.
#[derive(Debug, Clone, PartialEq)]
pub struct Defeat {
    pub ally: u32,
    /// Losing all of these loses the game for this side.
    pub vital_units: Vec<String>,
    /// A hard clock; none when absent rather than zero.
    pub lose_after_seconds: Option<u32>,
}

// ------------------------------------------------------------- escaping ---

/// The characters a start-script value cannot hold: the delimiters, which
/// would change the script's shape.
pub open spec fn delimiter(c: char) -> bool {
    c == ';' || c == '{' || c == '}' || c == '\n' || c == '\r'
}

/// `s` without its delimiters.
pub open spec fn spec_escape(s: Seq<char>) -> Seq<char>
    decreases s.len(),
{
    if s.len() == 0 {
        Seq::empty()
    } else if delimiter(s.last()) {
        spec_escape(s.drop_last())
    } else {
        spec_escape(s.drop_last()).push(s.last())
    }
}

/// A value made safe for a start script: delimiters are removed and
/// everything else is kept, because a scenario name is the author's own and
/// losing their semicolon beats refusing to launch.
pub fn escape(value: &str) -> (r: String)
    ensures
        r@ == spec_escape(value@),
{
    let s = chars_of(value);
    let mut out: Vec<char> = Vec::new();
    let mut i: usize = 0;
    while i < s.len()
        invariant
            i <= s@.len(),
            out@ == spec_escape(s@.take(i as int)),
        decreases s.len() - i,
    {
        let c = s[i];
        assert(s@.take(i + 1).drop_last() =~= s@.take(i as int));
        if !(c == ';' || c == '{' || c == '}' || c == '\n' || c == '\r') {
            out.push(c);
        }
        i = i + 1;
    }
    assert(s@.take(s@.len() as int) =~= s@);
    string_of(out.as_slice())
}

/// `{indent}{k}={v};` and a newline: one start-script line.
pub open spec fn script_line(indent: Seq<char>, k: Seq<char>, v: Seq<char>) -> Seq<char> {
    indent + k + "="@ + v + ";\n"@
}

/// Append one start-script line to `out`.
pub fn key(out: &mut String, indent: &str, k: &str, v: &str)
    ensures
        final(out)@ == old(out)@ + script_line(indent@, k@, v@),
{
    out.append(indent);
    out.append(k);
    out.append("=");
    out.append(v);
    out.append(";\n");
}

// ----------------------------------------------------------- objectives ---

/// A field of an objective, as the mission gadget reads it.
#[derive(Debug, Clone, PartialEq)]
pub enum FieldValue {
    Number(u32),
    Flag(bool),
    Text(String),
    /// A Lua array of unit names.
    Names(Vec<String>),
    /// A number the caller has written out in decimal, such as a position
    /// in elmos or a fraction of a build.
    Decimal(String),
    /// A route: an array of points, each an array of its two coordinates,
    /// written out in decimal.
    Points(Vec<(String, String)>),
    /// Briefing tips: an array of tables, each holding one `text`.
    Notes(Vec<String>),
}

pub enum FieldView {
    Number(u32),
    Flag(bool),
    Text(Seq<char>),
    Names(Seq<Seq<char>>),
    Decimal(Seq<char>),
    Points(Seq<(Seq<char>, Seq<char>)>),
    Notes(Seq<Seq<char>>),
}

impl View for FieldValue {
    type V = FieldView;

    open spec fn view(&self) -> FieldView {
        match self {
            FieldValue::Number(n) => FieldView::Number(*n),
            FieldValue::Flag(b) => FieldView::Flag(*b),
            FieldValue::Text(t) => FieldView::Text(t@),
            FieldValue::Names(v) => FieldView::Names(strings_view(v@)),
            FieldValue::Decimal(t) => FieldView::Decimal(t@),
            FieldValue::Points(v) => FieldView::Points(crate::script::pairs_of(v@)),
            FieldValue::Notes(v) => FieldView::Notes(strings_view(v@)),
        }
    }
}

/// Zero-K's comparison constants, from its mission gadget.
pub const AT_LEAST: u32 = 1;

pub const AT_MOST: u32 = 2;

/// The fields one objective compiles to, in the order they are set: the
/// description, then the combination Zero-K's own annotated examples give
/// for the goal. Building counts the dead; having counts the living and
/// freezes the set; killing counts only the dead, of the enemy's units.
pub open spec fn spec_goal_fields(o: Objective) -> Seq<(Seq<char>, FieldView)> {
    seq![("description"@, FieldView::Text(o.description@))] + match o.goal {
        Goal::WinBefore { seconds } => seq![("victoryByTime"@, FieldView::Number(seconds))],
        Goal::SurviveUntil { seconds, units } => seq![
            ("satisfyUntilTime"@, FieldView::Number(seconds)),
            ("comparisionType"@, FieldView::Number(AT_LEAST)),
            ("targetNumber"@, FieldView::Number(1)),
        ] + if units@.len() > 0 {
            seq![("unitTypes"@, FieldView::Names(strings_view(units@)))]
        } else {
            Seq::empty()
        },
        Goal::BuildBy { unit, count, seconds } => seq![
            ("satisfyByTime"@, FieldView::Number(seconds)),
            ("countRemovedUnits"@, FieldView::Flag(true)),
            ("comparisionType"@, FieldView::Number(AT_LEAST)),
            ("targetNumber"@, FieldView::Number(count)),
            ("unitTypes"@, FieldView::Names(seq![unit@])),
        ],
        Goal::HaveAtOnce { unit, count } => seq![
            ("satisfyOnce"@, FieldView::Flag(true)),
            ("lockUnitsOnSatisfy"@, FieldView::Flag(true)),
            ("comparisionType"@, FieldView::Number(AT_LEAST)),
            ("targetNumber"@, FieldView::Number(count)),
            ("unitTypes"@, FieldView::Names(seq![unit@])),
        ],
        Goal::DestroyAllBy { unit, seconds } => seq![
            ("satisfyByTime"@, FieldView::Number(seconds)),
            ("comparisionType"@, FieldView::Number(AT_MOST)),
            ("targetNumber"@, FieldView::Number(0)),
            ("enemyUnitTypes"@, FieldView::Names(seq![unit@])),
        ],
        Goal::KillCount { unit, count } => seq![
            ("satisfyOnce"@, FieldView::Flag(true)),
            ("onlyCountRemovedUnits"@, FieldView::Flag(true)),
            ("comparisionType"@, FieldView::Number(AT_LEAST)),
            ("targetNumber"@, FieldView::Number(count)),
            ("enemyUnitTypes"@, FieldView::Names(seq![unit@])),
        ],
    }
}

pub open spec fn fields_view(v: Seq<(String, FieldValue)>) -> Seq<(Seq<char>, FieldView)> {
    v.map_values(|f: (String, FieldValue)| (f.0@, f.1@))
}

/// A list of unit names as the Lua array Zero-K expects.
pub fn unit_list(names: &[String]) -> (r: FieldValue)
    ensures
        r@ == FieldView::Names(strings_view(names@)),
{
    let mut v: Vec<String> = Vec::new();
    let mut i: usize = 0;
    while i < names.len()
        invariant
            i <= names@.len(),
            strings_view(v@) == strings_view(names@).take(i as int),
        decreases names.len() - i,
    {
        let ghost before = strings_view(v@);
        v.push(owned(names[i].as_str()));
        assert(strings_view(v@) =~= before.push(names@[i as int]@));
        i = i + 1;
        assert(strings_view(v@) =~= strings_view(names@).take(i as int));
    }
    assert(strings_view(names@).take(names@.len() as int) =~= strings_view(names@));
    FieldValue::Names(v)
}

fn one_name(unit: &str) -> (r: FieldValue)
    ensures
        r@ == FieldView::Names(seq![unit@]),
{
    let mut v: Vec<String> = Vec::new();
    v.push(owned(unit));
    assert(strings_view(v@) =~= seq![unit@]);
    FieldValue::Names(v)
}

pub(crate) fn field(out: &mut Vec<(String, FieldValue)>, name: &str, value: FieldValue)
    ensures
        fields_view(final(out)@) == fields_view(old(out)@).push((name@, value@)),
{
    let ghost before = fields_view(out@);
    out.push((owned(name), value));
    assert(fields_view(out@) =~= before.push((name@, value@)));
}

/// One objective, as the field combination Zero-K evaluates.
pub fn goal_fields(objective: &Objective) -> (r: Vec<(String, FieldValue)>)
    ensures
        fields_view(r@) == spec_goal_fields(*objective),
{
    let mut t: Vec<(String, FieldValue)> = Vec::new();
    field(&mut t, "description", FieldValue::Text(owned(objective.description.as_str())));
    match &objective.goal {
        Goal::WinBefore { seconds } => {
            field(&mut t, "victoryByTime", FieldValue::Number(*seconds));
        },
        Goal::SurviveUntil { seconds, units } => {
            field(&mut t, "satisfyUntilTime", FieldValue::Number(*seconds));
            field(&mut t, "comparisionType", FieldValue::Number(AT_LEAST));
            field(&mut t, "targetNumber", FieldValue::Number(1));
            if units.len() > 0 {
                field(&mut t, "unitTypes", unit_list(units.as_slice()));
            }
        },
        Goal::BuildBy { unit, count, seconds } => {
            field(&mut t, "satisfyByTime", FieldValue::Number(*seconds));
            field(&mut t, "countRemovedUnits", FieldValue::Flag(true));
            field(&mut t, "comparisionType", FieldValue::Number(AT_LEAST));
            field(&mut t, "targetNumber", FieldValue::Number(*count));
            field(&mut t, "unitTypes", one_name(unit.as_str()));
        },
        Goal::HaveAtOnce { unit, count } => {
            field(&mut t, "satisfyOnce", FieldValue::Flag(true));
            field(&mut t, "lockUnitsOnSatisfy", FieldValue::Flag(true));
            field(&mut t, "comparisionType", FieldValue::Number(AT_LEAST));
            field(&mut t, "targetNumber", FieldValue::Number(*count));
            field(&mut t, "unitTypes", one_name(unit.as_str()));
        },
        Goal::DestroyAllBy { unit, seconds } => {
            field(&mut t, "satisfyByTime", FieldValue::Number(*seconds));
            field(&mut t, "comparisionType", FieldValue::Number(AT_MOST));
            field(&mut t, "targetNumber", FieldValue::Number(0));
            field(&mut t, "enemyUnitTypes", one_name(unit.as_str()));
        },
        Goal::KillCount { unit, count } => {
            field(&mut t, "satisfyOnce", FieldValue::Flag(true));
            field(&mut t, "onlyCountRemovedUnits", FieldValue::Flag(true));
            field(&mut t, "comparisionType", FieldValue::Number(AT_LEAST));
            field(&mut t, "targetNumber", FieldValue::Number(*count));
            field(&mut t, "enemyUnitTypes", one_name(unit.as_str()));
        },
    }
    assert(fields_view(t@) =~= spec_goal_fields(*objective));
    t
}

// ------------------------------------------------------------- problems ---

/// A placed unit, as the checks read it: what it is, whose, and whether it
/// belongs to Gaia rather than to its team.
#[derive(Debug, Clone, PartialEq)]
pub struct Placement {
    pub unit: String,
    pub team: u32,
    pub neutral: bool,
}

/// Whether a placed unit stands for its team's commander: it is the team's
/// own, and Zero-K would call it a commander.
pub open spec fn commands(u: Placement, team: u32) -> bool {
    !u.neutral && u.team == team && spec_group_by_name(u.unit@) == "Commanders"@
}

/// The first of the units from `i` on that stands for `team`'s commander.
pub open spec fn commander_from(units: Seq<Placement>, team: u32, i: int) -> Option<int>
    decreases units.len() - i,
{
    if i < 0 || i >= units.len() {
        None
    } else if commands(units[i], team) {
        Some(i)
    } else {
        commander_from(units, team, i + 1)
    }
}

/// The placed unit that stands for a team's commander, if the author placed
/// one. Zero-K spawns each team's commander itself, at the team's start
/// position, so a placed commander is where the team starts rather than a
/// unit to spawn.
pub fn commander_index(units: &[Placement], team: u32) -> (r: Option<usize>)
    ensures
        match commander_from(units@, team, 0) {
            Some(i) => r matches Some(x) && x as int == i,
            None => r is None,
        },
{
    let mut i: usize = 0;
    while i < units.len()
        invariant
            i <= units@.len(),
            commander_from(units@, team, 0) == commander_from(units@, team, i as int),
        decreases units.len() - i,
    {
        let u = &units[i];
        if !u.neutral && u.team == team && crate::game::is_commander(u.unit.as_str()) {
            return Some(i);
        }
        i = i + 1;
    }
    None
}

/// What the checks read of a scenario. Positions are floating point and
/// stay with the caller, which says which unit, if any, was the first placed
/// off the map and where it sits in whole elmos.
#[derive(Debug, Clone)]
pub struct ScenarioFacts {
    pub map: String,
    pub game: String,
    pub teams: Vec<Team>,
    pub units: Vec<Placement>,
    /// The first unit placed outside the map: its name, and its position
    /// truncated to whole elmos.
    pub outside: Option<(String, i64, i64)>,
    /// The map's width and depth, in elmos.
    pub map_elmos: u32,
    pub depth_elmos: u32,
    pub goals: Vec<Objective>,
}

pub open spec fn has_player(teams: Seq<Team>) -> bool {
    exists|i: int| 0 <= i < teams.len() && (#[trigger] teams[i]).ai is None
}

pub open spec fn one_side(teams: Seq<Team>) -> bool {
    forall|i: int| 0 <= i < teams.len() ==> (#[trigger] teams[i]).ally == teams[0].ally
}

pub open spec fn team_exists(teams: Seq<Team>, id: u32) -> bool {
    exists|i: int| 0 <= i < teams.len() && (#[trigger] teams[i]).id == id
}

/// The first of the units from `i` on whose team does not exist.
pub open spec fn first_orphan(units: Seq<Placement>, teams: Seq<Team>, i: int) -> Option<int>
    decreases units.len() - i,
{
    if i < 0 || i >= units.len() {
        None
    } else if !team_exists(teams, units[i].team) {
        Some(i)
    } else {
        first_orphan(units, teams, i + 1)
    }
}

pub open spec fn orphan_message(unit: Seq<char>, team: u32) -> Seq<char> {
    "A "@ + unit + " belongs to team "@ + decimal(team as nat) + ", which does not exist."@
}

pub open spec fn outside_message(unit: Seq<char>, x: i64, z: i64, across: u32, down: u32) -> Seq<char> {
    "A "@ + unit + " sits outside the map, at "@ + signed_decimal(x as int) + ", "@ + signed_decimal(
        z as int,
    ) + ". The map is "@ + decimal(across as nat) + " by "@ + decimal(down as nat) + " elmos."@
}

/// One sentence for each of the first `n` objectives with no description.
pub open spec fn goal_problems(goals: Seq<Objective>, n: int) -> Seq<Seq<char>>
    decreases n,
{
    if n <= 0 || n > goals.len() {
        Seq::empty()
    } else if trim(goals[n - 1].description@).len() == 0 {
        goal_problems(goals, n - 1).push(
            "An objective has no description, so the player cannot read it."@,
        )
    } else {
        goal_problems(goals, n - 1)
    }
}

pub open spec fn said_if(c: bool, m: Seq<char>) -> Seq<Seq<char>> {
    if c {
        seq![m]
    } else {
        Seq::empty()
    }
}

/// What is wrong with a scenario, in the order it is said.
pub open spec fn spec_problems(s: ScenarioFacts) -> Seq<Seq<char>> {
    let teams = s.teams@;
    said_if(trim(s.map@).len() == 0, "No map chosen."@) + said_if(
        trim(s.game@).len() == 0,
        "No Zero-K version chosen - the game cannot start without one."@,
    ) + said_if(teams.len() == 0, "No teams."@) + said_if(
        !has_player(teams),
        "No player team - somebody has to be you."@,
    ) + said_if(
        teams.len() > 0 && one_side(teams),
        "Every team is on the same side, so the game ends immediately."@,
    ) + match first_orphan(s.units@, teams, 0) {
        Some(i) => seq![orphan_message(s.units@[i].unit@, s.units@[i].team)],
        None => Seq::empty(),
    } + said_if(s.units@.len() == 0, "Nothing placed yet."@) + match s.outside {
        Some((u, x, z)) => seq![outside_message(u@, x, z, s.map_elmos, s.depth_elmos)],
        None => Seq::empty(),
    } + goal_problems(s.goals@, s.goals@.len() as int)
}

fn push_when(out: &mut Vec<String>, c: bool, m: &str)
    ensures
        strings_view(final(out)@) == strings_view(old(out)@) + said_if(c, m@),
{
    let ghost before = strings_view(out@);
    if c {
        out.push(owned(m));
    }
    assert(strings_view(out@) =~= before + said_if(c, m@));
}

fn team_listed(teams: &Vec<Team>, id: u32) -> (r: bool)
    ensures
        r == team_exists(teams@, id),
{
    let mut i: usize = 0;
    while i < teams.len()
        invariant
            i <= teams@.len(),
            forall|j: int| 0 <= j < i ==> teams@[j].id != id,
        decreases teams.len() - i,
    {
        if teams[i].id == id {
            assert(teams@[i as int].id == id);
            return true;
        }
        i = i + 1;
    }
    false
}

/// What is wrong with a scenario, in sentences a person can act on: no
/// map, no Zero-K version, no teams, no player, one side only, a unit on a
/// team that does not exist, nothing placed, a unit off the map, an
/// objective with no description. Returned rather than thrown, so the editor
/// can show them while the scenario is being made.
pub fn problems(s: &ScenarioFacts) -> (r: Vec<String>)
    ensures
        strings_view(r@) == spec_problems(*s),
{
    let ghost teams = s.teams@;
    let mut out: Vec<String> = Vec::new();
    push_when(&mut out, trimmed(chars_of(s.map.as_str()).as_slice()).len() == 0, "No map chosen.");
    push_when(
        &mut out,
        trimmed(chars_of(s.game.as_str()).as_slice()).len() == 0,
        "No Zero-K version chosen - the game cannot start without one.",
    );
    push_when(&mut out, s.teams.len() == 0, "No teams.");
    let mut player = false;
    let mut same = true;
    let mut i: usize = 0;
    while i < s.teams.len()
        invariant
            teams == s.teams@,
            i <= teams.len(),
            player == exists|j: int| 0 <= j < i && (#[trigger] teams[j]).ai is None,
            same == forall|j: int| 0 <= j < i ==> (#[trigger] teams[j]).ally == teams[0].ally,
        decreases s.teams.len() - i,
    {
        if s.teams[i].ai.is_none() {
            player = true;
            assert(teams[i as int].ai is None);
        }
        if s.teams[i].ally != s.teams[0].ally {
            same = false;
        }
        i = i + 1;
    }
    push_when(&mut out, !player, "No player team - somebody has to be you.");
    push_when(
        &mut out,
        s.teams.len() > 0 && same,
        "Every team is on the same side, so the game ends immediately.",
    );
    let ghost before_orphan = strings_view(out@);
    let mut k: usize = 0;
    let mut orphan: Option<usize> = None;
    while k < s.units.len()
        invariant
            teams == s.teams@,
            k <= s.units@.len(),
            match orphan {
                Some(x) => first_orphan(s.units@, teams, 0) == Some(x as int) && x < s.units@.len(),
                None => first_orphan(s.units@, teams, 0) == first_orphan(s.units@, teams, k as int),
            },
        decreases s.units.len() - k,
    {
        if orphan.is_none() && !team_listed(&s.teams, s.units[k].team) {
            orphan = Some(k);
        }
        k = k + 1;
    }
    match orphan {
        Some(x) => {
            let mut m = owned("A ");
            m.append(s.units[x].unit.as_str());
            m.append(" belongs to team ");
            let n = decimal_string(s.units[x].team as u128);
            m.append(n.as_str());
            m.append(", which does not exist.");
            assert(m@ =~= orphan_message(s.units@[x as int].unit@, s.units@[x as int].team));
            out.push(m);
        },
        None => {},
    }
    assert(strings_view(out@) =~= before_orphan + match first_orphan(s.units@, teams, 0) {
        Some(i) => seq![orphan_message(s.units@[i].unit@, s.units@[i].team)],
        None => Seq::empty(),
    });
    push_when(&mut out, s.units.len() == 0, "Nothing placed yet.");
    let ghost before_outside = strings_view(out@);
    match &s.outside {
        Some((u, x, z)) => {
            let mut m = owned("A ");
            m.append(u.as_str());
            m.append(" sits outside the map, at ");
            m.append(signed_decimal_string(*x).as_str());
            m.append(", ");
            m.append(signed_decimal_string(*z).as_str());
            m.append(". The map is ");
            m.append(decimal_string(s.map_elmos as u128).as_str());
            m.append(" by ");
            m.append(decimal_string(s.depth_elmos as u128).as_str());
            m.append(" elmos.");
            assert(m@ =~= outside_message(u@, *x, *z, s.map_elmos, s.depth_elmos));
            out.push(m);
        },
        None => {},
    }
    let ghost before_goals = strings_view(out@);
    let mut g: usize = 0;
    while g < s.goals.len()
        invariant
            g <= s.goals@.len(),
            strings_view(out@) == before_goals + goal_problems(s.goals@, g as int),
        decreases s.goals.len() - g,
    {
        let ghost b = strings_view(out@);
        if trimmed(chars_of(s.goals[g].description.as_str()).as_slice()).len() == 0 {
            out.push(owned("An objective has no description, so the player cannot read it."));
            assert(strings_view(out@) =~= b.push("An objective has no description, so the player cannot read it."@));
        }
        g = g + 1;
        assert(strings_view(out@) =~= before_goals + goal_problems(s.goals@, g as int));
    }
    assert(strings_view(out@) =~= spec_problems(*s));
    out
}

// ------------------------------------------------------- reading, the install ---

pub open spec fn newer_format_message(v: u32) -> Seq<char> {
    "This scenario was written by a newer Splaunch (format "@ + decimal(v as nat) + ", this build reads "@
        + decimal(FORMAT_VERSION as nat) + ")."@
}

/// Whether a scenario file in format `format_version` can be read: one
/// from a newer Splaunch is refused by name rather than half-read.
pub fn check_format(format_version: u32) -> (r: Result<(), String>)
    ensures
        format_version <= FORMAT_VERSION ==> r is Ok,
        format_version > FORMAT_VERSION ==> (r matches Err(e) && e@ == newer_format_message(format_version)),
{
    if format_version > FORMAT_VERSION {
        let mut m = owned("This scenario was written by a newer Splaunch (format ");
        m.append(decimal_string(format_version as u128).as_str());
        m.append(", this build reads ");
        m.append(decimal_string(FORMAT_VERSION as u128).as_str());
        m.append(").");
        Err(m)
    } else {
        Ok(())
    }
}

pub open spec fn map_missing_message(map: Seq<char>) -> Seq<char> {
    "The map "@ + map + " is not installed. Play it once in the Zero-K lobby to download it."@
}

/// What only this machine can say is wrong: the map named is not among
/// those installed. Silent when nothing is installed or no map is named - a
/// machine that cannot answer should not invent a complaint.
pub fn install_problems(installed: &[String], map: &str) -> (r: Vec<String>)
    ensures
        strings_view(r@) == if installed@.len() == 0 || trim(map@).len() == 0 || crate::game::spec_choose_name(
            strings_view(installed@),
            map@,
            true,
        ) is Some {
            Seq::<Seq<char>>::empty()
        } else {
            seq![map_missing_message(map@)]
        },
{
    let mut out: Vec<String> = Vec::new();
    if installed.len() == 0 || trimmed(chars_of(map).as_slice()).len() == 0 {
        assert(strings_view(out@) =~= Seq::<Seq<char>>::empty());
        return out;
    }
    if crate::game::map_is_installed(installed, map) {
        assert(strings_view(out@) =~= Seq::<Seq<char>>::empty());
        return out;
    }
    let mut m = owned("The map ");
    m.append(map);
    m.append(" is not installed. Play it once in the Zero-K lobby to download it.");
    out.push(m);
    assert(strings_view(out@) =~= seq![map_missing_message(map@)]);
    out
}

// ------------------------------------------------------------- warnings ---

/// Whether a team has units of its own placed.
pub open spec fn has_units(units: Seq<Placement>, team: u32) -> bool {
    exists|i: int| 0 <= i < units.len() && !(#[trigger] units[i]).neutral && units[i].team == team
}

pub open spec fn commander_message(t: Team, x: i64, z: i64, among_units: bool) -> Seq<char> {
    "Zero-K gives "@ + (if t.ai is None {
        "your team"@
    } else {
        "team"@
    }) + " "@ + decimal(t.id as nat) + " a commander whether or not you place one. With none placed it will start at "@
        + signed_decimal(x as int) + ", "@ + signed_decimal(z as int) + " - "@ + (if among_units {
        "the middle of its units"@
    } else {
        "the middle of the map"@
    }) + ". Place a commander to say where."@
}

/// The warnings for the first `n` teams.
pub open spec fn commander_warnings(teams: Seq<Team>, units: Seq<Placement>, starts: Seq<(i64, i64)>, n: int) -> Seq<
    Seq<char>,
>
    decreases n,
{
    if n <= 0 || n > teams.len() {
        Seq::empty()
    } else if commander_from(units, teams[n - 1].id, 0) is Some {
        commander_warnings(teams, units, starts, n - 1)
    } else {
        commander_warnings(teams, units, starts, n - 1).push(
            commander_message(teams[n - 1], starts[n - 1].0, starts[n - 1].1, has_units(units, teams[n - 1].id)),
        )
    }
}

fn team_has_units(units: &[Placement], team: u32) -> (r: bool)
    ensures
        r == has_units(units@, team),
{
    let mut i: usize = 0;
    while i < units.len()
        invariant
            i <= units@.len(),
            forall|j: int| 0 <= j < i ==> !(!(#[trigger] units@[j]).neutral && units@[j].team == team),
        decreases units.len() - i,
    {
        if !units[i].neutral && units[i].team == team {
            assert(!units@[i as int].neutral && units@[i as int].team == team);
            return true;
        }
        i = i + 1;
    }
    false
}

/// What an author should know but that must not stop a launch: Zero-K
/// gives every team a commander whether or not one is placed, at the team's
/// start, and without a placed one that start is a guess. `starts` is each
/// team's start in whole elmos, in team order.
pub fn warnings(teams: &[Team], units: &[Placement], starts: &[(i64, i64)]) -> (r: Vec<String>)
    requires
        starts@.len() == teams@.len(),
    ensures
        strings_view(r@) == commander_warnings(teams@, units@, starts@, teams@.len() as int),
{
    let mut out: Vec<String> = Vec::new();
    let mut k: usize = 0;
    while k < teams.len()
        invariant
            starts@.len() == teams@.len(),
            k <= teams@.len(),
            strings_view(out@) == commander_warnings(teams@, units@, starts@, k as int),
        decreases teams.len() - k,
    {
        let t = &teams[k];
        let ghost before = strings_view(out@);
        if commander_index(units, t.id).is_none() {
            let mut m = owned("Zero-K gives ");
            m.append(if t.ai.is_none() {
                "your team"
            } else {
                "team"
            });
            m.append(" ");
            m.append(decimal_string(t.id as u128).as_str());
            m.append(" a commander whether or not you place one. With none placed it will start at ");
            m.append(signed_decimal_string(starts[k].0).as_str());
            m.append(", ");
            m.append(signed_decimal_string(starts[k].1).as_str());
            m.append(" - ");
            let among = team_has_units(units, t.id);
            m.append(if among {
                "the middle of its units"
            } else {
                "the middle of the map"
            });
            m.append(". Place a commander to say where.");
            assert(m@ =~= commander_message(*t, starts@[k as int].0, starts@[k as int].1, among));
            out.push(m);
            assert(strings_view(out@) =~= before.push(m@));
        }
        k = k + 1;
    }
    out
}

// ------------------------------------------------------------------ laws ---

/// An escaped value holds no delimiter, and every character it holds was in
/// the value: escaping only ever removes.
pub proof fn law_an_escaped_value_cannot_break_the_script(s: Seq<char>)
    ensures
        forall|k: int| 0 <= k < spec_escape(s).len() ==> !delimiter(#[trigger] spec_escape(s)[k]),
        spec_escape(s).len() <= s.len(),
        spec_escape(spec_escape(s)) == spec_escape(s),
    decreases s.len(),
{
    if s.len() > 0 {
        law_an_escaped_value_cannot_break_the_script(s.drop_last());
        let e = spec_escape(s);
        let p = spec_escape(s.drop_last());
        if !delimiter(s.last()) {
            assert forall|k: int| 0 <= k < e.len() implies !delimiter(#[trigger] e[k]) by {
                if k < p.len() {
                    assert(e[k] == p[k]);
                }
            }
            assert(e.drop_last() =~= p);
        }
    }
}

proof fn lemma_goal_problems(goals: Seq<Objective>, n: int)
    requires
        0 <= n <= goals.len(),
        goal_problems(goals, n).len() == 0,
    ensures
        forall|i: int| 0 <= i < n ==> trim((#[trigger] goals[i]).description@).len() > 0,
    decreases n,
{
    if n > 0 {
        lemma_goal_problems(goals, n - 1);
    }
}

/// A scenario with nothing wrong with it can start: it names a map and a
/// Zero-K, has a player and two sides, places something, every unit it
/// places belongs to one of its teams and sits on the map, and every
/// objective can be read.
pub proof fn law_a_sound_scenario_can_start(s: ScenarioFacts)
    requires
        spec_problems(s).len() == 0,
    ensures
        trim(s.map@).len() > 0,
        trim(s.game@).len() > 0,
        has_player(s.teams@),
        exists|i: int| 0 <= i < s.teams@.len() && (#[trigger] s.teams@[i]).ally != s.teams@[0].ally,
        s.units@.len() > 0,
        forall|j: int| 0 <= j < s.units@.len() ==> team_exists(s.teams@, (#[trigger] s.units@[j]).team),
        s.outside is None,
        forall|i: int| 0 <= i < s.goals@.len() ==> trim((#[trigger] s.goals@[i]).description@).len() > 0,
{
    lemma_first_orphan(s.units@, s.teams@, 0);
    lemma_goal_problems(s.goals@, s.goals@.len() as int);
    assert(!one_side(s.teams@));
}

proof fn lemma_contains_cat(a: Seq<Seq<char>>, b: Seq<Seq<char>>, x: Seq<char>)
    ensures
        (a + b).contains(x) <==> a.contains(x) || b.contains(x),
{
    if a.contains(x) {
        let i = choose|i: int| 0 <= i < a.len() && a[i] == x;
        assert((a + b)[i] == x);
    }
    if b.contains(x) {
        let i = choose|i: int| 0 <= i < b.len() && b[i] == x;
        assert((a + b)[a.len() + i] == x);
    }
    if (a + b).contains(x) {
        let i = choose|i: int| 0 <= i < (a + b).len() && (a + b)[i] == x;
        if i < a.len() {
            assert(a[i] == x);
        } else {
            assert(b[i - a.len()] == x);
        }
    }
}

proof fn lemma_said_if(c: bool, m: Seq<char>, x: Seq<char>)
    ensures
        said_if(c, m).contains(x) <==> c && m == x,
{
    if c && m == x {
        assert(said_if(c, m)[0] == x);
    }
}

proof fn lemma_goal_sentences(goals: Seq<Objective>, n: int)
    ensures
        forall|i: int|
            0 <= i < goal_problems(goals, n).len() ==> #[trigger] goal_problems(goals, n)[i]
                == "An objective has no description, so the player cannot read it."@,
    decreases n,
{
    if n > 0 && n <= goals.len() {
        lemma_goal_sentences(goals, n - 1);
        let before = goal_problems(goals, n - 1);
        let now = goal_problems(goals, n);
        assert forall|i: int| 0 <= i < now.len() implies #[trigger] now[i]
            == "An objective has no description, so the player cannot read it."@ by {
            if i < before.len() {
                assert(now[i] == before[i]);
            }
        }
    }
}

/// A sentence that opens with an `A`, as the ones about a unit or an
/// objective do.
spec fn opens_with_a(e: Seq<char>) -> bool {
    e.len() > 0 && e[0] == 'A'
}

proof fn lemma_sentences()
    ensures
        "No map chosen."@.len() == 14 && "No map chosen."@[0] == 'N',
        "No Zero-K version chosen - the game cannot start without one."@.len() == 61
            && "No Zero-K version chosen - the game cannot start without one."@[0] == 'N',
        "No teams."@.len() == 9 && "No teams."@[0] == 'N',
        "No player team - somebody has to be you."@.len() == 40 && "No player team - somebody has to be you."@[0]
            == 'N',
        "Every team is on the same side, so the game ends immediately."@[0] == 'E',
        "Nothing placed yet."@.len() == 19 && "Nothing placed yet."@[0] == 'N',
        opens_with_a("An objective has no description, so the player cannot read it."@),
        "A "@.len() == 2 && "A "@[0] == 'A',
{
    reveal_strlit("No map chosen.");
    reveal_strlit("No Zero-K version chosen - the game cannot start without one.");
    reveal_strlit("No teams.");
    reveal_strlit("No player team - somebody has to be you.");
    reveal_strlit("Every team is on the same side, so the game ends immediately.");
    reveal_strlit("Nothing placed yet.");
    reveal_strlit("An objective has no description, so the player cannot read it.");
    reveal_strlit("A ");
}

/// Of the problems that can be found in the scenario alone, each of the
/// checks on the map, the game, the teams, the player, the sides and the
/// placed units is said exactly when it fails: its sentence is among the
/// problems if and only if the scenario has that fault.
pub proof fn law_each_check_speaks_exactly_when_it_fails(s: ScenarioFacts)
    ensures
        spec_problems(s).contains("No map chosen."@) <==> trim(s.map@).len() == 0,
        spec_problems(s).contains("No Zero-K version chosen - the game cannot start without one."@) <==> trim(
            s.game@,
        ).len() == 0,
        spec_problems(s).contains("No teams."@) <==> s.teams@.len() == 0,
        spec_problems(s).contains("No player team - somebody has to be you."@) <==> !has_player(s.teams@),
        spec_problems(s).contains("Every team is on the same side, so the game ends immediately."@) <==> (
        s.teams@.len() > 0 && one_side(s.teams@)),
        spec_problems(s).contains("Nothing placed yet."@) <==> s.units@.len() == 0,
{
    let teams = s.teams@;
    let m1 = "No map chosen."@;
    let m2 = "No Zero-K version chosen - the game cannot start without one."@;
    let m3 = "No teams."@;
    let m4 = "No player team - somebody has to be you."@;
    let m5 = "Every team is on the same side, so the game ends immediately."@;
    let m6 = "Nothing placed yet."@;
    let c1 = trim(s.map@).len() == 0;
    let c2 = trim(s.game@).len() == 0;
    let c3 = teams.len() == 0;
    let c4 = !has_player(teams);
    let c5 = teams.len() > 0 && one_side(teams);
    let c6 = s.units@.len() == 0;
    let p1 = said_if(c1, m1);
    let p2 = said_if(c2, m2);
    let p3 = said_if(c3, m3);
    let p4 = said_if(c4, m4);
    let p5 = said_if(c5, m5);
    let o = match first_orphan(s.units@, teams, 0) {
        Some(i) => seq![orphan_message(s.units@[i].unit@, s.units@[i].team)],
        None => Seq::<Seq<char>>::empty(),
    };
    let p6 = said_if(c6, m6);
    let out = match s.outside {
        Some((u, x, z)) => seq![outside_message(u@, x, z, s.map_elmos, s.depth_elmos)],
        None => Seq::<Seq<char>>::empty(),
    };
    let g = goal_problems(s.goals@, s.goals@.len() as int);
    assert(spec_problems(s) == p1 + p2 + p3 + p4 + p5 + o + p6 + out + g);
    lemma_sentences();
    lemma_goal_sentences(s.goals@, s.goals@.len() as int);
    assert forall|e: Seq<char>| o.contains(e) || out.contains(e) || g.contains(e) implies opens_with_a(e) by {
        if o.contains(e) {
            let i = choose|i: int| 0 <= i < o.len() && o[i] == e;
            let k = first_orphan(s.units@, teams, 0)->0;
            assert(e == orphan_message(s.units@[k].unit@, s.units@[k].team));
            assert(e[0] == "A "@[0]);
        } else if out.contains(e) {
            let i = choose|i: int| 0 <= i < out.len() && out[i] == e;
            assert(e[0] == "A "@[0]);
        } else {
            let i = choose|i: int| 0 <= i < g.len() && g[i] == e;
            assert(g[i] == "An objective has no description, so the player cannot read it."@);
        }
    }
    let ms = seq![m1, m2, m3, m4, m5, m6];
    assert forall|j: int| 0 <= j < 6 implies !opens_with_a(#[trigger] ms[j]) by {}
    assert forall|j: int| 0 <= j < 6 implies (spec_problems(s).contains(#[trigger] ms[j]) <==> (
    p1.contains(ms[j]) || p2.contains(ms[j]) || p3.contains(ms[j]) || p4.contains(ms[j]) || p5.contains(ms[j])
        || p6.contains(ms[j]))) by {
        let m = ms[j];
        lemma_contains_cat(p1, p2, m);
        lemma_contains_cat(p1 + p2, p3, m);
        lemma_contains_cat(p1 + p2 + p3, p4, m);
        lemma_contains_cat(p1 + p2 + p3 + p4, p5, m);
        lemma_contains_cat(p1 + p2 + p3 + p4 + p5, o, m);
        lemma_contains_cat(p1 + p2 + p3 + p4 + p5 + o, p6, m);
        lemma_contains_cat(p1 + p2 + p3 + p4 + p5 + o + p6, out, m);
        lemma_contains_cat(p1 + p2 + p3 + p4 + p5 + o + p6 + out, g, m);
        assert(!o.contains(m) && !out.contains(m) && !g.contains(m));
    }
    assert forall|j: int| 0 <= j < 6 implies {
        &&& p1.contains(#[trigger] ms[j]) <==> c1 && m1 == ms[j]
        &&& p2.contains(ms[j]) <==> c2 && m2 == ms[j]
        &&& p3.contains(ms[j]) <==> c3 && m3 == ms[j]
        &&& p4.contains(ms[j]) <==> c4 && m4 == ms[j]
        &&& p5.contains(ms[j]) <==> c5 && m5 == ms[j]
        &&& p6.contains(ms[j]) <==> c6 && m6 == ms[j]
    } by {
        lemma_said_if(c1, m1, ms[j]);
        lemma_said_if(c2, m2, ms[j]);
        lemma_said_if(c3, m3, ms[j]);
        lemma_said_if(c4, m4, ms[j]);
        lemma_said_if(c5, m5, ms[j]);
        lemma_said_if(c6, m6, ms[j]);
    }
    assert(ms[0] == m1 && ms[1] == m2 && ms[2] == m3 && ms[3] == m4 && ms[4] == m5 && ms[5] == m6);
    assert(m1 != m2 && m1 != m3 && m1 != m4 && m1 != m5 && m1 != m6);
    assert(m2 != m3 && m2 != m4 && m2 != m5 && m2 != m6);
    assert(m3 != m4 && m3 != m5 && m3 != m6);
    assert(m4 != m5 && m4 != m6);
    assert(m5 != m6);
}

/// The end of the sentence that names a unit on a team that does not exist.
pub open spec fn missing_team_tail() -> Seq<char> {
    ", which does not exist."@
}

/// The end of the sentence that names a unit placed off the map.
pub open spec fn off_map_tail() -> Seq<char> {
    " elmos."@
}

/// `e` ends with `tail`.
pub open spec fn ends_in(e: Seq<char>, tail: Seq<char>) -> bool {
    e.len() >= tail.len() && e.subrange(e.len() - tail.len(), e.len() as int) == tail
}

/// A sentence that ends the way the missing-team sentence does.
pub open spec fn names_a_missing_team(e: Seq<char>) -> bool {
    ends_in(e, missing_team_tail())
}

/// A sentence that ends the way the off-the-map sentence does.
pub open spec fn names_a_unit_off_the_map(e: Seq<char>) -> bool {
    ends_in(e, off_map_tail())
}

/// None of the sentences in `q` ends with `tail`.
spec fn quiet(q: Seq<Seq<char>>, tail: Seq<char>) -> bool {
    forall|k: int| 0 <= k < q.len() ==> !ends_in(#[trigger] q[k], tail)
}

proof fn lemma_quiet_cat(a: Seq<Seq<char>>, b: Seq<Seq<char>>, tail: Seq<char>)
    requires
        quiet(a, tail),
        quiet(b, tail),
    ensures
        quiet(a + b, tail),
{
    assert forall|k: int| 0 <= k < (a + b).len() implies !ends_in(#[trigger] (a + b)[k], tail) by {
        if k < a.len() {
            assert((a + b)[k] == a[k]);
        } else {
            assert((a + b)[k] == b[k - a.len()]);
        }
    }
}

/// A sentence whose `j`-th character from the end differs from the tail's.
proof fn lemma_ends_otherwise(x: Seq<char>, t: Seq<char>, j: int, tail: Seq<char>)
    requires
        1 <= j <= t.len(),
        j <= tail.len(),
        t[t.len() - j] != tail[tail.len() - j],
    ensures
        !ends_in(x + t, tail),
{
    let e = x + t;
    if ends_in(e, tail) {
        assert(e.subrange(e.len() - tail.len(), e.len() as int)[tail.len() - j] == e[e.len() - j]);
        assert(e[e.len() - j] == t[t.len() - j]);
    }
}

proof fn lemma_ends_so(x: Seq<char>, tail: Seq<char>)
    ensures
        ends_in(x + tail, tail),
{
    assert((x + tail).subrange((x + tail).len() - tail.len(), (x + tail).len() as int) =~= tail);
}

proof fn lemma_said_quietly(c: bool, m: Seq<char>, tail: Seq<char>)
    requires
        !ends_in(m, tail),
    ensures
        quiet(said_if(c, m), tail),
{
}

proof fn lemma_first_orphan(units: Seq<Placement>, teams: Seq<Team>, i: int)
    requires
        0 <= i,
    ensures
        first_orphan(units, teams, i) matches Some(k) ==> i <= k < units.len() && !team_exists(teams, units[k].team),
        first_orphan(units, teams, i) is None ==> forall|j: int|
            i <= j < units.len() ==> team_exists(teams, #[trigger] units[j].team),
    decreases units.len() - i,
{
    if i < units.len() && team_exists(teams, units[i].team) {
        lemma_first_orphan(units, teams, i + 1);
    }
}

/// A unit on a team that does not exist is said once, naming the first
/// such unit, and only when there is one: exactly one of the problems ends
/// the way that sentence does if some placed unit's team is missing, and
/// none otherwise.
#[verifier::spinoff_prover]
#[verifier::rlimit(40)]
pub proof fn law_a_missing_team_is_said_once(s: ScenarioFacts)
    ensures
        (exists|k: int| 0 <= k < spec_problems(s).len() && names_a_missing_team(#[trigger] spec_problems(s)[k]))
            <==> (exists|i: int| 0 <= i < s.units@.len() && !team_exists(s.teams@, #[trigger] s.units@[i].team)),
        forall|k1: int, k2: int|
            0 <= k1 < spec_problems(s).len() && 0 <= k2 < spec_problems(s).len() && names_a_missing_team(
                #[trigger] spec_problems(s)[k1],
            ) && names_a_missing_team(#[trigger] spec_problems(s)[k2]) ==> k1 == k2,
        forall|k: int|
            0 <= k < spec_problems(s).len() && names_a_missing_team(#[trigger] spec_problems(s)[k])
                ==> (first_orphan(s.units@, s.teams@, 0) matches Some(i) && spec_problems(s)[k] == orphan_message(
                s.units@[i].unit@,
                s.units@[i].team,
            )),
{
    let teams = s.teams@;
    let w = missing_team_tail();
    let m1 = "No map chosen."@;
    let m2 = "No Zero-K version chosen - the game cannot start without one."@;
    let m3 = "No teams."@;
    let m4 = "No player team - somebody has to be you."@;
    let m5 = "Every team is on the same side, so the game ends immediately."@;
    let m6 = "Nothing placed yet."@;
    let mg = "An objective has no description, so the player cannot read it."@;
    reveal_strlit(", which does not exist.");
    reveal_strlit("No map chosen.");
    reveal_strlit("No Zero-K version chosen - the game cannot start without one.");
    reveal_strlit("No teams.");
    reveal_strlit("No player team - somebody has to be you.");
    reveal_strlit("Every team is on the same side, so the game ends immediately.");
    reveal_strlit("Nothing placed yet.");
    reveal_strlit("An objective has no description, so the player cannot read it.");
    reveal_strlit(" elmos.");
    let e = Seq::<char>::empty();
    lemma_ends_otherwise(e, m1, 2, w);
    lemma_ends_otherwise(e, m2, 2, w);
    lemma_ends_otherwise(e, m3, 2, w);
    lemma_ends_otherwise(e, m4, 2, w);
    lemma_ends_otherwise(e, m5, 2, w);
    lemma_ends_otherwise(e, m6, 3, w);
    lemma_ends_otherwise(e, mg, 3, w);
    assert(e + m1 == m1 && e + m2 == m2 && e + m3 == m3 && e + m4 == m4 && e + m5 == m5 && e + m6 == m6 && e + mg
        == mg);
    let p1 = said_if(trim(s.map@).len() == 0, m1);
    let p2 = said_if(trim(s.game@).len() == 0, m2);
    let p3 = said_if(teams.len() == 0, m3);
    let p4 = said_if(!has_player(teams), m4);
    let p5 = said_if(teams.len() > 0 && one_side(teams), m5);
    let o = match first_orphan(s.units@, teams, 0) {
        Some(i) => seq![orphan_message(s.units@[i].unit@, s.units@[i].team)],
        None => Seq::<Seq<char>>::empty(),
    };
    let p6 = said_if(s.units@.len() == 0, m6);
    let out = match s.outside {
        Some((u, x, z)) => seq![outside_message(u@, x, z, s.map_elmos, s.depth_elmos)],
        None => Seq::<Seq<char>>::empty(),
    };
    let g = goal_problems(s.goals@, s.goals@.len() as int);
    lemma_said_quietly(trim(s.map@).len() == 0, m1, w);
    lemma_said_quietly(trim(s.game@).len() == 0, m2, w);
    lemma_said_quietly(teams.len() == 0, m3, w);
    lemma_said_quietly(!has_player(teams), m4, w);
    lemma_said_quietly(teams.len() > 0 && one_side(teams), m5, w);
    lemma_said_quietly(s.units@.len() == 0, m6, w);
    lemma_quiet_cat(p1, p2, w);
    lemma_quiet_cat(p1 + p2, p3, w);
    lemma_quiet_cat(p1 + p2 + p3, p4, w);
    lemma_quiet_cat(p1 + p2 + p3 + p4, p5, w);
    let a = p1 + p2 + p3 + p4 + p5;
    match s.outside {
        Some((u, x, z)) => {
            let msg = outside_message(u@, x, z, s.map_elmos, s.depth_elmos);
            let head = "A "@ + u@ + " sits outside the map, at "@ + signed_decimal(x as int) + ", "@ + signed_decimal(
                z as int,
            ) + ". The map is "@ + decimal(s.map_elmos as nat) + " by "@ + decimal(s.depth_elmos as nat);
            assert(msg == head + " elmos."@);
            lemma_ends_otherwise(head, " elmos."@, 2, w);
            assert(out[0] == msg);
        },
        None => {},
    }
    assert(quiet(out, w));
    lemma_goal_sentences(s.goals@, s.goals@.len() as int);
    assert(quiet(g, w));
    lemma_quiet_cat(p6, out, w);
    lemma_quiet_cat(p6 + out, g, w);
    let b = p6 + out + g;
    let pr = spec_problems(s);
    assert(pr == a + o + b);
    lemma_first_orphan(s.units@, teams, 0);
    match first_orphan(s.units@, teams, 0) {
        Some(i) => {
            let msg = orphan_message(s.units@[i].unit@, s.units@[i].team);
            let head = "A "@ + s.units@[i].unit@ + " belongs to team "@ + decimal(s.units@[i].team as nat);
            assert(msg == head + w);
            lemma_ends_so(head, w);
            assert(names_a_missing_team(msg));
            assert(pr[a.len() as int] == msg);
        },
        None => {},
    }
    assert forall|k: int| 0 <= k < pr.len() && names_a_missing_team(#[trigger] pr[k]) implies k == a.len()
        && o.len() == 1 by {
        if k < a.len() {
            assert(pr[k] == a[k]);
        } else if k >= a.len() + o.len() {
            assert(pr[k] == b[k - a.len() - o.len()]);
        }
    }
}

/// A unit placed off the map is said once, in the words the caller found it
/// in, and only when the caller found one: exactly one of the problems ends
/// the way that sentence does if the scenario names a unit outside, and
/// none otherwise.
#[verifier::spinoff_prover]
#[verifier::rlimit(40)]
pub proof fn law_a_unit_off_the_map_is_said_once(s: ScenarioFacts)
    ensures
        (exists|k: int| 0 <= k < spec_problems(s).len() && names_a_unit_off_the_map(#[trigger] spec_problems(s)[k]))
            <==> s.outside is Some,
        forall|k1: int, k2: int|
            0 <= k1 < spec_problems(s).len() && 0 <= k2 < spec_problems(s).len() && names_a_unit_off_the_map(
                #[trigger] spec_problems(s)[k1],
            ) && names_a_unit_off_the_map(#[trigger] spec_problems(s)[k2]) ==> k1 == k2,
        forall|k: int|
            0 <= k < spec_problems(s).len() && names_a_unit_off_the_map(#[trigger] spec_problems(s)[k])
                ==> (s.outside matches Some((u, x, z)) && spec_problems(s)[k] == outside_message(
                u@,
                x,
                z,
                s.map_elmos,
                s.depth_elmos,
            )),
{
    let teams = s.teams@;
    let w = off_map_tail();
    let m1 = "No map chosen."@;
    let m2 = "No Zero-K version chosen - the game cannot start without one."@;
    let m3 = "No teams."@;
    let m4 = "No player team - somebody has to be you."@;
    let m5 = "Every team is on the same side, so the game ends immediately."@;
    let m6 = "Nothing placed yet."@;
    let mg = "An objective has no description, so the player cannot read it."@;
    reveal_strlit(", which does not exist.");
    reveal_strlit("No map chosen.");
    reveal_strlit("No Zero-K version chosen - the game cannot start without one.");
    reveal_strlit("No teams.");
    reveal_strlit("No player team - somebody has to be you.");
    reveal_strlit("Every team is on the same side, so the game ends immediately.");
    reveal_strlit("Nothing placed yet.");
    reveal_strlit("An objective has no description, so the player cannot read it.");
    reveal_strlit(" elmos.");
    let e = Seq::<char>::empty();
    lemma_ends_otherwise(e, m1, 2, w);
    lemma_ends_otherwise(e, m2, 2, w);
    lemma_ends_otherwise(e, m3, 3, w);
    lemma_ends_otherwise(e, m4, 2, w);
    lemma_ends_otherwise(e, m5, 2, w);
    lemma_ends_otherwise(e, m6, 2, w);
    lemma_ends_otherwise(e, mg, 2, w);
    assert(e + m1 == m1 && e + m2 == m2 && e + m3 == m3 && e + m4 == m4 && e + m5 == m5 && e + m6 == m6 && e + mg
        == mg);
    let p1 = said_if(trim(s.map@).len() == 0, m1);
    let p2 = said_if(trim(s.game@).len() == 0, m2);
    let p3 = said_if(teams.len() == 0, m3);
    let p4 = said_if(!has_player(teams), m4);
    let p5 = said_if(teams.len() > 0 && one_side(teams), m5);
    let o = match first_orphan(s.units@, teams, 0) {
        Some(i) => seq![orphan_message(s.units@[i].unit@, s.units@[i].team)],
        None => Seq::<Seq<char>>::empty(),
    };
    let p6 = said_if(s.units@.len() == 0, m6);
    let out = match s.outside {
        Some((u, x, z)) => seq![outside_message(u@, x, z, s.map_elmos, s.depth_elmos)],
        None => Seq::<Seq<char>>::empty(),
    };
    let g = goal_problems(s.goals@, s.goals@.len() as int);
    lemma_said_quietly(trim(s.map@).len() == 0, m1, w);
    lemma_said_quietly(trim(s.game@).len() == 0, m2, w);
    lemma_said_quietly(teams.len() == 0, m3, w);
    lemma_said_quietly(!has_player(teams), m4, w);
    lemma_said_quietly(teams.len() > 0 && one_side(teams), m5, w);
    lemma_said_quietly(s.units@.len() == 0, m6, w);
    match first_orphan(s.units@, teams, 0) {
        Some(i) => {
            let head = "A "@ + s.units@[i].unit@ + " belongs to team "@ + decimal(s.units@[i].team as nat);
            assert(o[0] == head + ", which does not exist."@);
            lemma_ends_otherwise(head, ", which does not exist."@, 2, w);
        },
        None => {},
    }
    assert(quiet(o, w));
    lemma_goal_sentences(s.goals@, s.goals@.len() as int);
    assert(quiet(g, w));
    lemma_quiet_cat(p1, p2, w);
    lemma_quiet_cat(p1 + p2, p3, w);
    lemma_quiet_cat(p1 + p2 + p3, p4, w);
    lemma_quiet_cat(p1 + p2 + p3 + p4, p5, w);
    lemma_quiet_cat(p1 + p2 + p3 + p4 + p5, o, w);
    lemma_quiet_cat(p1 + p2 + p3 + p4 + p5 + o, p6, w);
    let a = p1 + p2 + p3 + p4 + p5 + o + p6;
    let pr = spec_problems(s);
    assert(pr == a + out + g);
    match s.outside {
        Some((u, x, z)) => {
            let msg = outside_message(u@, x, z, s.map_elmos, s.depth_elmos);
            let head = "A "@ + u@ + " sits outside the map, at "@ + signed_decimal(x as int) + ", "@ + signed_decimal(
                z as int,
            ) + ". The map is "@ + decimal(s.map_elmos as nat) + " by "@ + decimal(s.depth_elmos as nat);
            assert(msg == head + w);
            lemma_ends_so(head, w);
            assert(pr[a.len() as int] == msg);
        },
        None => {},
    }
    assert forall|k: int| 0 <= k < pr.len() && names_a_unit_off_the_map(#[trigger] pr[k]) implies k == a.len()
        && out.len() == 1 by {
        if k < a.len() {
            assert(pr[k] == a[k]);
        } else if k >= a.len() + out.len() {
            assert(pr[k] == g[k - a.len() - out.len()]);
        }
    }
}

/// Some field of `f` is named `k`, and every field named `k` holds `v`: what
/// the gadget reads under `k` is `v`.
pub open spec fn says(f: Seq<(Seq<char>, FieldView)>, k: Seq<char>, v: FieldView) -> bool {
    &&& exists|i: int| 0 <= i < f.len() && (#[trigger] f[i]).0 == k
    &&& forall|i: int| 0 <= i < f.len() && (#[trigger] f[i]).0 == k ==> f[i].1 == v
}

/// No field of `f` is named `k`.
pub open spec fn silent(f: Seq<(Seq<char>, FieldView)>, k: Seq<char>) -> bool {
    forall|i: int| 0 <= i < f.len() ==> (#[trigger] f[i]).0 != k
}

/// No two fields of `f` share a name.
pub open spec fn distinct_names(f: Seq<(Seq<char>, FieldView)>) -> bool {
    forall|a: int, b: int| 0 <= a < b < f.len() ==> (#[trigger] f[a]).0 != (#[trigger] f[b]).0
}

pub proof fn lemma_says_field(f: Seq<(Seq<char>, FieldView)>, j: int)
    requires
        distinct_names(f),
        0 <= j < f.len(),
    ensures
        says(f, f[j].0, f[j].1),
{
    assert forall|i: int| 0 <= i < f.len() && (#[trigger] f[i]).0 == f[j].0 implies f[i].1 == f[j].1 by {
        if i < j {
            assert(f[i].0 != f[j].0);
        } else if i > j {
            assert(f[j].0 != f[i].0);
        }
    }
}

proof fn lemma_goal_keys()
    ensures
        "description"@.len() == 11 && "description"@[0] == 'd',
        "victoryByTime"@.len() == 13,
        "satisfyUntilTime"@.len() == 16,
        "comparisionType"@.len() == 15,
        "targetNumber"@.len() == 12,
        "unitTypes"@.len() == 9,
        "satisfyByTime"@.len() == 13,
        "countRemovedUnits"@.len() == 17,
        "satisfyOnce"@.len() == 11 && "satisfyOnce"@[0] == 's',
        "lockUnitsOnSatisfy"@.len() == 18,
        "enemyUnitTypes"@.len() == 14,
        "onlyCountRemovedUnits"@.len() == 21,
{
    reveal_strlit("description");
    reveal_strlit("victoryByTime");
    reveal_strlit("satisfyUntilTime");
    reveal_strlit("comparisionType");
    reveal_strlit("targetNumber");
    reveal_strlit("unitTypes");
    reveal_strlit("satisfyByTime");
    reveal_strlit("countRemovedUnits");
    reveal_strlit("satisfyOnce");
    reveal_strlit("lockUnitsOnSatisfy");
    reveal_strlit("enemyUnitTypes");
    reveal_strlit("onlyCountRemovedUnits");
}

/// What an objective asks of the player is what its goal says: its
/// description always; for a deadline, the time it is measured against; for
/// a goal with a count, that count as the target - the number the author
/// asked for, never one - compared as "at least"; none left standing as
/// "at most" zero; survival as at least one; built units counted though
/// they died on the way, and the units it is about as its unit types.
#[verifier::spinoff_prover]
#[verifier::rlimit(40)]
pub proof fn law_an_objective_asks_what_its_goal_says(o: Objective)
    ensures
        distinct_names(spec_goal_fields(o)),
        says(spec_goal_fields(o), "description"@, FieldView::Text(o.description@)),
        match o.goal {
            Goal::WinBefore { seconds } => says(spec_goal_fields(o), "victoryByTime"@, FieldView::Number(seconds))
                && silent(spec_goal_fields(o), "targetNumber"@),
            Goal::SurviveUntil { seconds, units } => {
                &&& says(spec_goal_fields(o), "satisfyUntilTime"@, FieldView::Number(seconds))
                &&& says(spec_goal_fields(o), "comparisionType"@, FieldView::Number(1))
                &&& says(spec_goal_fields(o), "targetNumber"@, FieldView::Number(1))
                &&& units@.len() > 0 ==> says(
                    spec_goal_fields(o),
                    "unitTypes"@,
                    FieldView::Names(strings_view(units@)),
                )
                &&& units@.len() == 0 ==> silent(spec_goal_fields(o), "unitTypes"@)
            },
            Goal::BuildBy { unit, count, seconds } => {
                &&& says(spec_goal_fields(o), "satisfyByTime"@, FieldView::Number(seconds))
                &&& says(spec_goal_fields(o), "countRemovedUnits"@, FieldView::Flag(true))
                &&& says(spec_goal_fields(o), "comparisionType"@, FieldView::Number(1))
                &&& says(spec_goal_fields(o), "targetNumber"@, FieldView::Number(count))
                &&& says(spec_goal_fields(o), "unitTypes"@, FieldView::Names(seq![unit@]))
            },
            Goal::HaveAtOnce { unit, count } => {
                &&& says(spec_goal_fields(o), "satisfyOnce"@, FieldView::Flag(true))
                &&& says(spec_goal_fields(o), "lockUnitsOnSatisfy"@, FieldView::Flag(true))
                &&& says(spec_goal_fields(o), "comparisionType"@, FieldView::Number(1))
                &&& says(spec_goal_fields(o), "targetNumber"@, FieldView::Number(count))
                &&& says(spec_goal_fields(o), "unitTypes"@, FieldView::Names(seq![unit@]))
            },
            Goal::DestroyAllBy { unit, seconds } => {
                &&& says(spec_goal_fields(o), "satisfyByTime"@, FieldView::Number(seconds))
                &&& says(spec_goal_fields(o), "comparisionType"@, FieldView::Number(2))
                &&& says(spec_goal_fields(o), "targetNumber"@, FieldView::Number(0))
                &&& says(spec_goal_fields(o), "enemyUnitTypes"@, FieldView::Names(seq![unit@]))
            },
            Goal::KillCount { unit, count } => {
                &&& says(spec_goal_fields(o), "satisfyOnce"@, FieldView::Flag(true))
                &&& says(spec_goal_fields(o), "onlyCountRemovedUnits"@, FieldView::Flag(true))
                &&& says(spec_goal_fields(o), "comparisionType"@, FieldView::Number(1))
                &&& says(spec_goal_fields(o), "targetNumber"@, FieldView::Number(count))
                &&& says(spec_goal_fields(o), "enemyUnitTypes"@, FieldView::Names(seq![unit@]))
            },
        },
{
    lemma_goal_keys();
    let f = spec_goal_fields(o);
    let d = ("description"@, FieldView::Text(o.description@));
    match o.goal {
        Goal::WinBefore { seconds } => {
            let a = ("victoryByTime"@, FieldView::Number(seconds));
            assert(f =~= seq![d, a]);
            assert(distinct_names(f));
            lemma_says_field(f, 0);
            lemma_says_field(f, 1);
        },
        Goal::SurviveUntil { seconds, units } => {
            let a = ("satisfyUntilTime"@, FieldView::Number(seconds));
            let b = ("comparisionType"@, FieldView::Number(AT_LEAST));
            let c = ("targetNumber"@, FieldView::Number(1));
            if units@.len() > 0 {
                let e = ("unitTypes"@, FieldView::Names(strings_view(units@)));
                assert(f =~= seq![d, a, b, c, e]);
                assert(distinct_names(f));
                lemma_says_field(f, 4);
            } else {
                assert(f =~= seq![d, a, b, c]);
                assert(distinct_names(f));
            }
            lemma_says_field(f, 0);
            lemma_says_field(f, 1);
            lemma_says_field(f, 2);
            lemma_says_field(f, 3);
        },
        Goal::BuildBy { unit, count, seconds } => {
            let a = ("satisfyByTime"@, FieldView::Number(seconds));
            let b = ("countRemovedUnits"@, FieldView::Flag(true));
            let c = ("comparisionType"@, FieldView::Number(AT_LEAST));
            let e = ("targetNumber"@, FieldView::Number(count));
            let g = ("unitTypes"@, FieldView::Names(seq![unit@]));
            assert(f =~= seq![d, a, b, c, e, g]);
            assert(distinct_names(f));
            lemma_says_field(f, 0);
            lemma_says_field(f, 1);
            lemma_says_field(f, 2);
            lemma_says_field(f, 3);
            lemma_says_field(f, 4);
            lemma_says_field(f, 5);
        },
        Goal::HaveAtOnce { unit, count } => {
            let a = ("satisfyOnce"@, FieldView::Flag(true));
            let b = ("lockUnitsOnSatisfy"@, FieldView::Flag(true));
            let c = ("comparisionType"@, FieldView::Number(AT_LEAST));
            let e = ("targetNumber"@, FieldView::Number(count));
            let g = ("unitTypes"@, FieldView::Names(seq![unit@]));
            assert(f =~= seq![d, a, b, c, e, g]);
            assert(distinct_names(f));
            lemma_says_field(f, 0);
            lemma_says_field(f, 1);
            lemma_says_field(f, 2);
            lemma_says_field(f, 3);
            lemma_says_field(f, 4);
            lemma_says_field(f, 5);
        },
        Goal::DestroyAllBy { unit, seconds } => {
            let a = ("satisfyByTime"@, FieldView::Number(seconds));
            let c = ("comparisionType"@, FieldView::Number(AT_MOST));
            let e = ("targetNumber"@, FieldView::Number(0));
            let g = ("enemyUnitTypes"@, FieldView::Names(seq![unit@]));
            assert(f =~= seq![d, a, c, e, g]);
            assert(distinct_names(f));
            lemma_says_field(f, 0);
            lemma_says_field(f, 1);
            lemma_says_field(f, 2);
            lemma_says_field(f, 3);
            lemma_says_field(f, 4);
        },
        Goal::KillCount { unit, count } => {
            let a = ("satisfyOnce"@, FieldView::Flag(true));
            let b = ("onlyCountRemovedUnits"@, FieldView::Flag(true));
            let c = ("comparisionType"@, FieldView::Number(AT_LEAST));
            let e = ("targetNumber"@, FieldView::Number(count));
            let g = ("enemyUnitTypes"@, FieldView::Names(seq![unit@]));
            assert(f =~= seq![d, a, b, c, e, g]);
            assert(distinct_names(f));
            lemma_says_field(f, 0);
            lemma_says_field(f, 1);
            lemma_says_field(f, 2);
            lemma_says_field(f, 3);
            lemma_says_field(f, 4);
            lemma_says_field(f, 5);
        },
    }
}

/// Every field of `f` named `k` holds `v`.
pub open spec fn reads_as(f: Seq<(Seq<char>, FieldView)>, k: Seq<char>, v: FieldView) -> bool {
    forall|i: int| 0 <= i < f.len() && (#[trigger] f[i]).0 == k ==> f[i].1 == v
}

/// Some field of `f` is named `k`.
pub open spec fn names_field(f: Seq<(Seq<char>, FieldView)>, k: Seq<char>) -> bool {
    exists|i: int| 0 <= i < f.len() && (#[trigger] f[i]).0 == k
}

/// The first `n` of `ps`, one after another.
pub open spec fn joined_fields(ps: Seq<Seq<(Seq<char>, FieldView)>>, n: int) -> Seq<(Seq<char>, FieldView)>
    decreases n,
{
    if n <= 0 || n > ps.len() {
        Seq::empty()
    } else {
        joined_fields(ps, n - 1) + ps[n - 1]
    }
}

/// What is read under `k` from pieces laid one after another: each piece
/// that names `k` with `v` and no piece that names it otherwise.
pub proof fn lemma_joined_says(ps: Seq<Seq<(Seq<char>, FieldView)>>, n: int, k: Seq<char>, v: FieldView)
    requires
        0 <= n <= ps.len(),
        forall|i: int| 0 <= i < n ==> reads_as(#[trigger] ps[i], k, v),
    ensures
        reads_as(joined_fields(ps, n), k, v),
        names_field(joined_fields(ps, n), k) <==> exists|i: int| 0 <= i < n && names_field(#[trigger] ps[i], k),
    decreases n,
{
    if n > 0 {
        lemma_joined_says(ps, n - 1, k, v);
        let a = joined_fields(ps, n - 1);
        let b = ps[n - 1];
        assert(reads_as(b, k, v));
        assert forall|i: int| 0 <= i < (a + b).len() && (#[trigger] (a + b)[i]).0 == k implies (a + b)[i].1 == v by {
            if i < a.len() {
                assert((a + b)[i] == a[i]);
            } else {
                assert((a + b)[i] == b[i - a.len()]);
            }
        }
        if names_field(a + b, k) {
            let i = choose|i: int| 0 <= i < (a + b).len() && (#[trigger] (a + b)[i]).0 == k;
            if i < a.len() {
                assert((a + b)[i] == a[i]);
            } else {
                assert((a + b)[i] == b[i - a.len()]);
                assert(names_field(ps[n - 1], k));
            }
        }
        if exists|i: int| 0 <= i < n && names_field(#[trigger] ps[i], k) {
            let i = choose|i: int| 0 <= i < n && names_field(#[trigger] ps[i], k);
            if i < n - 1 {
                let j = choose|j: int| 0 <= j < a.len() && (#[trigger] a[j]).0 == k;
                assert((a + b)[j] == a[j]);
            } else {
                let j = choose|j: int| 0 <= j < b.len() && (#[trigger] b[j]).0 == k;
                assert((a + b)[a.len() + j] == b[j]);
            }
        }
    }
}

proof fn lemma_commander_found(units: Seq<Placement>, team: u32, i: int)
    requires
        0 <= i,
    ensures
        commander_from(units, team, i) matches Some(k) ==> i <= k < units.len() && commands(units[k], team)
            && forall|j: int| i <= j < k ==> !commands(#[trigger] units[j], team),
        commander_from(units, team, i) is None ==> forall|j: int| i <= j < units.len() ==> !commands(#[trigger] units[j], team),
    decreases units.len() - i,
{
    if i < units.len() && !commands(units[i], team) {
        lemma_commander_found(units, team, i + 1);
    }
}

/// A team's commander is the first unit placed on that team, not Gaia's,
/// whose name the palette groups with the commanders; a team has none when
/// no such unit is placed.
pub proof fn law_the_first_commander_placed_leads(units: Seq<Placement>, team: u32)
    ensures
        commander_from(units, team, 0) matches Some(k) ==> {
            &&& 0 <= k < units.len()
            &&& !units[k].neutral && units[k].team == team && spec_group_by_name(units[k].unit@) == "Commanders"@
            &&& forall|j: int|
                0 <= j < k ==> !(!(#[trigger] units[j]).neutral && units[j].team == team && spec_group_by_name(
                    units[j].unit@,
                ) == "Commanders"@)
        },
        commander_from(units, team, 0) is None <==> forall|j: int|
            0 <= j < units.len() ==> !(!(#[trigger] units[j]).neutral && units[j].team == team && spec_group_by_name(
                units[j].unit@,
            ) == "Commanders"@),
{
    lemma_commander_found(units, team, 0);
    if commander_from(units, team, 0) is Some {
        let k = commander_from(units, team, 0)->0;
        assert(commands(units[k], team));
    }
}

} // verus!
