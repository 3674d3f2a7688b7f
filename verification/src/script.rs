//! The start script a scenario compiles to.
//!
//! The shape is taken from a real one - Zero-K's own mission script - which
//! is what the engine is known to accept: the game section, its modoptions,
//! the one local player, a section for each AI, one for each team and one
//! for each allyteam.
//!
//! The sections are assembled here from parts the `mission` module works
//! out: the mission modoptions and each team's placed units, already
//! encoded, and each team's start position in whole elmos.
use vstd::prelude::*;
use crate::scenario::{escape, key, problems, script_line, spec_escape, spec_problems, ScenarioFacts, Team};
use crate::text::{decimal, decimal_string, owned, signed_decimal, signed_decimal_string};

verus! {

pub open spec fn num(n: u32) -> Seq<char> {
    decimal(n as nat)
}

/// The game section's head: map, game, player, and the settings a local
/// battle with nobody to wait for always has.
pub open spec fn game_head(s: ScenarioFacts, player: Seq<char>) -> Seq<char> {
    "[GAME]\n{\n"@ + script_line("\t"@, "Mapname"@, spec_escape(s.map@)) + script_line(
        "\t"@,
        "GameType"@,
        spec_escape(s.game@),
    ) + script_line("\t"@, "MyPlayerName"@, spec_escape(player)) + script_line("\t"@, "IsHost"@, "1"@)
        + script_line("\t"@, "OnlyLocal"@, "1"@) + script_line("\t"@, "StartposType"@, "2"@) + script_line(
        "\t"@,
        "GameStartDelay"@,
        "0"@,
    ) + script_line("\t"@, "NumRestrictions"@, "0"@)
}

/// The first `n` of `opts` as modoption lines, escaped or as they are.
pub open spec fn option_lines(opts: Seq<(Seq<char>, Seq<char>)>, escaped: bool, n: int) -> Seq<char>
    decreases n,
{
    if n <= 0 || n > opts.len() {
        Seq::empty()
    } else {
        option_lines(opts, escaped, n - 1) + if escaped {
            script_line("\t\t"@, spec_escape(opts[n - 1].0), spec_escape(opts[n - 1].1))
        } else {
            script_line("\t\t"@, opts[n - 1].0, opts[n - 1].1)
        }
    }
}

/// The modoptions: no rating for anybody, the battle's own options, then
/// the mission's, which come last so that they win any collision - the
/// engine keeps a repeated key's last value.
pub open spec fn modoptions(
    battle: Seq<(Seq<char>, Seq<char>)>,
    mission: Seq<(Seq<char>, Seq<char>)>,
) -> Seq<char> {
    "\t[MODOPTIONS]\n\t{\n"@ + script_line("\t\t"@, "noelo"@, "1"@) + option_lines(
        battle,
        true,
        battle.len() as int,
    ) + option_lines(mission, false, mission.len() as int) + "\t}\n"@
}

/// The first team nobody's AI plays, from `i` on.
pub open spec fn human_from(teams: Seq<Team>, i: int) -> Option<u32>
    decreases teams.len() - i,
{
    if i < 0 || i >= teams.len() {
        None
    } else if teams[i].ai is None {
        Some(teams[i].id)
    } else {
        human_from(teams, i + 1)
    }
}

/// The one local player, on the first team nobody's AI plays, or team 0.
pub open spec fn player_section(teams: Seq<Team>, player: Seq<char>) -> Seq<char> {
    let human = match human_from(teams, 0) {
        Some(id) => id,
        None => 0,
    };
    "\t[PLAYER0]\n\t{\n"@ + script_line("\t\t"@, "Name"@, spec_escape(player)) + script_line(
        "\t\t"@,
        "Team"@,
        num(human),
    ) + "\t}\n"@
}

/// How many of the first `n` teams an AI plays.
pub open spec fn ai_count(teams: Seq<Team>, n: int) -> nat
    decreases n,
{
    if n <= 0 || n > teams.len() {
        0
    } else if teams[n - 1].ai is Some {
        ai_count(teams, n - 1) + 1
    } else {
        ai_count(teams, n - 1)
    }
}

/// The section of an AI team, as the `index`th AI.
pub open spec fn ai_section(t: Team, ai: Seq<char>, index: nat) -> Seq<char> {
    "\t[AI"@ + decimal(index) + "]\n\t{\n"@ + script_line("\t\t"@, "Name"@, "AI "@ + num(t.id)) + script_line(
        "\t\t"@,
        "ShortName"@,
        spec_escape(ai),
    ) + script_line("\t\t"@, "Team"@, num(t.id)) + script_line("\t\t"@, "Host"@, "0"@) + "\t}\n"@
}

/// The AI sections of the first `n` teams, numbered from 0 in team order.
pub open spec fn ai_sections(teams: Seq<Team>, n: int) -> Seq<char>
    decreases n,
{
    if n <= 0 || n > teams.len() {
        Seq::empty()
    } else {
        let t = teams[n - 1];
        ai_sections(teams, n - 1) + match t.ai {
            Some(ai) => ai_section(t, ai@, ai_count(teams, n - 1)),
            None => Seq::empty(),
        }
    }
}

/// One team's section: its allyteam, colour and start position, and its
/// placed units.
pub open spec fn team_section(t: Team, start: (i64, i64), units: Seq<(Seq<char>, Seq<char>)>) -> Seq<char> {
    "\t[TEAM"@ + num(t.id) + "]\n\t{\n"@ + script_line("\t\t"@, "TeamLeader"@, "0"@) + script_line(
        "\t\t"@,
        "AllyTeam"@,
        num(t.ally),
    ) + script_line("\t\t"@, "RGBColor"@, spec_escape(t.colour@)) + script_line(
        "\t\t"@,
        "start_x"@,
        signed_decimal(start.0 as int),
    ) + script_line("\t\t"@, "start_z"@, signed_decimal(start.1 as int)) + option_lines(
        units,
        false,
        units.len() as int,
    ) + "\t}\n"@
}

pub open spec fn pairs_of(v: Seq<(String, String)>) -> Seq<(Seq<char>, Seq<char>)> {
    v.map_values(|p: (String, String)| (p.0@, p.1@))
}

/// Each team's custom keys, as text.
pub open spec fn units_view(units: Seq<Vec<(String, String)>>) -> Seq<Seq<(Seq<char>, Seq<char>)>> {
    units.map_values(|v: Vec<(String, String)>| pairs_of(v@))
}

/// The sections of the first `n` teams.
pub open spec fn team_sections(
    teams: Seq<Team>,
    starts: Seq<(i64, i64)>,
    units: Seq<Seq<(Seq<char>, Seq<char>)>>,
    n: int,
) -> Seq<char>
    decreases n,
{
    if n <= 0 || n > teams.len() {
        Seq::empty()
    } else {
        team_sections(teams, starts, units, n - 1) + team_section(teams[n - 1], starts[n - 1], units[n - 1])
    }
}

/// The least allyteam above `lo` among the first `n` teams.
pub open spec fn least_ally(teams: Seq<Team>, lo: int, n: int) -> Option<u32>
    decreases n,
{
    if n <= 0 || n > teams.len() {
        None
    } else {
        let a = teams[n - 1].ally;
        match least_ally(teams, lo, n - 1) {
            Some(b) => if a > lo && a < b {
                Some(a)
            } else {
                Some(b)
            },
            None => if a > lo {
                Some(a)
            } else {
                None
            },
        }
    }
}

pub proof fn lemma_least_ally(teams: Seq<Team>, lo: int, n: int)
    requires
        0 <= n <= teams.len(),
    ensures
        match least_ally(teams, lo, n) {
            Some(a) => a > lo && (exists|i: int| 0 <= i < n && (#[trigger] teams[i]).ally == a) && forall|i: int|
                0 <= i < n && (#[trigger] teams[i]).ally > lo ==> a <= teams[i].ally,
            None => forall|i: int| 0 <= i < n ==> (#[trigger] teams[i]).ally <= lo,
        },
    decreases n,
{
    if n > 0 {
        lemma_least_ally(teams, lo, n - 1);
        let a = teams[n - 1].ally;
        match least_ally(teams, lo, n - 1) {
            Some(b) => {
                let w = choose|i: int| 0 <= i < n - 1 && (#[trigger] teams[i]).ally == b;
                if !(a > lo && a < b) {
                    assert(0 <= w < n && teams[w].ally == b);
                }
            },
            None => {},
        }
    }
}

/// The allyteams above `lo`, ascending, each once.
pub open spec fn allies_above(teams: Seq<Team>, lo: int) -> Seq<u32>
    decreases 0x1_0000_0000 - lo,
{
    if lo >= 0x1_0000_0000 - 1 {
        Seq::empty()
    } else {
        match least_ally(teams, lo, teams.len() as int) {
            Some(a) => {
                proof {
                    lemma_least_ally(teams, lo, teams.len() as int);
                }
                seq![a] + allies_above(teams, a as int)
            },
            None => Seq::empty(),
        }
    }
}

/// An allyteam's section: no allies of its own, and the empty start box
/// Zero-K's own mission script carries on every allyteam.
pub open spec fn ally_section(a: u32) -> Seq<char> {
    "\t[ALLYTEAM"@ + num(a) + "]\n\t{\n"@ + script_line("\t\t"@, "NumAllies"@, "0"@) + script_line(
        "\t\t"@,
        "StartRectTop"@,
        "0"@,
    ) + script_line("\t\t"@, "StartRectBottom"@, "0"@) + script_line("\t\t"@, "StartRectLeft"@, "1"@)
        + script_line("\t\t"@, "StartRectRight"@, "1"@) + "\t}\n"@
}

pub open spec fn ally_sections(allies: Seq<u32>) -> Seq<char>
    decreases allies.len(),
{
    if allies.len() == 0 {
        Seq::empty()
    } else {
        ally_sections(allies.drop_last()) + ally_section(allies.last())
    }
}

/// The whole script, for a scenario with nothing wrong with it.
pub open spec fn spec_script(
    s: ScenarioFacts,
    player: Seq<char>,
    battle: Seq<(Seq<char>, Seq<char>)>,
    mission: Seq<(Seq<char>, Seq<char>)>,
    starts: Seq<(i64, i64)>,
    units: Seq<Seq<(Seq<char>, Seq<char>)>>,
) -> Seq<char> {
    let teams = s.teams@;
    game_head(s, player) + modoptions(battle, mission) + player_section(teams, player) + ai_sections(
        teams,
        teams.len() as int,
    ) + team_sections(teams, starts, units, teams.len() as int) + ally_sections(allies_above(teams, -1))
        + "}\n"@
}

fn append_text(out: &mut String, piece: &str)
    ensures
        final(out)@ == old(out)@ + piece@,
{
    out.append(piece);
}

fn option_block(out: &mut String, opts: &[(String, String)], escaped: bool)
    ensures
        final(out)@ == old(out)@ + option_lines(pairs_of(opts@), escaped, opts@.len() as int),
{
    let ghost start = out@;
    let ghost pv = pairs_of(opts@);
    let mut i: usize = 0;
    while i < opts.len()
        invariant
            pv == pairs_of(opts@),
            i <= opts@.len(),
            out@ == start + option_lines(pv, escaped, i as int),
        decreases opts.len() - i,
    {
        assert(pv[i as int] == (opts@[i as int].0@, opts@[i as int].1@));
        if escaped {
            let k = escape(opts[i].0.as_str());
            let v = escape(opts[i].1.as_str());
            key(out, "\t\t", k.as_str(), v.as_str());
        } else {
            key(out, "\t\t", opts[i].0.as_str(), opts[i].1.as_str());
        }
        i = i + 1;
        assert(out@ =~= start + option_lines(pv, escaped, i as int));
    }
}

fn player_block(out: &mut String, teams: &Vec<Team>, player: &str)
    ensures
        final(out)@ == old(out)@ + player_section(teams@, player@),
{
    let ghost start = out@;
    let mut i: usize = 0;
    while i < teams.len() && teams[i].ai.is_some()
        invariant
            i <= teams@.len(),
            human_from(teams@, 0) == human_from(teams@, i as int),
        decreases teams.len() - i,
    {
        i = i + 1;
    }
    let human: u32 = if i < teams.len() {
        teams[i].id
    } else {
        0
    };
    assert(human == match human_from(teams@, 0) {
        Some(id) => id,
        None => 0u32,
    });
    append_text(out, "\t[PLAYER0]\n\t{\n");
    let name = escape(player);
    key(out, "\t\t", "Name", name.as_str());
    let number = decimal_string(human as u128);
    key(out, "\t\t", "Team", number.as_str());
    append_text(out, "\t}\n");
    assert(out@ =~= start + player_section(teams@, player@));
}

fn ai_section_into(out: &mut String, t: &Team, ai: &str, index: u64)
    ensures
        final(out)@ == old(out)@ + ai_section(*t, ai@, index as nat),
{
    let ghost start = out@;
    append_text(out, "\t[AI");
    append_text(out, decimal_string(index as u128).as_str());
    append_text(out, "]\n\t{\n");
    let mut name = owned("AI ");
    name.append(decimal_string(t.id as u128).as_str());
    key(out, "\t\t", "Name", name.as_str());
    let short = escape(ai);
    key(out, "\t\t", "ShortName", short.as_str());
    key(out, "\t\t", "Team", decimal_string(t.id as u128).as_str());
    key(out, "\t\t", "Host", "0");
    append_text(out, "\t}\n");
    assert(out@ =~= start + ai_section(*t, ai@, index as nat));
}

fn ai_block(out: &mut String, teams: &Vec<Team>)
    ensures
        final(out)@ == old(out)@ + ai_sections(teams@, teams@.len() as int),
{
    let ghost start = out@;
    let mut count: u64 = 0;
    let mut i: usize = 0;
    while i < teams.len()
        invariant
            i <= teams@.len(),
            count == ai_count(teams@, i as int),
            count <= i,
            out@ == start + ai_sections(teams@, i as int),
        decreases teams.len() - i,
    {
        let t = &teams[i];
        let ghost before = out@;
        match &t.ai {
            Some(ai) => {
                ai_section_into(out, t, ai.as_str(), count);
                count = count + 1;
            },
            None => {},
        }
        i = i + 1;
        assert(out@ =~= start + ai_sections(teams@, i as int));
    }
}

#[verifier::rlimit(40)]
fn team_block(
    out: &mut String,
    teams: &Vec<Team>,
    starts: &[(i64, i64)],
    units: &[Vec<(String, String)>],
)
    requires
        starts@.len() == teams@.len(),
        units@.len() == teams@.len(),
    ensures
        final(out)@ == old(out)@ + team_sections(teams@, starts@, units_view(units@), teams@.len() as int),
{
    let ghost start = out@;
    let mut i: usize = 0;
    while i < teams.len()
        invariant
            starts@.len() == teams@.len(),
            units@.len() == teams@.len(),
            i <= teams@.len(),
            out@ == start + team_sections(teams@, starts@, units_view(units@), i as int),
        decreases teams.len() - i,
    {
        let t = &teams[i];
        let ghost before = out@;
        append_text(out, "\t[TEAM");
        append_text(out, decimal_string(t.id as u128).as_str());
        append_text(out, "]\n\t{\n");
        key(out, "\t\t", "TeamLeader", "0");
        key(out, "\t\t", "AllyTeam", decimal_string(t.ally as u128).as_str());
        let colour = escape(t.colour.as_str());
        key(out, "\t\t", "RGBColor", colour.as_str());
        key(out, "\t\t", "start_x", signed_decimal_string(starts[i].0).as_str());
        key(out, "\t\t", "start_z", signed_decimal_string(starts[i].1).as_str());
        option_block(out, units[i].as_slice(), false);
        append_text(out, "\t}\n");
        assert(out@ =~= before + team_section(teams@[i as int], starts@[i as int], pairs_of(units@[i as int]@)));
        assert(units_view(units@)[i as int] == pairs_of(units@[i as int]@));
        i = i + 1;
        assert(out@ =~= start + team_sections(teams@, starts@, units_view(units@), i as int));
    }
}

fn least_ally_above(teams: &Vec<Team>, lo: Option<u32>) -> (r: Option<u32>)
    ensures
        r == least_ally(
            teams@,
            match lo {
                Some(l) => l as int,
                None => -1,
            },
            teams@.len() as int,
        ),
{
    let ghost low: int = match lo {
        Some(l) => l as int,
        None => -1,
    };
    let mut best: Option<u32> = None;
    let mut i: usize = 0;
    while i < teams.len()
        invariant
            i <= teams@.len(),
            low == match lo {
                Some(l) => l as int,
                None => -1,
            },
            best == least_ally(teams@, low, i as int),
        decreases teams.len() - i,
    {
        let a = teams[i].ally;
        let above = match lo {
            Some(l) => a > l,
            None => true,
        };
        match best {
            Some(b) => {
                if above && a < b {
                    best = Some(a);
                }
            },
            None => {
                if above {
                    best = Some(a);
                }
            },
        }
        i = i + 1;
    }
    best
}

fn ascending_allies(teams: &Vec<Team>) -> (r: Vec<u32>)
    ensures
        r@ == allies_above(teams@, -1),
{
    let mut list: Vec<u32> = Vec::new();
    let mut lo: Option<u32> = None;
    let mut done = false;
    while !done
        invariant
            list@ + (if done {
                Seq::<u32>::empty()
            } else {
                allies_above(
                    teams@,
                    match lo {
                        Some(l) => l as int,
                        None => -1,
                    },
                )
            }) == allies_above(teams@, -1),
        decreases (if done {
            0int
        } else {
            1int
        }), 0x1_0000_0000 - match lo {
            Some(l) => l as int,
            None => -1,
        },
    {
        let ghost low: int = match lo {
            Some(l) => l as int,
            None => -1,
        };
        if lo == Some(0xffff_ffffu32) {
            assert(allies_above(teams@, low) =~= Seq::<u32>::empty());
            done = true;
        } else {
            match least_ally_above(teams, lo) {
                Some(a) => {
                    proof {
                        lemma_least_ally(teams@, low, teams@.len() as int);
                    }
                    let ghost rest = allies_above(teams@, a as int);
                    assert(allies_above(teams@, low) == seq![a] + rest);
                    let ghost before = list@;
                    list.push(a);
                    assert(list@ + rest =~= before + (seq![a] + rest));
                    lo = Some(a);
                },
                None => {
                    assert(allies_above(teams@, low) =~= Seq::<u32>::empty());
                    done = true;
                },
            }
        }
    }
    assert(list@ + Seq::<u32>::empty() =~= list@);
    list
}

fn ally_section_into(out: &mut String, a: u32)
    ensures
        final(out)@ == old(out)@ + ally_section(a),
{
    let ghost start = out@;
    append_text(out, "\t[ALLYTEAM");
    append_text(out, decimal_string(a as u128).as_str());
    append_text(out, "]\n\t{\n");
    key(out, "\t\t", "NumAllies", "0");
    key(out, "\t\t", "StartRectTop", "0");
    key(out, "\t\t", "StartRectBottom", "0");
    key(out, "\t\t", "StartRectLeft", "1");
    key(out, "\t\t", "StartRectRight", "1");
    append_text(out, "\t}\n");
    assert(out@ =~= start + ally_section(a));
}

fn ally_block(out: &mut String, teams: &Vec<Team>)
    ensures
        final(out)@ == old(out)@ + ally_sections(allies_above(teams@, -1)),
{
    let ghost start = out@;
    let allies = ascending_allies(teams);
    let mut i: usize = 0;
    while i < allies.len()
        invariant
            i <= allies@.len(),
            out@ == start + ally_sections(allies@.take(i as int)),
        decreases allies.len() - i,
    {
        ally_section_into(out, allies[i]);
        assert(allies@.take(i + 1).drop_last() =~= allies@.take(i as int));
        i = i + 1;
        assert(out@ =~= start + ally_sections(allies@.take(i as int)));
    }
    assert(allies@.take(allies@.len() as int) =~= allies@);
}

/// The Spring start script assembled from its parts, or the first thing
/// wrong with the scenario. `battle` is the battle's own modoptions and
/// `mission` the mission engine's, already encoded; `starts` is where each team's
/// commander arrives and `units` each team's placed units as the custom keys
/// Zero-K reads them from, one of each per team in order. Values the author
/// typed are escaped; the encoded ones hold no delimiter and are written as
/// they are.
pub fn assemble_script(
    s: &ScenarioFacts,
    player: &str,
    battle: &[(String, String)],
    mission: &[(String, String)],
    starts: &[(i64, i64)],
    units: &[Vec<(String, String)>],
) -> (r: Result<String, String>)
    requires
        starts@.len() == s.teams@.len(),
        units@.len() == s.teams@.len(),
    ensures
        spec_problems(*s).len() > 0 ==> (r matches Err(e) && e@ == spec_problems(*s)[0]),
        spec_problems(*s).len() == 0 ==> (r matches Ok(text) && text@ == spec_script(
            *s,
            player@,
            pairs_of(battle@),
            pairs_of(mission@),
            starts@,
            units_view(units@),
        )),
{
    let found = problems(s);
    if found.len() > 0 {
        assert(crate::game::strings_view(found@)[0] == found@[0]@);
        return Err(owned(found[0].as_str()));
    }
    let mut out = String::new();
    append_text(&mut out, "[GAME]\n{\n");
    key(&mut out, "\t", "Mapname", escape(s.map.as_str()).as_str());
    key(&mut out, "\t", "GameType", escape(s.game.as_str()).as_str());
    key(&mut out, "\t", "MyPlayerName", escape(player).as_str());
    key(&mut out, "\t", "IsHost", "1");
    key(&mut out, "\t", "OnlyLocal", "1");
    key(&mut out, "\t", "StartposType", "2");
    key(&mut out, "\t", "GameStartDelay", "0");
    key(&mut out, "\t", "NumRestrictions", "0");
    let ghost head = out@;
    assert(head =~= Seq::<char>::empty() + game_head(*s, player@));
    append_text(&mut out, "\t[MODOPTIONS]\n\t{\n");
    key(&mut out, "\t\t", "noelo", "1");
    option_block(&mut out, battle, true);
    option_block(&mut out, mission, false);
    append_text(&mut out, "\t}\n");
    let ghost with_options = out@;
    assert(with_options =~= game_head(*s, player@) + modoptions(pairs_of(battle@), pairs_of(mission@)));
    player_block(&mut out, &s.teams, player);
    ai_block(&mut out, &s.teams);
    team_block(&mut out, &s.teams, starts, units);
    ally_block(&mut out, &s.teams);
    append_text(&mut out, "}\n");
    assert(out@ =~= spec_script(*s, player@, pairs_of(battle@), pairs_of(mission@), starts@, units_view(units@)));
    Ok(out)
}

// ------------------------------------------------------------------ laws ---

/// How many more `{` than `}` a text holds.
pub open spec fn brace_count(s: Seq<char>) -> int
    decreases s.len(),
{
    if s.len() == 0 {
        0
    } else {
        brace_count(s.drop_last()) + if s.last() == '{' {
            1int
        } else if s.last() == '}' {
            -1int
        } else {
            0int
        }
    }
}

/// How many braces of either kind a text holds.
pub open spec fn braces(s: Seq<char>) -> nat
    decreases s.len(),
{
    if s.len() == 0 {
        0
    } else {
        braces(s.drop_last()) + if s.last() == '{' || s.last() == '}' {
            1nat
        } else {
            0nat
        }
    }
}

/// `s` holds no brace of either kind.
pub open spec fn brace_free(s: Seq<char>) -> bool {
    forall|k: int| 0 <= k < s.len() ==> #[trigger] s[k] != '{' && s[k] != '}'
}

proof fn lemma_concat(a: Seq<char>, b: Seq<char>)
    ensures
        brace_count(a + b) == brace_count(a) + brace_count(b),
        braces(a + b) == braces(a) + braces(b),
    decreases b.len(),
{
    if b.len() > 0 {
        lemma_concat(a, b.drop_last());
        assert((a + b).drop_last() =~= a + b.drop_last());
    } else {
        assert(a + b =~= a);
    }
}

proof fn lemma_flat(s: Seq<char>)
    requires
        braces(s) == 0,
    ensures
        brace_count(s) == 0,
    decreases s.len(),
{
    if s.len() > 0 {
        lemma_flat(s.drop_last());
    }
}

proof fn lemma_brace_free(s: Seq<char>)
    requires
        brace_free(s),
    ensures
        braces(s) == 0,
    decreases s.len(),
{
    if s.len() > 0 {
        assert(brace_free(s.drop_last())) by {
            assert forall|k: int| 0 <= k < s.drop_last().len() implies #[trigger] s.drop_last()[k] != '{'
                && s.drop_last()[k] != '}' by {
                assert(s.drop_last()[k] == s[k]);
            }
        }
        lemma_brace_free(s.drop_last());
        assert(s.last() == s[s.len() - 1]);
    }
}

proof fn lemma_decimal(n: nat)
    ensures
        braces(decimal(n)) == 0,
    decreases n,
{
    reveal_with_fuel(braces, 2);
    let d = (48 + n % 10) as char;
    assert(d as int == 48 + n % 10);
    assert(d != '{' && d != '}');
    if n >= 10 {
        lemma_decimal(n / 10);
        assert(decimal(n).drop_last() =~= decimal(n / 10));
        assert(decimal(n).last() == d);
    } else {
        assert(decimal(n) =~= seq![d]);
        assert(decimal(n).drop_last() =~= Seq::<char>::empty());
    }
}

proof fn lemma_signed(n: int)
    ensures
        braces(signed_decimal(n)) == 0,
{
    reveal_with_fuel(braces, 2);
    if n < 0 {
        lemma_decimal((-n) as nat);
        lemma_concat(seq!['-'], decimal((-n) as nat));
        assert(seq!['-'].drop_last() =~= Seq::<char>::empty());
        assert(seq!['-'].last() == '-');
        assert(braces(seq!['-']) == 0);
    } else {
        lemma_decimal(n as nat);
    }
}

proof fn lemma_escape(x: Seq<char>)
    ensures
        braces(spec_escape(x)) == 0,
{
    crate::scenario::law_an_escaped_value_cannot_break_the_script(x);
    lemma_brace_free(spec_escape(x));
}

/// The braces in the writer's own words: none.
proof fn lemma_words_0()
    ensures
        braces("\t"@) == 0,
        braces("\t\t"@) == 0,
        braces("="@) == 0,
        braces(";\n"@) == 0,
        braces("Mapname"@) == 0,
{
    reveal_strlit("\t");
    reveal_strlit("\t\t");
    reveal_strlit("=");
    reveal_strlit(";\n");
    reveal_strlit("Mapname");
    reveal_with_fuel(braces, 8);
}

proof fn lemma_words_1()
    ensures
        braces("GameType"@) == 0,
        braces("MyPlayerName"@) == 0,
        braces("IsHost"@) == 0,
        braces("OnlyLocal"@) == 0,
        braces("StartposType"@) == 0,
{
    reveal_strlit("GameType");
    reveal_strlit("MyPlayerName");
    reveal_strlit("IsHost");
    reveal_strlit("OnlyLocal");
    reveal_strlit("StartposType");
    reveal_with_fuel(braces, 13);
}

proof fn lemma_words_2()
    ensures
        braces("GameStartDelay"@) == 0,
        braces("NumRestrictions"@) == 0,
        braces("noelo"@) == 0,
        braces("Name"@) == 0,
        braces("Team"@) == 0,
{
    reveal_strlit("GameStartDelay");
    reveal_strlit("NumRestrictions");
    reveal_strlit("noelo");
    reveal_strlit("Name");
    reveal_strlit("Team");
    reveal_with_fuel(braces, 16);
}

proof fn lemma_words_3()
    ensures
        braces("AI "@) == 0,
        braces("ShortName"@) == 0,
        braces("Host"@) == 0,
        braces("TeamLeader"@) == 0,
        braces("AllyTeam"@) == 0,
{
    reveal_strlit("AI ");
    reveal_strlit("ShortName");
    reveal_strlit("Host");
    reveal_strlit("TeamLeader");
    reveal_strlit("AllyTeam");
    reveal_with_fuel(braces, 11);
}

proof fn lemma_words_4()
    ensures
        braces("RGBColor"@) == 0,
        braces("start_x"@) == 0,
        braces("start_z"@) == 0,
        braces("NumAllies"@) == 0,
        braces("StartRectTop"@) == 0,
{
    reveal_strlit("RGBColor");
    reveal_strlit("start_x");
    reveal_strlit("start_z");
    reveal_strlit("NumAllies");
    reveal_strlit("StartRectTop");
    reveal_with_fuel(braces, 13);
}

proof fn lemma_words_5()
    ensures
        braces("StartRectBottom"@) == 0,
        braces("StartRectLeft"@) == 0,
        braces("StartRectRight"@) == 0,
        braces("0"@) == 0,
        braces("1"@) == 0,
{
    reveal_strlit("StartRectBottom");
    reveal_strlit("StartRectLeft");
    reveal_strlit("StartRectRight");
    reveal_strlit("0");
    reveal_strlit("1");
    reveal_with_fuel(braces, 16);
}

proof fn lemma_words_6()
    ensures
        braces("2"@) == 0,
        braces("\t[AI"@) == 0,
        braces("\t[TEAM"@) == 0,
        braces("\t[ALLYTEAM"@) == 0,
{
    reveal_strlit("2");
    reveal_strlit("\t[AI");
    reveal_strlit("\t[TEAM");
    reveal_strlit("\t[ALLYTEAM");
    reveal_with_fuel(braces, 11);
}

proof fn lemma_words()
    ensures
        braces("\t"@) == 0,
        braces("\t\t"@) == 0,
        braces("="@) == 0,
        braces(";\n"@) == 0,
        braces("Mapname"@) == 0,
        braces("GameType"@) == 0,
        braces("MyPlayerName"@) == 0,
        braces("IsHost"@) == 0,
        braces("OnlyLocal"@) == 0,
        braces("StartposType"@) == 0,
        braces("GameStartDelay"@) == 0,
        braces("NumRestrictions"@) == 0,
        braces("noelo"@) == 0,
        braces("Name"@) == 0,
        braces("Team"@) == 0,
        braces("AI "@) == 0,
        braces("ShortName"@) == 0,
        braces("Host"@) == 0,
        braces("TeamLeader"@) == 0,
        braces("AllyTeam"@) == 0,
        braces("RGBColor"@) == 0,
        braces("start_x"@) == 0,
        braces("start_z"@) == 0,
        braces("NumAllies"@) == 0,
        braces("StartRectTop"@) == 0,
        braces("StartRectBottom"@) == 0,
        braces("StartRectLeft"@) == 0,
        braces("StartRectRight"@) == 0,
        braces("0"@) == 0,
        braces("1"@) == 0,
        braces("2"@) == 0,
        braces("\t[AI"@) == 0,
        braces("\t[TEAM"@) == 0,
        braces("\t[ALLYTEAM"@) == 0,
{
    lemma_words_0();
    lemma_words_1();
    lemma_words_2();
    lemma_words_3();
    lemma_words_4();
    lemma_words_5();
    lemma_words_6();
}

/// The braces that open and close the writer's sections.
proof fn lemma_opener_0()
    ensures
        brace_count("[GAME]\n{\n"@) == 1 && braces("[GAME]\n{\n"@) == 1,
{
    reveal_strlit("[GAME]\n{\n");
    reveal_with_fuel(brace_count, 10);
    reveal_with_fuel(braces, 10);
}

proof fn lemma_opener_1()
    ensures
        brace_count("\t[MODOPTIONS]\n\t{\n"@) == 1 && braces("\t[MODOPTIONS]\n\t{\n"@) == 1,
{
    reveal_strlit("\t[MODOPTIONS]\n\t{\n");
    reveal_with_fuel(brace_count, 18);
    reveal_with_fuel(braces, 18);
}

proof fn lemma_opener_2()
    ensures
        brace_count("\t[PLAYER0]\n\t{\n"@) == 1 && braces("\t[PLAYER0]\n\t{\n"@) == 1,
{
    reveal_strlit("\t[PLAYER0]\n\t{\n");
    reveal_with_fuel(brace_count, 15);
    reveal_with_fuel(braces, 15);
}

proof fn lemma_opener_3()
    ensures
        brace_count("]\n\t{\n"@) == 1 && braces("]\n\t{\n"@) == 1,
{
    reveal_strlit("]\n\t{\n");
    reveal_with_fuel(brace_count, 6);
    reveal_with_fuel(braces, 6);
}

proof fn lemma_opener_4()
    ensures
        brace_count("\t}\n"@) == -1 && braces("\t}\n"@) == 1,
{
    reveal_strlit("\t}\n");
    reveal_with_fuel(brace_count, 4);
    reveal_with_fuel(braces, 4);
}

proof fn lemma_opener_5()
    ensures
        brace_count("}\n"@) == -1 && braces("}\n"@) == 1,
{
    reveal_strlit("}\n");
    reveal_with_fuel(brace_count, 3);
    reveal_with_fuel(braces, 3);
}

proof fn lemma_openers()
    ensures
        brace_count("[GAME]\n{\n"@) == 1 && braces("[GAME]\n{\n"@) == 1,
        brace_count("\t[MODOPTIONS]\n\t{\n"@) == 1 && braces("\t[MODOPTIONS]\n\t{\n"@) == 1,
        brace_count("\t[PLAYER0]\n\t{\n"@) == 1 && braces("\t[PLAYER0]\n\t{\n"@) == 1,
        brace_count("]\n\t{\n"@) == 1 && braces("]\n\t{\n"@) == 1,
        brace_count("\t}\n"@) == -1 && braces("\t}\n"@) == 1,
        brace_count("}\n"@) == -1 && braces("}\n"@) == 1,
{
    lemma_opener_0();
    lemma_opener_1();
    lemma_opener_2();
    lemma_opener_3();
    lemma_opener_4();
    lemma_opener_5();
}

proof fn lemma_line(indent: Seq<char>, k: Seq<char>, v: Seq<char>)
    requires
        braces(indent) == 0,
        braces(k) == 0,
        braces(v) == 0,
    ensures
        braces(script_line(indent, k, v)) == 0,
        brace_count(script_line(indent, k, v)) == 0,
{
    lemma_words();
    lemma_concat(indent, k);
    lemma_concat(indent + k, "="@);
    lemma_concat(indent + k + "="@, v);
    lemma_concat(indent + k + "="@ + v, ";\n"@);
    lemma_flat(script_line(indent, k, v));
}

/// Pieces `a` and `b` together hold the braces of each.
proof fn lemma_join(a: Seq<char>, b: Seq<char>, ca: int, cb: int)
    requires
        brace_count(a) == ca,
        brace_count(b) == cb,
    ensures
        brace_count(a + b) == ca + cb,
{
    lemma_concat(a, b);
}

proof fn lemma_option_lines(opts: Seq<(Seq<char>, Seq<char>)>, escaped: bool, n: int)
    requires
        0 <= n <= opts.len(),
        !escaped ==> forall|i: int| 0 <= i < opts.len() ==> braces((#[trigger] opts[i]).0) == 0 && braces(opts[i].1) == 0,
    ensures
        brace_count(option_lines(opts, escaped, n)) == 0,
    decreases n,
{
    if n > 0 {
        lemma_option_lines(opts, escaped, n - 1);
        lemma_words();
        let line = if escaped {
            lemma_escape(opts[n - 1].0);
            lemma_escape(opts[n - 1].1);
            lemma_line("\t\t"@, spec_escape(opts[n - 1].0), spec_escape(opts[n - 1].1));
            script_line("\t\t"@, spec_escape(opts[n - 1].0), spec_escape(opts[n - 1].1))
        } else {
            lemma_line("\t\t"@, opts[n - 1].0, opts[n - 1].1);
            script_line("\t\t"@, opts[n - 1].0, opts[n - 1].1)
        };
        lemma_join(option_lines(opts, escaped, n - 1), line, 0, 0);
    }
}

proof fn lemma_game_head(s: ScenarioFacts, player: Seq<char>)
    ensures
        brace_count(game_head(s, player)) == 1,
{
    lemma_words();
    lemma_openers();
    lemma_escape(s.map@);
    lemma_escape(s.game@);
    lemma_escape(player);
    let l1 = script_line("\t"@, "Mapname"@, spec_escape(s.map@));
    let l2 = script_line("\t"@, "GameType"@, spec_escape(s.game@));
    let l3 = script_line("\t"@, "MyPlayerName"@, spec_escape(player));
    let l4 = script_line("\t"@, "IsHost"@, "1"@);
    let l5 = script_line("\t"@, "OnlyLocal"@, "1"@);
    let l6 = script_line("\t"@, "StartposType"@, "2"@);
    let l7 = script_line("\t"@, "GameStartDelay"@, "0"@);
    let l8 = script_line("\t"@, "NumRestrictions"@, "0"@);
    lemma_line("\t"@, "Mapname"@, spec_escape(s.map@));
    lemma_line("\t"@, "GameType"@, spec_escape(s.game@));
    lemma_line("\t"@, "MyPlayerName"@, spec_escape(player));
    lemma_line("\t"@, "IsHost"@, "1"@);
    lemma_line("\t"@, "OnlyLocal"@, "1"@);
    lemma_line("\t"@, "StartposType"@, "2"@);
    lemma_line("\t"@, "GameStartDelay"@, "0"@);
    lemma_line("\t"@, "NumRestrictions"@, "0"@);
    let h = "[GAME]\n{\n"@;
    lemma_join(h, l1, 1, 0);
    lemma_join(h + l1, l2, 1, 0);
    lemma_join(h + l1 + l2, l3, 1, 0);
    lemma_join(h + l1 + l2 + l3, l4, 1, 0);
    lemma_join(h + l1 + l2 + l3 + l4, l5, 1, 0);
    lemma_join(h + l1 + l2 + l3 + l4 + l5, l6, 1, 0);
    lemma_join(h + l1 + l2 + l3 + l4 + l5 + l6, l7, 1, 0);
    lemma_join(h + l1 + l2 + l3 + l4 + l5 + l6 + l7, l8, 1, 0);
}

proof fn lemma_modoptions(battle: Seq<(Seq<char>, Seq<char>)>, mission: Seq<(Seq<char>, Seq<char>)>)
    requires
        forall|i: int| 0 <= i < mission.len() ==> braces((#[trigger] mission[i]).0) == 0 && braces(mission[i].1) == 0,
    ensures
        brace_count(modoptions(battle, mission)) == 0,
{
    lemma_words();
    lemma_openers();
    lemma_option_lines(battle, true, battle.len() as int);
    lemma_option_lines(mission, false, mission.len() as int);
    lemma_line("\t\t"@, "noelo"@, "1"@);
    let h = "\t[MODOPTIONS]\n\t{\n"@;
    let n = script_line("\t\t"@, "noelo"@, "1"@);
    let b = option_lines(battle, true, battle.len() as int);
    let m = option_lines(mission, false, mission.len() as int);
    lemma_join(h, n, 1, 0);
    lemma_join(h + n, b, 1, 0);
    lemma_join(h + n + b, m, 1, 0);
    lemma_join(h + n + b + m, "\t}\n"@, 1, -1);
}

proof fn lemma_player(teams: Seq<Team>, player: Seq<char>)
    ensures
        brace_count(player_section(teams, player)) == 0,
{
    lemma_words();
    lemma_openers();
    lemma_escape(player);
    let human = match human_from(teams, 0) {
        Some(id) => id,
        None => 0,
    };
    lemma_decimal(human as nat);
    lemma_line("\t\t"@, "Name"@, spec_escape(player));
    lemma_line("\t\t"@, "Team"@, num(human));
    let h = "\t[PLAYER0]\n\t{\n"@;
    let a = script_line("\t\t"@, "Name"@, spec_escape(player));
    let b = script_line("\t\t"@, "Team"@, num(human));
    lemma_join(h, a, 1, 0);
    lemma_join(h + a, b, 1, 0);
    lemma_join(h + a + b, "\t}\n"@, 1, -1);
}

proof fn lemma_section_frame(open: Seq<char>, number: Seq<char>, body: Seq<char>)
    requires
        braces(open) == 0,
        braces(number) == 0,
        brace_count(body) == 0,
    ensures
        brace_count(open + number + "]\n\t{\n"@ + body + "\t}\n"@) == 0,
{
    lemma_openers();
    lemma_flat(open);
    lemma_flat(number);
    lemma_join(open, number, 0, 0);
    lemma_join(open + number, "]\n\t{\n"@, 0, 1);
    lemma_join(open + number + "]\n\t{\n"@, body, 1, 0);
    lemma_join(open + number + "]\n\t{\n"@ + body, "\t}\n"@, 1, -1);
}

proof fn lemma_ai_sections(teams: Seq<Team>, n: int)
    requires
        0 <= n <= teams.len(),
    ensures
        brace_count(ai_sections(teams, n)) == 0,
    decreases n,
{
    if n > 0 {
        lemma_ai_sections(teams, n - 1);
        let t = teams[n - 1];
        match t.ai {
            Some(ai) => {
                lemma_words();
                lemma_decimal(ai_count(teams, n - 1));
                lemma_decimal(t.id as nat);
                lemma_escape(ai@);
                lemma_concat("AI "@, num(t.id));
                let l1 = script_line("\t\t"@, "Name"@, "AI "@ + num(t.id));
                let l2 = script_line("\t\t"@, "ShortName"@, spec_escape(ai@));
                let l3 = script_line("\t\t"@, "Team"@, num(t.id));
                let l4 = script_line("\t\t"@, "Host"@, "0"@);
                lemma_line("\t\t"@, "Name"@, "AI "@ + num(t.id));
                lemma_line("\t\t"@, "ShortName"@, spec_escape(ai@));
                lemma_line("\t\t"@, "Team"@, num(t.id));
                lemma_line("\t\t"@, "Host"@, "0"@);
                lemma_join(l1, l2, 0, 0);
                lemma_join(l1 + l2, l3, 0, 0);
                lemma_join(l1 + l2 + l3, l4, 0, 0);
                lemma_section_frame("\t[AI"@, decimal(ai_count(teams, n - 1)), l1 + l2 + l3 + l4);
                assert(ai_section(t, ai@, ai_count(teams, n - 1)) =~= "\t[AI"@ + decimal(ai_count(teams, n - 1))
                    + "]\n\t{\n"@ + (l1 + l2 + l3 + l4) + "\t}\n"@);
                lemma_join(ai_sections(teams, n - 1), ai_section(t, ai@, ai_count(teams, n - 1)), 0, 0);
            },
            None => {
                assert(ai_sections(teams, n) =~= ai_sections(teams, n - 1));
            },
        }
    }
}

proof fn lemma_team_section(t: Team, start: (i64, i64), units: Seq<(Seq<char>, Seq<char>)>)
    requires
        forall|i: int| 0 <= i < units.len() ==> braces((#[trigger] units[i]).0) == 0 && braces(units[i].1) == 0,
    ensures
        brace_count(team_section(t, start, units)) == 0,
{
    lemma_words();
    lemma_decimal(t.id as nat);
    lemma_decimal(t.ally as nat);
    lemma_escape(t.colour@);
    lemma_signed(start.0 as int);
    lemma_signed(start.1 as int);
    lemma_option_lines(units, false, units.len() as int);
    let l1 = script_line("\t\t"@, "TeamLeader"@, "0"@);
    let l2 = script_line("\t\t"@, "AllyTeam"@, num(t.ally));
    let l3 = script_line("\t\t"@, "RGBColor"@, spec_escape(t.colour@));
    let l4 = script_line("\t\t"@, "start_x"@, signed_decimal(start.0 as int));
    let l5 = script_line("\t\t"@, "start_z"@, signed_decimal(start.1 as int));
    let l6 = option_lines(units, false, units.len() as int);
    lemma_line("\t\t"@, "TeamLeader"@, "0"@);
    lemma_line("\t\t"@, "AllyTeam"@, num(t.ally));
    lemma_line("\t\t"@, "RGBColor"@, spec_escape(t.colour@));
    lemma_line("\t\t"@, "start_x"@, signed_decimal(start.0 as int));
    lemma_line("\t\t"@, "start_z"@, signed_decimal(start.1 as int));
    lemma_join(l1, l2, 0, 0);
    lemma_join(l1 + l2, l3, 0, 0);
    lemma_join(l1 + l2 + l3, l4, 0, 0);
    lemma_join(l1 + l2 + l3 + l4, l5, 0, 0);
    lemma_join(l1 + l2 + l3 + l4 + l5, l6, 0, 0);
    lemma_section_frame("\t[TEAM"@, num(t.id), l1 + l2 + l3 + l4 + l5 + l6);
    assert(team_section(t, start, units) =~= "\t[TEAM"@ + num(t.id) + "]\n\t{\n"@ + (l1 + l2 + l3 + l4 + l5
        + l6) + "\t}\n"@);
}

proof fn lemma_team_sections(
    teams: Seq<Team>,
    starts: Seq<(i64, i64)>,
    units: Seq<Seq<(Seq<char>, Seq<char>)>>,
    n: int,
)
    requires
        0 <= n <= teams.len(),
        starts.len() == teams.len(),
        units.len() == teams.len(),
        forall|t: int, i: int|
            0 <= t < units.len() && 0 <= i < units[t].len() ==> braces((#[trigger] units[t][i]).0) == 0
                && braces(units[t][i].1) == 0,
    ensures
        brace_count(team_sections(teams, starts, units, n)) == 0,
    decreases n,
{
    if n > 0 {
        lemma_team_sections(teams, starts, units, n - 1);
        let u = units[n - 1];
        assert forall|i: int| 0 <= i < u.len() implies braces((#[trigger] u[i]).0) == 0 && braces(u[i].1) == 0 by {
            assert(u[i] == units[n - 1][i]);
        }
        lemma_team_section(teams[n - 1], starts[n - 1], u);
        lemma_join(team_sections(teams, starts, units, n - 1), team_section(teams[n - 1], starts[n - 1], u), 0, 0);
    }
}

proof fn lemma_ally_sections(allies: Seq<u32>)
    ensures
        brace_count(ally_sections(allies)) == 0,
    decreases allies.len(),
{
    if allies.len() > 0 {
        lemma_ally_sections(allies.drop_last());
        let a = allies.last();
        lemma_words();
        lemma_decimal(a as nat);
        let l1 = script_line("\t\t"@, "NumAllies"@, "0"@);
        let l2 = script_line("\t\t"@, "StartRectTop"@, "0"@);
        let l3 = script_line("\t\t"@, "StartRectBottom"@, "0"@);
        let l4 = script_line("\t\t"@, "StartRectLeft"@, "1"@);
        let l5 = script_line("\t\t"@, "StartRectRight"@, "1"@);
        lemma_line("\t\t"@, "NumAllies"@, "0"@);
        lemma_line("\t\t"@, "StartRectTop"@, "0"@);
        lemma_line("\t\t"@, "StartRectBottom"@, "0"@);
        lemma_line("\t\t"@, "StartRectLeft"@, "1"@);
        lemma_line("\t\t"@, "StartRectRight"@, "1"@);
        lemma_join(l1, l2, 0, 0);
        lemma_join(l1 + l2, l3, 0, 0);
        lemma_join(l1 + l2 + l3, l4, 0, 0);
        lemma_join(l1 + l2 + l3 + l4, l5, 0, 0);
        lemma_section_frame("\t[ALLYTEAM"@, num(a), l1 + l2 + l3 + l4 + l5);
        assert(ally_section(a) =~= "\t[ALLYTEAM"@ + num(a) + "]\n\t{\n"@ + (l1 + l2 + l3 + l4 + l5) + "\t}\n"@);
        lemma_join(ally_sections(allies.drop_last()), ally_section(a), 0, 0);
    }
}

/// Every script holds as many `{` as `}`: each section the writer opens it
/// closes, and nothing an author typed can add a brace, because escaping
/// removes them. The encoded payloads, and the keys they travel under, are
/// written as they are, so they are taken to hold none.
pub proof fn law_a_script_is_balanced(
    s: ScenarioFacts,
    player: Seq<char>,
    battle: Seq<(Seq<char>, Seq<char>)>,
    mission: Seq<(Seq<char>, Seq<char>)>,
    starts: Seq<(i64, i64)>,
    units: Seq<Seq<(Seq<char>, Seq<char>)>>,
)
    requires
        starts.len() == s.teams@.len(),
        units.len() == s.teams@.len(),
        forall|i: int| 0 <= i < mission.len() ==> brace_free((#[trigger] mission[i]).0) && brace_free(mission[i].1),
        forall|t: int, i: int|
            0 <= t < units.len() && 0 <= i < units[t].len() ==> brace_free((#[trigger] units[t][i]).0)
                && brace_free(units[t][i].1),
    ensures
        brace_count(spec_script(s, player, battle, mission, starts, units)) == 0,
{
    let teams = s.teams@;
    assert forall|i: int| 0 <= i < mission.len() implies braces((#[trigger] mission[i]).0) == 0 && braces(mission[i].1) == 0 by {
        lemma_brace_free(mission[i].0);
        lemma_brace_free(mission[i].1);
    }
    assert forall|t: int, i: int| 0 <= t < units.len() && 0 <= i < units[t].len() implies braces(
        (#[trigger] units[t][i]).0,
    ) == 0 && braces(units[t][i].1) == 0 by {
        lemma_brace_free(units[t][i].0);
        lemma_brace_free(units[t][i].1);
    }
    lemma_openers();
    lemma_game_head(s, player);
    lemma_modoptions(battle, mission);
    lemma_player(teams, player);
    lemma_ai_sections(teams, teams.len() as int);
    lemma_team_sections(teams, starts, units, teams.len() as int);
    lemma_ally_sections(allies_above(teams, -1));
    let g = game_head(s, player);
    let m = modoptions(battle, mission);
    let p = player_section(teams, player);
    let a = ai_sections(teams, teams.len() as int);
    let t = team_sections(teams, starts, units, teams.len() as int);
    let y = ally_sections(allies_above(teams, -1));
    lemma_join(g, m, 1, 0);
    lemma_join(g + m, p, 1, 0);
    lemma_join(g + m + p, a, 1, 0);
    lemma_join(g + m + p + a, t, 1, 0);
    lemma_join(g + m + p + a + t, y, 1, 0);
    lemma_join(g + m + p + a + t + y, "}\n"@, 1, -1);
}

proof fn lemma_ends_of(
    g: Seq<char>,
    m: Seq<char>,
    p: Seq<char>,
    a: Seq<char>,
    t: Seq<char>,
    y: Seq<char>,
    e: Seq<char>,
    open: Seq<char>,
)
    requires
        open.len() <= g.len(),
        g.subrange(0, open.len() as int) == open,
    ensures
        (g + m + p + a + t + y + e).len() >= open.len() + e.len(),
        (g + m + p + a + t + y + e).subrange(0, open.len() as int) == open,
        (g + m + p + a + t + y + e).subrange(
            (g + m + p + a + t + y + e).len() - e.len(),
            (g + m + p + a + t + y + e).len() as int,
        ) == e,
{
    let x = g + m + p + a + t + y + e;
    assert(x.subrange(0, open.len() as int) =~= g.subrange(0, open.len() as int));
    assert(x.subrange(x.len() - e.len(), x.len() as int) =~= e);
}

/// Every script opens the game section first and closes it last.
pub proof fn law_a_script_opens_and_closes(
    s: ScenarioFacts,
    player: Seq<char>,
    battle: Seq<(Seq<char>, Seq<char>)>,
    mission: Seq<(Seq<char>, Seq<char>)>,
    starts: Seq<(i64, i64)>,
    units: Seq<Seq<(Seq<char>, Seq<char>)>>,
)
    ensures
        spec_script(s, player, battle, mission, starts, units).len() >= 11,
        spec_script(s, player, battle, mission, starts, units).subrange(0, 9) == "[GAME]\n{\n"@,
        spec_script(s, player, battle, mission, starts, units).subrange(
            spec_script(s, player, battle, mission, starts, units).len() - 2,
            spec_script(s, player, battle, mission, starts, units).len() as int,
        ) == "}\n"@,
{
    reveal_strlit("[GAME]\n{\n");
    reveal_strlit("}\n");
    let teams = s.teams@;
    let open = "[GAME]\n{\n"@;
    let g = game_head(s, player);
    let rest = script_line("\t"@, "Mapname"@, spec_escape(s.map@)) + script_line(
        "\t"@,
        "GameType"@,
        spec_escape(s.game@),
    ) + script_line("\t"@, "MyPlayerName"@, spec_escape(player)) + script_line("\t"@, "IsHost"@, "1"@)
        + script_line("\t"@, "OnlyLocal"@, "1"@) + script_line("\t"@, "StartposType"@, "2"@) + script_line(
        "\t"@,
        "GameStartDelay"@,
        "0"@,
    ) + script_line("\t"@, "NumRestrictions"@, "0"@);
    assert(g =~= open + rest);
    assert(g.subrange(0, 9) =~= open);
    lemma_ends_of(
        g,
        modoptions(battle, mission),
        player_section(teams, player),
        ai_sections(teams, teams.len() as int),
        team_sections(teams, starts, units, teams.len() as int),
        ally_sections(allies_above(teams, -1)),
        "}\n"@,
        open,
    );
}

/// The battle's options as the script holds them: each key and value with
/// its delimiters taken out.
pub open spec fn cleaned(opts: Seq<(Seq<char>, Seq<char>)>) -> Seq<(Seq<char>, Seq<char>)> {
    opts.map_values(|o: (Seq<char>, Seq<char>)| (spec_escape(o.0), spec_escape(o.1)))
}

/// Every assignment of the modoptions section, in the order it is written.
pub open spec fn option_pairs(
    battle: Seq<(Seq<char>, Seq<char>)>,
    mission: Seq<(Seq<char>, Seq<char>)>,
) -> Seq<(Seq<char>, Seq<char>)> {
    seq![("noelo"@, "1"@)] + cleaned(battle) + mission
}

proof fn lemma_option_lines_prefix(p: Seq<(Seq<char>, Seq<char>)>, q: Seq<(Seq<char>, Seq<char>)>, e: bool, n: int)
    requires
        0 <= n <= p.len(),
        n <= q.len(),
        forall|i: int| 0 <= i < n ==> p[i] == q[i],
    ensures
        option_lines(p, e, n) == option_lines(q, e, n),
    decreases n,
{
    if n > 0 {
        lemma_option_lines_prefix(p, q, e, n - 1);
    }
}

proof fn lemma_option_lines_cat(a: Seq<(Seq<char>, Seq<char>)>, b: Seq<(Seq<char>, Seq<char>)>, e: bool, k: int)
    requires
        0 <= k <= b.len(),
    ensures
        option_lines(a + b, e, a.len() + k) == option_lines(a, e, a.len() as int) + option_lines(b, e, k),
    decreases k,
{
    if k == 0 {
        lemma_option_lines_prefix(a + b, a, e, a.len() as int);
        assert(option_lines(a, e, a.len() as int) + option_lines(b, e, 0) =~= option_lines(a, e, a.len() as int));
    } else {
        lemma_option_lines_cat(a, b, e, k - 1);
        assert((a + b)[a.len() + k - 1] == b[k - 1]);
        assert(option_lines(a + b, e, a.len() + k) =~= option_lines(a, e, a.len() as int) + option_lines(b, e, k));
    }
}

proof fn lemma_option_lines_cleaned(opts: Seq<(Seq<char>, Seq<char>)>, n: int)
    requires
        0 <= n <= opts.len(),
    ensures
        option_lines(opts, true, n) == option_lines(cleaned(opts), false, n),
    decreases n,
{
    if n > 0 {
        lemma_option_lines_cleaned(opts, n - 1);
        assert(cleaned(opts)[n - 1] == (spec_escape(opts[n - 1].0), spec_escape(opts[n - 1].1)));
    }
}

/// The modoptions section is its assignments, one line each, in the order
/// of [`option_pairs`]: the rating switch, the battle's options, then the
/// mission's.
pub proof fn law_the_modoptions_are_written_in_order(
    battle: Seq<(Seq<char>, Seq<char>)>,
    mission: Seq<(Seq<char>, Seq<char>)>,
)
    ensures
        modoptions(battle, mission) == "\t[MODOPTIONS]\n\t{\n"@ + option_lines(
            option_pairs(battle, mission),
            false,
            option_pairs(battle, mission).len() as int,
        ) + "\t}\n"@,
        option_pairs(battle, mission).len() == 1 + battle.len() + mission.len(),
        option_pairs(battle, mission)[0] == ("noelo"@, "1"@),
        forall|i: int| 0 <= i < mission.len() ==> #[trigger] option_pairs(battle, mission)[1 + battle.len() + i] == mission[i],
{
    let noelo = seq![("noelo"@, "1"@)];
    let c = cleaned(battle);
    lemma_option_lines_cleaned(battle, battle.len() as int);
    lemma_option_lines_cat(noelo, c, false, c.len() as int);
    lemma_option_lines_cat(noelo + c, mission, false, mission.len() as int);
    assert(option_lines(noelo, false, 1) =~= script_line("\t\t"@, "noelo"@, "1"@)) by {
        assert(option_lines(noelo, false, 0) == Seq::<char>::empty());
        assert(noelo[0] == ("noelo"@, "1"@));
        assert(option_lines(noelo, false, 1) == option_lines(noelo, false, 0) + script_line("\t\t"@, noelo[0].0, noelo[0].1));
    }
    let p = option_pairs(battle, mission);
    assert(p =~= noelo + c + mission);
    assert forall|i: int| 0 <= i < mission.len() implies #[trigger] p[1 + battle.len() + i] == mission[i] by {
        assert((noelo + c + mission)[(noelo + c).len() + i] == mission[i]);
    }
    assert(modoptions(battle, mission) =~= "\t[MODOPTIONS]\n\t{\n"@ + option_lines(p, false, p.len() as int) + "\t}\n"@);
}

/// A script's game section opens by naming the map, the game and the local
/// player, each with its delimiters taken out, then says this machine hosts,
/// plays alone, places the start positions itself (type 2), starts without
/// delay and restricts no units.
pub proof fn law_the_game_section_names_the_battle(
    s: ScenarioFacts,
    player: Seq<char>,
    battle: Seq<(Seq<char>, Seq<char>)>,
    mission: Seq<(Seq<char>, Seq<char>)>,
    starts: Seq<(i64, i64)>,
    units: Seq<Seq<(Seq<char>, Seq<char>)>>,
)
    ensures
        ({
            let head = "[GAME]\n{\n"@ + "\tMapname="@ + spec_escape(s.map@) + ";\n"@ + "\tGameType="@ + spec_escape(s.game@)
                + ";\n"@ + "\tMyPlayerName="@ + spec_escape(player) + ";\n"@ + "\tIsHost=1;\n"@ + "\tOnlyLocal=1;\n"@
                + "\tStartposType=2;\n"@ + "\tGameStartDelay=0;\n"@ + "\tNumRestrictions=0;\n"@;
            let script = spec_script(s, player, battle, mission, starts, units);
            &&& head.len() <= script.len()
            &&& script.subrange(0, head.len() as int) == head
        }),
{
    reveal_strlit("\t");
    reveal_strlit("=");
    reveal_strlit(";\n");
    reveal_strlit("Mapname");
    reveal_strlit("GameType");
    reveal_strlit("MyPlayerName");
    reveal_strlit("IsHost");
    reveal_strlit("OnlyLocal");
    reveal_strlit("StartposType");
    reveal_strlit("GameStartDelay");
    reveal_strlit("NumRestrictions");
    reveal_strlit("1");
    reveal_strlit("2");
    reveal_strlit("0");
    reveal_strlit("\tMapname=");
    reveal_strlit("\tGameType=");
    reveal_strlit("\tMyPlayerName=");
    reveal_strlit("\tIsHost=1;\n");
    reveal_strlit("\tOnlyLocal=1;\n");
    reveal_strlit("\tStartposType=2;\n");
    reveal_strlit("\tGameStartDelay=0;\n");
    reveal_strlit("\tNumRestrictions=0;\n");
    let head = "[GAME]\n{\n"@ + "\tMapname="@ + spec_escape(s.map@) + ";\n"@ + "\tGameType="@ + spec_escape(s.game@)
        + ";\n"@ + "\tMyPlayerName="@ + spec_escape(player) + ";\n"@ + "\tIsHost=1;\n"@ + "\tOnlyLocal=1;\n"@
        + "\tStartposType=2;\n"@ + "\tGameStartDelay=0;\n"@ + "\tNumRestrictions=0;\n"@;
    assert(game_head(s, player) =~= head);
    let teams = s.teams@;
    let rest = modoptions(battle, mission) + player_section(teams, player) + ai_sections(teams, teams.len() as int)
        + team_sections(teams, starts, units, teams.len() as int) + ally_sections(allies_above(teams, -1)) + "}\n"@;
    let script = spec_script(s, player, battle, mission, starts, units);
    assert(script =~= head + rest);
    assert(script.subrange(0, head.len() as int) =~= head);
}

} // verus!
