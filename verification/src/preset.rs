//! Coilbox presets: the battle a scenario is played in.
//!
//! A preset is the half of a scenario that is not scenario-specific: the
//! map, the game, who is playing and the modoptions. What a preset carries
//! that a scenario has no room for - a faction, a handicap, a spectator - is
//! listed by [`ignored`] and shown to the author rather than dropped in
//! silence.
//!
//! A participant's colour and handicap are floating point in a preset. They
//! stay with the caller: the colour arrives here already written as the start
//! script spells it, and the handicap only as whether a nonzero one is set.
use vstd::prelude::*;
use crate::game::strings_view;
use crate::scenario::{said_if, ScenarioFacts, Team};
use crate::text::{chars_of, concat, decimal, decimal_string, joined, owned, same_text, signed_decimal, signed_decimal_string};

verus! {

/// The container kind a preset travels in.
pub const KIND: &'static str = "preset";

/// The payload version this build reads and writes.
pub const KIND_VERSION: u32 = 1;

/// Coilbox's sentinel for "roll a concrete side at launch".
pub const RANDOM_SIDE: &'static str = "__random__";

/// An AI, as a preset names one.
#[derive(Debug, Clone, PartialEq)]
pub struct PresetAi {
    /// What the engine wants as the AI's short name - "NullAI", "CircuitAI".
    pub short_name: String,
    /// "native" or "lua"; carried through.
    pub kind: String,
    pub name: Option<String>,
}

/// One side of a battle, as read here.
#[derive(Debug, Clone, PartialEq)]
pub struct Seat {
    pub id: String,
    /// "you" or "ai". The human is the one written as the script's player.
    pub kind: String,
    pub name: String,
    pub ai: Option<PresetAi>,
    /// The faction; kept on the way out, reported as ignored on the way in.
    pub side: String,
    /// The colour as the start script's `RGBColor` spells it.
    pub colour: String,
    pub ally_team: u32,
    pub spectator: bool,
    /// Whether a nonzero handicap is set.
    pub handicapped: bool,
    pub team: Option<u32>,
}

/// The unit and economy limits a preset can pin, as read here: the units it
/// disables, and whether an advantage and an income multiplier are set.
#[derive(Debug, Clone, PartialEq)]
pub struct Limits {
    pub disabled_units: Option<Vec<String>>,
    pub advantage: bool,
    pub income_multiplier: bool,
}

/// What [`ignored`] reads of a preset.
#[derive(Debug, Clone, PartialEq)]
pub struct Battle {
    pub participants: Vec<Seat>,
    pub start_pos_type: i32,
    pub restrictions: Option<Limits>,
}

pub open spec fn is_you(p: Seat) -> bool {
    p.kind@ == "you"@
}

/// Nobody is left for the author to play: no human takes part, and a human
/// watches. A battle where you spectate is ordinary; a scenario with nobody
/// to be is refused, so that human is kept and made to play.
pub open spec fn spec_spectating_human(ps: Seq<Seat>) -> bool {
    &&& !exists|i: int| 0 <= i < ps.len() && !(#[trigger] ps[i]).spectator && is_you(ps[i])
    &&& exists|i: int| 0 <= i < ps.len() && (#[trigger] ps[i]).spectator && is_you(ps[i])
}

pub fn spectating_human(participants: &[Seat]) -> (r: bool)
    ensures
        r == spec_spectating_human(participants@),
{
    let ghost ps = participants@;
    let mut playing = false;
    let mut watching = false;
    let mut i: usize = 0;
    while i < participants.len()
        invariant
            ps == participants@,
            i <= ps.len(),
            playing == exists|j: int| 0 <= j < i && !(#[trigger] ps[j]).spectator && is_you(ps[j]),
            watching == exists|j: int| 0 <= j < i && (#[trigger] ps[j]).spectator && is_you(ps[j]),
        decreases participants.len() - i,
    {
        let you = same_text(participants[i].kind.as_str(), "you");
        if you && !participants[i].spectator {
            playing = true;
            assert(!ps[i as int].spectator && is_you(ps[i as int]));
        }
        if you && participants[i].spectator {
            watching = true;
            assert(ps[i as int].spectator && is_you(ps[i as int]));
        }
        i = i + 1;
    }
    !playing && watching
}

/// The participants among the first `n` that become teams: everyone but the
/// spectators, and the spectating human where `rescue` says so.
pub open spec fn kept_seats(ps: Seq<Seat>, rescue: bool, n: int) -> Seq<Seat>
    decreases n,
{
    if n <= 0 || n > ps.len() {
        Seq::empty()
    } else if !ps[n - 1].spectator || (rescue && is_you(ps[n - 1])) {
        kept_seats(ps, rescue, n - 1).push(ps[n - 1])
    } else {
        kept_seats(ps, rescue, n - 1)
    }
}

/// The AI a participant's team runs: none for the human, the named AI, or
/// "NullAI" for an AI that names none - it is still not the human.
pub open spec fn seat_ai(p: Seat) -> Option<Seq<char>> {
    if is_you(p) {
        None
    } else {
        match p.ai {
            Some(a) => Some(a.short_name@),
            None => Some("NullAI"@),
        }
    }
}

pub open spec fn opt_text(o: Option<String>) -> Option<Seq<char>> {
    match o {
        Some(s) => Some(s@),
        None => None,
    }
}

pub open spec fn team_view(t: Team) -> (u32, u32, Option<Seq<char>>, Seq<char>) {
    (t.id, t.ally, opt_text(t.ai), t.colour@)
}

/// The teams a preset describes, numbered by position: the engine wants
/// `[TEAM0]`, `[TEAM1]` with no holes, and a preset's `team` is a grouping,
/// not an index.
pub open spec fn spec_teams_of(ps: Seq<Seat>) -> Seq<(u32, u32, Option<Seq<char>>, Seq<char>)> {
    let k = kept_seats(ps, spec_spectating_human(ps), ps.len() as int);
    Seq::new(k.len(), |i: int| (i as u32, k[i].ally_team, seat_ai(k[i]), k[i].colour@))
}

/// A preset's modoption value, as the library reads it: JSON other than a
/// bool, a string or null arrives already written as JSON text.
#[derive(Debug, Clone, PartialEq)]
pub enum ModValue {
    Flag(bool),
    Text(String),
    Empty,
    Json(String),
}

/// A modoption value as a start script spells it: a bool is `1` or `0`,
/// because a literal `true` reaches Lua as a string that is not falsy; a
/// string is itself, null is nothing, and anything else its JSON text.
pub fn script_value(value: &ModValue) -> (r: String)
    ensures
        r@ == match value {
            ModValue::Flag(true) => "1"@,
            ModValue::Flag(false) => "0"@,
            ModValue::Text(t) => t@,
            ModValue::Empty => Seq::<char>::empty(),
            ModValue::Json(j) => j@,
        },
{
    match value {
        ModValue::Flag(true) => owned("1"),
        ModValue::Flag(false) => owned("0"),
        ModValue::Text(t) => owned(t.as_str()),
        ModValue::Empty => String::new(),
        ModValue::Json(j) => owned(j.as_str()),
    }
}

/// Lay a preset's battle over a scenario, keeping everything the preset does
/// not speak to: its map always, its game only where it names one, its teams
/// only where it has any. The units, objectives and the rest stay: a preset
/// is the battle, not what happens in it.
pub fn apply(s: &mut ScenarioFacts, map: &str, game: &str, teams: Vec<Team>)
    ensures
        final(s).map@ == map@,
        final(s).game@ == if game@.len() == 0 {
            old(s).game@
        } else {
            game@
        },
        final(s).teams@ == if teams@.len() == 0 {
            old(s).teams@
        } else {
            teams@
        },
        final(s).units == old(s).units,
        final(s).outside == old(s).outside,
        final(s).map_elmos == old(s).map_elmos,
        final(s).depth_elmos == old(s).depth_elmos,
        final(s).goals == old(s).goals,
{
    s.map = owned(map);
    if chars_of(game).len() > 0 {
        s.game = owned(game);
    }
    if teams.len() > 0 {
        s.teams = teams;
    }
}

/// The teams a preset describes: spectators are dropped, because a
/// scenario writes one local player and every other team as an AI, except
/// the human who only watched, who is kept and made to play.
pub fn teams_of(participants: &[Seat]) -> (r: Vec<Team>)
    ensures
        r@.map_values(|t: Team| team_view(t)) == spec_teams_of(participants@),
{
    let ghost ps = participants@;
    let rescue = spectating_human(participants);
    let ghost kept = kept_seats(ps, rescue, ps.len() as int);
    let mut out: Vec<Team> = Vec::new();
    let mut i: usize = 0;
    while i < participants.len()
        invariant
            ps == participants@,
            rescue == spec_spectating_human(ps),
            i <= ps.len(),
            out@.len() == kept_seats(ps, rescue, i as int).len(),
            forall|j: int|
                0 <= j < out@.len() ==> team_view(#[trigger] out@[j]) == ({
                    let k = kept_seats(ps, rescue, i as int);
                    (j as u32, k[j].ally_team, seat_ai(k[j]), k[j].colour@)
                }),
        decreases participants.len() - i,
    {
        let p = &participants[i];
        let you = same_text(p.kind.as_str(), "you");
        let ghost before = kept_seats(ps, rescue, i as int);
        if !p.spectator || (rescue && you) {
            let id = out.len() as u32;
            let ai = if you {
                None
            } else {
                match &p.ai {
                    Some(a) => Some(owned(a.short_name.as_str())),
                    None => Some(owned("NullAI")),
                }
            };
            let ghost old_out = out@;
            out.push(Team { id, ally: p.ally_team, ai, colour: owned(p.colour.as_str()) });
            proof {
                let k = kept_seats(ps, rescue, i + 1);
                assert(k == before.push(ps[i as int]));
                assert forall|j: int| 0 <= j < out@.len() implies team_view(#[trigger] out@[j]) == (
                j as u32, k[j].ally_team, seat_ai(k[j]), k[j].colour@) by {
                    if j < old_out.len() {
                        assert(out@[j] == old_out[j]);
                        assert(k[j] == before[j]);
                    }
                }
            }
        }
        i = i + 1;
    }
    assert(out@.map_values(|t: Team| team_view(t)) =~= spec_teams_of(participants@));
    out
}

// -------------------------------------------------------------- ignored ---

/// The factions among the first `n` participants that were chosen rather
/// than left to chance.
pub open spec fn chosen_sides(ps: Seq<Seat>, n: int) -> Seq<Seq<char>>
    decreases n,
{
    if n <= 0 || n > ps.len() {
        Seq::empty()
    } else if ps[n - 1].side@.len() > 0 && ps[n - 1].side@ != "__random__"@ {
        chosen_sides(ps, n - 1).push(ps[n - 1].side@)
    } else {
        chosen_sides(ps, n - 1)
    }
}

/// How many of the first `n` participants are spectators that do not
/// become a team.
pub open spec fn dropped_count(ps: Seq<Seat>, rescue: bool, n: int) -> nat
    decreases n,
{
    if n <= 0 || n > ps.len() {
        0
    } else if ps[n - 1].spectator && !(rescue && is_you(ps[n - 1])) {
        dropped_count(ps, rescue, n - 1) + 1
    } else {
        dropped_count(ps, rescue, n - 1)
    }
}

pub open spec fn any_handicap(ps: Seq<Seat>) -> bool {
    exists|i: int| 0 <= i < ps.len() && (#[trigger] ps[i]).handicapped
}

pub open spec fn spectator_note() -> Seq<char> {
    "You were a spectator in that battle. A scenario needs a player, so you are              on a team now - move yourself if that is the wrong one."@
}

/// What a preset carries that a scenario cannot represent, in the order it
/// is said: chosen factions, handicaps, a human who only watched, dropped
/// spectators, disabled units, an advantage or income multiplier, and a
/// start-position type other than the one a mission uses.
pub open spec fn spec_ignored(b: Battle) -> Seq<Seq<char>> {
    let ps = b.participants@;
    let rescue = spec_spectating_human(ps);
    let sides = chosen_sides(ps, ps.len() as int);
    let dropped = dropped_count(ps, rescue, ps.len() as int);
    said_if(sides.len() > 0, "Factions are not kept: "@ + joined(sides, ", "@) + ". Zero-K picks its own."@)
        + said_if(any_handicap(ps), "Handicaps are not kept - Splaunch writes no Handicap field."@)
        + said_if(rescue, spectator_note()) + said_if(
        dropped > 0,
        decimal(dropped) + " spectator(s) dropped - a scenario has none."@,
    ) + match b.restrictions {
        Some(r) => said_if(
            r.disabled_units matches Some(u) && u@.len() > 0,
            "Disabled units are not applied yet - Splaunch writes NumRestrictions=0."@,
        ) + said_if(
            r.advantage || r.income_multiplier,
            "Advantage and income multiplier are not applied yet."@,
        ),
        None => Seq::empty(),
    } + said_if(
        b.start_pos_type != 2,
        "Start positions stay Splaunch's: a mission places its own, so startPosType "@
            + signed_decimal(b.start_pos_type as int) + " is not used."@,
    )
}

fn push_when(out: &mut Vec<String>, c: bool, m: String)
    ensures
        strings_view(final(out)@) == strings_view(old(out)@) + said_if(c, m@),
{
    let ghost before = strings_view(out@);
    if c {
        out.push(m);
    }
    assert(strings_view(out@) =~= before + said_if(c, m@));
}

/// What a preset carries that a scenario cannot represent, so the editor can
/// say so: silently dropping a handicap would make a shared battle play
/// differently here than where it was made.
pub fn ignored(battle: &Battle) -> (r: Vec<String>)
    ensures
        strings_view(r@) == spec_ignored(*battle),
{
    let ghost ps = battle.participants@;
    let rescue = spectating_human(battle.participants.as_slice());
    let mut sides = String::new();
    let mut any_side = false;
    let mut handicap = false;
    let mut dropped: usize = 0;
    let mut i: usize = 0;
    while i < battle.participants.len()
        invariant
            ps == battle.participants@,
            rescue == spec_spectating_human(ps),
            i <= ps.len(),
            any_side == (chosen_sides(ps, i as int).len() > 0),
            sides@ == joined(chosen_sides(ps, i as int), ", "@),
            handicap == exists|j: int| 0 <= j < i && (#[trigger] ps[j]).handicapped,
            dropped == dropped_count(ps, rescue, i as int),
            dropped <= i,
        decreases battle.participants.len() - i,
    {
        let p = &battle.participants[i];
        let side = p.side.as_str();
        let ghost prev = chosen_sides(ps, i as int);
        if chars_of(side).len() > 0 && !same_text(side, "__random__") {
            if any_side {
                sides.append(", ");
            }
            sides.append(side);
            any_side = true;
            assert(chosen_sides(ps, i + 1) == prev.push(side@));
            assert(prev.push(side@).drop_last() =~= prev);
        }
        if p.handicapped {
            handicap = true;
            assert(ps[i as int].handicapped);
        }
        if p.spectator && !(rescue && same_text(p.kind.as_str(), "you")) {
            dropped = dropped + 1;
        }
        i = i + 1;
    }
    let mut out: Vec<String> = Vec::new();
    let mut factions = owned("Factions are not kept: ");
    factions.append(sides.as_str());
    factions.append(". Zero-K picks its own.");
    push_when(&mut out, any_side, factions);
    push_when(&mut out, handicap, owned("Handicaps are not kept - Splaunch writes no Handicap field."));
    push_when(
        &mut out,
        rescue,
        owned(
            "You were a spectator in that battle. A scenario needs a player, so you are              on a team now - move yourself if that is the wrong one.",
        ),
    );
    let mut gone = decimal_string(dropped as u128);
    gone.append(" spectator(s) dropped - a scenario has none.");
    push_when(&mut out, dropped > 0, gone);
    match &battle.restrictions {
        Some(r) => {
            let disabled = match &r.disabled_units {
                Some(u) => u.len() > 0,
                None => false,
            };
            push_when(
                &mut out,
                disabled,
                owned("Disabled units are not applied yet - Splaunch writes NumRestrictions=0."),
            );
            push_when(
                &mut out,
                r.advantage || r.income_multiplier,
                owned("Advantage and income multiplier are not applied yet."),
            );
        },
        None => {},
    }
    let mut start = owned("Start positions stay Splaunch's: a mission places its own, so startPosType ");
    start.append(signed_decimal_string(battle.start_pos_type as i64).as_str());
    start.append(" is not used.");
    push_when(&mut out, battle.start_pos_type != 2, start);
    assert(strings_view(out@) =~= spec_ignored(*battle));
    out
}

// ------------------------------------------------------------- exporting ---

/// A scenario team as a preset participant: the human is "you", every other
/// team the AI it runs, native, on a side left to chance; the colour is the
/// team's, as the script spells it.
pub open spec fn team_seat(t: Team) -> (Seq<char>, Seq<char>, Seq<char>, Option<Seq<char>>, Seq<char>, Seq<char>, u32) {
    (
        "team"@ + decimal(t.id as nat),
        if t.ai is None { "you"@ } else { "ai"@ },
        match t.ai {
            None => "You"@,
            Some(a) => a@,
        },
        opt_text(t.ai),
        "__random__"@,
        t.colour@,
        t.ally,
    )
}

pub open spec fn seat_view(s: Seat) -> (Seq<char>, Seq<char>, Seq<char>, Option<Seq<char>>, Seq<char>, Seq<char>, u32) {
    (
        s.id@,
        s.kind@,
        s.name@,
        match s.ai {
            Some(a) => Some(a.short_name@),
            None => None,
        },
        s.side@,
        s.colour@,
        s.ally_team,
    )
}

/// The participants of the battle half of a scenario, one per team, in
/// order. An exported AI is native - Zero-K's shipped AIs are, and a
/// scenario does not record which kind it has - and nobody spectates, is
/// handicapped or is grouped.
pub fn seats_of(teams: &[Team]) -> (r: Vec<Seat>)
    ensures
        r@.len() == teams@.len(),
        forall|i: int| 0 <= i < r@.len() ==> seat_view(#[trigger] r@[i]) == team_seat(teams@[i]),
        forall|i: int|
            0 <= i < r@.len() ==> !(#[trigger] r@[i]).spectator && !r@[i].handicapped && r@[i].team is None
                && match r@[i].ai {
                Some(a) => a.kind@ == "native"@ && a.name is None,
                None => true,
            },
{
    let mut out: Vec<Seat> = Vec::new();
    let mut i: usize = 0;
    while i < teams.len()
        invariant
            i <= teams@.len(),
            out@.len() == i,
            forall|j: int| 0 <= j < i ==> seat_view(#[trigger] out@[j]) == team_seat(teams@[j]),
            forall|j: int|
                0 <= j < i ==> !(#[trigger] out@[j]).spectator && !out@[j].handicapped && out@[j].team is None
                    && match out@[j].ai {
                    Some(a) => a.kind@ == "native"@ && a.name is None,
                    None => true,
                },
        decreases teams.len() - i,
    {
        let t = &teams[i];
        let number = decimal_string(t.id as u128);
        let id = concat("team", number.as_str());
        let (kind, name, ai) = match &t.ai {
            None => (owned("you"), owned("You"), None),
            Some(a) => (
                owned("ai"),
                owned(a.as_str()),
                Some(PresetAi { short_name: owned(a.as_str()), kind: owned("native"), name: None }),
            ),
        };
        out.push(
            Seat {
                id,
                kind,
                name,
                ai,
                side: owned("__random__"),
                colour: owned(t.colour.as_str()),
                ally_team: t.ally,
                spectator: false,
                handicapped: false,
                team: None,
            },
        );
        i = i + 1;
    }
    out
}

// ------------------------------------------------------------------ laws ---

proof fn lemma_kept_seats(ps: Seq<Seat>, rescue: bool, n: int)
    requires
        0 <= n <= ps.len(),
    ensures
        forall|i: int|
            0 <= i < n && (!ps[i].spectator || (rescue && is_you(ps[i]))) ==> kept_seats(ps, rescue, n).contains(
                #[trigger] ps[i],
            ),
        forall|i: int| 0 <= i < n && !(#[trigger] ps[i]).spectator ==> kept_seats(ps, rescue, n).len() > 0,
    decreases n,
{
    if n > 0 {
        lemma_kept_seats(ps, rescue, n - 1);
        let prev = kept_seats(ps, rescue, n - 1);
        let cur = kept_seats(ps, rescue, n);
        assert forall|i: int|
            0 <= i < n && (!ps[i].spectator || (rescue && is_you(ps[i]))) implies cur.contains(
            #[trigger] ps[i],
        ) by {
            if i < n - 1 {
                let w = choose|w: int| 0 <= w < prev.len() && prev[w] == ps[i];
                if cur.len() > prev.len() {
                    assert(cur[w] == ps[i]);
                }
            } else {
                assert(cur[cur.len() - 1] == ps[i]);
            }
        }
    }
}

/// Whoever is "you" in a battle gets a team that is played by a person:
/// a human who only watched is kept and made to play rather than dropped,
/// because a scenario with nobody to be is refused.
pub proof fn law_a_human_always_gets_a_team(ps: Seq<Seat>)
    requires
        exists|i: int| 0 <= i < ps.len() && is_you(#[trigger] ps[i]),
    ensures
        exists|t: int| 0 <= t < spec_teams_of(ps).len() && (#[trigger] spec_teams_of(ps)[t]).2 is None,
{
    let rescue = spec_spectating_human(ps);
    let k = kept_seats(ps, rescue, ps.len() as int);
    lemma_kept_seats(ps, rescue, ps.len() as int);
    let h = choose|i: int| 0 <= i < ps.len() && is_you(#[trigger] ps[i]);
    let w = if !ps[h].spectator {
        h
    } else if rescue {
        h
    } else {
        choose|i: int| 0 <= i < ps.len() && !(#[trigger] ps[i]).spectator && is_you(ps[i])
    };
    assert(k.contains(ps[w]));
    let t = choose|t: int| 0 <= t < k.len() && k[t] == ps[w];
    assert(spec_teams_of(ps)[t].2 == seat_ai(k[t]));
}

/// Teams exported as participants read back as the same teams, where the
/// teams are numbered by position as the engine wants them: nobody exported
/// spectates, so every participant is kept, and ids, sides, AIs and colours
/// survive.
pub proof fn law_exported_teams_read_back(teams: Seq<Team>, seats: Seq<Seat>)
    requires
        seats.len() == teams.len(),
        forall|i: int| 0 <= i < teams.len() ==> (#[trigger] teams[i]).id == i,
        forall|i: int| 0 <= i < seats.len() ==> seat_view(#[trigger] seats[i]) == team_seat(teams[i]),
        forall|i: int| 0 <= i < seats.len() ==> !(#[trigger] seats[i]).spectator,
    ensures
        spec_teams_of(seats) == teams.map_values(|t: Team| team_view(t)),
{
    reveal_strlit("you");
    reveal_strlit("ai");
    assert("ai"@.len() != "you"@.len());
    let rescue = spec_spectating_human(seats);
    assert forall|n: int| 0 <= n <= seats.len() implies #[trigger] kept_seats(seats, rescue, n) =~= seats.take(n) by {
        lemma_kept_all(seats, rescue, n);
    }
    let k = kept_seats(seats, rescue, seats.len() as int);
    assert(k =~= seats.take(seats.len() as int));
    assert forall|i: int| 0 <= i < teams.len() implies #[trigger] spec_teams_of(seats)[i] == team_view(teams[i]) by {
        assert(k[i] == seats[i]);
        assert(seat_view(seats[i]) == team_seat(teams[i]));
        if teams[i].ai is None {
            assert(seats[i].kind@ == "you"@);
        } else {
            assert(seats[i].kind@ == "ai"@);
            assert(!is_you(seats[i]));
        }
    }
    assert(spec_teams_of(seats) =~= teams.map_values(|t: Team| team_view(t)));
}

proof fn lemma_kept_all(ps: Seq<Seat>, rescue: bool, n: int)
    requires
        0 <= n <= ps.len(),
        forall|i: int| 0 <= i < ps.len() ==> !(#[trigger] ps[i]).spectator,
    ensures
        kept_seats(ps, rescue, n) =~= ps.take(n),
    decreases n,
{
    if n > 0 {
        lemma_kept_all(ps, rescue, n - 1);
        assert(ps.take(n) =~= ps.take(n - 1).push(ps[n - 1]));
    }
}

proof fn lemma_said_len(c: bool, m: Seq<char>)
    ensures
        said_if(c, m).len() == if c {
            1int
        } else {
            0int
        },
{
}

/// A preset is taken whole - nothing said to be dropped - exactly when no
/// participant chose a faction, was handicapped or watched, it applies no
/// restriction Splaunch cannot keep, and it uses the start positions a
/// mission places.
pub proof fn law_a_preset_is_taken_whole_exactly_when(b: Battle)
    ensures
        spec_ignored(b).len() == 0 <==> ({
            let ps = b.participants@;
            &&& forall|i: int|
                0 <= i < ps.len() ==> (#[trigger] ps[i]).side@.len() == 0 || ps[i].side@ == "__random__"@
            &&& forall|i: int| 0 <= i < ps.len() ==> !(#[trigger] ps[i]).handicapped
            &&& forall|i: int| 0 <= i < ps.len() ==> !(#[trigger] ps[i]).spectator
            &&& match b.restrictions {
                Some(r) => !(r.disabled_units matches Some(u) && u@.len() > 0) && !(r.advantage || r.income_multiplier),
                None => true,
            }
            &&& b.start_pos_type == 2
        }),
{
    let ps = b.participants@;
    let rescue = spec_spectating_human(ps);
    let sides = chosen_sides(ps, ps.len() as int);
    let dropped = dropped_count(ps, rescue, ps.len() as int);
    let p1 = said_if(sides.len() > 0, "Factions are not kept: "@ + joined(sides, ", "@) + ". Zero-K picks its own."@);
    let p2 = said_if(any_handicap(ps), "Handicaps are not kept - Splaunch writes no Handicap field."@);
    let p3 = said_if(rescue, spectator_note());
    let p4 = said_if(dropped > 0, decimal(dropped) + " spectator(s) dropped - a scenario has none."@);
    let p5 = match b.restrictions {
        Some(r) => said_if(
            r.disabled_units matches Some(u) && u@.len() > 0,
            "Disabled units are not applied yet - Splaunch writes NumRestrictions=0."@,
        ) + said_if(r.advantage || r.income_multiplier, "Advantage and income multiplier are not applied yet."@),
        None => Seq::<Seq<char>>::empty(),
    };
    let p6 = said_if(
        b.start_pos_type != 2,
        "Start positions stay Splaunch's: a mission places its own, so startPosType "@ + signed_decimal(
            b.start_pos_type as int,
        ) + " is not used."@,
    );
    assert(spec_ignored(b) == p1 + p2 + p3 + p4 + p5 + p6);
    match b.restrictions {
        Some(r) => {
            lemma_said_len(r.disabled_units matches Some(u) && u@.len() > 0, "Disabled units are not applied yet - Splaunch writes NumRestrictions=0."@);
            lemma_said_len(r.advantage || r.income_multiplier, "Advantage and income multiplier are not applied yet."@);
        },
        None => {},
    }
    lemma_no_sides(ps, ps.len() as int);
    lemma_no_drops(ps, rescue, ps.len() as int);
    if forall|i: int| 0 <= i < ps.len() ==> !(#[trigger] ps[i]).spectator {
        assert(!rescue);
    }
}

proof fn lemma_no_sides(ps: Seq<Seat>, n: int)
    requires
        0 <= n <= ps.len(),
    ensures
        chosen_sides(ps, n).len() == 0 <==> forall|i: int|
            0 <= i < n ==> (#[trigger] ps[i]).side@.len() == 0 || ps[i].side@ == "__random__"@,
    decreases n,
{
    if n > 0 {
        lemma_no_sides(ps, n - 1);
    }
}

proof fn lemma_no_drops(ps: Seq<Seat>, rescue: bool, n: int)
    requires
        0 <= n <= ps.len(),
    ensures
        dropped_count(ps, rescue, n) == 0 <==> forall|i: int|
            0 <= i < n ==> !((#[trigger] ps[i]).spectator && !(rescue && is_you(ps[i]))),
    decreases n,
{
    if n > 0 {
        lemma_no_drops(ps, rescue, n - 1);
    }
}

/// Where nobody watches, every participant becomes a team, in order and
/// numbered from 0: on the participant's own allyteam and in its colour,
/// played by the human for the participant of kind `you`, by the named AI
/// for an AI that names one, and by `NullAI` for one that names none.
pub proof fn law_every_player_becomes_a_team(ps: Seq<Seat>)
    requires
        forall|i: int| 0 <= i < ps.len() ==> !(#[trigger] ps[i]).spectator,
    ensures
        spec_teams_of(ps).len() == ps.len(),
        forall|j: int|
            0 <= j < ps.len() ==> #[trigger] spec_teams_of(ps)[j] == (
                j as u32,
                ps[j].ally_team,
                if ps[j].kind@ == "you"@ {
                    None
                } else {
                    match ps[j].ai {
                        Some(a) => Some(a.short_name@),
                        None => Some("NullAI"@),
                    }
                },
                ps[j].colour@,
            ),
{
    let rescue = spec_spectating_human(ps);
    lemma_kept_all(ps, rescue, ps.len() as int);
    assert(ps.take(ps.len() as int) =~= ps);
}

} // verus!
