//! Filling a compiled mission in: the three markers a template carries are
//! replaced, each everywhere it stands, as `str::replace` does.
//!
//! What this module proves is what makes shipping compiled missions safe:
//! the markers stand in a template only where the map, the game and the
//! player go, so filling them in gives the script the scenario compiles to
//! on that machine. The proof walks the script the way the balance proof
//! does, section by section, and shows that no marker can stand anywhere
//! else - not in the writer's own words, not in the encoded payloads, and
//! not across the `=` and `;` that fence every value.
use vstd::prelude::*;
use crate::scenario::{delimiter, script_line, spec_escape, ScenarioFacts, Team};
use crate::script::{
    ai_count, ai_section, ai_sections, allies_above, ally_section, ally_sections, game_head, human_from, modoptions,
    num, option_lines, player_section, spec_script, team_section, team_sections,
};
use crate::text::{decimal, occurs_at, signed_decimal};

verus! {

// ---------------------------------------------------------------- text ---

/// The characters a marker is written with.
pub open spec fn hole_char(c: char) -> bool {
    ('A' <= c <= 'Z') || c == '_'
}

/// A marker: two underscores, then capitals and underscores.
pub open spec fn marker(h: Seq<char>) -> bool {
    &&& h.len() >= 2
    &&& h[0] == '_'
    &&& h[1] == '_'
    &&& forall|i: int| 0 <= i < h.len() ==> hole_char(#[trigger] h[i])
}

/// `h` stands nowhere in `t`.
pub open spec fn free(t: Seq<char>, h: Seq<char>) -> bool {
    forall|i: int| !#[trigger] occurs_at(t, h, i)
}

/// No two underscores stand side by side in `t`.
pub open spec fn no_dunder(t: Seq<char>) -> bool {
    forall|i: int| 0 <= i < t.len() - 1 ==> !(#[trigger] t[i] == '_' && t[i + 1] == '_')
}

/// Free of `h`, and neither opening nor closing with a character `h` could
/// continue: such a piece can stand beside any other without a marker
/// forming across the join.
pub open spec fn fenced(t: Seq<char>, h: Seq<char>) -> bool {
    &&& free(t, h)
    &&& t.len() > 0 ==> !hole_char(t[0]) && !hole_char(t.last())
}

/// Every `h` in `t` replaced by `v`, leftmost first and without overlaps,
/// as `str::replace` does for a non-empty `h`.
pub open spec fn replace_all(t: Seq<char>, h: Seq<char>, v: Seq<char>) -> Seq<char>
    decreases t.len(),
{
    if h.len() == 0 || t.len() < h.len() {
        t
    } else if t.take(h.len() as int) == h {
        v + replace_all(t.skip(h.len() as int), h, v)
    } else {
        seq![t[0]] + replace_all(t.skip(1), h, v)
    }
}

pub proof fn lemma_occurs(t: Seq<char>, h: Seq<char>, i: int)
    requires
        occurs_at(t, h, i),
    ensures
        forall|j: int| 0 <= j < h.len() ==> #[trigger] t[i + j] == h[j],
{
    assert forall|j: int| 0 <= j < h.len() implies #[trigger] t[i + j] == h[j] by {
        assert(t.subrange(i, i + h.len())[j] == t[i + j]);
    }
}

pub proof fn lemma_no_dunder_free(t: Seq<char>, h: Seq<char>)
    requires
        no_dunder(t),
        marker(h),
    ensures
        free(t, h),
{
    assert forall|i: int| !#[trigger] occurs_at(t, h, i) by {
        if occurs_at(t, h, i) {
            lemma_occurs(t, h, i);
            assert(t[i + 0] == '_' && t[i + 1] == '_');
        }
    }
}

pub proof fn lemma_free_cat(a: Seq<char>, b: Seq<char>, h: Seq<char>)
    requires
        free(a, h),
        free(b, h),
        marker(h),
        a.len() == 0 || b.len() == 0 || !hole_char(a.last()) || !hole_char(b[0]),
    ensures
        free(a + b, h),
{
    let t = a + b;
    assert forall|i: int| !#[trigger] occurs_at(t, h, i) by {
        if occurs_at(t, h, i) {
            lemma_occurs(t, h, i);
            if i + h.len() <= a.len() {
                assert(a.subrange(i, i + h.len()) =~= t.subrange(i, i + h.len()));
                assert(occurs_at(a, h, i));
            } else if i >= a.len() {
                assert(b.subrange(i - a.len(), i - a.len() + h.len()) =~= t.subrange(i, i + h.len()));
                assert(occurs_at(b, h, i - a.len()));
            } else {
                let k = a.len() - 1 - i;
                assert(t[i + k] == h[k]);
                assert(t[i + k + 1] == h[k + 1]);
                assert(t[i + k] == a.last());
                assert(t[i + k + 1] == b[0]);
            }
        }
    }
}

pub proof fn lemma_fenced_cat(a: Seq<char>, b: Seq<char>, h: Seq<char>)
    requires
        fenced(a, h),
        fenced(b, h),
        marker(h),
    ensures
        fenced(a + b, h),
{
    lemma_free_cat(a, b, h);
    if a.len() > 0 {
        assert((a + b)[0] == a[0]);
    }
    if b.len() > 0 {
        assert((a + b).last() == b.last());
    } else {
        assert(a + b =~= a);
    }
}

pub proof fn lemma_replace_free(t: Seq<char>, h: Seq<char>, v: Seq<char>)
    requires
        free(t, h),
        h.len() > 0,
    ensures
        replace_all(t, h, v) == t,
    decreases t.len(),
{
    if t.len() >= h.len() {
        assert(!occurs_at(t, h, 0));
        assert(t.subrange(0, h.len() as int) =~= t.take(h.len() as int));
        let rest = t.skip(1);
        assert forall|i: int| !#[trigger] occurs_at(rest, h, i) by {
            if occurs_at(rest, h, i) {
                assert(t.subrange(i + 1, i + 1 + h.len()) =~= rest.subrange(i, i + h.len()));
                assert(occurs_at(t, h, i + 1));
            }
        }
        lemma_replace_free(rest, h, v);
        assert(seq![t[0]] + rest =~= t);
    }
}

/// A text holding `h` once, right after a piece in which it cannot begin,
/// has that one replaced and is searched on from after it.
pub proof fn lemma_replace_at(a: Seq<char>, h: Seq<char>, b: Seq<char>, v: Seq<char>)
    requires
        marker(h),
        free(a, h),
        a.len() == 0 || !hole_char(a.last()),
    ensures
        replace_all(a + h + b, h, v) == a + v + replace_all(b, h, v),
    decreases a.len(),
{
    let t = a + h + b;
    if a.len() == 0 {
        assert(t.take(h.len() as int) =~= h);
        assert(t.skip(h.len() as int) =~= b);
        assert(a + v =~= v);
    } else {
        if t.take(h.len() as int) == h {
            if h.len() <= a.len() {
                assert(a.subrange(0, h.len() as int) =~= t.take(h.len() as int));
                assert(occurs_at(a, h, 0));
            } else {
                let k = a.len() - 1;
                assert(t.take(h.len() as int)[k] == h[k]);
                assert(t[k] == a.last());
            }
        }
        let a1 = a.skip(1);
        assert forall|i: int| !#[trigger] occurs_at(a1, h, i) by {
            if occurs_at(a1, h, i) {
                assert(a.subrange(i + 1, i + 1 + h.len()) =~= a1.subrange(i, i + h.len()));
                assert(occurs_at(a, h, i + 1));
            }
        }
        if a1.len() > 0 {
            assert(a1.last() == a.last());
        }
        lemma_replace_at(a1, h, b, v);
        assert(t.skip(1) =~= a1 + h + b);
        assert(seq![a[0]] + (a1 + v + replace_all(b, h, v)) =~= a + v + replace_all(b, h, v));
    }
}

/// A value with no delimiter in it is written as it is.
pub proof fn lemma_escape_plain(x: Seq<char>)
    requires
        forall|i: int| 0 <= i < x.len() ==> !delimiter(#[trigger] x[i]),
    ensures
        spec_escape(x) == x,
    decreases x.len(),
{
    if x.len() > 0 {
        lemma_escape_plain(x.drop_last());
        assert(!delimiter(x[x.len() - 1]));
        assert(x.drop_last().push(x.last()) =~= x);
    }
}

// --------------------------------------------------------------- words ---

proof fn lemma_words_a(h: Seq<char>)
    requires
        marker(h),
    ensures
        free("Mapname"@, h),
        free("GameType"@, h),
        free("MyPlayerName"@, h),
        free("IsHost"@, h),
        free("OnlyLocal"@, h),
        free("StartposType"@, h),
        free("GameStartDelay"@, h),
        free("NumRestrictions"@, h),
        free("noelo"@, h),
        free("Name"@, h),
        free("Team"@, h),
        free("AI "@, h),
{
    reveal_strlit("Mapname");
    reveal_strlit("GameType");
    reveal_strlit("MyPlayerName");
    reveal_strlit("IsHost");
    reveal_strlit("OnlyLocal");
    reveal_strlit("StartposType");
    reveal_strlit("GameStartDelay");
    reveal_strlit("NumRestrictions");
    reveal_strlit("noelo");
    reveal_strlit("Name");
    reveal_strlit("Team");
    reveal_strlit("AI ");
    lemma_no_dunder_free("Mapname"@, h);
    lemma_no_dunder_free("GameType"@, h);
    lemma_no_dunder_free("MyPlayerName"@, h);
    lemma_no_dunder_free("IsHost"@, h);
    lemma_no_dunder_free("OnlyLocal"@, h);
    lemma_no_dunder_free("StartposType"@, h);
    lemma_no_dunder_free("GameStartDelay"@, h);
    lemma_no_dunder_free("NumRestrictions"@, h);
    lemma_no_dunder_free("noelo"@, h);
    lemma_no_dunder_free("Name"@, h);
    lemma_no_dunder_free("Team"@, h);
    lemma_no_dunder_free("AI "@, h);
}

proof fn lemma_words_b(h: Seq<char>)
    requires
        marker(h),
    ensures
        free("ShortName"@, h),
        free("Host"@, h),
        free("TeamLeader"@, h),
        free("AllyTeam"@, h),
        free("RGBColor"@, h),
        free("start_x"@, h),
        free("start_z"@, h),
        free("NumAllies"@, h),
        free("StartRectTop"@, h),
        free("StartRectBottom"@, h),
        free("StartRectLeft"@, h),
        free("StartRectRight"@, h),
{
    reveal_strlit("ShortName");
    reveal_strlit("Host");
    reveal_strlit("TeamLeader");
    reveal_strlit("AllyTeam");
    reveal_strlit("RGBColor");
    reveal_strlit("start_x");
    reveal_strlit("start_z");
    reveal_strlit("NumAllies");
    reveal_strlit("StartRectTop");
    reveal_strlit("StartRectBottom");
    reveal_strlit("StartRectLeft");
    reveal_strlit("StartRectRight");
    lemma_no_dunder_free("ShortName"@, h);
    lemma_no_dunder_free("Host"@, h);
    lemma_no_dunder_free("TeamLeader"@, h);
    lemma_no_dunder_free("AllyTeam"@, h);
    lemma_no_dunder_free("RGBColor"@, h);
    lemma_no_dunder_free("start_x"@, h);
    lemma_no_dunder_free("start_z"@, h);
    lemma_no_dunder_free("NumAllies"@, h);
    lemma_no_dunder_free("StartRectTop"@, h);
    lemma_no_dunder_free("StartRectBottom"@, h);
    lemma_no_dunder_free("StartRectLeft"@, h);
    lemma_no_dunder_free("StartRectRight"@, h);
}

/// The pieces of the writer's own that stand between lines.
proof fn lemma_frames(h: Seq<char>)
    requires
        marker(h),
    ensures
        fenced("\t"@, h) && "\t"@.len() == 1,
        fenced("\t\t"@, h) && "\t\t"@.len() == 2,
        fenced("="@, h) && "="@ == seq!['='],
        fenced(";\n"@, h) && ";\n"@[0] == ';' && ";\n"@.len() == 2,
        fenced("0"@, h) && fenced("1"@, h) && fenced("2"@, h),
        fenced("[GAME]\n{\n"@, h),
        fenced("\t[MODOPTIONS]\n\t{\n"@, h),
        fenced("\t}\n"@, h),
        fenced("\t[PLAYER0]\n\t{\n"@, h),
        fenced("]\n\t{\n"@, h) && "]\n\t{\n"@[0] == ']',
        fenced("}\n"@, h),
        free("\t[AI"@, h) && "\t[AI"@.len() > 0 && "\t[AI"@[0] == '\t',
        free("\t[TEAM"@, h) && "\t[TEAM"@.len() > 0 && "\t[TEAM"@[0] == '\t',
        free("\t[ALLYTEAM"@, h) && "\t[ALLYTEAM"@.len() > 0 && "\t[ALLYTEAM"@[0] == '\t',
{
    reveal_strlit("\t");
    reveal_strlit("\t\t");
    reveal_strlit("=");
    reveal_strlit(";\n");
    reveal_strlit("0");
    reveal_strlit("1");
    reveal_strlit("2");
    reveal_strlit("[GAME]\n{\n");
    reveal_strlit("\t[MODOPTIONS]\n\t{\n");
    reveal_strlit("\t}\n");
    reveal_strlit("\t[PLAYER0]\n\t{\n");
    reveal_strlit("]\n\t{\n");
    reveal_strlit("}\n");
    reveal_strlit("\t[AI");
    reveal_strlit("\t[TEAM");
    reveal_strlit("\t[ALLYTEAM");
    lemma_no_dunder_free("\t"@, h);
    lemma_no_dunder_free("\t\t"@, h);
    lemma_no_dunder_free("="@, h);
    lemma_no_dunder_free(";\n"@, h);
    lemma_no_dunder_free("0"@, h);
    lemma_no_dunder_free("1"@, h);
    lemma_no_dunder_free("2"@, h);
    lemma_no_dunder_free("[GAME]\n{\n"@, h);
    lemma_no_dunder_free("\t[MODOPTIONS]\n\t{\n"@, h);
    lemma_no_dunder_free("\t}\n"@, h);
    lemma_no_dunder_free("\t[PLAYER0]\n\t{\n"@, h);
    lemma_no_dunder_free("]\n\t{\n"@, h);
    lemma_no_dunder_free("}\n"@, h);
    lemma_no_dunder_free("\t[AI"@, h);
    lemma_no_dunder_free("\t[TEAM"@, h);
    lemma_no_dunder_free("\t[ALLYTEAM"@, h);
}

/// Decimal digits, signed or not, are fenced.
pub proof fn lemma_digits(n: nat, h: Seq<char>)
    requires
        marker(h),
    ensures
        fenced(decimal(n), h),
        decimal(n).len() > 0,
    decreases n,
{
    let d = decimal(n);
    assert forall|i: int| 0 <= i < d.len() implies '0' <= #[trigger] d[i] <= '9' by {
        lemma_digit_chars(n);
    }
    assert(no_dunder(d)) by {
        assert forall|i: int| 0 <= i < d.len() - 1 implies !(#[trigger] d[i] == '_' && d[i + 1] == '_') by {
            assert('0' <= d[i] <= '9');
        }
    }
    lemma_no_dunder_free(d, h);
    lemma_digit_chars(n);
    assert('0' <= d[0] <= '9');
    assert('0' <= d[d.len() - 1] <= '9');
}

proof fn lemma_digit_chars(n: nat)
    ensures
        decimal(n).len() > 0,
        forall|i: int| 0 <= i < decimal(n).len() ==> '0' <= #[trigger] decimal(n)[i] <= '9',
    decreases n,
{
    if n >= 10 {
        lemma_digit_chars(n / 10);
        let d = (48 + n % 10) as char;
        assert(decimal(n) == decimal(n / 10).push(d));
        assert forall|i: int| 0 <= i < decimal(n).len() implies '0' <= #[trigger] decimal(n)[i] <= '9' by {
            if i < decimal(n / 10).len() {
                assert(decimal(n)[i] == decimal(n / 10)[i]);
            }
        }
    }
}

proof fn lemma_signed(n: int, h: Seq<char>)
    requires
        marker(h),
    ensures
        fenced(signed_decimal(n), h),
{
    if n < 0 {
        lemma_digits((-n) as nat, h);
        let m = seq!['-'];
        assert(no_dunder(m));
        lemma_no_dunder_free(m, h);
        lemma_fenced_cat(m, decimal((-n) as nat), h);
    } else {
        lemma_digits(n as nat, h);
    }
}

// --------------------------------------------------------------- lines ---

/// A line is fenced when its key and value are free of the marker: the
/// indent, `=` and `;` stand between them and everything else.
pub proof fn lemma_line(indent: Seq<char>, k: Seq<char>, v: Seq<char>, h: Seq<char>)
    requires
        marker(h),
        fenced(indent, h),
        indent.len() > 0,
        free(k, h),
        free(v, h),
    ensures
        fenced(script_line(indent, k, v), h),
{
    lemma_frames(h);
    let e = "="@;
    let t = ";\n"@;
    lemma_free_cat(indent, k, h);
    lemma_free_cat(indent + k, e, h);
    assert((indent + k + e).last() == '=');
    lemma_free_cat(indent + k + e, v, h);
    if v.len() > 0 {
        assert((indent + k + e + v).last() == v.last());
    }
    lemma_free_cat(indent + k + e + v, t, h);
    let l = script_line(indent, k, v);
    assert(l == indent + k + e + v + t);
    assert(l[0] == indent[0]);
    assert(l.last() == t.last());
}

proof fn lemma_option_lines(opts: Seq<(Seq<char>, Seq<char>)>, escaped: bool, n: int, h: Seq<char>)
    requires
        marker(h),
        0 <= n <= opts.len(),
        forall|i: int|
            0 <= i < opts.len() ==> if escaped {
                free(spec_escape((#[trigger] opts[i]).0), h) && free(spec_escape(opts[i].1), h)
            } else {
                free(opts[i].0, h) && free(opts[i].1, h)
            },
    ensures
        fenced(option_lines(opts, escaped, n), h),
    decreases n,
{
    lemma_frames(h);
    if n > 0 {
        lemma_option_lines(opts, escaped, n - 1, h);
        let o = opts[n - 1];
        if escaped {
            lemma_line("\t\t"@, spec_escape(o.0), spec_escape(o.1), h);
            lemma_fenced_cat(
                option_lines(opts, escaped, n - 1),
                script_line("\t\t"@, spec_escape(o.0), spec_escape(o.1)),
                h,
            );
        } else {
            lemma_line("\t\t"@, o.0, o.1, h);
            lemma_fenced_cat(option_lines(opts, escaped, n - 1), script_line("\t\t"@, o.0, o.1), h);
        }
    } else {
        assert(option_lines(opts, escaped, n).len() == 0);
    }
}

/// Battle options escaped and mission options as they are, each free of
/// the marker, make fenced modoptions.
pub proof fn lemma_modoptions(battle: Seq<(Seq<char>, Seq<char>)>, mission: Seq<(Seq<char>, Seq<char>)>, h: Seq<char>)
    requires
        marker(h),
        forall|i: int|
            0 <= i < battle.len() ==> free(spec_escape((#[trigger] battle[i]).0), h) && free(
                spec_escape(battle[i].1),
                h,
            ),
        forall|i: int| 0 <= i < mission.len() ==> free((#[trigger] mission[i]).0, h) && free(mission[i].1, h),
    ensures
        fenced(modoptions(battle, mission), h),
{
    lemma_frames(h);
    lemma_words_a(h);
    lemma_option_lines(battle, true, battle.len() as int, h);
    lemma_option_lines(mission, false, mission.len() as int, h);
    lemma_line("\t\t"@, "noelo"@, "1"@, h);
    let a = "\t[MODOPTIONS]\n\t{\n"@;
    let b = script_line("\t\t"@, "noelo"@, "1"@);
    let c = option_lines(battle, true, battle.len() as int);
    let d = option_lines(mission, false, mission.len() as int);
    lemma_fenced_cat(a, b, h);
    lemma_fenced_cat(a + b, c, h);
    lemma_fenced_cat(a + b + c, d, h);
    lemma_fenced_cat(a + b + c + d, "\t}\n"@, h);
}

/// `open + number + "]\n\t{\n" + body + "\t}\n"`, a numbered section.
proof fn lemma_section(open: Seq<char>, number: Seq<char>, body: Seq<char>, h: Seq<char>)
    requires
        marker(h),
        free(open, h),
        open.len() > 0 && !hole_char(open[0]),
        fenced(number, h),
        number.len() > 0,
        fenced(body, h),
    ensures
        fenced(open + number + "]\n\t{\n"@ + body + "\t}\n"@, h),
{
    lemma_frames(h);
    lemma_free_cat(open, number, h);
    assert((open + number).last() == number.last());
    assert((open + number)[0] == open[0]);
    lemma_fenced_cat(open + number, "]\n\t{\n"@, h);
    lemma_fenced_cat(open + number + "]\n\t{\n"@, body, h);
    lemma_fenced_cat(open + number + "]\n\t{\n"@ + body, "\t}\n"@, h);
}

pub proof fn lemma_ai_sections(teams: Seq<Team>, n: int, h: Seq<char>)
    requires
        marker(h),
        0 <= n <= teams.len(),
        forall|i: int| 0 <= i < teams.len() ==> ((#[trigger] teams[i]).ai matches Some(ai) ==> free(spec_escape(ai@), h)),
    ensures
        fenced(ai_sections(teams, n), h),
    decreases n,
{
    if n > 0 {
        lemma_ai_sections(teams, n - 1, h);
        let t = teams[n - 1];
        match t.ai {
            Some(ai) => {
                lemma_frames(h);
                lemma_words_a(h);
                lemma_words_b(h);
                lemma_digits(ai_count(teams, n - 1), h);
                lemma_digits(t.id as nat, h);
                lemma_free_cat("AI "@, num(t.id), h);
                let l1 = script_line("\t\t"@, "Name"@, "AI "@ + num(t.id));
                let l2 = script_line("\t\t"@, "ShortName"@, spec_escape(ai@));
                let l3 = script_line("\t\t"@, "Team"@, num(t.id));
                let l4 = script_line("\t\t"@, "Host"@, "0"@);
                lemma_line("\t\t"@, "Name"@, "AI "@ + num(t.id), h);
                lemma_line("\t\t"@, "ShortName"@, spec_escape(ai@), h);
                lemma_line("\t\t"@, "Team"@, num(t.id), h);
                lemma_line("\t\t"@, "Host"@, "0"@, h);
                lemma_fenced_cat(l1, l2, h);
                lemma_fenced_cat(l1 + l2, l3, h);
                lemma_fenced_cat(l1 + l2 + l3, l4, h);
                lemma_section("\t[AI"@, decimal(ai_count(teams, n - 1)), l1 + l2 + l3 + l4, h);
                assert(ai_section(t, ai@, ai_count(teams, n - 1)) =~= "\t[AI"@ + decimal(ai_count(teams, n - 1))
                    + "]\n\t{\n"@ + (l1 + l2 + l3 + l4) + "\t}\n"@);
                lemma_fenced_cat(ai_sections(teams, n - 1), ai_section(t, ai@, ai_count(teams, n - 1)), h);
            },
            None => {
                assert(ai_sections(teams, n) =~= ai_sections(teams, n - 1));
            },
        }
    }
}

proof fn lemma_team_section(t: Team, start: (i64, i64), units: Seq<(Seq<char>, Seq<char>)>, h: Seq<char>)
    requires
        marker(h),
        free(spec_escape(t.colour@), h),
        forall|i: int| 0 <= i < units.len() ==> free((#[trigger] units[i]).0, h) && free(units[i].1, h),
    ensures
        fenced(team_section(t, start, units), h),
{
    lemma_frames(h);
    lemma_words_b(h);
    lemma_digits(t.id as nat, h);
    lemma_digits(t.ally as nat, h);
    lemma_signed(start.0 as int, h);
    lemma_signed(start.1 as int, h);
    lemma_option_lines(units, false, units.len() as int, h);
    let l1 = script_line("\t\t"@, "TeamLeader"@, "0"@);
    let l2 = script_line("\t\t"@, "AllyTeam"@, num(t.ally));
    let l3 = script_line("\t\t"@, "RGBColor"@, spec_escape(t.colour@));
    let l4 = script_line("\t\t"@, "start_x"@, signed_decimal(start.0 as int));
    let l5 = script_line("\t\t"@, "start_z"@, signed_decimal(start.1 as int));
    let l6 = option_lines(units, false, units.len() as int);
    lemma_line("\t\t"@, "TeamLeader"@, "0"@, h);
    lemma_line("\t\t"@, "AllyTeam"@, num(t.ally), h);
    lemma_line("\t\t"@, "RGBColor"@, spec_escape(t.colour@), h);
    lemma_line("\t\t"@, "start_x"@, signed_decimal(start.0 as int), h);
    lemma_line("\t\t"@, "start_z"@, signed_decimal(start.1 as int), h);
    lemma_fenced_cat(l1, l2, h);
    lemma_fenced_cat(l1 + l2, l3, h);
    lemma_fenced_cat(l1 + l2 + l3, l4, h);
    lemma_fenced_cat(l1 + l2 + l3 + l4, l5, h);
    lemma_fenced_cat(l1 + l2 + l3 + l4 + l5, l6, h);
    lemma_section("\t[TEAM"@, num(t.id), l1 + l2 + l3 + l4 + l5 + l6, h);
    assert(team_section(t, start, units) =~= "\t[TEAM"@ + num(t.id) + "]\n\t{\n"@ + (l1 + l2 + l3 + l4 + l5 + l6)
        + "\t}\n"@);
}

pub proof fn lemma_team_sections(
    teams: Seq<Team>,
    starts: Seq<(i64, i64)>,
    units: Seq<Seq<(Seq<char>, Seq<char>)>>,
    n: int,
    h: Seq<char>,
)
    requires
        marker(h),
        0 <= n <= teams.len(),
        starts.len() == teams.len(),
        units.len() == teams.len(),
        forall|i: int| 0 <= i < teams.len() ==> free(spec_escape((#[trigger] teams[i]).colour@), h),
        forall|t: int, i: int|
            0 <= t < units.len() && 0 <= i < units[t].len() ==> free((#[trigger] units[t][i]).0, h) && free(
                units[t][i].1,
                h,
            ),
    ensures
        fenced(team_sections(teams, starts, units, n), h),
    decreases n,
{
    if n > 0 {
        lemma_team_sections(teams, starts, units, n - 1, h);
        let u = units[n - 1];
        assert forall|i: int| 0 <= i < u.len() implies free((#[trigger] u[i]).0, h) && free(u[i].1, h) by {
            assert(u[i] == units[n - 1][i]);
        }
        lemma_team_section(teams[n - 1], starts[n - 1], u, h);
        lemma_fenced_cat(team_sections(teams, starts, units, n - 1), team_section(teams[n - 1], starts[n - 1], u), h);
    }
}

pub proof fn lemma_ally_sections(allies: Seq<u32>, h: Seq<char>)
    requires
        marker(h),
    ensures
        fenced(ally_sections(allies), h),
    decreases allies.len(),
{
    if allies.len() > 0 {
        lemma_ally_sections(allies.drop_last(), h);
        let a = allies.last();
        lemma_frames(h);
        lemma_words_b(h);
        lemma_digits(a as nat, h);
        let l1 = script_line("\t\t"@, "NumAllies"@, "0"@);
        let l2 = script_line("\t\t"@, "StartRectTop"@, "0"@);
        let l3 = script_line("\t\t"@, "StartRectBottom"@, "0"@);
        let l4 = script_line("\t\t"@, "StartRectLeft"@, "1"@);
        let l5 = script_line("\t\t"@, "StartRectRight"@, "1"@);
        lemma_line("\t\t"@, "NumAllies"@, "0"@, h);
        lemma_line("\t\t"@, "StartRectTop"@, "0"@, h);
        lemma_line("\t\t"@, "StartRectBottom"@, "0"@, h);
        lemma_line("\t\t"@, "StartRectLeft"@, "1"@, h);
        lemma_line("\t\t"@, "StartRectRight"@, "1"@, h);
        lemma_fenced_cat(l1, l2, h);
        lemma_fenced_cat(l1 + l2, l3, h);
        lemma_fenced_cat(l1 + l2 + l3, l4, h);
        lemma_fenced_cat(l1 + l2 + l3 + l4, l5, h);
        lemma_section("\t[ALLYTEAM"@, num(a), l1 + l2 + l3 + l4 + l5, h);
        assert(ally_section(a) =~= "\t[ALLYTEAM"@ + num(a) + "]\n\t{\n"@ + (l1 + l2 + l3 + l4 + l5) + "\t}\n"@);
        lemma_fenced_cat(ally_sections(allies.drop_last()), ally_section(a), h);
    }
}

// -------------------------------------------------------------- pieces ---

/// The script up to the map's value.
pub open spec fn piece0() -> Seq<char> {
    "[GAME]\n{\n"@ + "\t"@ + "Mapname"@ + "="@
}

/// Between two values of the game section's head.
pub open spec fn between(k: Seq<char>) -> Seq<char> {
    ";\n"@ + "\t"@ + k + "="@
}

pub open spec fn head_rest() -> Seq<char> {
    script_line("\t"@, "IsHost"@, "1"@) + script_line("\t"@, "OnlyLocal"@, "1"@) + script_line(
        "\t"@,
        "StartposType"@,
        "2"@,
    ) + script_line("\t"@, "GameStartDelay"@, "0"@) + script_line("\t"@, "NumRestrictions"@, "0"@)
}

/// From the player's name in the head to the player's name in its section.
pub open spec fn piece3(battle: Seq<(Seq<char>, Seq<char>)>, mission: Seq<(Seq<char>, Seq<char>)>) -> Seq<char> {
    (";\n"@ + head_rest()) + modoptions(battle, mission) + name_opening()
}

pub open spec fn human_of(teams: Seq<Team>) -> u32 {
    match human_from(teams, 0) {
        Some(id) => id,
        None => 0,
    }
}

/// Everything after the player's name in its section.
pub open spec fn piece4(
    teams: Seq<Team>,
    starts: Seq<(i64, i64)>,
    units: Seq<Seq<(Seq<char>, Seq<char>)>>,
) -> Seq<char> {
    player_tail(teams) + ai_sections(teams, teams.len() as int) + team_sections(teams, starts, units, teams.len() as int)
        + ally_sections(allies_above(teams, -1)) + "}\n"@
}

proof fn lemma_head_pieces(s: ScenarioFacts, player: Seq<char>)
    ensures
        game_head(s, player) == piece0() + spec_escape(s.map@) + between("GameType"@) + spec_escape(s.game@)
            + between("MyPlayerName"@) + spec_escape(player) + (";\n"@ + head_rest()),
{
    assert(game_head(s, player) =~= piece0() + spec_escape(s.map@) + between("GameType"@) + spec_escape(s.game@)
        + between("MyPlayerName"@) + spec_escape(player) + (";\n"@ + head_rest()));
}

pub open spec fn name_opening() -> Seq<char> {
    "\t[PLAYER0]\n\t{\n"@ + "\t\t"@ + "Name"@ + "="@
}

pub open spec fn player_tail(teams: Seq<Team>) -> Seq<char> {
    ";\n"@ + script_line("\t\t"@, "Team"@, num(human_of(teams))) + "\t}\n"@
}

proof fn lemma_player_pieces(teams: Seq<Team>, player: Seq<char>)
    ensures
        player_section(teams, player) == name_opening() + spec_escape(player) + player_tail(teams),
{
    assert(player_section(teams, player) =~= name_opening() + spec_escape(player) + player_tail(teams));
}

proof fn lemma_regroup(
    x: Seq<char>,
    r: Seq<char>,
    m: Seq<char>,
    q: Seq<char>,
    ep: Seq<char>,
    w: Seq<char>,
    a: Seq<char>,
    t: Seq<char>,
    y: Seq<char>,
    e: Seq<char>,
)
    ensures
        (x + r) + m + (q + ep + w) + a + t + y + e == x + (r + m + q) + ep + (w + a + t + y + e),
{
    assert((x + r) + m + (q + ep + w) + a + t + y + e =~= x + (r + m + q) + ep + (w + a + t + y + e));
}

/// A script is its pieces with the map, the game and the player, twice,
/// between them.
pub proof fn lemma_script_pieces(
    s: ScenarioFacts,
    player: Seq<char>,
    battle: Seq<(Seq<char>, Seq<char>)>,
    mission: Seq<(Seq<char>, Seq<char>)>,
    starts: Seq<(i64, i64)>,
    units: Seq<Seq<(Seq<char>, Seq<char>)>>,
)
    ensures
        spec_script(s, player, battle, mission, starts, units) == piece0() + spec_escape(s.map@) + between(
            "GameType"@,
        ) + spec_escape(s.game@) + between("MyPlayerName"@) + spec_escape(player) + piece3(battle, mission)
            + spec_escape(player) + piece4(s.teams@, starts, units),
{
    let teams = s.teams@;
    lemma_head_pieces(s, player);
    lemma_player_pieces(teams, player);
    let x = piece0() + spec_escape(s.map@) + between("GameType"@) + spec_escape(s.game@) + between(
        "MyPlayerName"@,
    ) + spec_escape(player);
    let r = ";\n"@ + head_rest();
    let m = modoptions(battle, mission);
    let q = name_opening();
    let ep = spec_escape(player);
    let w = player_tail(teams);
    let a = ai_sections(teams, teams.len() as int);
    let t = team_sections(teams, starts, units, teams.len() as int);
    let y = ally_sections(allies_above(teams, -1));
    let e = "}\n"@;
    assert(game_head(s, player) == x + r);
    assert(player_section(teams, player) == q + ep + w);
    lemma_regroup(x, r, m, q, ep, w, a, t, y, e);
}

/// What a marker must not meet anywhere in the script's other pieces.
pub open spec fn clear_of(
    h: Seq<char>,
    battle: Seq<(Seq<char>, Seq<char>)>,
    mission: Seq<(Seq<char>, Seq<char>)>,
    teams: Seq<Team>,
    units: Seq<Seq<(Seq<char>, Seq<char>)>>,
) -> bool {
    &&& forall|i: int|
        0 <= i < battle.len() ==> free(spec_escape((#[trigger] battle[i]).0), h) && free(spec_escape(battle[i].1), h)
    &&& forall|i: int| 0 <= i < mission.len() ==> free((#[trigger] mission[i]).0, h) && free(mission[i].1, h)
    &&& forall|i: int|
        0 <= i < teams.len() ==> free(spec_escape((#[trigger] teams[i]).colour@), h) && (teams[i].ai matches Some(
            ai,
        ) ==> free(spec_escape(ai@), h))
    &&& forall|t: int, i: int|
        0 <= t < units.len() && 0 <= i < units[t].len() ==> free((#[trigger] units[t][i]).0, h) && free(
            units[t][i].1,
            h,
        )
}

proof fn lemma_head_free(h: Seq<char>)
    requires
        marker(h),
    ensures
        free(piece0(), h) && piece0().last() == '=',
        free(between("GameType"@), h) && between("GameType"@)[0] == ';' && between("GameType"@).last() == '=',
        free(between("MyPlayerName"@), h) && between("MyPlayerName"@)[0] == ';' && between("MyPlayerName"@).last()
            == '=',
        fenced(";\n"@ + head_rest(), h),
        between("GameType"@).len() > 0 && between("MyPlayerName"@).len() > 0 && piece0().len() > 0,
        free(name_opening(), h) && name_opening().last() == '=',
{
    lemma_frames(h);
    lemma_words_a(h);
    let eq = "="@;
    let tab = "\t"@;
    let g = "[GAME]\n{\n"@;
    lemma_free_cat(g, tab, h);
    lemma_free_cat(g + tab, "Mapname"@, h);
    lemma_free_cat(g + tab + "Mapname"@, eq, h);
    let semi = ";\n"@;
    lemma_free_cat(semi, tab, h);
    lemma_free_cat(semi + tab, "GameType"@, h);
    lemma_free_cat(semi + tab + "GameType"@, eq, h);
    lemma_free_cat(semi + tab, "MyPlayerName"@, h);
    lemma_free_cat(semi + tab + "MyPlayerName"@, eq, h);
    lemma_line(tab, "IsHost"@, "1"@, h);
    lemma_line(tab, "OnlyLocal"@, "1"@, h);
    lemma_line(tab, "StartposType"@, "2"@, h);
    lemma_line(tab, "GameStartDelay"@, "0"@, h);
    lemma_line(tab, "NumRestrictions"@, "0"@, h);
    let r1 = script_line(tab, "IsHost"@, "1"@);
    let r2 = script_line(tab, "OnlyLocal"@, "1"@);
    let r3 = script_line(tab, "StartposType"@, "2"@);
    let r4 = script_line(tab, "GameStartDelay"@, "0"@);
    let r5 = script_line(tab, "NumRestrictions"@, "0"@);
    lemma_fenced_cat(r1, r2, h);
    lemma_fenced_cat(r1 + r2, r3, h);
    lemma_fenced_cat(r1 + r2 + r3, r4, h);
    lemma_fenced_cat(r1 + r2 + r3 + r4, r5, h);
    lemma_fenced_cat(semi, head_rest(), h);
    let pl = "\t[PLAYER0]\n\t{\n"@;
    let tt = "\t\t"@;
    lemma_free_cat(pl, tt, h);
    lemma_free_cat(pl + tt, "Name"@, h);
    lemma_free_cat(pl + tt + "Name"@, eq, h);
}

proof fn lemma_piece3(h: Seq<char>, battle: Seq<(Seq<char>, Seq<char>)>, mission: Seq<(Seq<char>, Seq<char>)>)
    requires
        marker(h),
        forall|i: int|
            0 <= i < battle.len() ==> free(spec_escape((#[trigger] battle[i]).0), h) && free(
                spec_escape(battle[i].1),
                h,
            ),
        forall|i: int| 0 <= i < mission.len() ==> free((#[trigger] mission[i]).0, h) && free(mission[i].1, h),
    ensures
        free(piece3(battle, mission), h) && piece3(battle, mission)[0] == ';' && piece3(battle, mission).last()
            == '=',
        piece3(battle, mission).len() > 0,
{
    lemma_head_free(h);
    lemma_frames(h);
    lemma_modoptions(battle, mission, h);
    let r = ";\n"@ + head_rest();
    let m = modoptions(battle, mission);
    lemma_fenced_cat(r, m, h);
    lemma_free_cat(r + m, name_opening(), h);
    assert(r[0] == ';');
    assert((r + m)[0] == ';');
}

proof fn lemma_piece4(
    h: Seq<char>,
    teams: Seq<Team>,
    starts: Seq<(i64, i64)>,
    units: Seq<Seq<(Seq<char>, Seq<char>)>>,
)
    requires
        marker(h),
        starts.len() == teams.len(),
        units.len() == teams.len(),
        forall|i: int|
            0 <= i < teams.len() ==> free(spec_escape((#[trigger] teams[i]).colour@), h) && (teams[i].ai matches Some(
                ai,
            ) ==> free(spec_escape(ai@), h)),
        forall|t: int, i: int|
            0 <= t < units.len() && 0 <= i < units[t].len() ==> free((#[trigger] units[t][i]).0, h) && free(
                units[t][i].1,
                h,
            ),
    ensures
        free(piece4(teams, starts, units), h) && piece4(teams, starts, units)[0] == ';',
{
    lemma_frames(h);
    lemma_words_a(h);
    let semi = ";\n"@;
    let tt = "\t\t"@;
    lemma_digits(human_of(teams) as nat, h);
    lemma_line(tt, "Team"@, num(human_of(teams)), h);
    let tl = script_line(tt, "Team"@, num(human_of(teams)));
    lemma_fenced_cat(semi, tl, h);
    lemma_fenced_cat(semi + tl, "\t}\n"@, h);
    assert forall|i: int| 0 <= i < teams.len() implies ((#[trigger] teams[i]).ai matches Some(ai) ==> free(
        spec_escape(ai@),
        h,
    )) by {}
    lemma_ai_sections(teams, teams.len() as int, h);
    assert forall|i: int| 0 <= i < teams.len() implies free(spec_escape((#[trigger] teams[i]).colour@), h) by {}
    lemma_team_sections(teams, starts, units, teams.len() as int, h);
    lemma_ally_sections(allies_above(teams, -1), h);
    let w = player_tail(teams);
    let a = ai_sections(teams, teams.len() as int);
    let t = team_sections(teams, starts, units, teams.len() as int);
    let y = ally_sections(allies_above(teams, -1));
    lemma_fenced_cat(w, a, h);
    lemma_fenced_cat(w + a, t, h);
    lemma_fenced_cat(w + a + t, y, h);
    lemma_fenced_cat(w + a + t + y, "}\n"@, h);
    assert(w[0] == ';');
}

// ----------------------------------------------------------------- fill ---

/// `x` holds no delimiter.
pub open spec fn plain(x: Seq<char>) -> bool {
    forall|i: int| 0 <= i < x.len() ==> !delimiter(#[trigger] x[i])
}

/// A piece that begins after a value and ends before the next one.
pub open spec fn between_values(p: Seq<char>) -> bool {
    p.len() > 0 && p[0] == ';' && p.last() == '='
}

proof fn lemma_free3(a: Seq<char>, b: Seq<char>, c: Seq<char>, h: Seq<char>)
    requires
        marker(h),
        free(a, h),
        free(b, h),
        free(c, h),
        a.len() > 0 && !hole_char(a.last()),
        c.len() > 0 && !hole_char(c[0]),
    ensures
        free(a + b + c, h),
        (a + b + c)[0] == a[0],
        (a + b + c).last() == c.last(),
{
    lemma_free_cat(a, b, h);
    if b.len() > 0 {
        assert((a + b).last() == b.last());
    } else {
        assert(a + b =~= a);
    }
    lemma_free_cat(a + b, c, h);
    assert((a + b + c)[0] == a[0]);
}

/// The three replacements, over the pieces a script is made of.
proof fn lemma_fill_pieces(
    p0: Seq<char>,
    b1: Seq<char>,
    b2: Seq<char>,
    p3: Seq<char>,
    p4: Seq<char>,
    hm: Seq<char>,
    hg: Seq<char>,
    hp: Seq<char>,
    map: Seq<char>,
    game: Seq<char>,
    player: Seq<char>,
)
    requires
        marker(hm),
        marker(hg),
        marker(hp),
        free(hg, hm),
        free(hp, hm),
        free(hp, hg),
        free(p0, hm) && free(p0, hg) && free(p0, hp),
        free(b1, hm) && free(b1, hg) && free(b1, hp),
        free(b2, hm) && free(b2, hg) && free(b2, hp),
        free(p3, hm) && free(p3, hg) && free(p3, hp),
        free(p4, hm) && free(p4, hg) && free(p4, hp),
        p0.len() > 0 && p0.last() == '=',
        between_values(b1),
        between_values(b2),
        between_values(p3),
        p4.len() > 0 && p4[0] == ';',
        free(map, hg),
        free(map, hp),
        free(game, hp),
    ensures
        replace_all(
            replace_all(replace_all(p0 + hm + b1 + hg + b2 + hp + p3 + hp + p4, hm, map), hg, game),
            hp,
            player,
        ) == p0 + map + b1 + game + b2 + player + p3 + player + p4,
{
    // the map
    let rest1 = b1 + hg + b2 + hp + p3 + hp + p4;
    lemma_free3(b1, hg, b2, hm);
    lemma_free3(b1 + hg + b2, hp, p3, hm);
    lemma_free_cat(b1 + hg + b2 + hp + p3, hp, hm);
    lemma_free_cat(b1 + hg + b2 + hp + p3 + hp, p4, hm);
    assert((b1 + hg + b2 + hp + p3 + hp).last() == hp.last());
    assert(p0 + hm + b1 + hg + b2 + hp + p3 + hp + p4 =~= p0 + hm + rest1);
    lemma_replace_at(p0, hm, rest1, map);
    lemma_replace_free(rest1, hm, map);
    // the game
    let a2 = p0 + map + b1;
    let rest2 = b2 + hp + p3 + hp + p4;
    lemma_free3(p0, map, b1, hg);
    lemma_free3(b2, hp, p3, hg);
    lemma_free_cat(b2 + hp + p3, hp, hg);
    lemma_free_cat(b2 + hp + p3 + hp, p4, hg);
    assert((b2 + hp + p3 + hp).last() == hp.last());
    assert(p0 + map + rest1 =~= a2 + hg + rest2);
    lemma_replace_at(a2, hg, rest2, game);
    lemma_replace_free(rest2, hg, game);
    // the player, twice
    let a3 = a2 + game + b2;
    let rest3 = p3 + hp + p4;
    lemma_free3(p0, map, b1, hp);
    lemma_free3(a2, game, b2, hp);
    assert(a2 + game + rest2 =~= a3 + hp + rest3);
    lemma_replace_at(a3, hp, rest3, player);
    lemma_replace_at(p3, hp, p4, player);
    lemma_replace_free(p4, hp, player);
    assert(a3 + player + (p3 + player + p4) =~= p0 + map + b1 + game + b2 + player + p3 + player + p4);
}

proof fn lemma_marker_plain(h: Seq<char>)
    requires
        marker(h),
    ensures
        spec_escape(h) == h,
{
    assert forall|i: int| 0 <= i < h.len() implies !delimiter(#[trigger] h[i]) by {
        assert(hole_char(h[i]));
    }
    lemma_escape_plain(h);
}

/// Filling a script compiled for the markers gives the script compiled for
/// the values: with `tpl` carrying the markers where `s` carries the map and
/// the game, and the player's marker in place of the player, replacing the
/// map's marker by the map, then the game's by the game, then the player's
/// by the player, gives `s`'s script. The values hold no delimiter, so the
/// writer would not have changed them; the map holds neither of the later
/// markers and the game not the player's, so nothing put in is replaced
/// again; and no value of the script's other pieces holds a marker.
pub proof fn lemma_fill_script(
    tpl: ScenarioFacts,
    s: ScenarioFacts,
    hm: Seq<char>,
    hg: Seq<char>,
    hp: Seq<char>,
    player: Seq<char>,
    battle: Seq<(Seq<char>, Seq<char>)>,
    mission: Seq<(Seq<char>, Seq<char>)>,
    starts: Seq<(i64, i64)>,
    units: Seq<Seq<(Seq<char>, Seq<char>)>>,
)
    requires
        marker(hm),
        marker(hg),
        marker(hp),
        free(hg, hm),
        free(hp, hm),
        free(hp, hg),
        tpl.map@ == hm,
        tpl.game@ == hg,
        tpl.teams@ == s.teams@,
        starts.len() == s.teams@.len(),
        units.len() == s.teams@.len(),
        plain(s.map@),
        plain(s.game@),
        plain(player),
        free(s.map@, hg),
        free(s.map@, hp),
        free(s.game@, hp),
        clear_of(hm, battle, mission, s.teams@, units),
        clear_of(hg, battle, mission, s.teams@, units),
        clear_of(hp, battle, mission, s.teams@, units),
    ensures
        replace_all(
            replace_all(replace_all(spec_script(tpl, hp, battle, mission, starts, units), hm, s.map@), hg, s.game@),
            hp,
            player,
        ) == spec_script(s, player, battle, mission, starts, units),
{
    let teams = s.teams@;
    lemma_script_pieces(tpl, hp, battle, mission, starts, units);
    lemma_script_pieces(s, player, battle, mission, starts, units);
    lemma_marker_plain(hm);
    lemma_marker_plain(hg);
    lemma_marker_plain(hp);
    lemma_escape_plain(s.map@);
    lemma_escape_plain(s.game@);
    lemma_escape_plain(player);
    let p0 = piece0();
    let b1 = between("GameType"@);
    let b2 = between("MyPlayerName"@);
    let p3 = piece3(battle, mission);
    let p4 = piece4(teams, starts, units);
    lemma_head_free(hm);
    lemma_head_free(hg);
    lemma_head_free(hp);
    lemma_piece3(hm, battle, mission);
    lemma_piece3(hg, battle, mission);
    lemma_piece3(hp, battle, mission);
    lemma_piece4(hm, teams, starts, units);
    lemma_piece4(hg, teams, starts, units);
    lemma_piece4(hp, teams, starts, units);
    lemma_fill_pieces(p0, b1, b2, p3, p4, hm, hg, hp, s.map@, s.game@, player);
}

} // verus!
