//! Campaigns: the manifest naming a campaign's missions and the order they
//! are played in, the checks it has to pass before it is packed, and the
//! file names its missions get.
//!
//! A mission ships compiled, with the three things that differ between
//! machines - the map's archive name, the local Zero-K and the player -
//! written as markers that whoever runs it fills in.
use vstd::prelude::*;
use crate::game::strings_view;
use crate::fill::{free, hole_char, lemma_fill_script, lemma_no_dunder_free, lemma_occurs, marker, no_dunder, plain, replace_all};
use crate::mission::{
    law_the_mission_keys, agrees, gadget_safe, law_what_the_gadget_is_sent_survives, spec_mission_modoptions, spec_starts, spec_team_keys,
    spec_compiled, write_script, MissionFacts,
};
use crate::scenario::{spec_escape, ScenarioFacts, Team};
use crate::text::{
    ascii_alnum, chars_of, concat, decimal, decimal_string, find_char, find_char_from,
    is_ascii_alnum, lines_of, lower, lower_all, lower_char, lowercase, owned, pieces_view,
    same_text, starts_with, string_of, text_lines, text_starts_with, trim, trimmed,
};

verus! {

/// The map's archive name, which carries a version the author never typed.
pub const HOLE_MAP: &'static str = "__SHIRO_MAP__";

/// The local Zero-K, which differs between a Steam install and a rapid one.
pub const HOLE_GAME: &'static str = "__SHIRO_GAME__";

/// Whoever is playing.
pub const HOLE_PLAYER: &'static str = "__SHIRO_PLAYER__";

/// The extension a packed campaign carries.
pub const CAMPAIGN_EXT: &'static str = "shirocamp";

/// The manifest format this build writes.
pub const CAMPAIGN_FORMAT: u32 = 1;

/// One mission, as the campaign lists it.
#[derive(Debug, Clone, PartialEq)]
pub struct CampaignMission {
    /// Stable, and the name of the mission's files inside the campaign.
    pub id: String,
    pub name: String,
    /// Repeated outside the script, so a loader can say which maps are
    /// missing before anything is launched.
    pub map: String,
    /// Mission ids that must be finished first; empty means open from the
    /// start.
    pub requires: Vec<String>,
    pub summary: Option<String>,
}

/// A campaign, as its manifest.
#[derive(Debug, Clone, PartialEq)]
pub struct Campaign {
    pub format_version: u32,
    pub id: String,
    pub name: String,
    pub author: String,
    pub version: String,
    pub description: String,
    /// The Zero-K the missions were compiled against.
    pub built_against: Option<String>,
    pub missions: Vec<CampaignMission>,
}

// ---------------------------------------------------------------- slugs ---

/// The dashed form of `s` with `last_dash` saying whether what came before
/// ended in a dash: ASCII letters and digits kept in lower case, every run of
/// anything else one dash.
pub open spec fn slug_run(s: Seq<char>, last_dash: bool) -> Seq<char>
    decreases s.len(),
{
    if s.len() == 0 {
        Seq::empty()
    } else if ascii_alnum(s[0]) {
        seq![lower(s[0])] + slug_run(s.skip(1), false)
    } else if !last_dash {
        seq!['-'] + slug_run(s.skip(1), true)
    } else {
        slug_run(s.skip(1), true)
    }
}

/// How many dashes stand at the front of `s` from `from` on.
pub open spec fn dash_run(s: Seq<char>, from: int) -> int
    decreases s.len() - from,
{
    if from < 0 || from >= s.len() || s[from] != '-' {
        0
    } else {
        1 + dash_run(s, from + 1)
    }
}

/// Where the trailing dashes before `to` begin.
pub open spec fn dash_end(s: Seq<char>, to: int) -> int
    decreases to,
{
    if to <= 0 || to > s.len() || s[to - 1] != '-' {
        to
    } else {
        dash_end(s, to - 1)
    }
}

/// `str::trim_matches('-')`.
pub open spec fn trim_dashes(s: Seq<char>) -> Seq<char> {
    let st = s.skip(dash_run(s, 0));
    st.take(dash_end(st, st.len() as int))
}

/// A mission's file name, from the mission's name.
pub open spec fn spec_slug(name: Seq<char>) -> Seq<char> {
    let t = trim_dashes(slug_run(name, true));
    if t.len() == 0 {
        "mission"@
    } else {
        t
    }
}

proof fn lemma_dash_run(s: Seq<char>, from: int)
    requires
        0 <= from <= s.len(),
    ensures
        0 <= dash_run(s, from) <= s.len() - from,
        forall|k: int| from <= k < from + dash_run(s, from) ==> s[k] == '-',
        from + dash_run(s, from) < s.len() ==> s[from + dash_run(s, from)] != '-',
    decreases s.len() - from,
{
    if from < s.len() && s[from] == '-' {
        lemma_dash_run(s, from + 1);
    }
}

proof fn lemma_dash_end(s: Seq<char>, to: int)
    requires
        0 <= to <= s.len(),
    ensures
        0 <= dash_end(s, to) <= to,
        dash_end(s, to) > 0 ==> s[dash_end(s, to) - 1] != '-',
    decreases to,
{
    if to > 0 && s[to - 1] == '-' {
        lemma_dash_end(s, to - 1);
    }
}

proof fn lemma_slug_run_chars(s: Seq<char>, last_dash: bool)
    ensures
        forall|k: int| 0 <= k < slug_run(s, last_dash).len() ==> slug_char(#[trigger] slug_run(s, last_dash)[k]),
    decreases s.len(),
{
    if s.len() > 0 {
        let rest_dash = !ascii_alnum(s[0]);
        let rest = slug_run(s.skip(1), rest_dash);
        lemma_slug_run_chars(s.skip(1), rest_dash);
        let all = slug_run(s, last_dash);
        if ascii_alnum(s[0]) {
            assert(slug_char(lower(s[0])));
            assert forall|k: int| 0 <= k < all.len() implies slug_char(#[trigger] all[k]) by {
                if k > 0 {
                    assert(all[k] == rest[k - 1]);
                }
            }
        } else if !last_dash {
            assert forall|k: int| 0 <= k < all.len() implies slug_char(#[trigger] all[k]) by {
                if k > 0 {
                    assert(all[k] == rest[k - 1]);
                }
            }
        }
    }
}

/// No two dashes stand side by side in `s`.
pub open spec fn no_double_dash(s: Seq<char>) -> bool {
    forall|k: int| 0 <= k < s.len() - 1 ==> !(#[trigger] s[k] == '-' && s[k + 1] == '-')
}

proof fn lemma_run_shape(s: Seq<char>, last_dash: bool)
    ensures
        no_double_dash(slug_run(s, last_dash)),
        last_dash && slug_run(s, last_dash).len() > 0 ==> slug_run(s, last_dash)[0] != '-',
    decreases s.len(),
{
    if s.len() > 0 {
        let c = s[0];
        let all = slug_run(s, last_dash);
        if ascii_alnum(c) {
            let rest = slug_run(s.skip(1), false);
            lemma_run_shape(s.skip(1), false);
            assert(lower(c) != '-');
            assert(all == seq![lower(c)] + rest);
            assert forall|k: int| 0 <= k < all.len() - 1 implies !(#[trigger] all[k] == '-' && all[k + 1] == '-') by {
                if k > 0 {
                    assert(all[k] == rest[k - 1] && all[k + 1] == rest[k]);
                }
            }
        } else if !last_dash {
            let rest = slug_run(s.skip(1), true);
            lemma_run_shape(s.skip(1), true);
            assert(all == seq!['-'] + rest);
            assert forall|k: int| 0 <= k < all.len() - 1 implies !(#[trigger] all[k] == '-' && all[k + 1] == '-') by {
                if k > 0 {
                    assert(all[k] == rest[k - 1] && all[k + 1] == rest[k]);
                } else {
                    assert(all[1] == rest[0]);
                }
            }
        } else {
            lemma_run_shape(s.skip(1), true);
        }
    }
}

/// What a slug looks like: not empty, made of slug characters, with no
/// dash at either end and none beside another.
proof fn lemma_slug_shape(name: Seq<char>)
    ensures
        spec_slug(name).len() > 0,
        forall|k: int| 0 <= k < spec_slug(name).len() ==> slug_char(#[trigger] spec_slug(name)[k]),
        spec_slug(name)[0] != '-',
        spec_slug(name).last() != '-',
        no_double_dash(spec_slug(name)),
{
    let s = slug_run(name, true);
    lemma_run_shape(name, true);
    lemma_slug_run_chars(name, true);
    lemma_dash_run(s, 0);
    let d = dash_run(s, 0);
    let st = s.skip(d);
    lemma_dash_end(st, st.len() as int);
    let e = dash_end(st, st.len() as int);
    let t = trim_dashes(s);
    assert(t == st.take(e));
    assert forall|k: int| 0 <= k < t.len() implies t[k] == s[d + k] by {}
    if t.len() == 0 {
        reveal_strlit("mission");
        let m = "mission"@;
        assert(spec_slug(name) == m);
        assert forall|k: int| 0 <= k < m.len() - 1 implies !(#[trigger] m[k] == '-' && m[k + 1] == '-') by {}
        assert forall|k: int| 0 <= k < m.len() implies slug_char(#[trigger] m[k]) by {}
    } else {
        assert(spec_slug(name) == t);
        assert(t[0] == s[d]);
        assert(t.last() == st[e - 1]);
        assert forall|k: int| 0 <= k < t.len() - 1 implies !(#[trigger] t[k] == '-' && t[k + 1] == '-') by {
            assert(t[k] == s[d + k] && t[k + 1] == s[d + k + 1]);
        }
        assert forall|k: int| 0 <= k < t.len() implies slug_char(#[trigger] t[k]) by {
            assert(t[k] == s[d + k]);
        }
    }
}

/// A text that already looks like a slug comes through the dashing as it
/// went in.
proof fn lemma_run_fixed(t: Seq<char>, last_dash: bool)
    requires
        forall|k: int| 0 <= k < t.len() ==> slug_char(#[trigger] t[k]),
        no_double_dash(t),
        last_dash && t.len() > 0 ==> t[0] != '-',
    ensures
        slug_run(t, last_dash) == t,
    decreases t.len(),
{
    if t.len() > 0 {
        let c = t[0];
        let rest = t.skip(1);
        assert forall|k: int| 0 <= k < rest.len() implies slug_char(#[trigger] rest[k]) by {
            assert(rest[k] == t[k + 1]);
        }
        assert forall|k: int| 0 <= k < rest.len() - 1 implies !(#[trigger] rest[k] == '-' && rest[k + 1] == '-') by {
            assert(rest[k] == t[k + 1] && rest[k + 1] == t[k + 2]);
        }
        assert(slug_char(c));
        if ascii_alnum(c) {
            lemma_run_fixed(rest, false);
            assert(lower(c) == c);
        } else {
            assert(c == '-');
            if rest.len() > 0 {
                assert(rest[0] == t[1]);
                assert(!(t[0] == '-' && t[1] == '-'));
            }
            lemma_run_fixed(rest, true);
        }
        assert(t =~= seq![c] + rest);
    }
}

/// Slugs have no doubled dash: every run of anything that is not a letter
/// or a digit becomes one dash.
pub proof fn law_a_slug_has_no_doubled_dash(name: Seq<char>)
    ensures
        no_double_dash(spec_slug(name)),
{
    lemma_slug_shape(name);
}

/// Slugging a slug gives it back.
pub proof fn law_a_slug_is_its_own_slug(name: Seq<char>)
    ensures
        spec_slug(spec_slug(name)) == spec_slug(name),
{
    let t = spec_slug(name);
    lemma_slug_shape(name);
    lemma_run_fixed(t, true);
    lemma_dash_run(t, 0);
    assert(dash_run(t, 0) == 0);
    assert(t.skip(0) =~= t);
    assert(dash_end(t, t.len() as int) == t.len());
    assert(t.take(t.len() as int) =~= t);
    assert(trim_dashes(t) == t);
}

/// What a slug is made of: lower-case ASCII letters, digits and dashes.
pub open spec fn slug_char(c: char) -> bool {
    ('a' <= c <= 'z') || ('0' <= c <= '9') || c == '-'
}

/// A mission name as a file name that is safe on every platform: ASCII
/// letters and digits in lower case, a single dash for every run of
/// anything else, no dash at either end, and "mission" where nothing is left.
pub fn slug(name: &str) -> (r: String)
    ensures
        r@ == spec_slug(name@),
        r@.len() > 0,
        forall|k: int| 0 <= k < r@.len() ==> slug_char(#[trigger] r@[k]),
        r@[0] != '-',
        r@.last() != '-',
{
    let s = chars_of(name);
    let mut out: Vec<char> = Vec::new();
    let mut last_dash = true;
    let mut i: usize = 0;
    assert(s@.skip(0) =~= s@);
    while i < s.len()
        invariant
            s@ == name@,
            i <= s@.len(),
            out@ + slug_run(s@.skip(i as int), last_dash) == slug_run(s@, true),
        decreases s.len() - i,
    {
        let ghost before = out@;
        let ghost rest = s@.skip(i as int);
        assert(rest[0] == s@[i as int]);
        assert(rest.skip(1) =~= s@.skip(i + 1));
        let c = s[i];
        if is_ascii_alnum(c) {
            out.push(lower_char(c));
            last_dash = false;
            assert(out@ + slug_run(s@.skip(i + 1), false) =~= before + (seq![lower(c)] + slug_run(
                s@.skip(i + 1),
                false,
            )));
        } else if !last_dash {
            out.push('-');
            last_dash = true;
            assert(out@ + slug_run(s@.skip(i + 1), true) =~= before + (seq!['-'] + slug_run(
                s@.skip(i + 1),
                true,
            )));
        } else {
            assert(out@ + slug_run(s@.skip(i + 1), true) =~= before + slug_run(rest, true));
        }
        i = i + 1;
    }
    assert(s@.skip(s@.len() as int) =~= Seq::<char>::empty());
    assert(out@ =~= slug_run(name@, true));
    proof {
        lemma_slug_run_chars(name@, true);
        lemma_dash_run(out@, 0);
    }
    let mut start: usize = 0;
    while start < out.len() && out[start] == '-'
        invariant
            start <= out@.len(),
            dash_run(out@, 0) == start + dash_run(out@, start as int),
        decreases out.len() - start,
    {
        start = start + 1;
    }
    let ghost st = out@.skip(start as int);
    let mut end: usize = out.len();
    while end > start && out[end - 1] == '-'
        invariant
            start <= end <= out@.len(),
            st == out@.skip(start as int),
            dash_end(st, st.len() as int) == dash_end(st, end - start),
        decreases end,
    {
        assert(st[end - start - 1] == out@[end - 1]);
        end = end - 1;
    }
    proof {
        if end > start {
            assert(st[end - start - 1] == out@[end - 1]);
        }
        lemma_dash_end(st, st.len() as int);
    }
    if start == end {
        proof {
            reveal_strlit("mission");
        }
        assert(trim_dashes(out@).len() == 0);
        return owned("mission");
    }
    let mut kept: Vec<char> = Vec::new();
    let mut k = start;
    while k < end
        invariant
            start <= k <= end,
            end <= out@.len(),
            kept@ == out@.subrange(start as int, k as int),
        decreases end - k,
    {
        kept.push(out[k]);
        k = k + 1;
        assert(kept@ =~= out@.subrange(start as int, k as int));
    }
    assert(kept@ =~= trim_dashes(out@));
    assert(out@[start as int] != '-');
    assert(kept@[0] == out@[start as int]);
    assert(kept@.last() == out@[end - 1]);
    assert forall|j: int| 0 <= j < kept@.len() implies slug_char(#[trigger] kept@[j]) by {
        assert(kept@[j] == out@[start + j]);
    }
    string_of(kept.as_slice())
}

// ------------------------------------------------------------- problems ---

pub open spec fn mission_ids(ms: Seq<CampaignMission>) -> Seq<Seq<char>> {
    ms.map_values(|m: CampaignMission| m.id@)
}

pub open spec fn scenario_ids<S>(ss: Seq<(String, S)>) -> Seq<Seq<char>> {
    ss.map_values(|p: (String, S)| p.0@)
}

pub open spec fn shared_id_message(id: Seq<char>) -> Seq<char> {
    "Two missions share the id "@ + id + "."@
}

pub open spec fn no_scenario_message(id: Seq<char>) -> Seq<char> {
    "The mission "@ + id + " is listed but has no scenario."@
}

pub open spec fn unknown_need_message(name: Seq<char>, need: Seq<char>) -> Seq<char> {
    name + " needs "@ + need + ", which is not a mission in this campaign."@
}

pub open spec fn needs_itself_message(name: Seq<char>) -> Seq<char> {
    name + " requires itself."@
}

/// What the first `n` listed ids have wrong with them: an id listed before,
/// an id with no scenario.
pub open spec fn id_problems(ids: Seq<Seq<char>>, have: Seq<Seq<char>>, n: int) -> Seq<Seq<char>>
    decreases n,
{
    if n <= 0 || n > ids.len() {
        Seq::empty()
    } else {
        let id = ids[n - 1];
        id_problems(ids, have, n - 1) + (if ids.take(n - 1).contains(id) {
            seq![shared_id_message(id)]
        } else {
            Seq::empty()
        }) + (if have.contains(id) {
            Seq::empty()
        } else {
            seq![no_scenario_message(id)]
        })
    }
}

/// What the first `k` of a mission's requirements have wrong with them.
pub open spec fn need_problems(m: CampaignMission, ids: Seq<Seq<char>>, k: int) -> Seq<Seq<char>>
    decreases k,
{
    if k <= 0 || k > m.requires@.len() {
        Seq::empty()
    } else {
        let need = m.requires@[k - 1]@;
        need_problems(m, ids, k - 1) + (if ids.contains(need) {
            Seq::empty()
        } else {
            seq![unknown_need_message(m.name@, need)]
        }) + (if need == m.id@ {
            seq![needs_itself_message(m.name@)]
        } else {
            Seq::empty()
        })
    }
}

/// What the requirements of the first `n` missions have wrong with them.
pub open spec fn require_problems(ms: Seq<CampaignMission>, ids: Seq<Seq<char>>, n: int) -> Seq<
    Seq<char>,
>
    decreases n,
{
    if n <= 0 || n > ms.len() {
        Seq::empty()
    } else {
        require_problems(ms, ids, n - 1) + need_problems(ms[n - 1], ids, ms[n - 1].requires@.len() as int)
    }
}

/// Every mission waits on another, so none can be played first.
pub open spec fn all_locked(ms: Seq<CampaignMission>) -> bool {
    ms.len() > 0 && forall|i: int| 0 <= i < ms.len() ==> #[trigger] ms[i].requires@.len() > 0
}

/// What is wrong with a campaign, in the order it is reported, given the
/// ids that have a scenario.
pub open spec fn spec_problems(c: Campaign, have: Seq<Seq<char>>) -> Seq<Seq<char>> {
    let ms = c.missions@;
    let ids = mission_ids(ms);
    (if trim(c.name@).len() == 0 {
        seq!["The campaign has no name."@]
    } else {
        Seq::empty()
    }) + (if ms.len() == 0 {
        seq!["The campaign has no missions."@]
    } else {
        Seq::empty()
    }) + id_problems(ids, have, ids.len() as int) + require_problems(ms, ids, ms.len() as int) + (
    if all_locked(ms) {
        seq!["Every mission requires another, so none of them can be played first."@]
    } else {
        Seq::empty()
    })
}

/// Whether one of the first `upto` missions has the id `id`.
fn id_listed(ms: &[CampaignMission], upto: usize, id: &str) -> (r: bool)
    requires
        upto <= ms@.len(),
    ensures
        r == mission_ids(ms@).take(upto as int).contains(id@),
{
    let ghost ids = mission_ids(ms@).take(upto as int);
    let mut i: usize = 0;
    while i < upto
        invariant
            upto <= ms@.len(),
            ids == mission_ids(ms@).take(upto as int),
            i <= upto,
            forall|j: int| 0 <= j < i ==> ids[j] != id@,
        decreases upto - i,
    {
        assert(ids[i as int] == ms@[i as int].id@);
        if same_text(ms[i].id.as_str(), id) {
            assert(ids[i as int] == id@);
            return true;
        }
        i = i + 1;
    }
    false
}

/// Whether a scenario was handed in for `id`.
fn has_scenario<S>(missions: &[(String, S)], id: &str) -> (r: bool)
    ensures
        r == scenario_ids(missions@).contains(id@),
{
    let ghost ids = scenario_ids(missions@);
    let mut i: usize = 0;
    while i < missions.len()
        invariant
            ids == scenario_ids(missions@),
            i <= missions@.len(),
            forall|j: int| 0 <= j < i ==> ids[j] != id@,
        decreases missions.len() - i,
    {
        assert(ids[i as int] == missions@[i as int].0@);
        if same_text(missions[i].0.as_str(), id) {
            assert(ids[i as int] == id@);
            return true;
        }
        i = i + 1;
    }
    false
}

fn message3(a: &str, b: &str, c: &str) -> (r: String)
    ensures
        r@ == a@ + b@ + c@,
{
    let ab = concat(a, b);
    concat(ab.as_str(), c)
}

/// What is wrong with a campaign, before it is packed, in sentences a person
/// can act on: a missing name, no missions, an id listed twice or without a
/// scenario, a requirement naming nothing or the mission itself, and a
/// campaign where every mission waits on another.
pub fn problems<S>(campaign: &Campaign, missions: &[(String, S)]) -> (r: Vec<String>)
    ensures
        strings_view(r@) == spec_problems(*campaign, scenario_ids(missions@)),
{
    let ghost ms = campaign.missions@;
    let ghost ids = mission_ids(ms);
    let ghost have = scenario_ids(missions@);
    let mut out: Vec<String> = Vec::new();
    let name = chars_of(campaign.name.as_str());
    let t = trimmed(name.as_slice());
    if t.len() == 0 {
        out.push(owned("The campaign has no name."));
    }
    if campaign.missions.len() == 0 {
        out.push(owned("The campaign has no missions."));
    }
    let ghost head = strings_view(out@);
    assert(head == (if trim(campaign.name@).len() == 0 {
        seq!["The campaign has no name."@]
    } else {
        Seq::<Seq<char>>::empty()
    }) + (if ms.len() == 0 {
        seq!["The campaign has no missions."@]
    } else {
        Seq::<Seq<char>>::empty()
    }));
    let n = campaign.missions.len();
    let mut i: usize = 0;
    while i < n
        invariant
            ms == campaign.missions@,
            ids == mission_ids(ms),
            have == scenario_ids(missions@),
            n == ms.len(),
            i <= n,
            strings_view(out@) == head + id_problems(ids, have, i as int),
        decreases n - i,
    {
        let id = campaign.missions[i].id.as_str();
        assert(ids[i as int] == id@);
        let ghost before = strings_view(out@);
        if id_listed(campaign.missions.as_slice(), i, id) {
            out.push(message3("Two missions share the id ", id, "."));
        }
        if !has_scenario(missions, id) {
            out.push(message3("The mission ", id, " is listed but has no scenario."));
        }
        assert(strings_view(out@) =~= before + (if ids.take(i as int).contains(id@) {
            seq![shared_id_message(id@)]
        } else {
            Seq::empty()
        }) + (if have.contains(id@) {
            Seq::empty()
        } else {
            seq![no_scenario_message(id@)]
        }));
        i = i + 1;
    }
    let ghost mid = strings_view(out@);
    let mut j: usize = 0;
    while j < n
        invariant
            ms == campaign.missions@,
            ids == mission_ids(ms),
            n == ms.len(),
            j <= n,
            strings_view(out@) == mid + require_problems(ms, ids, j as int),
        decreases n - j,
    {
        let m = &campaign.missions[j];
        let ghost at_start = strings_view(out@);
        let mut k: usize = 0;
        while k < m.requires.len()
            invariant
                ms == campaign.missions@,
                ids == mission_ids(ms),
                n == ms.len(),
                j < n,
                *m == ms[j as int],
                k <= m.requires@.len(),
                strings_view(out@) == at_start + need_problems(*m, ids, k as int),
            decreases m.requires.len() - k,
        {
            let need = m.requires[k].as_str();
            let ghost before = strings_view(out@);
            if !id_listed(campaign.missions.as_slice(), n, need) {
                let named = message3(m.name.as_str(), " needs ", need);
                out.push(concat(named.as_str(), ", which is not a mission in this campaign."));
            }
            assert(mission_ids(ms).take(n as int) =~= ids);
            if same_text(need, m.id.as_str()) {
                out.push(concat(m.name.as_str(), " requires itself."));
            }
            assert(strings_view(out@) =~= before + (if ids.contains(need@) {
                Seq::empty()
            } else {
                seq![unknown_need_message(m.name@, need@)]
            }) + (if need@ == m.id@ {
                seq![needs_itself_message(m.name@)]
            } else {
                Seq::empty()
            }));
            k = k + 1;
        }
        j = j + 1;
    }
    let ghost tail = strings_view(out@);
    let mut locked = n > 0;
    let mut q: usize = 0;
    while q < n
        invariant
            ms == campaign.missions@,
            n == ms.len(),
            q <= n,
            locked == (n > 0 && forall|x: int| 0 <= x < q ==> #[trigger] ms[x].requires@.len() > 0),
        decreases n - q,
    {
        if campaign.missions[q].requires.len() == 0 {
            locked = false;
        }
        q = q + 1;
    }
    if locked {
        out.push(owned("Every mission requires another, so none of them can be played first."));
    }
    assert(strings_view(out@) =~= spec_problems(*campaign, have));
    out
}

// ------------------------------------------------------------- payloads ---

/// Where the trailing semicolons before `to` begin.
pub open spec fn semi_end(s: Seq<char>, to: int) -> int
    decreases to,
{
    if to <= 0 || to > s.len() || s[to - 1] != ';' {
        to
    } else {
        semi_end(s, to - 1)
    }
}

/// A script line's `key=value` pair: the line trimmed, its trailing
/// semicolons dropped, and cut at the first `=`; nothing where either side
/// is empty.
pub open spec fn line_pair(line: Seq<char>) -> Option<(Seq<char>, Seq<char>)> {
    let t = trim(line);
    let l = t.take(semi_end(t, t.len() as int));
    match find_char_from(l, '=', 0) {
        Some(e) => if e > 0 && e + 1 < l.len() {
            Some((l.take(e), l.skip(e + 1)))
        } else {
            None
        },
        None => None,
    }
}

/// The pairs of the first `n` lines.
pub open spec fn pairs_of(lines: Seq<Seq<char>>, n: int) -> Seq<(Seq<char>, Seq<char>)>
    decreases n,
{
    if n <= 0 || n > lines.len() {
        Seq::empty()
    } else {
        pairs_of(lines, n - 1) + match line_pair(lines[n - 1]) {
            Some(p) => seq![p],
            None => Seq::empty(),
        }
    }
}

/// Every `key=value` pair in a start script, in order.
pub open spec fn spec_payloads(script: Seq<char>) -> Seq<(Seq<char>, Seq<char>)> {
    let lines = text_lines(script);
    pairs_of(lines, lines.len() as int)
}

pub open spec fn pairs_view(v: Seq<(String, String)>) -> Seq<(Seq<char>, Seq<char>)> {
    v.map_values(|p: (String, String)| (p.0@, p.1@))
}

proof fn lemma_semi_end(s: Seq<char>, to: int)
    requires
        0 <= to <= s.len(),
    ensures
        0 <= semi_end(s, to) <= to,
    decreases to,
{
    if to > 0 && s[to - 1] == ';' {
        lemma_semi_end(s, to - 1);
    }
}

fn line_pair_of(line: &[char]) -> (r: Option<(String, String)>)
    ensures
        match line_pair(line@) {
            Some(p) => r matches Some(q) && q.0@ == p.0 && q.1@ == p.1,
            None => r is None,
        },
{
    let t = trimmed(line);
    let mut end = t.len();
    proof {
        lemma_semi_end(t@, t@.len() as int);
    }
    while end > 0 && t[end - 1] == ';'
        invariant
            end <= t@.len(),
            semi_end(t@, t@.len() as int) == semi_end(t@, end as int),
        decreases end,
    {
        end = end - 1;
    }
    let mut l: Vec<char> = Vec::new();
    let mut i: usize = 0;
    while i < end
        invariant
            end <= t@.len(),
            i <= end,
            l@ == t@.take(i as int),
        decreases end - i,
    {
        l.push(t[i]);
        i = i + 1;
        assert(l@ =~= t@.take(i as int));
    }
    assert(l@ =~= t@.take(semi_end(t@, t@.len() as int)));
    match find_char(l.as_slice(), '=', 0) {
        Some(e) => {
            if e > 0 && e + 1 < l.len() {
                let mut k: Vec<char> = Vec::new();
                let mut v: Vec<char> = Vec::new();
                let mut a: usize = 0;
                while a < e
                    invariant
                        e < l@.len(),
                        a <= e,
                        k@ == l@.take(a as int),
                    decreases e - a,
                {
                    k.push(l[a]);
                    a = a + 1;
                    assert(k@ =~= l@.take(a as int));
                }
                let mut b: usize = e + 1;
                while b < l.len()
                    invariant
                        e + 1 <= b <= l@.len(),
                        v@ == l@.subrange(e + 1, b as int),
                    decreases l.len() - b,
                {
                    v.push(l[b]);
                    b = b + 1;
                    assert(v@ =~= l@.subrange(e + 1, b as int));
                }
                assert(v@ =~= l@.skip(e + 1));
                Some((string_of(k.as_slice()), string_of(v.as_slice())))
            } else {
                None
            }
        },
        None => None,
    }
}

/// Every `key=value` pair in a start script, in order: each line trimmed,
/// its trailing semicolons dropped, and cut at its first `=`; a line with
/// nothing on one side of it is skipped.
pub fn payloads(script: &str) -> (r: Vec<(String, String)>)
    ensures
        pairs_view(r@) == spec_payloads(script@),
{
    let chars = chars_of(script);
    let lines = lines_of(chars.as_slice());
    let ghost lv = text_lines(script@);
    let mut out: Vec<(String, String)> = Vec::new();
    let mut i: usize = 0;
    while i < lines.len()
        invariant
            pieces_view(lines@) == lv,
            lv == text_lines(script@),
            i <= lines@.len(),
            pairs_view(out@) == pairs_of(lv, i as int),
        decreases lines.len() - i,
    {
        assert(lv[i as int] == lines@[i as int]@);
        let ghost before = pairs_view(out@);
        match line_pair_of(lines[i].as_slice()) {
            Some(p) => {
                out.push(p);
            },
            None => {},
        }
        assert(pairs_view(out@) =~= pairs_of(lv, i + 1));
        i = i + 1;
    }
    out
}

/// The keys that carry a base64 payload of the mission engine.
pub open spec fn encoded_key(k: Seq<char>) -> bool {
    k == "bonusobjectiveconfig"@ || k == "objectiveconfig"@ || k == "defeatconditionconfig"@ || k
        == "featurestospawn"@ || k == "planetmissioninformationtext"@ || k
        == "planetmissionmapmarkers"@ || k == "initalterraform"@ || starts_with(
        k,
        "extrastartunits_"@,
    ) || starts_with(k, "neutralstartunits_"@)
}

#[verifier::spinoff_prover]
proof fn lemma_plain_keys_not_encoded()
    ensures
        !encoded_key("singleplayercampaignbattleid"@),
        !encoded_key("fixedstartpos"@),
        !encoded_key("planetmissiondifficulty"@),
{
    reveal_strlit("singleplayercampaignbattleid");
    reveal_strlit("fixedstartpos");
    reveal_strlit("planetmissiondifficulty");
    reveal_strlit("bonusobjectiveconfig");
    reveal_strlit("objectiveconfig");
    reveal_strlit("defeatconditionconfig");
    reveal_strlit("featurestospawn");
    reveal_strlit("planetmissioninformationtext");
    reveal_strlit("planetmissionmapmarkers");
    reveal_strlit("initalterraform");
    reveal_strlit("extrastartunits_");
    reveal_strlit("neutralstartunits_");
    let k0 = "singleplayercampaignbattleid"@;
    let k1 = "fixedstartpos"@;
    let k2 = "planetmissiondifficulty"@;
    assert(k1.len() == 13 && "extrastartunits_"@.len() == 16 && "neutralstartunits_"@.len() == 18);
    assert("bonusobjectiveconfig"@.len() == 20 && "objectiveconfig"@.len() == 15 && "defeatconditionconfig"@.len() == 21);
    assert("featurestospawn"@.len() == 15 && "planetmissioninformationtext"@.len() == 28);
    assert("planetmissionmapmarkers"@.len() == 23 && "initalterraform"@.len() == 15);
    assert(k0.take(16)[0] == k0[0] && k0.take(18)[0] == k0[0]);
    assert(k2.take(16)[0] == k2[0] && k2.take(18)[0] == k2[0]);
    assert(k2[13] != "planetmissionmapmarkers"@[13]);
    assert(k2[6] != "planetmissioninformationtext"@[6] || k2.len() != "planetmissioninformationtext"@.len());
}

#[verifier::spinoff_prover]
proof fn lemma_payload_keys_differ()
    ensures
        ({
            let plain = seq!["singleplayercampaignbattleid"@, "fixedstartpos"@, "planetmissiondifficulty"@];
            let named = seq![
                "bonusobjectiveconfig"@,
                "planetmissionmapmarkers"@,
                "featurestospawn"@,
                "planetmissioninformationtext"@,
                "defeatconditionconfig"@,
            ];
            forall|a: int, b: int| 0 <= a < 3 && 0 <= b < 5 ==> #[trigger] plain[a] != #[trigger] named[b]
        }),
{
    reveal_strlit("singleplayercampaignbattleid");
    reveal_strlit("fixedstartpos");
    reveal_strlit("planetmissiondifficulty");
    reveal_strlit("bonusobjectiveconfig");
    reveal_strlit("featurestospawn");
    reveal_strlit("planetmissioninformationtext");
    reveal_strlit("planetmissionmapmarkers");
    reveal_strlit("defeatconditionconfig");
    let plain = seq!["singleplayercampaignbattleid"@, "fixedstartpos"@, "planetmissiondifficulty"@];
    let named = seq![
        "bonusobjectiveconfig"@,
        "planetmissionmapmarkers"@,
        "featurestospawn"@,
        "planetmissioninformationtext"@,
        "defeatconditionconfig"@,
    ];
    assert forall|a: int, b: int| 0 <= a < 3 && 0 <= b < 5 implies #[trigger] plain[a] != #[trigger] named[b] by {
        if plain[a].len() == named[b].len() {
            if plain[a][0] == named[b][0] {
                assert(plain[a][13] != named[b][13]);
            }
        }
    }
}

/// Every key the mission modoptions carry a payload under is one the
/// payload check reads, and the three plain settings - the battle id, the
/// fixed start positions and the difficulty - are not: nothing the mission
/// encodes escapes the check for the game's decoder.
pub proof fn law_every_mission_payload_is_checked(s: ScenarioFacts, m: MissionFacts)
    ensures
        forall|i: int|
            0 <= i < spec_mission_modoptions(s, m).len() ==> {
                let k = (#[trigger] spec_mission_modoptions(s, m)[i]).0;
                encoded_key(k) <==> (k != "singleplayercampaignbattleid"@ && k != "fixedstartpos"@ && k
                    != "planetmissiondifficulty"@)
            },
{
    law_the_mission_keys(s, m);
    lemma_plain_keys_not_encoded();
    lemma_payload_keys_differ();
    let plain = seq!["singleplayercampaignbattleid"@, "fixedstartpos"@, "planetmissiondifficulty"@];
    let named = seq![
        "bonusobjectiveconfig"@,
        "planetmissionmapmarkers"@,
        "featurestospawn"@,
        "planetmissioninformationtext"@,
        "defeatconditionconfig"@,
    ];
    assert(plain[0] == "singleplayercampaignbattleid"@ && plain[1] == "fixedstartpos"@ && plain[2]
        == "planetmissiondifficulty"@);
    assert(named[0] == "bonusobjectiveconfig"@ && named[1] == "planetmissionmapmarkers"@ && named[2]
        == "featurestospawn"@ && named[3] == "planetmissioninformationtext"@ && named[4] == "defeatconditionconfig"@);
    lemma_neutral_not_plain();
}

#[verifier::spinoff_prover]
proof fn lemma_neutral_not_plain()
    ensures
        forall|k: Seq<char>|
            #[trigger] starts_with(k, "neutralstartunits_"@) ==> k != "singleplayercampaignbattleid"@ && k
                != "fixedstartpos"@ && k != "planetmissiondifficulty"@,
{
    reveal_strlit("neutralstartunits_");
    reveal_strlit("singleplayercampaignbattleid");
    reveal_strlit("fixedstartpos");
    reveal_strlit("planetmissiondifficulty");
    assert forall|k: Seq<char>| #[trigger] starts_with(k, "neutralstartunits_"@) implies k
        != "singleplayercampaignbattleid"@ && k != "fixedstartpos"@ && k != "planetmissiondifficulty"@ by {
        assert(k.take(18)[0] == k[0]);
    }
}

/// Whether a start-script key carries one of the mission payloads, by the
/// key's name: trimmed and in any case.
pub fn is_encoded(key: &str) -> (r: bool)
    ensures
        r == encoded_key(lower_all(trim(key@))),
{
    let t = trimmed(chars_of(key).as_slice());
    let k = lowercase(t.as_slice());
    let ks = string_of(k.as_slice());
    let s = ks.as_str();
    same_text(s, "bonusobjectiveconfig") || same_text(s, "objectiveconfig") || same_text(
        s,
        "defeatconditionconfig",
    ) || same_text(s, "featurestospawn") || same_text(s, "planetmissioninformationtext")
        || same_text(s, "planetmissionmapmarkers") || same_text(s, "initalterraform")
        || text_starts_with(k.as_slice(), "extrastartunits_") || text_starts_with(
        k.as_slice(),
        "neutralstartunits_",
    )
}

/// How many bytes `char::len_utf8` says `c` takes.
pub open spec fn utf8_width(c: char) -> nat {
    let u = c as u32;
    if u < 0x80 {
        1
    } else if u < 0x800 {
        2
    } else if u < 0x10000 {
        3
    } else {
        4
    }
}

/// How many bytes the UTF-8 form of `s` takes.
pub open spec fn utf8_len(s: Seq<char>) -> nat
    decreases s.len(),
{
    if s.len() == 0 {
        0
    } else {
        utf8_len(s.drop_last()) + utf8_width(s.last())
    }
}

/// Why the payload of `key` would not survive the game's decoder, given
/// the byte at which its first `_` stands.
pub open spec fn underscore_message(key: Seq<char>, at: nat) -> Seq<char> {
    "the "@ + key + " payload carries a '_' at byte "@ + decimal(at)
        + ", which Zero-K's decoder reads as end-of-data - this mission would start with nothing on the map"@
}

/// The first payload, from the `i`th pair on, that carries a `_`.
pub open spec fn first_broken(pairs: Seq<(Seq<char>, Seq<char>)>, i: int) -> Option<Seq<char>>
    decreases pairs.len() - i,
{
    if i < 0 || i >= pairs.len() {
        None
    } else {
        let (k, v) = pairs[i];
        if encoded_key(lower_all(trim(k))) && find_char_from(v, '_', 0) is Some {
            Some(underscore_message(k, utf8_len(v.take(find_char_from(v, '_', 0)->0))))
        } else {
            first_broken(pairs, i + 1)
        }
    }
}

fn utf8_bytes(s: &[char], n: usize) -> (r: u128)
    requires
        n <= s@.len(),
    ensures
        r == utf8_len(s@.take(n as int)),
{
    let mut total: u128 = 0;
    let mut i: usize = 0;
    while i < n
        invariant
            n <= s@.len(),
            i <= n,
            total == utf8_len(s@.take(i as int)),
            total <= 4 * i,
        decreases n - i,
    {
        assert(s@.take(i + 1).drop_last() =~= s@.take(i as int));
        let u = s[i] as u32;
        let w: u128 = if u < 0x80 {
            1
        } else if u < 0x800 {
            2
        } else if u < 0x10000 {
            3
        } else {
            4
        };
        total = total + w;
        i = i + 1;
    }
    total
}

/// Whether every payload in a compiled script will survive the game's
/// decoder: the game reads `_` as the end of the data, so a payload carrying
/// one is refused here, with the key and the byte it sits at, rather than
/// shipped as a mission that starts with nothing on the map.
pub fn verify_payloads(script: &str) -> (r: Result<(), String>)
    ensures
        match first_broken(spec_payloads(script@), 0) {
            Some(m) => r matches Err(e) && e@ == m,
            None => r is Ok,
        },
{
    let pairs = payloads(script);
    let ghost pv = spec_payloads(script@);
    let mut i: usize = 0;
    while i < pairs.len()
        invariant
            pairs_view(pairs@) == pv,
            pv == spec_payloads(script@),
            i <= pairs@.len(),
            first_broken(pv, 0) == first_broken(pv, i as int),
        decreases pairs.len() - i,
    {
        let key = pairs[i].0.as_str();
        let value = chars_of(pairs[i].1.as_str());
        assert(pv[i as int] == (key@, value@));
        if is_encoded(key) {
            proof {
                crate::lua::lemma_find_char(value@, '_', 0);
            }
            match find_char(value.as_slice(), '_', 0) {
                Some(at) => {
                    let bytes = utf8_bytes(value.as_slice(), at);
                    let head = message3("the ", key, " payload carries a '_' at byte ");
                    let num = decimal_string(bytes);
                    let m = message3(
                        head.as_str(),
                        num.as_str(),
                        ", which Zero-K's decoder reads as end-of-data - this mission would start with nothing on the map",
                    );
                    assert(m@ =~= underscore_message(key@, utf8_len(value@.take(at as int))));
                    return Err(m);
                },
                None => {},
            }
        }
        i = i + 1;
    }
    Ok(())
}

// ------------------------------------------------------ what is said ---

/// The sentences about one mission or one requirement: they open "Two" or
/// "The mission", or close on "campaign." or "itself.".
spec fn about_a_mission(e: Seq<char>) -> bool {
    ||| e.len() > 4 && (e[1] == 'w' || e[4] == 'm')
    ||| e.len() >= 2 && (e[e.len() - 2] == 'n' || e[e.len() - 2] == 'f')
}

proof fn lemma_mission_sentences(id: Seq<char>, name: Seq<char>, need: Seq<char>)
    ensures
        about_a_mission(shared_id_message(id)),
        about_a_mission(no_scenario_message(id)),
        about_a_mission(unknown_need_message(name, need)),
        about_a_mission(needs_itself_message(name)),
{
    reveal_strlit("Two missions share the id ");
    reveal_strlit(".");
    reveal_strlit("The mission ");
    reveal_strlit(" is listed but has no scenario.");
    reveal_strlit(" needs ");
    reveal_strlit(", which is not a mission in this campaign.");
    reveal_strlit(" requires itself.");
    let a = shared_id_message(id);
    assert(a[1] == "Two missions share the id "@[1]);
    let b = no_scenario_message(id);
    assert(b[4] == "The mission "@[4]);
    let tail = ", which is not a mission in this campaign."@;
    let c = unknown_need_message(name, need);
    assert(c[c.len() - 2] == tail[tail.len() - 2]);
    let t2 = " requires itself."@;
    let d = needs_itself_message(name);
    assert(d[d.len() - 2] == t2[t2.len() - 2]);
}

proof fn lemma_all_about(a: Seq<Seq<char>>, b: Seq<Seq<char>>)
    requires
        forall|i: int| 0 <= i < a.len() ==> about_a_mission(#[trigger] a[i]),
        forall|i: int| 0 <= i < b.len() ==> about_a_mission(#[trigger] b[i]),
    ensures
        forall|i: int| 0 <= i < (a + b).len() ==> about_a_mission(#[trigger] (a + b)[i]),
{
    assert forall|i: int| 0 <= i < (a + b).len() implies about_a_mission(#[trigger] (a + b)[i]) by {
        if i < a.len() {
            assert((a + b)[i] == a[i]);
        } else {
            assert((a + b)[i] == b[i - a.len()]);
        }
    }
}

proof fn lemma_id_sentences(ids: Seq<Seq<char>>, have: Seq<Seq<char>>, n: int)
    ensures
        forall|i: int| 0 <= i < id_problems(ids, have, n).len() ==> about_a_mission(#[trigger] id_problems(ids, have, n)[i]),
    decreases n,
{
    if n > 0 && n <= ids.len() {
        let id = ids[n - 1];
        lemma_id_sentences(ids, have, n - 1);
        lemma_mission_sentences(id, Seq::empty(), Seq::empty());
        let x = if ids.take(n - 1).contains(id) {
            seq![shared_id_message(id)]
        } else {
            Seq::<Seq<char>>::empty()
        };
        let y = if have.contains(id) {
            Seq::<Seq<char>>::empty()
        } else {
            seq![no_scenario_message(id)]
        };
        assert forall|i: int| 0 <= i < x.len() implies about_a_mission(#[trigger] x[i]) by {}
        assert forall|i: int| 0 <= i < y.len() implies about_a_mission(#[trigger] y[i]) by {}
        lemma_all_about(id_problems(ids, have, n - 1), x);
        lemma_all_about(id_problems(ids, have, n - 1) + x, y);
    }
}

proof fn lemma_need_sentences(m: CampaignMission, ids: Seq<Seq<char>>, k: int)
    ensures
        forall|i: int| 0 <= i < need_problems(m, ids, k).len() ==> about_a_mission(#[trigger] need_problems(m, ids, k)[i]),
    decreases k,
{
    if k > 0 && k <= m.requires@.len() {
        let need = m.requires@[k - 1]@;
        lemma_need_sentences(m, ids, k - 1);
        lemma_mission_sentences(Seq::empty(), m.name@, need);
        let x = if ids.contains(need) {
            Seq::<Seq<char>>::empty()
        } else {
            seq![unknown_need_message(m.name@, need)]
        };
        let y = if need == m.id@ {
            seq![needs_itself_message(m.name@)]
        } else {
            Seq::<Seq<char>>::empty()
        };
        assert forall|i: int| 0 <= i < x.len() implies about_a_mission(#[trigger] x[i]) by {}
        assert forall|i: int| 0 <= i < y.len() implies about_a_mission(#[trigger] y[i]) by {}
        lemma_all_about(need_problems(m, ids, k - 1), x);
        lemma_all_about(need_problems(m, ids, k - 1) + x, y);
    }
}

proof fn lemma_require_sentences(ms: Seq<CampaignMission>, ids: Seq<Seq<char>>, n: int)
    ensures
        forall|i: int|
            0 <= i < require_problems(ms, ids, n).len() ==> about_a_mission(#[trigger] require_problems(ms, ids, n)[i]),
    decreases n,
{
    if n > 0 && n <= ms.len() {
        lemma_require_sentences(ms, ids, n - 1);
        lemma_need_sentences(ms[n - 1], ids, ms[n - 1].requires@.len() as int);
        lemma_all_about(require_problems(ms, ids, n - 1), need_problems(ms[n - 1], ids, ms[n - 1].requires@.len() as int));
    }
}

proof fn lemma_contains_join(a: Seq<Seq<char>>, b: Seq<Seq<char>>, x: Seq<char>)
    ensures
        (a + b).contains(x) <==> a.contains(x) || b.contains(x),
{
    if a.contains(x) {
        let i = choose|i: int| 0 <= i < a.len() && a[i] == x;
        assert((a + b)[i] == x);
    }
    if b.contains(x) {
        let i = choose|i: int| 0 <= i < b.len() && b[i] == x;
        assert((a + b)[a.len() + i] == x);
    }
    if (a + b).contains(x) {
        let i = choose|i: int| 0 <= i < (a + b).len() && (a + b)[i] == x;
        if i < a.len() {
            assert(a[i] == x);
        } else {
            assert(b[i - a.len()] == x);
        }
    }
}

/// The campaign-wide sentences are said exactly when they hold: the
/// campaign has no name, it has no missions, and every mission waits on
/// another.
pub proof fn law_the_campaign_checks_speak_exactly_when_they_fail(c: Campaign, have: Seq<Seq<char>>)
    ensures
        spec_problems(c, have).contains("The campaign has no name."@) <==> trim(c.name@).len() == 0,
        spec_problems(c, have).contains("The campaign has no missions."@) <==> c.missions@.len() == 0,
        spec_problems(c, have).contains("Every mission requires another, so none of them can be played first."@)
            <==> all_locked(c.missions@),
{
    let ms = c.missions@;
    let ids = mission_ids(ms);
    let t1 = "The campaign has no name."@;
    let t2 = "The campaign has no missions."@;
    let t3 = "Every mission requires another, so none of them can be played first."@;
    reveal_strlit("The campaign has no name.");
    reveal_strlit("The campaign has no missions.");
    reveal_strlit("Every mission requires another, so none of them can be played first.");
    let p1 = if trim(c.name@).len() == 0 {
        seq![t1]
    } else {
        Seq::<Seq<char>>::empty()
    };
    let p2 = if ms.len() == 0 {
        seq![t2]
    } else {
        Seq::<Seq<char>>::empty()
    };
    let ip = id_problems(ids, have, ids.len() as int);
    let rp = require_problems(ms, ids, ms.len() as int);
    let p5 = if all_locked(ms) {
        seq![t3]
    } else {
        Seq::<Seq<char>>::empty()
    };
    assert(spec_problems(c, have) == p1 + p2 + ip + rp + p5);
    lemma_id_sentences(ids, have, ids.len() as int);
    lemma_require_sentences(ms, ids, ms.len() as int);
    assert(!about_a_mission(t1) && !about_a_mission(t2) && !about_a_mission(t3));
    assert(t1 != t2 && t1 != t3 && t2 != t3);
    let ts = seq![t1, t2, t3];
    assert forall|j: int| 0 <= j < 3 implies (spec_problems(c, have).contains(#[trigger] ts[j]) <==> p1.contains(
        ts[j],
    ) || p2.contains(ts[j]) || p5.contains(ts[j])) by {
        let x = ts[j];
        lemma_contains_join(p1, p2, x);
        lemma_contains_join(p1 + p2, ip, x);
        lemma_contains_join(p1 + p2 + ip, rp, x);
        lemma_contains_join(p1 + p2 + ip + rp, p5, x);
        if ip.contains(x) {
            let i = choose|i: int| 0 <= i < ip.len() && ip[i] == x;
            assert(about_a_mission(ip[i]));
        }
        if rp.contains(x) {
            let i = choose|i: int| 0 <= i < rp.len() && rp[i] == x;
            assert(about_a_mission(rp[i]));
        }
    }
    assert(ts[0] == t1 && ts[1] == t2 && ts[2] == t3);
    if trim(c.name@).len() == 0 {
        assert(p1[0] == t1);
    }
    if ms.len() == 0 {
        assert(p2[0] == t2);
    }
    if all_locked(ms) {
        assert(p5[0] == t3);
    }
}

/// A sentence about a mission's requirements: they end in `campaign.` or
/// `itself.`.
spec fn about_a_need(e: Seq<char>) -> bool {
    e.len() >= 2 && (e[e.len() - 2] == 'n' || e[e.len() - 2] == 'f')
}

proof fn lemma_all_needs(a: Seq<Seq<char>>, b: Seq<Seq<char>>)
    requires
        forall|i: int| 0 <= i < a.len() ==> about_a_need(#[trigger] a[i]),
        forall|i: int| 0 <= i < b.len() ==> about_a_need(#[trigger] b[i]),
    ensures
        forall|i: int| 0 <= i < (a + b).len() ==> about_a_need(#[trigger] (a + b)[i]),
{
    assert forall|i: int| 0 <= i < (a + b).len() implies about_a_need(#[trigger] (a + b)[i]) by {
        if i < a.len() {
            assert((a + b)[i] == a[i]);
        } else {
            assert((a + b)[i] == b[i - a.len()]);
        }
    }
}

proof fn lemma_need_ends(m: CampaignMission, ids: Seq<Seq<char>>, k: int)
    ensures
        forall|i: int| 0 <= i < need_problems(m, ids, k).len() ==> about_a_need(#[trigger] need_problems(m, ids, k)[i]),
    decreases k,
{
    if k > 0 && k <= m.requires@.len() {
        let need = m.requires@[k - 1]@;
        lemma_need_ends(m, ids, k - 1);
        reveal_strlit(", which is not a mission in this campaign.");
        reveal_strlit(" requires itself.");
        let tail = ", which is not a mission in this campaign."@;
        let c = unknown_need_message(m.name@, need);
        assert(c[c.len() - 2] == tail[tail.len() - 2]);
        let t2 = " requires itself."@;
        let d = needs_itself_message(m.name@);
        assert(d[d.len() - 2] == t2[t2.len() - 2]);
        let x = if ids.contains(need) {
            Seq::<Seq<char>>::empty()
        } else {
            seq![c]
        };
        let y = if need == m.id@ {
            seq![d]
        } else {
            Seq::<Seq<char>>::empty()
        };
        assert forall|i: int| 0 <= i < x.len() implies about_a_need(#[trigger] x[i]) by {}
        assert forall|i: int| 0 <= i < y.len() implies about_a_need(#[trigger] y[i]) by {}
        lemma_all_needs(need_problems(m, ids, k - 1), x);
        lemma_all_needs(need_problems(m, ids, k - 1) + x, y);
    }
}

proof fn lemma_require_ends(ms: Seq<CampaignMission>, ids: Seq<Seq<char>>, n: int)
    ensures
        forall|i: int|
            0 <= i < require_problems(ms, ids, n).len() ==> about_a_need(#[trigger] require_problems(ms, ids, n)[i]),
    decreases n,
{
    if n > 0 && n <= ms.len() {
        lemma_require_ends(ms, ids, n - 1);
        lemma_need_ends(ms[n - 1], ids, ms[n - 1].requires@.len() as int);
        lemma_all_needs(require_problems(ms, ids, n - 1), need_problems(ms[n - 1], ids, ms[n - 1].requires@.len() as int));
    }
}

/// The missing-scenario sentence is told apart from every other, and names
/// its mission.
proof fn lemma_no_scenario_apart(id: Seq<char>, x: Seq<char>)
    ensures
        no_scenario_message(id) != shared_id_message(x),
        !about_a_need(no_scenario_message(id)),
        no_scenario_message(id) == no_scenario_message(x) ==> id == x,
        no_scenario_message(id) != "The campaign has no name."@,
        no_scenario_message(id) != "The campaign has no missions."@,
        no_scenario_message(id) != "Every mission requires another, so none of them can be played first."@,
{
    reveal_strlit("Two missions share the id ");
    reveal_strlit("The mission ");
    reveal_strlit(" is listed but has no scenario.");
    reveal_strlit("The campaign has no name.");
    reveal_strlit("The campaign has no missions.");
    reveal_strlit("Every mission requires another, so none of them can be played first.");
    let a = no_scenario_message(id);
    let tail = " is listed but has no scenario."@;
    assert(a[1] == "The mission "@[1]);
    assert(shared_id_message(x)[1] == "Two missions share the id "@[1]);
    assert(a[a.len() - 2] == tail[tail.len() - 2]);
    assert(a[4] == "The mission "@[4]);
    assert(a[0] == "The mission "@[0]);
    assert("The campaign has no name."@[4] != a[4]);
    assert("The campaign has no missions."@[4] != a[4]);
    assert("Every mission requires another, so none of them can be played first."@[0] != a[0]);
    if a == no_scenario_message(x) {
        assert(a.subrange(12, 12 + id.len() as int) =~= id);
        assert(no_scenario_message(x).subrange(12, 12 + x.len() as int) =~= x);
    }
}

proof fn lemma_no_scenario_said(ids: Seq<Seq<char>>, have: Seq<Seq<char>>, n: int, id: Seq<char>)
    requires
        0 <= n <= ids.len(),
    ensures
        id_problems(ids, have, n).contains(no_scenario_message(id)) <==> ids.take(n).contains(id) && !have.contains(
            id,
        ),
    decreases n,
{
    let msg = no_scenario_message(id);
    if n == 0 {
        assert(ids.take(0).len() == 0);
    } else {
        lemma_no_scenario_said(ids, have, n - 1, id);
        let last = ids[n - 1];
        let x = if ids.take(n - 1).contains(last) {
            seq![shared_id_message(last)]
        } else {
            Seq::<Seq<char>>::empty()
        };
        let y = if have.contains(last) {
            Seq::<Seq<char>>::empty()
        } else {
            seq![no_scenario_message(last)]
        };
        assert(id_problems(ids, have, n) == id_problems(ids, have, n - 1) + x + y);
        lemma_contains_join(id_problems(ids, have, n - 1), x, msg);
        lemma_contains_join(id_problems(ids, have, n - 1) + x, y, msg);
        lemma_no_scenario_apart(id, last);
        if x.contains(msg) {
            assert(x[0] == msg);
        }
        if y.contains(msg) {
            assert(y[0] == msg);
        }
        if !have.contains(last) {
            assert(y[0] == no_scenario_message(last));
        }
        let now = ids.take(n);
        let before = ids.take(n - 1);
        assert(now =~= before.push(last));
        if now.contains(id) {
            let i = choose|i: int| 0 <= i < now.len() && now[i] == id;
            if i < n - 1 {
                assert(before[i] == id);
            }
        }
        if before.contains(id) {
            let i = choose|i: int| 0 <= i < before.len() && before[i] == id;
            assert(now[i] == id);
        }
        if id == last {
            assert(now[n - 1] == id);
        }
    }
}

/// A listed mission with no scenario is said to have none exactly when it
/// has none: the sentence naming an id stands among the problems if and
/// only if some mission has that id and no scenario does.
pub proof fn law_a_mission_without_a_scenario_is_named(c: Campaign, have: Seq<Seq<char>>, id: Seq<char>)
    ensures
        spec_problems(c, have).contains(no_scenario_message(id)) <==> mission_ids(c.missions@).contains(id)
            && !have.contains(id),
{
    let ms = c.missions@;
    let ids = mission_ids(ms);
    let msg = no_scenario_message(id);
    let t1 = "The campaign has no name."@;
    let t2 = "The campaign has no missions."@;
    let t3 = "Every mission requires another, so none of them can be played first."@;
    let p1 = if trim(c.name@).len() == 0 {
        seq![t1]
    } else {
        Seq::<Seq<char>>::empty()
    };
    let p2 = if ms.len() == 0 {
        seq![t2]
    } else {
        Seq::<Seq<char>>::empty()
    };
    let ip = id_problems(ids, have, ids.len() as int);
    let rp = require_problems(ms, ids, ms.len() as int);
    let p5 = if all_locked(ms) {
        seq![t3]
    } else {
        Seq::<Seq<char>>::empty()
    };
    assert(spec_problems(c, have) == p1 + p2 + ip + rp + p5);
    lemma_no_scenario_apart(id, id);
    lemma_no_scenario_said(ids, have, ids.len() as int, id);
    assert(ids.take(ids.len() as int) =~= ids);
    lemma_require_ends(ms, ids, ms.len() as int);
    lemma_contains_join(p1, p2, msg);
    lemma_contains_join(p1 + p2, ip, msg);
    lemma_contains_join(p1 + p2 + ip, rp, msg);
    lemma_contains_join(p1 + p2 + ip + rp, p5, msg);
    if p1.contains(msg) {
        assert(p1[0] == msg);
    }
    if p2.contains(msg) {
        assert(p2[0] == msg);
    }
    if p5.contains(msg) {
        assert(p5[0] == msg);
    }
    if rp.contains(msg) {
        let i = choose|i: int| 0 <= i < rp.len() && rp[i] == msg;
        assert(about_a_need(rp[i]));
    }
}

// ------------------------------------------------------------- template ---

/// What the template of a sound scenario holds, or why there is none: the
/// script compiled for the markers, unless a payload in it would not
/// survive the game's decoder.
pub open spec fn template_result(
    s: ScenarioFacts,
    m: MissionFacts,
    battle: Seq<(Seq<char>, Seq<char>)>,
    fallback: Seq<(i64, i64)>,
) -> Result<Seq<char>, Seq<char>> {
    let text = spec_compiled(s, m, HOLE_PLAYER@, battle, fallback);
    if crate::scenario::spec_problems(s).len() > 0 {
        Err(crate::scenario::spec_problems(s)[0])
    } else {
        match first_broken(spec_payloads(text), 0) {
            Some(e) => Err(e),
            None => Ok(text),
        }
    }
}

/// A mission compiled for a machine we do not have. The scenario's map and
/// game are replaced by the markers before compiling rather than after, so
/// the substitution goes through the same escaping as any other value; the
/// player is the third marker. `s` is left holding the markers.
pub fn mission_template(
    s: &mut ScenarioFacts,
    m: &MissionFacts,
    battle: &[(String, String)],
    fallback: &[(i64, i64)],
) -> (r: Result<String, String>)
    requires
        agrees(old(s).units@, m.units@),
        fallback@.len() == old(s).teams@.len(),
    ensures
        final(s).map@ == HOLE_MAP@,
        final(s).game@ == HOLE_GAME@,
        final(s).teams == old(s).teams,
        final(s).units == old(s).units,
        final(s).outside == old(s).outside,
        final(s).map_elmos == old(s).map_elmos,
        final(s).depth_elmos == old(s).depth_elmos,
        final(s).goals == old(s).goals,
        match template_result(*final(s), *m, crate::script::pairs_of(battle@), fallback@) {
            Ok(t) => r matches Ok(x) && x@ == t,
            Err(e) => r matches Err(x) && x@ == e,
        },
{
    s.map = owned(HOLE_MAP);
    s.game = owned(HOLE_GAME);
    let script = write_script(s, m, HOLE_PLAYER, battle, fallback);
    match script {
        Ok(text) => {
            match verify_payloads(text.as_str()) {
                Ok(()) => Ok(text),
                Err(e) => Err(e),
            }
        },
        Err(e) => Err(e),
    }
}

/// A template filled in for a machine: the map's marker replaced by the
/// map, then the game's by the game, then the player's by the player, each
/// everywhere it stands, as a loader does with `str::replace`.
pub open spec fn spec_fill(template: Seq<char>, map: Seq<char>, game: Seq<char>, player: Seq<char>) -> Seq<char> {
    replace_all(replace_all(replace_all(template, HOLE_MAP@, map), HOLE_GAME@, game), HOLE_PLAYER@, player)
}

/// No marker stands in what the scenario's own strings become in a script:
/// the battle's options, the AIs' names and the teams' colours, escaped.
pub open spec fn no_marker_in(battle: Seq<(Seq<char>, Seq<char>)>, teams: Seq<Team>) -> bool {
    forall|h: Seq<char>|
        #![trigger marker(h)]
        h == HOLE_MAP@ || h == HOLE_GAME@ || h == HOLE_PLAYER@ ==> {
            &&& forall|i: int|
                0 <= i < battle.len() ==> free(spec_escape((#[trigger] battle[i]).0), h) && free(
                    spec_escape(battle[i].1),
                    h,
                )
            &&& forall|i: int|
                0 <= i < teams.len() ==> free(spec_escape((#[trigger] teams[i]).colour@), h) && (
                teams[i].ai matches Some(ai) ==> free(spec_escape(ai@), h))
        }
}

proof fn lemma_markers()
    ensures
        marker(HOLE_MAP@),
        marker(HOLE_GAME@),
        marker(HOLE_PLAYER@),
        free(HOLE_GAME@, HOLE_MAP@),
        free(HOLE_PLAYER@, HOLE_MAP@),
        free(HOLE_PLAYER@, HOLE_GAME@),
{
    reveal_strlit("__SHIRO_MAP__");
    reveal_strlit("__SHIRO_GAME__");
    reveal_strlit("__SHIRO_PLAYER__");
    let hm = HOLE_MAP@;
    let hg = HOLE_GAME@;
    let hp = HOLE_PLAYER@;
    assert(hm == "__SHIRO_MAP__"@);
    assert(hg == "__SHIRO_GAME__"@);
    assert(hp == "__SHIRO_PLAYER__"@);
    assert forall|i: int| !#[trigger] crate::text::occurs_at(hg, hm, i) by {
        if crate::text::occurs_at(hg, hm, i) {
            lemma_occurs(hg, hm, i);
            assert(hg[i + 8] == hm[8]);
        }
    }
    assert forall|i: int| !#[trigger] crate::text::occurs_at(hp, hm, i) by {
        if crate::text::occurs_at(hp, hm, i) {
            lemma_occurs(hp, hm, i);
            assert(hp[i + 8] == hm[8]);
        }
    }
    assert forall|i: int| !#[trigger] crate::text::occurs_at(hp, hg, i) by {
        if crate::text::occurs_at(hp, hg, i) {
            lemma_occurs(hp, hg, i);
            assert(hp[i + 8] == hg[8]);
        }
    }
}

proof fn lemma_library_values_clear(s: ScenarioFacts, m: MissionFacts, h: Seq<char>)
    requires
        marker(h),
    ensures
        forall|i: int|
            0 <= i < spec_mission_modoptions(s, m).len() ==> free((#[trigger] spec_mission_modoptions(s, m)[i]).0, h)
                && free(spec_mission_modoptions(s, m)[i].1, h),
        forall|t: int, i: int|
            0 <= t < spec_team_keys(s, m).len() && 0 <= i < spec_team_keys(s, m)[t].len() ==> free(
                (#[trigger] spec_team_keys(s, m)[t][i]).0,
                h,
            ) && free(spec_team_keys(s, m)[t][i].1, h),
{
    law_what_the_gadget_is_sent_survives(s, m);
    let p = spec_mission_modoptions(s, m);
    assert forall|i: int| 0 <= i < p.len() implies free((#[trigger] p[i]).0, h) && free(p[i].1, h) by {
        lemma_no_dunder_free(p[i].0, h);
        assert(no_dunder(p[i].1));
        lemma_no_dunder_free(p[i].1, h);
    }
    let k = spec_team_keys(s, m);
    assert forall|t: int, i: int| 0 <= t < k.len() && 0 <= i < k[t].len() implies free((#[trigger] k[t][i]).0, h)
        && free(k[t][i].1, h) by {
        assert(gadget_safe(k[t]));
        lemma_no_dunder_free(k[t][i].0, h);
        assert(no_dunder(k[t][i].1));
        lemma_no_dunder_free(k[t][i].1, h);
    }
}

/// Filling a template in gives, byte for byte, the script this crate would
/// have compiled on that machine - which is what makes shipping compiled
/// missions safe. `tpl` is the scenario as [`mission_template`] leaves it,
/// holding the markers, and `s` the same scenario holding a map and a game.
/// Where the template compiled, the scenario with its map, game and player
/// compiles too, and filling the template in with them gives its script -
/// provided the three values hold no delimiter, which the writer would have
/// removed; the map holds neither of the later markers and the game not the
/// player's, which a later replacement would find again; and no marker
/// stands in the battle's options, the AIs' names or the colours.
#[verifier::spinoff_prover]
#[verifier::rlimit(60)]
pub proof fn law_a_filled_template_is_the_script_compiled_there(
    tpl: ScenarioFacts,
    s: ScenarioFacts,
    m: MissionFacts,
    player: Seq<char>,
    battle: Seq<(Seq<char>, Seq<char>)>,
    fallback: Seq<(i64, i64)>,
)
    requires
        tpl.map@ == HOLE_MAP@,
        tpl.game@ == HOLE_GAME@,
        s.teams == tpl.teams,
        s.units == tpl.units,
        s.outside == tpl.outside,
        s.map_elmos == tpl.map_elmos,
        s.depth_elmos == tpl.depth_elmos,
        s.goals == tpl.goals,
        template_result(tpl, m, battle, fallback) is Ok,
        trim(s.map@).len() > 0,
        trim(s.game@).len() > 0,
        plain(s.map@),
        plain(s.game@),
        plain(player),
        free(s.map@, HOLE_GAME@),
        free(s.map@, HOLE_PLAYER@),
        free(s.game@, HOLE_PLAYER@),
        no_marker_in(battle, s.teams@),
    ensures
        crate::scenario::spec_problems(s).len() == 0,
        template_result(tpl, m, battle, fallback) matches Ok(text) && spec_fill(text, s.map@, s.game@, player)
            == spec_compiled(s, m, player, battle, fallback),
{
    lemma_markers();
    let teams = s.teams@;
    assert(crate::scenario::spec_problems(tpl).len() == 0);
    assert(trim(tpl.map@).len() > 0);
    assert(trim(tpl.game@).len() > 0);
    assert(crate::scenario::spec_problems(s) =~= crate::scenario::spec_problems(tpl));
    let mission = spec_mission_modoptions(s, m);
    assert(mission == spec_mission_modoptions(tpl, m));
    assert(spec_starts(s, m, fallback) =~= spec_starts(tpl, m, fallback));
    assert(spec_team_keys(s, m) =~= spec_team_keys(tpl, m));
    let starts = spec_starts(s, m, fallback);
    let keys = spec_team_keys(s, m);
    let hm = HOLE_MAP@;
    let hg = HOLE_GAME@;
    let hp = HOLE_PLAYER@;
    assert(marker(hm) && marker(hg) && marker(hp));
    lemma_library_values_clear(s, m, hm);
    lemma_library_values_clear(s, m, hg);
    lemma_library_values_clear(s, m, hp);
    assert(crate::fill::clear_of(hm, battle, mission, teams, keys));
    assert(crate::fill::clear_of(hg, battle, mission, teams, keys));
    assert(crate::fill::clear_of(hp, battle, mission, teams, keys));
    lemma_fill_script(tpl, s, hm, hg, hp, player, battle, mission, starts, keys);
}

// ----------------------------------------------------------------- pack ---

pub open spec fn result_view(r: Result<String, String>) -> Result<Seq<char>, Seq<char>> {
    match r {
        Ok(t) => Ok(t@),
        Err(e) => Err(e@),
    }
}

pub open spec fn templates_view(t: Seq<(String, Result<String, String>)>) -> Seq<
    (Seq<char>, Result<Seq<char>, Seq<char>>),
> {
    t.map_values(|x: (String, Result<String, String>)| (x.0@, result_view(x.1)))
}

/// The first template from `i` on that belongs to mission `id`.
pub open spec fn template_for(t: Seq<(Seq<char>, Result<Seq<char>, Seq<char>>)>, id: Seq<char>, i: int) -> Option<int>
    decreases t.len() - i,
{
    if i < 0 || i >= t.len() {
        None
    } else if t[i].0 == id {
        Some(i)
    } else {
        template_for(t, id, i + 1)
    }
}

/// The zip entry a mission's compiled script is stored under.
pub open spec fn script_entry(id: Seq<char>) -> Seq<char> {
    "missions/"@ + id + ".script"@
}

/// The script entries of the first `n` listed missions, in the campaign's
/// order, or the first of them that cannot be had: a mission with no
/// template, or one whose template failed, named.
pub open spec fn pack_from(
    missions: Seq<CampaignMission>,
    t: Seq<(Seq<char>, Result<Seq<char>, Seq<char>>)>,
    n: int,
) -> Result<Seq<(Seq<char>, Seq<char>)>, Seq<char>>
    decreases n,
{
    if n <= 0 || n > missions.len() {
        Ok(Seq::empty())
    } else {
        match pack_from(missions, t, n - 1) {
            Err(e) => Err(e),
            Ok(done) => {
                let listed = missions[n - 1];
                match template_for(t, listed.id@, 0) {
                    None => Err("no scenario for "@ + listed.id@),
                    Some(k) => match t[k].1 {
                        Err(e) => Err(listed.name@ + ": "@ + e),
                        Ok(text) => Ok(done.push((script_entry(listed.id@), text))),
                    },
                }
            },
        }
    }
}

proof fn lemma_pack_err(
    missions: Seq<CampaignMission>,
    t: Seq<(Seq<char>, Result<Seq<char>, Seq<char>>)>,
    n: int,
    m: int,
)
    requires
        0 <= n <= m <= missions.len(),
        pack_from(missions, t, n) is Err,
    ensures
        pack_from(missions, t, m) == pack_from(missions, t, n),
    decreases m - n,
{
    if m > n {
        lemma_pack_err(missions, t, n, m - 1);
    }
}

/// `t[j]` is the first template that carries `id`.
pub open spec fn first_template(t: Seq<(Seq<char>, Result<Seq<char>, Seq<char>>)>, id: Seq<char>, j: int) -> bool {
    &&& 0 <= j < t.len()
    &&& t[j].0 == id
    &&& forall|i: int| 0 <= i < j ==> (#[trigger] t[i]).0 != id
}

/// Every listed mission among the first `n` has a template, and the first
/// one that carries its id compiled.
pub open spec fn all_compiled(
    missions: Seq<CampaignMission>,
    t: Seq<(Seq<char>, Result<Seq<char>, Seq<char>>)>,
    n: int,
) -> bool {
    forall|k: int|
        0 <= k < n ==> exists|j: int| first_template(t, (#[trigger] missions[k]).id@, j) && t[j].1 is Ok
}

proof fn lemma_template_for(t: Seq<(Seq<char>, Result<Seq<char>, Seq<char>>)>, id: Seq<char>, i: int)
    requires
        0 <= i,
    ensures
        template_for(t, id, i) matches Some(j) ==> i <= j < t.len() && t[j].0 == id && forall|x: int|
            i <= x < j ==> (#[trigger] t[x]).0 != id,
        template_for(t, id, i) is None ==> forall|x: int| i <= x < t.len() ==> (#[trigger] t[x]).0 != id,
    decreases t.len() - i,
{
    if i < t.len() && t[i].0 != id {
        lemma_template_for(t, id, i + 1);
    }
}

proof fn lemma_first_template(t: Seq<(Seq<char>, Result<Seq<char>, Seq<char>>)>, id: Seq<char>)
    ensures
        template_for(t, id, 0) matches Some(j) ==> first_template(t, id, j),
        template_for(t, id, 0) is None ==> forall|j: int| !first_template(t, id, j),
        forall|a: int, b: int| first_template(t, id, a) && first_template(t, id, b) ==> a == b,
{
    lemma_template_for(t, id, 0);
    assert forall|a: int, b: int| first_template(t, id, a) && first_template(t, id, b) implies a == b by {
        if a < b {
            assert(t[a].0 == id);
        } else if b < a {
            assert(t[b].0 == id);
        }
    }
    if template_for(t, id, 0) is None {
        assert forall|j: int| !first_template(t, id, j) by {
            if first_template(t, id, j) {
                assert(t[j].0 == id);
            }
        }
    }
}

/// A campaign packs each listed mission, in the order listed, under
/// `missions/<its own id>.script`, holding the compiled text of the first
/// template that carries that same id; and it packs exactly when every
/// listed mission has a template and the first one for it compiled.
pub proof fn law_each_mission_is_packed_with_its_own_script(
    missions: Seq<CampaignMission>,
    t: Seq<(Seq<char>, Result<Seq<char>, Seq<char>>)>,
    n: int,
)
    requires
        0 <= n <= missions.len(),
    ensures
        pack_from(missions, t, n) is Ok <==> all_compiled(missions, t, n),
        pack_from(missions, t, n) matches Ok(e) ==> e.len() == n && forall|k: int|
            0 <= k < n ==> (#[trigger] e[k]).0 == "missions/"@ + missions[k].id@ + ".script"@ && exists|j: int|
                first_template(t, missions[k].id@, j) && t[j].1 == Ok::<Seq<char>, Seq<char>>(e[k].1),
    decreases n,
{
    if n > 0 {
        law_each_mission_is_packed_with_its_own_script(missions, t, n - 1);
        let listed = missions[n - 1];
        let id = listed.id@;
        lemma_first_template(t, id);
        match pack_from(missions, t, n - 1) {
            Err(_) => {
                assert(!all_compiled(missions, t, n)) by {
                    if all_compiled(missions, t, n) {
                        assert forall|k: int| 0 <= k < n - 1 implies exists|j: int|
                            first_template(t, (#[trigger] missions[k]).id@, j) && t[j].1 is Ok by {
                            assert(0 <= k < n);
                        }
                    }
                }
            },
            Ok(done) => {
                match template_for(t, id, 0) {
                    None => {
                        assert(!all_compiled(missions, t, n)) by {
                            if all_compiled(missions, t, n) {
                                assert(exists|j: int| first_template(t, missions[n - 1].id@, j) && t[j].1 is Ok);
                            }
                        }
                    },
                    Some(j) => {
                        match t[j].1 {
                            Err(_) => {
                                assert(!all_compiled(missions, t, n)) by {
                                    if all_compiled(missions, t, n) {
                                        let j2 = choose|j2: int| first_template(t, missions[n - 1].id@, j2) && t[j2].1 is Ok;
                                        assert(j2 == j);
                                    }
                                }
                            },
                            Ok(text) => {
                                let e = done.push((script_entry(id), text));
                                assert(pack_from(missions, t, n) == Ok::<Seq<(Seq<char>, Seq<char>)>, Seq<char>>(e));
                                assert forall|k: int| 0 <= k < n implies exists|j3: int|
                                    first_template(t, (#[trigger] missions[k]).id@, j3) && t[j3].1 is Ok by {
                                    if k == n - 1 {
                                        assert(first_template(t, missions[k].id@, j));
                                    } else {
                                        let j4 = choose|j4: int|
                                            first_template(t, missions[k].id@, j4) && t[j4].1 == Ok::<Seq<char>, Seq<char>>(done[k].1);
                                        assert(t[j4].1 is Ok);
                                    }
                                }
                                assert forall|k: int| 0 <= k < n implies (#[trigger] e[k]).0 == "missions/"@
                                    + missions[k].id@ + ".script"@ && exists|j5: int|
                                    first_template(t, missions[k].id@, j5) && t[j5].1 == Ok::<Seq<char>, Seq<char>>(e[k].1) by {
                                    if k == n - 1 {
                                        assert(e[k] == (script_entry(id), text));
                                        assert(first_template(t, missions[k].id@, j));
                                    } else {
                                        assert(e[k] == done[k]);
                                    }
                                }
                            },
                        }
                    },
                }
            },
        }
    }
}

/// What a campaign packs to: the first problem with it, or each listed
/// mission's compiled script under its entry name.
pub open spec fn spec_pack(c: Campaign, t: Seq<(String, Result<String, String>)>) -> Result<
    Seq<(Seq<char>, Seq<char>)>,
    Seq<char>,
> {
    let found = spec_problems(c, scenario_ids(t));
    if found.len() > 0 {
        Err(found[0])
    } else {
        pack_from(c.missions@, templates_view(t), c.missions@.len() as int)
    }
}

/// The compiled scripts a campaign's zip holds, in the order its missions
/// are listed, given each mission's id and what compiling its template gave.
pub fn pack_entries(campaign: &Campaign, templates: &[(String, Result<String, String>)]) -> (r: Result<
    Vec<(String, String)>,
    String,
>)
    ensures
        match spec_pack(*campaign, templates@) {
            Ok(entries) => r matches Ok(v) && crate::script::pairs_of(v@) == entries,
            Err(e) => r matches Err(x) && x@ == e,
        },
{
    let found = problems(campaign, templates);
    if found.len() > 0 {
        assert(strings_view(found@)[0] == found@[0]@);
        return Err(owned(found[0].as_str()));
    }
    let ghost tv = templates_view(templates@);
    let ghost ms = campaign.missions@;
    let mut out: Vec<(String, String)> = Vec::new();
    assert(crate::script::pairs_of(out@) =~= Seq::<(Seq<char>, Seq<char>)>::empty());
    let mut i: usize = 0;
    while i < campaign.missions.len()
        invariant
            strings_view(found@).len() == 0,
            strings_view(found@) == spec_problems(*campaign, scenario_ids(templates@)),
            tv == templates_view(templates@),
            ms == campaign.missions@,
            i <= ms.len(),
            pack_from(ms, tv, i as int) matches Ok(done) && crate::script::pairs_of(out@) == done,
        decreases campaign.missions.len() - i,
    {
        let listed = &campaign.missions[i];
        let mut k: usize = 0;
        while k < templates.len() && !same_text(templates[k].0.as_str(), listed.id.as_str())
            invariant
                tv == templates_view(templates@),
                k <= templates@.len(),
                template_for(tv, listed.id@, 0) == template_for(tv, listed.id@, k as int),
            decreases templates.len() - k,
        {
            assert(tv[k as int].0 == templates@[k as int].0@);
            k = k + 1;
        }
        if k >= templates.len() {
            let e = concat("no scenario for ", listed.id.as_str());
            proof {
                lemma_pack_err(ms, tv, i + 1, ms.len() as int);
            }
            return Err(e);
        }
        assert(tv[k as int] == (templates@[k as int].0@, result_view(templates@[k as int].1)));
        match &templates[k].1 {
            Err(e) => {
                let x = message3(listed.name.as_str(), ": ", e.as_str());
                proof {
                    lemma_pack_err(ms, tv, i + 1, ms.len() as int);
                }
                return Err(x);
            },
            Ok(text) => {
                let ghost before = crate::script::pairs_of(out@);
                let name = message3("missions/", listed.id.as_str(), ".script");
                out.push((name, owned(text.as_str())));
                assert(crate::script::pairs_of(out@) =~= before.push((script_entry(listed.id@), text@)));
            },
        }
        i = i + 1;
    }
    Ok(out)
}

// --------------------------------------------------------------- single ---

/// A campaign around a single scenario, from the scenario's name, map, game
/// and briefing: the path from "I made a mission" to "somebody else can play
/// it" with no authoring screen in between.
pub fn single(name: &str, map: &str, game: &str, briefing: Option<&str>, author: &str) -> (c:
    Campaign)
    ensures
        c.format_version == CAMPAIGN_FORMAT,
        c.id@ == spec_slug(name@),
        c.name@ == name@,
        c.author@ == trim(author@),
        c.version@ == "1.0.0"@,
        c.description@ == match briefing {
            Some(b) => b@,
            None => Seq::empty(),
        },
        match c.built_against {
            Some(g) => g@ == game@ && trim(game@).len() > 0,
            None => trim(game@).len() == 0,
        },
        c.missions@.len() == 1,
        c.missions@[0].id@ == spec_slug(name@),
        c.missions@[0].name@ == name@,
        c.missions@[0].map@ == map@,
        c.missions@[0].requires@.len() == 0,
        c.missions@[0].summary is None,
{
    let id = slug(name);
    let mission_id = slug(name);
    let t = trimmed(chars_of(author).as_slice());
    let description = match briefing {
        Some(b) => owned(b),
        None => String::new(),
    };
    let built_against = if trimmed(chars_of(game).as_slice()).len() == 0 {
        None
    } else {
        Some(owned(game))
    };
    let mut missions: Vec<CampaignMission> = Vec::new();
    missions.push(
        CampaignMission {
            id: mission_id,
            name: owned(name),
            map: owned(map),
            requires: Vec::new(),
            summary: None,
        },
    );
    Campaign {
        format_version: CAMPAIGN_FORMAT,
        id,
        name: owned(name),
        author: string_of(t.as_slice()),
        version: owned("1.0.0"),
        description,
        built_against,
        missions,
    }
}

// ------------------------------------------------------------------ laws ---

proof fn lemma_id_problems(ids: Seq<Seq<char>>, have: Seq<Seq<char>>, n: int)
    requires
        0 <= n <= ids.len(),
        id_problems(ids, have, n).len() == 0,
    ensures
        forall|i: int| 0 <= i < n ==> !ids.take(i).contains(#[trigger] ids[i]) && have.contains(ids[i]),
    decreases n,
{
    if n > 0 {
        lemma_id_problems(ids, have, n - 1);
    }
}

proof fn lemma_need_problems(m: CampaignMission, ids: Seq<Seq<char>>, k: int)
    requires
        0 <= k <= m.requires@.len(),
        need_problems(m, ids, k).len() == 0,
    ensures
        forall|q: int|
            0 <= q < k ==> ids.contains(#[trigger] m.requires@[q]@) && m.requires@[q]@ != m.id@,
    decreases k,
{
    if k > 0 {
        lemma_need_problems(m, ids, k - 1);
    }
}

proof fn lemma_require_problems(ms: Seq<CampaignMission>, ids: Seq<Seq<char>>, n: int)
    requires
        0 <= n <= ms.len(),
        require_problems(ms, ids, n).len() == 0,
    ensures
        forall|i: int, q: int|
            0 <= i < n && 0 <= q < ms[i].requires@.len() ==> ids.contains(
                #[trigger] ms[i].requires@[q]@,
            ) && ms[i].requires@[q]@ != ms[i].id@,
    decreases n,
{
    if n > 0 {
        lemma_require_problems(ms, ids, n - 1);
        lemma_need_problems(ms[n - 1], ids, ms[n - 1].requires@.len() as int);
    }
}

/// A campaign with nothing wrong with it can be played: it has a name and
/// at least one mission, no two missions share an id, every mission has a
/// scenario, every requirement names another mission of the campaign, and
/// some mission is open from the start.
pub proof fn law_a_sound_campaign_can_be_played(c: Campaign, have: Seq<Seq<char>>)
    requires
        spec_problems(c, have).len() == 0,
    ensures
        trim(c.name@).len() > 0,
        c.missions@.len() > 0,
        forall|i: int, j: int|
            0 <= i < j < c.missions@.len() ==> (#[trigger] c.missions@[i]).id@ != (
            #[trigger] c.missions@[j]).id@,
        forall|i: int| 0 <= i < c.missions@.len() ==> have.contains((#[trigger] c.missions@[i]).id@),
        forall|i: int, q: int|
            0 <= i < c.missions@.len() && 0 <= q < c.missions@[i].requires@.len() ==> mission_ids(
                c.missions@,
            ).contains(#[trigger] c.missions@[i].requires@[q]@) && c.missions@[i].requires@[q]@
                != c.missions@[i].id@,
        exists|i: int| 0 <= i < c.missions@.len() && (#[trigger] c.missions@[i]).requires@.len() == 0,
{
    let ms = c.missions@;
    let ids = mission_ids(ms);
    lemma_id_problems(ids, have, ids.len() as int);
    lemma_require_problems(ms, ids, ms.len() as int);
    assert forall|i: int, j: int| 0 <= i < j < ms.len() implies (#[trigger] ms[i]).id@ != (
    #[trigger] ms[j]).id@ by {
        assert(ids[i] == ms[i].id@ && ids[j] == ms[j].id@);
        assert(!ids.take(j).contains(ids[j]));
        assert(ids.take(j)[i] == ids[i]);
    }
    assert forall|i: int| 0 <= i < ms.len() implies have.contains((#[trigger] ms[i]).id@) by {
        assert(ids[i] == ms[i].id@);
    }
    assert(!all_locked(ms));
}

/// A campaign made around one scenario is sound when the scenario has a
/// name and its scenario is handed in under the campaign's id.
pub proof fn law_a_single_campaign_is_sound(c: Campaign, name: Seq<char>)
    requires
        trim(name).len() > 0,
        c.name@ == name,
        c.missions@.len() == 1,
        c.missions@[0].id@ == spec_slug(name),
        c.missions@[0].requires@.len() == 0,
    ensures
        spec_problems(c, seq![spec_slug(name)]).len() == 0,
{
    let ms = c.missions@;
    let ids = mission_ids(ms);
    let have = seq![spec_slug(name)];
    assert(ids.take(0) =~= Seq::<Seq<char>>::empty());
    assert(!ids.take(0).contains(ids[0]));
    assert(have[0] == ids[0]);
    assert(have.contains(ids[0]));
    assert(id_problems(ids, have, 0) =~= Seq::<Seq<char>>::empty());
    assert(id_problems(ids, have, 1) =~= Seq::<Seq<char>>::empty());
    assert(need_problems(ms[0], ids, ms[0].requires@.len() as int) =~= Seq::<Seq<char>>::empty());
    assert(require_problems(ms, ids, 0) =~= Seq::<Seq<char>>::empty());
    assert(require_problems(ms, ids, 1) =~= Seq::<Seq<char>>::empty());
    assert(!all_locked(ms));
}

/// Whether a script's payloads all pass: no payload under an encoded key
/// carries a `_`.
proof fn lemma_first_broken(pairs: Seq<(Seq<char>, Seq<char>)>, i: int)
    requires
        0 <= i,
        first_broken(pairs, i) is None,
    ensures
        forall|j: int|
            i <= j < pairs.len() && encoded_key(lower_all(trim(#[trigger] pairs[j].0))) ==> !pairs[j].1.contains('_'),
    decreases pairs.len() - i,
{
    if i < pairs.len() {
        lemma_first_broken(pairs, i + 1);
        let v = pairs[i].1;
        if encoded_key(lower_all(trim(pairs[i].0))) {
            assert(find_char_from(v, '_', 0) is None);
            assert forall|k: int| 0 <= k < v.len() implies v[k] != '_' by {
                crate::lua::lemma_find_char_none(v, '_', 0, k);
            }
        }
    }
}

/// A script whose payloads pass carries no `_` in any payload the game
/// decodes, so no payload is cut short at the game's end-of-data marker.
pub proof fn law_passed_payloads_carry_no_underscore(script: Seq<char>)
    requires
        first_broken(spec_payloads(script), 0) is None,
    ensures
        forall|j: int|
            0 <= j < spec_payloads(script).len() && encoded_key(
                lower_all(trim(#[trigger] spec_payloads(script)[j].0)),
            ) ==> !spec_payloads(script)[j].1.contains('_'),
{
    lemma_first_broken(spec_payloads(script), 0);
}

} // verus!
