//! The unit palette, from the definitions inside a game archive.
//!
//! Each `units/*.lua` definition gives a unit its internal name, its title
//! and what it can build. A unit that some builder can build joins that
//! builder's group - factories first, then their plates, then anything
//! else, and by name within a rank - and what no builder claims is grouped
//! by the prefixes Zero-K names things with. The palette is then sorted by
//! group rank, group and title, with "Other" and the debug units last.
use vstd::prelude::*;
use crate::game::{
    build_options, builder_rank, ends_with, group_by_name, spec_build_options, spec_builder_rank,
    spec_group_by_name, spec_sort_rank, spec_table_key, strings_view, table_key, UnitDef,
};
use crate::lua::{lua_field, spec_lua_field};
use crate::order::{
    lemma_text_irreflexive, lemma_text_total, lemma_text_transitive, stable_order, text_less,
    text_lt, Ordered,
};
use crate::text::{chars_of, lower_all, lowercase, owned, same_text, starts_with, string_of, text_starts_with};

verus! {

/// Whether an archive entry is a unit definition: `units/*.lua`, in any case.
pub fn is_unit_file(name: &str) -> (r: bool)
    ensures
        r == (starts_with(lower_all(name@), "units/"@) && ends_with(lower_all(name@), ".lua"@)),
{
    let low = lowercase(chars_of(name).as_slice());
    let s = string_of(low.as_slice());
    text_starts_with(low.as_slice(), "units/") && crate::game::text_ends_with(s.as_str(), ".lua")
}

/// What follows the last `c` in `s`; all of `s` where there is none.
pub open spec fn after_last(s: Seq<char>, c: char) -> Seq<char>
    decreases s.len(),
{
    if s.len() == 0 {
        s
    } else if s.last() == c {
        Seq::empty()
    } else {
        after_last(s.drop_last(), c).push(s.last())
    }
}

/// A definition's file name without its directory and its `.lua`; nothing
/// where the name does not end in `.lua`.
pub open spec fn unit_stem(path: Seq<char>) -> Seq<char> {
    let f = after_last(path, '/');
    if ends_with(f, ".lua"@) {
        f.take(f.len() - 4)
    } else {
        Seq::empty()
    }
}

/// A unit as its definition gives it: name, title, description and what it
/// builds. The name is the definition's table key, or failing that the file
/// name in lower case; a unit with neither is no unit.
pub open spec fn parsed_unit(path: Seq<char>, src: Seq<char>) -> Option<
    (Seq<char>, Seq<char>, Seq<char>, Seq<Seq<char>>),
> {
    let name = match spec_table_key(src) {
        Some(k) => k,
        None => unit_stem(lower_all(path)),
    };
    if name.len() == 0 {
        None
    } else {
        Some(
            (
                name,
                match spec_lua_field(src, "name"@) {
                    Some(t) => t,
                    None => name,
                },
                match spec_lua_field(src, "description"@) {
                    Some(d) => d,
                    None => Seq::empty(),
                },
                spec_build_options(src),
            ),
        )
    }
}

/// The units of the first `n` entries, in order.
pub open spec fn parsed_units(entries: Seq<(Seq<char>, Seq<char>)>, n: int) -> Seq<
    (Seq<char>, Seq<char>, Seq<char>, Seq<Seq<char>>),
>
    decreases n,
{
    if n <= 0 || n > entries.len() {
        Seq::empty()
    } else {
        parsed_units(entries, n - 1) + match parsed_unit(entries[n - 1].0, entries[n - 1].1) {
            Some(u) => seq![u],
            None => Seq::empty(),
        }
    }
}

pub open spec fn entries_view(e: Seq<(String, String)>) -> Seq<(Seq<char>, Seq<char>)> {
    e.map_values(|p: (String, String)| (p.0@, p.1@))
}

/// Builder `a` outranks builder `b`: a better rank, or the same rank and a
/// name that sorts first.
pub open spec fn outranks(a: Seq<char>, b: Seq<char>) -> bool {
    spec_builder_rank(a) < spec_builder_rank(b) || (spec_builder_rank(a) == spec_builder_rank(b)
        && text_lt(a, b))
}

/// Which of the first `k` units claims `name` for its group: among those
/// that build it, the one that outranks the others, the earliest on a tie.
pub open spec fn claimant(
    units: Seq<(Seq<char>, Seq<char>, Seq<char>, Seq<Seq<char>>)>,
    name: Seq<char>,
    k: int,
) -> Option<int>
    decreases k,
{
    if k <= 0 || k > units.len() {
        None
    } else {
        let prev = claimant(units, name, k - 1);
        if units[k - 1].3.contains(name) {
            match prev {
                None => Some(k - 1),
                Some(p) => if outranks(units[k - 1].0, units[p].0) {
                    Some(k - 1)
                } else {
                    Some(p)
                },
            }
        } else {
            prev
        }
    }
}

/// The title of the last of the first `k` units named `name`.
pub open spec fn title_of(
    units: Seq<(Seq<char>, Seq<char>, Seq<char>, Seq<Seq<char>>)>,
    name: Seq<char>,
    k: int,
) -> Option<Seq<char>>
    decreases k,
{
    if k <= 0 || k > units.len() {
        None
    } else if units[k - 1].0 == name {
        Some(units[k - 1].1)
    } else {
        title_of(units, name, k - 1)
    }
}

/// The palette group of unit `i`: the title of the builder that claims it,
/// or the group its name puts it in.
pub open spec fn group_of(units: Seq<(Seq<char>, Seq<char>, Seq<char>, Seq<Seq<char>>)>, i: int) -> Seq<
    char,
> {
    match claimant(units, units[i].0, units.len() as int) {
        Some(j) => match title_of(units, units[j].0, units.len() as int) {
            Some(t) => t,
            None => units[j].0,
        },
        None => spec_group_by_name(units[i].0),
    }
}

/// Every unit of the entries, grouped: name, title, description, group.
pub open spec fn grouped_units(entries: Seq<(Seq<char>, Seq<char>)>) -> Seq<
    (Seq<char>, Seq<char>, Seq<char>, Seq<char>),
> {
    let units = parsed_units(entries, entries.len() as int);
    Seq::new(units.len(), |i: int| (units[i].0, units[i].1, units[i].2, group_of(units, i)))
}

/// The palette's order on units: group rank, then group, then title.
pub open spec fn palette_lt(
    a: (Seq<char>, Seq<char>, Seq<char>, Seq<char>),
    b: (Seq<char>, Seq<char>, Seq<char>, Seq<char>),
) -> bool {
    key_lt(spec_sort_rank(a.3), a.3, a.1, spec_sort_rank(b.3), b.3, b.1)
}

pub open spec fn key_lt(ra: u8, ga: Seq<char>, ta: Seq<char>, rb: u8, gb: Seq<char>, tb: Seq<char>) -> bool {
    ra < rb || (ra == rb && text_lt(ga, gb)) || (ra == rb && ga == gb && text_lt(ta, tb))
}

/// `order` lists every unit once, sorted by the palette's order and, where
/// that leaves two units level, in the order they were read.
pub open spec fn palette_order(units: Seq<(Seq<char>, Seq<char>, Seq<char>, Seq<char>)>, order: Seq<int>) -> bool {
    &&& order.len() == units.len()
    &&& forall|a: int| 0 <= a < order.len() ==> 0 <= #[trigger] order[a] < units.len()
    &&& forall|a: int, b: int|
        0 <= a < b < order.len() ==> (palette_lt(units[#[trigger] order[a]], units[#[trigger] order[b]]) || (
        !palette_lt(units[order[b]], units[order[a]]) && order[a] < order[b]))
}

pub open spec fn unit_view(u: UnitDef) -> (Seq<char>, Seq<char>, Seq<char>, Seq<char>) {
    (u.name@, u.title@, u.description@, u.group@)
}

// ------------------------------------------------------------ the keys ---

/// A unit's place in the palette, as a sort key.
pub struct PaletteKey {
    pub rank: u8,
    pub group: Vec<char>,
    pub title: Vec<char>,
}

proof fn lemma_key_total(ra: u8, ga: Seq<char>, ta: Seq<char>, rb: u8, gb: Seq<char>, tb: Seq<char>)
    ensures
        key_lt(ra, ga, ta, rb, gb, tb) || key_lt(rb, gb, tb, ra, ga, ta) || (ra == rb && ga == gb
            && ta == tb),
{
    lemma_text_total(ga, gb);
    lemma_text_total(ta, tb);
}

proof fn lemma_key_irreflexive(r: u8, g: Seq<char>, t: Seq<char>)
    ensures
        !key_lt(r, g, t, r, g, t),
{
    lemma_text_irreflexive(g);
    lemma_text_irreflexive(t);
}

proof fn lemma_key_transitive(
    ra: u8,
    ga: Seq<char>,
    ta: Seq<char>,
    rb: u8,
    gb: Seq<char>,
    tb: Seq<char>,
    rc: u8,
    gc: Seq<char>,
    tc: Seq<char>,
)
    requires
        key_lt(ra, ga, ta, rb, gb, tb),
        key_lt(rb, gb, tb, rc, gc, tc),
    ensures
        key_lt(ra, ga, ta, rc, gc, tc),
{
    if ra == rb && rb == rc {
        if text_lt(ga, gb) && text_lt(gb, gc) {
            lemma_text_transitive(ga, gb, gc);
        } else if ga == gb && gb == gc {
            lemma_text_transitive(ta, tb, tc);
        }
    }
}

impl Ordered for PaletteKey {
    open spec fn ord_lt(&self, other: &Self) -> bool {
        key_lt(self.rank, self.group@, self.title@, other.rank, other.group@, other.title@)
    }

    proof fn lemma_irreflexive(a: &Self) {
        lemma_key_irreflexive(a.rank, a.group@, a.title@);
    }

    proof fn lemma_transitive(a: &Self, b: &Self, c: &Self) {
        lemma_key_transitive(
            a.rank,
            a.group@,
            a.title@,
            b.rank,
            b.group@,
            b.title@,
            c.rank,
            c.group@,
            c.title@,
        );
    }

    proof fn lemma_split(a: &Self, b: &Self, c: &Self) {
        lemma_key_total(a.rank, a.group@, a.title@, b.rank, b.group@, b.title@);
        lemma_key_total(b.rank, b.group@, b.title@, c.rank, c.group@, c.title@);
        if !a.ord_lt(b) && !b.ord_lt(c) {
            if b.ord_lt(a) && c.ord_lt(b) {
                Self::lemma_transitive(c, b, a);
                Self::lemma_transitive(a, c, a);
                Self::lemma_irreflexive(a);
            }
        }
    }

    fn less(&self, other: &Self) -> (r: bool) {
        if self.rank != other.rank {
            self.rank < other.rank
        } else if text_less(self.group.as_slice(), other.group.as_slice()) {
            true
        } else if text_less(other.group.as_slice(), self.group.as_slice()) {
            false
        } else {
            proof {
                lemma_text_total(self.group@, other.group@);
            }
            text_less(self.title.as_slice(), other.title.as_slice())
        }
    }
}

// ------------------------------------------------------------- reading ---

proof fn lemma_after_last(s: Seq<char>, c: char, j: int)
    requires
        0 <= j <= s.len(),
        forall|k: int| j <= k < s.len() ==> s[k] != c,
        j == 0 || s[j - 1] == c,
    ensures
        after_last(s, c) == s.skip(j),
    decreases s.len(),
{
    if s.len() > j {
        lemma_after_last(s.drop_last(), c, j);
        assert(s.drop_last().skip(j).push(s.last()) =~= s.skip(j));
    } else {
        assert(s.skip(j) =~= Seq::<char>::empty());
    }
}

fn stem_of(path: &str) -> (r: Vec<char>)
    ensures
        r@ == unit_stem(lower_all(path@)),
{
    let p = lowercase(chars_of(path).as_slice());
    let mut j = p.len();
    while j > 0 && p[j - 1] != '/'
        invariant
            j <= p@.len(),
            forall|k: int| j <= k < p@.len() ==> p@[k] != '/',
        decreases j,
    {
        j = j - 1;
    }
    proof {
        lemma_after_last(p@, '/', j as int);
    }
    let mut f: Vec<char> = Vec::new();
    let mut k = j;
    while k < p.len()
        invariant
            j <= k <= p@.len(),
            f@ == p@.subrange(j as int, k as int),
        decreases p.len() - k,
    {
        f.push(p[k]);
        k = k + 1;
        assert(f@ =~= p@.subrange(j as int, k as int));
    }
    assert(f@ =~= p@.skip(j as int));
    let fs = string_of(f.as_slice());
    if crate::game::text_ends_with(fs.as_str(), ".lua") {
        proof {
            reveal_strlit(".lua");
        }
        let mut out: Vec<char> = Vec::new();
        let mut m: usize = 0;
        while m < f.len() - 4
            invariant
                f@.len() >= 4,
                m <= f@.len() - 4,
                out@ == f@.take(m as int),
            decreases f.len() - m,
        {
            out.push(f[m]);
            m = m + 1;
            assert(out@ =~= f@.take(m as int));
        }
        assert(out@ =~= f@.take(f@.len() - 4));
        out
    } else {
        Vec::new()
    }
}

pub open spec fn parsed_view(u: (String, String, String, Vec<String>)) -> (
    Seq<char>,
    Seq<char>,
    Seq<char>,
    Seq<Seq<char>>,
) {
    (u.0@, u.1@, u.2@, strings_view(u.3@))
}

fn parse_unit(path: &str, source: &str) -> (r: Option<(String, String, String, Vec<String>)>)
    ensures
        match parsed_unit(path@, source@) {
            Some(u) => r matches Some(x) && parsed_view(x) == u,
            None => r is None,
        },
{
    let name = match table_key(source) {
        Some(k) => k,
        None => string_of(stem_of(path).as_slice()),
    };
    if chars_of(name.as_str()).len() == 0 {
        return None;
    }
    let title = match lua_field(source, "name") {
        Some(t) => t,
        None => owned(name.as_str()),
    };
    let description = match lua_field(source, "description") {
        Some(d) => d,
        None => String::new(),
    };
    let options = build_options(source);
    Some((name, title, description, options))
}

// ------------------------------------------------------------ grouping ---

pub open spec fn units_view(v: Seq<(String, String, String, Vec<String>)>) -> Seq<
    (Seq<char>, Seq<char>, Seq<char>, Seq<Seq<char>>),
> {
    v.map_values(|u: (String, String, String, Vec<String>)| parsed_view(u))
}

fn builds(options: &Vec<String>, name: &str) -> (r: bool)
    ensures
        r == strings_view(options@).contains(name@),
{
    let ghost ov = strings_view(options@);
    let mut i: usize = 0;
    while i < options.len()
        invariant
            ov == strings_view(options@),
            i <= options@.len(),
            forall|j: int| 0 <= j < i ==> ov[j] != name@,
        decreases options.len() - i,
    {
        assert(ov[i as int] == options@[i as int]@);
        if same_text(options[i].as_str(), name) {
            return true;
        }
        i = i + 1;
    }
    false
}

fn outranks_name(a: &str, b: &str) -> (r: bool)
    ensures
        r == outranks(a@, b@),
{
    let ra = builder_rank(a);
    let rb = builder_rank(b);
    ra < rb || (ra == rb && text_less(chars_of(a).as_slice(), chars_of(b).as_slice()))
}

fn claimant_of(units: &Vec<(String, String, String, Vec<String>)>, name: &str) -> (r: Option<usize>)
    ensures
        match claimant(units_view(units@), name@, units@.len() as int) {
            Some(j) => r matches Some(x) && x as int == j && x < units@.len(),
            None => r is None,
        },
{
    let ghost uv = units_view(units@);
    let mut best: Option<usize> = None;
    let mut k: usize = 0;
    while k < units.len()
        invariant
            uv == units_view(units@),
            k <= units@.len(),
            match claimant(uv, name@, k as int) {
                Some(j) => best matches Some(x) && x as int == j && x < k,
                None => best is None,
            },
        decreases units.len() - k,
    {
        assert(uv[k as int] == parsed_view(units@[k as int]));
        if builds(&units[k].3, name) {
            match best {
                None => {
                    best = Some(k);
                },
                Some(p) => {
                    assert(uv[p as int] == parsed_view(units@[p as int]));
                    if outranks_name(units[k].0.as_str(), units[p].0.as_str()) {
                        best = Some(k);
                    }
                },
            }
        }
        k = k + 1;
    }
    best
}

fn title_for(units: &Vec<(String, String, String, Vec<String>)>, name: &str) -> (r: Option<String>)
    ensures
        match title_of(units_view(units@), name@, units@.len() as int) {
            Some(t) => r matches Some(x) && x@ == t,
            None => r is None,
        },
{
    let ghost uv = units_view(units@);
    let mut found: Option<String> = None;
    let mut k: usize = 0;
    while k < units.len()
        invariant
            uv == units_view(units@),
            k <= units@.len(),
            match title_of(uv, name@, k as int) {
                Some(t) => found matches Some(x) && x@ == t,
                None => found is None,
            },
        decreases units.len() - k,
    {
        assert(uv[k as int] == parsed_view(units@[k as int]));
        if same_text(units[k].0.as_str(), name) {
            found = Some(owned(units[k].1.as_str()));
        }
        k = k + 1;
    }
    found
}

fn group_for(units: &Vec<(String, String, String, Vec<String>)>, i: usize) -> (r: String)
    requires
        i < units@.len(),
    ensures
        r@ == group_of(units_view(units@), i as int),
{
    let ghost uv = units_view(units@);
    assert(uv[i as int] == parsed_view(units@[i as int]));
    match claimant_of(units, units[i].0.as_str()) {
        Some(j) => {
            assert(uv[j as int] == parsed_view(units@[j as int]));
            match title_for(units, units[j].0.as_str()) {
                Some(t) => t,
                None => owned(units[j].0.as_str()),
            }
        },
        None => owned(group_by_name(units[i].0.as_str())),
    }
}

fn sort_rank_of(group: &str) -> (r: u8)
    ensures
        r == spec_sort_rank(group@),
{
    if same_text(group, "Other") {
        2
    } else if same_text(group, "Test and debug") {
        1
    } else {
        0
    }
}

/// The palette, from the unit definitions of a game archive: each entry
/// the definition's path inside the archive and its text, in the archive's
/// order. Every unit is grouped by the builder that claims
/// it or by its name, and the palette comes out sorted by group rank, group
/// and title, units level on all three in the order they were read.
pub fn units_from_sources(entries: &[(String, String)]) -> (r: Vec<UnitDef>)
    ensures
        ({
            let g = grouped_units(entries_view(entries@));
            &&& r@.len() == g.len()
            &&& exists|order: Seq<int>|
                palette_order(g, order) && forall|a: int|
                    0 <= a < r@.len() ==> unit_view(#[trigger] r@[a]) == g[order[a]]
        }),
{
    let ghost ev = entries_view(entries@);
    let mut units: Vec<(String, String, String, Vec<String>)> = Vec::new();
    let mut i: usize = 0;
    while i < entries.len()
        invariant
            ev == entries_view(entries@),
            i <= entries@.len(),
            units_view(units@) == parsed_units(ev, i as int),
        decreases entries.len() - i,
    {
        assert(ev[i as int] == (entries@[i as int].0@, entries@[i as int].1@));
        let ghost before = units_view(units@);
        match parse_unit(entries[i].0.as_str(), entries[i].1.as_str()) {
            Some(u) => {
                units.push(u);
            },
            None => {},
        }
        assert(units_view(units@) =~= parsed_units(ev, i + 1));
        i = i + 1;
    }
    let ghost uv = units_view(units@);
    let ghost g = grouped_units(ev);
    assert(uv == parsed_units(ev, ev.len() as int));
    let mut grouped: Vec<UnitDef> = Vec::new();
    let mut keys: Vec<PaletteKey> = Vec::new();
    let mut j: usize = 0;
    while j < units.len()
        invariant
            uv == units_view(units@),
            g == grouped_units(ev),
            uv == parsed_units(ev, ev.len() as int),
            j <= units@.len(),
            grouped@.len() == j,
            keys@.len() == j,
            forall|a: int| 0 <= a < j ==> unit_view(#[trigger] grouped@[a]) == g[a],
            forall|a: int|
                0 <= a < j ==> (#[trigger] keys@[a]).rank == spec_sort_rank(g[a].3) && keys@[a].group@
                    == g[a].3 && keys@[a].title@ == g[a].1,
        decreases units.len() - j,
    {
        assert(uv[j as int] == parsed_view(units@[j as int]));
        let group = group_for(&units, j);
        let rank = sort_rank_of(group.as_str());
        keys.push(
            PaletteKey {
                rank,
                group: chars_of(group.as_str()),
                title: chars_of(units[j].1.as_str()),
            },
        );
        grouped.push(
            UnitDef {
                name: owned(units[j].0.as_str()),
                title: owned(units[j].1.as_str()),
                description: owned(units[j].2.as_str()),
                group,
            },
        );
        j = j + 1;
    }
    let order = stable_order(&keys);
    let mut out: Vec<UnitDef> = Vec::new();
    let mut a: usize = 0;
    while a < order.len()
        invariant
            g == grouped_units(ev),
            grouped@.len() == g.len(),
            order@.len() == g.len(),
            forall|b: int| 0 <= b < order@.len() ==> #[trigger] order@[b] < g.len(),
            forall|b: int| 0 <= b < g.len() ==> unit_view(#[trigger] grouped@[b]) == g[b],
            a <= order@.len(),
            out@.len() == a,
            forall|b: int| 0 <= b < a ==> unit_view(#[trigger] out@[b]) == g[order@[b] as int],
        decreases order.len() - a,
    {
        let u = &grouped[order[a]];
        out.push(
            UnitDef {
                name: owned(u.name.as_str()),
                title: owned(u.title.as_str()),
                description: owned(u.description.as_str()),
                group: owned(u.group.as_str()),
            },
        );
        a = a + 1;
    }
    let ghost w = order@.map_values(|x: usize| x as int);
    assert(palette_order(g, w)) by {
        assert forall|x: int, y: int| 0 <= x < y < w.len() implies (palette_lt(
            g[#[trigger] w[x]],
            g[#[trigger] w[y]],
        ) || (!palette_lt(g[w[y]], g[w[x]]) && w[x] < w[y])) by {
            assert(crate::order::goes_before(keys@, order@[x] as int, order@[y] as int));
        }
    }
    assert(forall|b: int| 0 <= b < out@.len() ==> unit_view(#[trigger] out@[b]) == g[w[b]]);
    out
}

proof fn lemma_palette_asymmetric(
    x: (Seq<char>, Seq<char>, Seq<char>, Seq<char>),
    y: (Seq<char>, Seq<char>, Seq<char>, Seq<char>),
)
    ensures
        !palette_lt(x, x),
        palette_lt(x, y) ==> !palette_lt(y, x),
{
    lemma_text_irreflexive(x.3);
    lemma_text_irreflexive(x.1);
    if palette_lt(x, y) && palette_lt(y, x) {
        if text_lt(x.3, y.3) && text_lt(y.3, x.3) {
            lemma_text_transitive(x.3, y.3, x.3);
        }
        if text_lt(x.1, y.1) && text_lt(y.1, x.1) {
            lemma_text_transitive(x.1, y.1, x.1);
        }
        lemma_text_irreflexive(y.3);
    }
}

/// The palette comes out sorted: no unit stands after one that sorts
/// before it by group rank, group and title; units level on all three keep
/// the order they were read in; and no unit is listed twice.
pub proof fn law_the_palette_is_sorted(units: Seq<(Seq<char>, Seq<char>, Seq<char>, Seq<char>)>, order: Seq<int>)
    requires
        palette_order(units, order),
    ensures
        forall|a: int, b: int|
            0 <= a < b < order.len() ==> !palette_lt(units[#[trigger] order[b]], units[#[trigger] order[a]]),
        forall|a: int, b: int|
            0 <= a < b < order.len() && !palette_lt(units[#[trigger] order[a]], units[#[trigger] order[b]])
                ==> order[a] < order[b],
        forall|a: int, b: int| 0 <= a < b < order.len() ==> #[trigger] order[a] != #[trigger] order[b],
{
    assert forall|a: int, b: int| 0 <= a < b < order.len() implies !palette_lt(
        units[#[trigger] order[b]],
        units[#[trigger] order[a]],
    ) && order[a] != order[b] by {
        lemma_palette_asymmetric(units[order[a]], units[order[b]]);
    }
}

proof fn lemma_outranks_order(a: Seq<char>, b: Seq<char>, c: Seq<char>)
    ensures
        outranks(a, b) && outranks(b, c) ==> outranks(a, c),
        !outranks(a, a),
        outranks(a, b) ==> !outranks(b, a),
        outranks(a, b) && !outranks(c, b) ==> outranks(a, c),
{
    lemma_text_irreflexive(a);
    if outranks(a, b) && outranks(b, c) && text_lt(a, b) && text_lt(b, c) {
        lemma_text_transitive(a, b, c);
    }
    if outranks(a, b) && outranks(b, a) && text_lt(a, b) && text_lt(b, a) {
        lemma_text_transitive(a, b, a);
    }
    if outranks(a, b) && !outranks(c, b) {
        lemma_text_total(c, b);
        if text_lt(a, b) && spec_builder_rank(a) == spec_builder_rank(c) {
            if text_lt(b, c) {
                lemma_text_transitive(a, b, c);
            }
        }
    }
}

/// The builder that claims `name` among the first `n` units.
proof fn lemma_claimant(units: Seq<(Seq<char>, Seq<char>, Seq<char>, Seq<Seq<char>>)>, name: Seq<char>, n: int)
    requires
        0 <= n <= units.len(),
    ensures
        claimant(units, name, n) is None <==> forall|i: int| 0 <= i < n ==> !(#[trigger] units[i]).3.contains(name),
        claimant(units, name, n) matches Some(j) ==> {
            &&& 0 <= j < n
            &&& units[j].3.contains(name)
            &&& forall|i: int|
                0 <= i < n && (#[trigger] units[i]).3.contains(name) ==> !outranks(units[i].0, units[j].0) && (j <= i
                    || outranks(units[j].0, units[i].0))
        },
    decreases n,
{
    if n > 0 {
        lemma_claimant(units, name, n - 1);
        let prev = claimant(units, name, n - 1);
        let last = units[n - 1];
        if last.3.contains(name) {
            match prev {
                None => {
                    lemma_outranks_order(last.0, last.0, last.0);
                },
                Some(p) => {
                    if outranks(last.0, units[p].0) {
                        assert forall|i: int| 0 <= i < n && (#[trigger] units[i]).3.contains(name) implies !outranks(
                            units[i].0,
                            last.0,
                        ) && (n - 1 <= i || outranks(last.0, units[i].0)) by {
                            lemma_outranks_order(units[i].0, last.0, units[p].0);
                            lemma_outranks_order(last.0, units[p].0, units[i].0);
                            lemma_outranks_order(last.0, last.0, last.0);
                        }
                    } else {
                        lemma_outranks_order(units[p].0, units[p].0, units[p].0);
                    }
                },
            }
        }
    }
}

/// The builder that claims a unit for its group is one that builds it and
/// that no other builder of it outranks - a factory over a plate over
/// anything else, then the name that sorts first - the earliest read where
/// two are level; a unit no builder builds is claimed by none.
pub proof fn law_the_best_builder_claims(
    units: Seq<(Seq<char>, Seq<char>, Seq<char>, Seq<Seq<char>>)>,
    name: Seq<char>,
)
    ensures
        forall|a: Seq<char>, b: Seq<char>|
            #[trigger] outranks(a, b) <==> spec_builder_rank(a) < spec_builder_rank(b) || (spec_builder_rank(a)
                == spec_builder_rank(b) && text_lt(a, b)),
        claimant(units, name, units.len() as int) is None <==> forall|i: int|
            0 <= i < units.len() ==> !(#[trigger] units[i]).3.contains(name),
        claimant(units, name, units.len() as int) matches Some(j) ==> {
            &&& 0 <= j < units.len()
            &&& units[j].3.contains(name)
            &&& forall|i: int|
                0 <= i < units.len() && (#[trigger] units[i]).3.contains(name) ==> !outranks(units[i].0, units[j].0)
                    && (j <= i || outranks(units[j].0, units[i].0))
        },
{
    lemma_claimant(units, name, units.len() as int);
}

} // verus!
