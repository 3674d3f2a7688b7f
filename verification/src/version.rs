//! Engine versions, newest first.
//!
//! Versions are `2025.06.21`, or `105.1.1-2511-g1234567 maintenance`.
//! Compared as strings, `105` sorts above `2025`, so a version is cut into
//! runs of digits each followed by the text up to the next digit, the digits
//! are compared as numbers and the text as text. Purely so that "the newest
//! one" means what a person means by it.
use vstd::prelude::*;
use crate::game::strings_view;
use crate::lua::{all_digits, digits_up_to, digits_value};
use crate::order::{
    first_seen, seen_before, lemma_text_irreflexive, lemma_text_total, lemma_text_transitive, stable_order, text_less,
    text_lt, Ordered,
};
use crate::text::{ascii_digit, chars_of, owned, string_of};

verus! {

/// A version cut into its runs: each a run of digits (empty only at the
/// very start) and the text that follows it up to the next digit. Built a
/// character at a time: a digit after text starts a new run.
pub open spec fn version_runs(s: Seq<char>) -> Seq<(Seq<char>, Seq<char>)>
    decreases s.len(),
{
    if s.len() == 0 {
        Seq::empty()
    } else {
        let p = version_runs(s.drop_last());
        let c = s.last();
        if p.len() == 0 {
            if ascii_digit(c) {
                seq![(seq![c], Seq::empty())]
            } else {
                seq![(Seq::empty(), seq![c])]
            }
        } else if ascii_digit(c) && p.last().1.len() == 0 {
            p.update(p.len() - 1, (p.last().0.push(c), p.last().1))
        } else if ascii_digit(c) {
            p.push((seq![c], Seq::empty()))
        } else {
            p.update(p.len() - 1, (p.last().0, p.last().1.push(c)))
        }
    }
}

/// A run of digits as `u64::from_str` reads it, and 0 where it reads
/// nothing: no digits at all, or more than a `u64` holds.
pub open spec fn run_number(d: Seq<char>) -> u64 {
    if d.len() > 0 && digits_value(d) <= u64::MAX {
        digits_value(d) as u64
    } else {
        0
    }
}

/// The key a version sorts by.
pub open spec fn spec_version_key(s: Seq<char>) -> Seq<(u64, Seq<char>)> {
    version_runs(s).map_values(|r: (Seq<char>, Seq<char>)| (run_number(r.0), r.1))
}

pub open spec fn runs_view(v: Seq<(Vec<char>, Vec<char>)>) -> Seq<(Seq<char>, Seq<char>)> {
    v.map_values(|r: (Vec<char>, Vec<char>)| (r.0@, r.1@))
}

pub open spec fn key_view(v: Seq<(u64, String)>) -> Seq<(u64, Seq<char>)> {
    v.map_values(|p: (u64, String)| (p.0, p.1@))
}

proof fn lemma_runs_digits(s: Seq<char>)
    ensures
        forall|k: int|
            0 <= k < version_runs(s).len() ==> all_digits(#[trigger] version_runs(s)[k].0),
    decreases s.len(),
{
    if s.len() > 0 {
        lemma_runs_digits(s.drop_last());
        let p = version_runs(s.drop_last());
        let c = s.last();
        if p.len() > 0 && ascii_digit(c) && p.last().1.len() == 0 {
            assert(all_digits(p.last().0.push(c))) by {
                assert(all_digits(p[p.len() - 1].0));
            }
        }
        assert forall|k: int| 0 <= k < version_runs(s).len() implies all_digits(
            #[trigger] version_runs(s)[k].0,
        ) by {
            if k < p.len() && !(k == p.len() - 1) {
                assert(version_runs(s)[k] == p[k]);
            }
        }
    }
}

fn runs_of(s: &[char]) -> (r: Vec<(Vec<char>, Vec<char>)>)
    ensures
        runs_view(r@) == version_runs(s@),
{
    let mut done: Vec<(Vec<char>, Vec<char>)> = Vec::new();
    let mut digits: Vec<char> = Vec::new();
    let mut text: Vec<char> = Vec::new();
    let mut i: usize = 0;
    while i < s.len()
        invariant
            i <= s@.len(),
            i == 0 ==> digits@.len() == 0 && text@.len() == 0 && done@.len() == 0,
            version_runs(s@.take(i as int)) == runs_view(done@) + (if i > 0 {
                seq![(digits@, text@)]
            } else {
                Seq::empty()
            }),
        decreases s.len() - i,
    {
        let c = s[i];
        let is_digit = '0' <= c && c <= '9';
        assert(s@.take(i + 1).drop_last() =~= s@.take(i as int));
        assert(s@.take(i + 1).last() == c);
        let ghost before = runs_view(done@);
        if i == 0 {
            if is_digit {
                digits.push(c);
            } else {
                text.push(c);
            }
            assert(digits@ =~= (if is_digit { seq![c] } else { Seq::empty() }));
            assert(text@ =~= (if is_digit { Seq::empty() } else { seq![c] }));
        } else if is_digit && text.len() == 0 {
            digits.push(c);
        } else if is_digit {
            let d = digits;
            let t = text;
            done.push((d, t));
            digits = Vec::new();
            digits.push(c);
            text = Vec::new();
            assert(digits@ =~= seq![c]);
            assert(text@ =~= Seq::<char>::empty());
        } else {
            text.push(c);
        }
        i = i + 1;
        assert(version_runs(s@.take(i as int)) =~= runs_view(done@) + seq![(digits@, text@)]);
    }
    assert(s@.take(s@.len() as int) =~= s@);
    if i > 0 {
        done.push((digits, text));
    }
    assert(runs_view(done@) =~= version_runs(s@));
    done
}

/// The key a version sorts by: each run of digits as the number it reads
/// as, 0 where it reads as none, and the text after it.
pub fn version_key(version: &str) -> (r: Vec<(u64, String)>)
    ensures
        key_view(r@) == spec_version_key(version@),
{
    let chars = chars_of(version);
    let runs = runs_of(chars.as_slice());
    let ghost rv = version_runs(version@);
    proof {
        lemma_runs_digits(version@);
    }
    let mut out: Vec<(u64, String)> = Vec::new();
    let mut i: usize = 0;
    while i < runs.len()
        invariant
            runs_view(runs@) == rv,
            rv == version_runs(version@),
            forall|k: int| 0 <= k < rv.len() ==> all_digits(#[trigger] rv[k].0),
            i <= runs@.len(),
            key_view(out@) == spec_version_key(version@).take(i as int),
        decreases runs.len() - i,
    {
        let d = &runs[i].0;
        assert(rv[i as int] == (d@, runs@[i as int].1@));
        assert(all_digits(rv[i as int].0));
        let n: u64 = if d.len() == 0 {
            0
        } else {
            match digits_up_to(d.as_slice(), 0, d.len(), 0xffff_ffff_ffff_ffff) {
                Some(v) => {
                    assert(d@.subrange(0, d@.len() as int) =~= d@);
                    v as u64
                },
                None => {
                    assert(d@.subrange(0, d@.len() as int) =~= d@);
                    0
                },
            }
        };
        let ghost before = key_view(out@);
        out.push((n, string_of(runs[i].1.as_slice())));
        assert(key_view(out@) =~= before.push((run_number(rv[i as int].0), rv[i as int].1)));
        i = i + 1;
        assert(key_view(out@) =~= spec_version_key(version@).take(i as int));
    }
    assert(spec_version_key(version@).take(runs@.len() as int) =~= spec_version_key(version@));
    out
}

// -------------------------------------------------------------- ordering ---

/// One run sorts before another: by number, then by text.
pub open spec fn run_lt(a: (u64, Seq<char>), b: (u64, Seq<char>)) -> bool {
    a.0 < b.0 || (a.0 == b.0 && text_lt(a.1, b.1))
}

/// One key sorts before another: by the first run where they differ, and a
/// prefix before what it is a prefix of.
pub open spec fn key_lt(a: Seq<(u64, Seq<char>)>, b: Seq<(u64, Seq<char>)>) -> bool
    decreases a.len(),
{
    if a.len() == 0 {
        b.len() > 0
    } else if b.len() == 0 {
        false
    } else if a[0] != b[0] {
        run_lt(a[0], b[0])
    } else {
        key_lt(a.skip(1), b.skip(1))
    }
}

proof fn lemma_run_order(a: (u64, Seq<char>), b: (u64, Seq<char>), c: (u64, Seq<char>))
    ensures
        !run_lt(a, a),
        run_lt(a, b) && run_lt(b, c) ==> run_lt(a, c),
        run_lt(a, b) || run_lt(b, a) || a == b,
{
    lemma_text_irreflexive(a.1);
    lemma_text_total(a.1, b.1);
    if run_lt(a, b) && run_lt(b, c) && a.0 == b.0 && b.0 == c.0 {
        lemma_text_transitive(a.1, b.1, c.1);
    }
}

proof fn lemma_key_irreflexive(a: Seq<(u64, Seq<char>)>)
    ensures
        !key_lt(a, a),
    decreases a.len(),
{
    if a.len() > 0 {
        lemma_key_irreflexive(a.skip(1));
    }
}

proof fn lemma_key_transitive(a: Seq<(u64, Seq<char>)>, b: Seq<(u64, Seq<char>)>, c: Seq<(u64, Seq<char>)>)
    requires
        key_lt(a, b),
        key_lt(b, c),
    ensures
        key_lt(a, c),
    decreases a.len(),
{
    if a.len() > 0 && b.len() > 0 && c.len() > 0 {
        lemma_run_order(a[0], b[0], c[0]);
        lemma_run_order(a[0], c[0], b[0]);
        lemma_run_order(b[0], c[0], a[0]);
        lemma_run_order(c[0], a[0], b[0]);
        if a[0] == b[0] && b[0] == c[0] {
            lemma_key_transitive(a.skip(1), b.skip(1), c.skip(1));
        }
    }
}

proof fn lemma_key_total(a: Seq<(u64, Seq<char>)>, b: Seq<(u64, Seq<char>)>)
    ensures
        key_lt(a, b) || key_lt(b, a) || a == b,
    decreases a.len(),
{
    if a.len() > 0 && b.len() > 0 {
        lemma_run_order(a[0], b[0], b[0]);
        if a[0] == b[0] {
            lemma_key_total(a.skip(1), b.skip(1));
            if a.skip(1) == b.skip(1) {
                assert(a =~= seq![a[0]] + a.skip(1));
                assert(b =~= seq![b[0]] + b.skip(1));
            }
        }
    } else if a.len() == 0 && b.len() == 0 {
        assert(a =~= b);
    }
}

/// A version's key as a sort key that puts the newest first.
pub struct Newest {
    pub runs: Vec<(u64, Vec<char>)>,
}

pub open spec fn newest_view(n: Newest) -> Seq<(u64, Seq<char>)> {
    n.runs@.map_values(|p: (u64, Vec<char>)| (p.0, p.1@))
}

fn key_less(a: &Vec<(u64, Vec<char>)>, b: &Vec<(u64, Vec<char>)>) -> (r: bool)
    ensures
        r == key_lt(
            a@.map_values(|p: (u64, Vec<char>)| (p.0, p.1@)),
            b@.map_values(|p: (u64, Vec<char>)| (p.0, p.1@)),
        ),
{
    let ghost av = a@.map_values(|p: (u64, Vec<char>)| (p.0, p.1@));
    let ghost bv = b@.map_values(|p: (u64, Vec<char>)| (p.0, p.1@));
    let mut i: usize = 0;
    assert(av.skip(0) =~= av);
    assert(bv.skip(0) =~= bv);
    while i < a.len() && i < b.len()
        invariant
            av == a@.map_values(|p: (u64, Vec<char>)| (p.0, p.1@)),
            bv == b@.map_values(|p: (u64, Vec<char>)| (p.0, p.1@)),
            i <= a@.len(),
            i <= b@.len(),
            key_lt(av, bv) == key_lt(av.skip(i as int), bv.skip(i as int)),
        decreases a.len() - i,
    {
        let x = &a[i];
        let y = &b[i];
        assert(av.skip(i as int)[0] == (x.0, x.1@));
        assert(bv.skip(i as int)[0] == (y.0, y.1@));
        if x.0 != y.0 {
            return x.0 < y.0;
        }
        proof {
            lemma_text_irreflexive(x.1@);
        }
        if text_less(x.1.as_slice(), y.1.as_slice()) {
            return true;
        }
        if text_less(y.1.as_slice(), x.1.as_slice()) {
            return false;
        }
        proof {
            lemma_text_total(x.1@, y.1@);
        }
        assert(av.skip(i as int).skip(1) =~= av.skip(i + 1));
        assert(bv.skip(i as int).skip(1) =~= bv.skip(i + 1));
        i = i + 1;
    }
    i == a.len() && i < b.len()
}

impl Ordered for Newest {
    open spec fn ord_lt(&self, other: &Self) -> bool {
        key_lt(newest_view(*other), newest_view(*self))
    }

    proof fn lemma_irreflexive(a: &Self) {
        lemma_key_irreflexive(newest_view(*a));
    }

    proof fn lemma_transitive(a: &Self, b: &Self, c: &Self) {
        lemma_key_transitive(newest_view(*c), newest_view(*b), newest_view(*a));
    }

    proof fn lemma_split(a: &Self, b: &Self, c: &Self) {
        let (x, y, z) = (newest_view(*a), newest_view(*b), newest_view(*c));
        lemma_key_total(x, y);
        lemma_key_total(y, z);
        if !key_lt(y, x) && !key_lt(z, y) {
            if x != y && y != z {
                lemma_key_transitive(x, y, z);
                lemma_key_transitive(z, x, z);
                lemma_key_irreflexive(z);
            }
        }
    }

    fn less(&self, other: &Self) -> (r: bool) {
        key_less(&other.runs, &self.runs)
    }
}

/// `order` lists every version once, newest first by key, and versions
/// whose keys are level in the order they were found.
pub open spec fn newest_order(versions: Seq<Seq<char>>, order: Seq<int>) -> bool {
    &&& order.len() == versions.len()
    &&& forall|a: int| 0 <= a < order.len() ==> 0 <= #[trigger] order[a] < versions.len()
    &&& forall|a: int, b: int|
        0 <= a < b < order.len() ==> ({
            let x = spec_version_key(versions[#[trigger] order[a]]);
            let y = spec_version_key(versions[#[trigger] order[b]]);
            key_lt(y, x) || (!key_lt(x, y) && order[a] < order[b])
        })
}

fn newest_key(version: &str) -> (r: Newest)
    ensures
        newest_view(r) == spec_version_key(version@),
{
    let key = version_key(version);
    let mut runs: Vec<(u64, Vec<char>)> = Vec::new();
    let mut i: usize = 0;
    while i < key.len()
        invariant
            i <= key@.len(),
            runs@.map_values(|p: (u64, Vec<char>)| (p.0, p.1@)) == key_view(key@).take(i as int),
        decreases key.len() - i,
    {
        let ghost before = runs@.map_values(|p: (u64, Vec<char>)| (p.0, p.1@));
        runs.push((key[i].0, chars_of(key[i].1.as_str())));
        assert(runs@.map_values(|p: (u64, Vec<char>)| (p.0, p.1@)) =~= before.push((key@[i as int].0, key@[i as int].1@)));
        assert(key_view(key@)[i as int] == (key@[i as int].0, key@[i as int].1@));
        i = i + 1;
        assert(runs@.map_values(|p: (u64, Vec<char>)| (p.0, p.1@)) =~= key_view(key@).take(i as int));
    }
    assert(key_view(key@).take(key@.len() as int) =~= key_view(key@));
    Newest { runs }
}

/// The installed engine versions, each once, newest first: by number where
/// a version has digits, by text where it has text, and in the order they
/// were found where two are level.
pub fn newest_first(versions: &[String]) -> (r: Vec<String>)
    ensures
        ({
            let d = first_seen(strings_view(versions@), versions@.len() as int);
            &&& r@.len() == d.len()
            &&& exists|order: Seq<int>|
                newest_order(d, order) && forall|a: int| 0 <= a < r@.len() ==> (#[trigger] r@[a])@ == d[order[a]]
        }),
{
    let ghost all = strings_view(versions@);
    let mut distinct: Vec<String> = Vec::new();
    let mut i: usize = 0;
    while i < versions.len()
        invariant
            all == strings_view(versions@),
            i <= versions@.len(),
            strings_view(distinct@) == first_seen(all, i as int),
        decreases versions.len() - i,
    {
        assert(all[i as int] == versions@[i as int]@);
        assert(all.take(i + 1).take(i as int) =~= all.take(i as int));
        let seen = seen_before(versions, i, versions[i].as_str());
        if !seen {
            distinct.push(owned(versions[i].as_str()));
        }
        assert(strings_view(distinct@) =~= first_seen(all, i + 1));
        i = i + 1;
    }
    let ghost d = strings_view(distinct@);
    let mut keys: Vec<Newest> = Vec::new();
    let mut j: usize = 0;
    while j < distinct.len()
        invariant
            d == strings_view(distinct@),
            j <= distinct@.len(),
            keys@.len() == j,
            forall|a: int| 0 <= a < j ==> newest_view(#[trigger] keys@[a]) == spec_version_key(d[a]),
        decreases distinct.len() - j,
    {
        assert(d[j as int] == distinct@[j as int]@);
        keys.push(newest_key(distinct[j].as_str()));
        j = j + 1;
    }
    let order = stable_order(&keys);
    let mut out: Vec<String> = Vec::new();
    let mut a: usize = 0;
    while a < order.len()
        invariant
            d == strings_view(distinct@),
            order@.len() == d.len(),
            forall|b: int| 0 <= b < order@.len() ==> #[trigger] order@[b] < d.len(),
            a <= order@.len(),
            out@.len() == a,
            forall|b: int| 0 <= b < a ==> (#[trigger] out@[b])@ == d[order@[b] as int],
        decreases order.len() - a,
    {
        assert(d[order@[a as int] as int] == distinct@[order@[a as int] as int]@);
        out.push(owned(distinct[order[a]].as_str()));
        a = a + 1;
    }
    let ghost w = order@.map_values(|x: usize| x as int);
    assert(newest_order(d, w)) by {
        assert forall|x: int, y: int| 0 <= x < y < w.len() implies ({
            let p = spec_version_key(d[#[trigger] w[x]]);
            let q = spec_version_key(d[#[trigger] w[y]]);
            key_lt(q, p) || (!key_lt(p, q) && w[x] < w[y])
        }) by {
            assert(crate::order::goes_before(keys@, order@[x] as int, order@[y] as int));
        }
    }
    assert(forall|b: int| 0 <= b < out@.len() ==> (#[trigger] out@[b])@ == d[w[b]]);
    out
}

} // verus!
