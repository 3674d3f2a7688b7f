//! Ordering: text in the order `str`'s `Ord` puts it, and a stable sort
//! over any key whose order is a strict weak order.
//!
//! `str` compares by bytes, and UTF-8 keeps the order of code points, so
//! comparing `char`s by their code points gives the order `str` gives.
use vstd::prelude::*;
use crate::game::strings_view;
use crate::text::same_text;

verus! {

/// `a` sorts before `b`: by the first character where they differ, and a
/// prefix before what it is a prefix of.
pub open spec fn text_lt(a: Seq<char>, b: Seq<char>) -> bool
    decreases a.len(),
{
    if a.len() == 0 {
        b.len() > 0
    } else if b.len() == 0 {
        false
    } else if a[0] != b[0] {
        a[0] < b[0]
    } else {
        text_lt(a.skip(1), b.skip(1))
    }
}

pub proof fn lemma_text_irreflexive(a: Seq<char>)
    ensures
        !text_lt(a, a),
    decreases a.len(),
{
    if a.len() > 0 {
        lemma_text_irreflexive(a.skip(1));
    }
}

pub proof fn lemma_text_transitive(a: Seq<char>, b: Seq<char>, c: Seq<char>)
    requires
        text_lt(a, b),
        text_lt(b, c),
    ensures
        text_lt(a, c),
    decreases a.len(),
{
    if a.len() > 0 && b.len() > 0 && c.len() > 0 && a[0] == b[0] && b[0] == c[0] {
        lemma_text_transitive(a.skip(1), b.skip(1), c.skip(1));
    }
}

/// Two texts neither of which sorts before the other are the same text.
pub proof fn lemma_text_total(a: Seq<char>, b: Seq<char>)
    ensures
        text_lt(a, b) || text_lt(b, a) || a == b,
    decreases a.len(),
{
    if a.len() > 0 && b.len() > 0 && a[0] == b[0] {
        lemma_text_total(a.skip(1), b.skip(1));
        if a.skip(1) == b.skip(1) {
            assert(a =~= seq![a[0]] + a.skip(1));
            assert(b =~= seq![b[0]] + b.skip(1));
        }
    } else if a.len() > 0 && b.len() > 0 {
    } else if a.len() == 0 && b.len() == 0 {
        assert(a =~= b);
    }
}

pub proof fn lemma_text_split(a: Seq<char>, b: Seq<char>, c: Seq<char>)
    requires
        text_lt(a, c),
    ensures
        text_lt(a, b) || text_lt(b, c),
{
    lemma_text_total(a, b);
    lemma_text_total(b, c);
    if !text_lt(a, b) && !text_lt(b, c) {
        if a == b {
        } else if b == c {
        } else {
            lemma_text_transitive(c, b, a);
            lemma_text_transitive(a, c, a);
            lemma_text_irreflexive(a);
        }
    }
}

/// Whether `a` sorts before `b`, by [`text_lt`].
pub fn text_less(a: &[char], b: &[char]) -> (r: bool)
    ensures
        r == text_lt(a@, b@),
{
    let mut i: usize = 0;
    assert(a@.skip(0) =~= a@);
    assert(b@.skip(0) =~= b@);
    while i < a.len() && i < b.len() && a[i] == b[i]
        invariant
            i <= a@.len(),
            i <= b@.len(),
            text_lt(a@, b@) == text_lt(a@.skip(i as int), b@.skip(i as int)),
        decreases a.len() - i,
    {
        assert(a@.skip(i as int).skip(1) =~= a@.skip(i + 1));
        assert(b@.skip(i as int).skip(1) =~= b@.skip(i + 1));
        i = i + 1;
    }
    let ghost sa = a@.skip(i as int);
    let ghost sb = b@.skip(i as int);
    if i == a.len() {
        assert(sa.len() == 0);
        i < b.len()
    } else if i == b.len() {
        assert(sa.len() > 0 && sb.len() == 0);
        false
    } else {
        assert(sa[0] == a@[i as int] && sb[0] == b@[i as int]);
        a[i] < b[i]
    }
}

// ------------------------------------------------------------- sorting ---

/// A key whose order is a strict weak order: irreflexive, transitive, and
/// such that whatever sorts between two keys in order sorts after the first
/// or before the second.
pub trait Ordered: Sized {
    spec fn ord_lt(&self, other: &Self) -> bool;

    proof fn lemma_irreflexive(a: &Self)
        ensures
            !a.ord_lt(a),
    ;

    proof fn lemma_transitive(a: &Self, b: &Self, c: &Self)
        requires
            a.ord_lt(b),
            b.ord_lt(c),
        ensures
            a.ord_lt(c),
    ;

    proof fn lemma_split(a: &Self, b: &Self, c: &Self)
        requires
            a.ord_lt(c),
        ensures
            a.ord_lt(b) || b.ord_lt(c),
    ;

    fn less(&self, other: &Self) -> (r: bool)
        ensures
            r == self.ord_lt(other),
    ;
}

/// The element at `x` goes before the one at `y` in a stable sort: its key
/// sorts first, or neither key sorts first and it came first.
pub open spec fn goes_before<K: Ordered>(keys: Seq<K>, x: int, y: int) -> bool {
    keys[x].ord_lt(&keys[y]) || (!keys[y].ord_lt(&keys[x]) && x < y)
}

/// `order` lists every index of `keys` once, in the order a stable sort by
/// key puts them.
pub open spec fn stable_order_of<K: Ordered>(keys: Seq<K>, order: Seq<usize>) -> bool {
    &&& order.len() == keys.len()
    &&& forall|a: int| 0 <= a < order.len() ==> #[trigger] order[a] < keys.len()
    &&& forall|a: int, b: int|
        0 <= a < b < order.len() ==> goes_before(keys, #[trigger] order[a] as int, #[trigger] order[b] as int)
}

/// The order a stable sort by key puts `keys` in, as indices.
pub fn stable_order<K: Ordered>(keys: &Vec<K>) -> (order: Vec<usize>)
    ensures
        stable_order_of(keys@, order@),
{
    let mut order: Vec<usize> = Vec::new();
    let mut j: usize = 0;
    while j < keys.len()
        invariant
            j <= keys@.len(),
            order@.len() == j,
            forall|a: int| 0 <= a < order@.len() ==> #[trigger] order@[a] < j,
            forall|a: int, b: int|
                0 <= a < b < order@.len() ==> goes_before(
                    keys@,
                    #[trigger] order@[a] as int,
                    #[trigger] order@[b] as int,
                ),
        decreases keys.len() - j,
    {
        let mut p: usize = 0;
        while p < order.len() && !keys[j].less(&keys[order[p]])
            invariant
                j < keys@.len(),
                p <= order@.len(),
                forall|a: int| 0 <= a < order@.len() ==> #[trigger] order@[a] < j,
                forall|q: int| 0 <= q < p ==> !keys@[j as int].ord_lt(&keys@[#[trigger] order@[q] as int]),
            decreases order.len() - p,
        {
            p = p + 1;
        }
        let ghost old_order = order@;
        proof {
            assert forall|q: int| p <= q < old_order.len() implies keys@[j as int].ord_lt(
                &keys@[#[trigger] old_order[q] as int],
            ) by {
                if q > p {
                    let kj = keys@[j as int];
                    let kp = keys@[old_order[p as int] as int];
                    let kq = keys@[old_order[q] as int];
                    assert(goes_before(keys@, old_order[p as int] as int, old_order[q] as int));
                    if kp.ord_lt(&kq) {
                        K::lemma_transitive(&kj, &kp, &kq);
                    } else {
                        K::lemma_split(&kj, &kq, &kp);
                    }
                }
            }
        }
        order.insert(p, j);
        proof {
            assert(order@ == old_order.insert(p as int, j));
            assert forall|a: int, b: int| 0 <= a < b < order@.len() implies goes_before(
                keys@,
                #[trigger] order@[a] as int,
                #[trigger] order@[b] as int,
            ) by {
                if a < p && b < p {
                    assert(order@[a] == old_order[a] && order@[b] == old_order[b]);
                } else if a < p && b == p {
                    assert(order@[a] == old_order[a]);
                } else if a < p {
                    assert(order@[a] == old_order[a] && order@[b] == old_order[b - 1]);
                } else if a == p {
                    assert(order@[b] == old_order[b - 1]);
                } else {
                    assert(order@[a] == old_order[a - 1] && order@[b] == old_order[b - 1]);
                }
            }
            assert forall|a: int| 0 <= a < order@.len() implies #[trigger] order@[a] < j + 1 by {
                if a < p {
                    assert(order@[a] == old_order[a]);
                } else if a > p {
                    assert(order@[a] == old_order[a - 1]);
                }
            }
        }
        j = j + 1;
    }
    order
}

// ---------------------------------------------------------- text keys ---

/// A text as a sort key, in `str`'s order.
pub struct TextKey {
    pub text: Vec<char>,
}

impl Ordered for TextKey {
    open spec fn ord_lt(&self, other: &Self) -> bool {
        text_lt(self.text@, other.text@)
    }

    proof fn lemma_irreflexive(a: &Self) {
        lemma_text_irreflexive(a.text@);
    }

    proof fn lemma_transitive(a: &Self, b: &Self, c: &Self) {
        lemma_text_transitive(a.text@, b.text@, c.text@);
    }

    proof fn lemma_split(a: &Self, b: &Self, c: &Self) {
        lemma_text_split(a.text@, b.text@, c.text@);
    }

    fn less(&self, other: &Self) -> (r: bool) {
        text_less(self.text.as_slice(), other.text.as_slice())
    }
}

// ------------------------------------------------------------- names ---

/// The names among the first `n` that were not seen before them.
pub open spec fn first_seen(names: Seq<Seq<char>>, n: int) -> Seq<Seq<char>>
    decreases n,
{
    if n <= 0 || n > names.len() {
        Seq::empty()
    } else if names.take(n - 1).contains(names[n - 1]) {
        first_seen(names, n - 1)
    } else {
        first_seen(names, n - 1).push(names[n - 1])
    }
}

/// Whether `name` is among the first `upto` of `names`.
pub fn seen_before(names: &[String], upto: usize, name: &str) -> (r: bool)
    requires
        upto <= names@.len(),
    ensures
        r == strings_view(names@).take(upto as int).contains(name@),
{
    let ghost v = strings_view(names@).take(upto as int);
    let mut i: usize = 0;
    while i < upto
        invariant
            upto <= names@.len(),
            v == strings_view(names@).take(upto as int),
            i <= upto,
            forall|j: int| 0 <= j < i ==> v[j] != name@,
        decreases upto - i,
    {
        assert(v[i as int] == names@[i as int]@);
        if same_text(names[i].as_str(), name) {
            return true;
        }
        i = i + 1;
    }
    false
}

/// `order` lists every name once, in `str`'s order.
pub open spec fn text_order(names: Seq<Seq<char>>, order: Seq<int>) -> bool {
    &&& order.len() == names.len()
    &&& forall|a: int| 0 <= a < order.len() ==> 0 <= #[trigger] order[a] < names.len()
    &&& forall|a: int, b: int|
        0 <= a < b < order.len() ==> text_lt(names[#[trigger] order[a]], names[#[trigger] order[b]])
}

pub proof fn lemma_first_seen_distinct(names: Seq<Seq<char>>, n: int)
    requires
        0 <= n <= names.len(),
    ensures
        forall|a: int, b: int|
            0 <= a < b < first_seen(names, n).len() ==> #[trigger] first_seen(names, n)[a]
                != #[trigger] first_seen(names, n)[b],
        forall|a: int|
            0 <= a < first_seen(names, n).len() ==> names.take(n).contains(#[trigger] first_seen(names, n)[a]),
    decreases n,
{
    if n > 0 {
        lemma_first_seen_distinct(names, n - 1);
        let prev = first_seen(names, n - 1);
        assert forall|a: int| 0 <= a < prev.len() implies names.take(n).contains(#[trigger] prev[a]) by {
            assert(names.take(n - 1).contains(prev[a]));
            let w = choose|w: int| 0 <= w < n - 1 && #[trigger] names.take(n - 1)[w] == prev[a];
            assert(names.take(n)[w] == prev[a]);
        }
        if !names.take(n - 1).contains(names[n - 1]) {
            assert(names.take(n)[n - 1] == names[n - 1]);
            let cur = first_seen(names, n);
            assert forall|a: int, b: int| 0 <= a < b < cur.len() implies #[trigger] cur[a] != #[trigger] cur[b] by {
                if b == cur.len() - 1 {
                    assert(names.take(n - 1).contains(prev[a]));
                }
            }
        }
    }
}

/// `names` each once, in `str`'s order.
pub fn sorted_distinct(names: &[String]) -> (r: Vec<String>)
    ensures
        ({
            let d = first_seen(strings_view(names@), names@.len() as int);
            &&& r@.len() == d.len()
            &&& exists|order: Seq<int>|
                text_order(d, order) && forall|a: int| 0 <= a < r@.len() ==> (#[trigger] r@[a])@ == d[order[a]]
        }),
{
    let ghost all = strings_view(names@);
    let mut distinct: Vec<String> = Vec::new();
    let mut i: usize = 0;
    while i < names.len()
        invariant
            all == strings_view(names@),
            i <= names@.len(),
            strings_view(distinct@) == first_seen(all, i as int),
        decreases names.len() - i,
    {
        assert(all[i as int] == names@[i as int]@);
        let seen = seen_before(names, i, names[i].as_str());
        if !seen {
            distinct.push(crate::text::owned(names[i].as_str()));
        }
        assert(strings_view(distinct@) =~= first_seen(all, i + 1));
        i = i + 1;
    }
    let ghost d = strings_view(distinct@);
    proof {
        lemma_first_seen_distinct(all, names@.len() as int);
    }
    let mut keys: Vec<TextKey> = Vec::new();
    let mut j: usize = 0;
    while j < distinct.len()
        invariant
            d == strings_view(distinct@),
            j <= distinct@.len(),
            keys@.len() == j,
            forall|a: int| 0 <= a < j ==> (#[trigger] keys@[a]).text@ == d[a],
        decreases distinct.len() - j,
    {
        assert(d[j as int] == distinct@[j as int]@);
        keys.push(TextKey { text: crate::text::chars_of(distinct[j].as_str()) });
        j = j + 1;
    }
    let order = stable_order(&keys);
    let mut out: Vec<String> = Vec::new();
    let mut a: usize = 0;
    while a < order.len()
        invariant
            d == strings_view(distinct@),
            order@.len() == d.len(),
            forall|b: int| 0 <= b < order@.len() ==> #[trigger] order@[b] < d.len(),
            a <= order@.len(),
            out@.len() == a,
            forall|b: int| 0 <= b < a ==> (#[trigger] out@[b])@ == d[order@[b] as int],
        decreases order.len() - a,
    {
        assert(d[order@[a as int] as int] == distinct@[order@[a as int] as int]@);
        out.push(crate::text::owned(distinct[order[a]].as_str()));
        a = a + 1;
    }
    let ghost w = order@.map_values(|x: usize| x as int);
    assert(text_order(d, w)) by {
        assert forall|x: int, y: int| 0 <= x < y < w.len() implies text_lt(
            d[#[trigger] w[x]],
            d[#[trigger] w[y]],
        ) by {
            assert(goes_before(keys@, order@[x] as int, order@[y] as int));
            if !text_lt(d[w[x]], d[w[y]]) {
                lemma_text_total(d[w[x]], d[w[y]]);
                if w[x] < w[y] {
                    assert(d[w[x]] != d[w[y]]);
                } else {
                    assert(d[w[y]] != d[w[x]]);
                }
            }
        }
    }
    assert(forall|b: int| 0 <= b < out@.len() ==> (#[trigger] out@[b])@ == d[w[b]]);
    out
}

} // verus!
