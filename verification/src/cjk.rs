//! CJK variant tables and expansion.
use vstd::prelude::*;
use vstd::hash_map::HashMapWithView;
use vstd::hash_set::StringHashSet;
use crate::strs::{chars_of, string_from_chars, string_views};

verus! {

/// Character tables: alias groups, the Japanese/Chinese character pairs, and the
/// OpenCC simplified/traditional mappings. Keys are char codes.
pub struct CjkTables {
    /// char → variant chars (alias tables and OpenCC), sorted ascending, distinct.
    pub alias: HashMapWithView<u32, Vec<char>>,
    pub jp2zht: HashMapWithView<u32, char>,
    pub jp2zhs: HashMapWithView<u32, char>,
    pub zht2zhs: HashMapWithView<u32, char>,
    pub zhs2zht: HashMapWithView<u32, char>,
    pub zht2jp: HashMapWithView<u32, char>,
    pub zhs2jp: HashMapWithView<u32, char>,
    pub cn2tw: HashMapWithView<u32, char>,
    pub tw2cn: HashMapWithView<u32, char>,
}

/// `map.get(c).unwrap_or(c)`.
pub open spec fn map_or_self(m: Map<u32, char>, c: char) -> char {
    if m.contains_key(c as u32) {
        m[c as u32]
    } else {
        c
    }
}

pub open spec fn sorted_chars(v: Seq<char>) -> bool {
    forall|i: int, j: int| 0 <= i < j < v.len() ==> (v[i] as u32) < (v[j] as u32)
}

/// Convert every char through `m`, keeping unmapped chars.
pub open spec fn convert_seq(m: Map<u32, char>, s: Seq<char>) -> Seq<char> {
    s.map_values(|c: char| map_or_self(m, c))
}

/// Convert every char through `m1` then `m2`.
pub open spec fn convert_seq2(m1: Map<u32, char>, m2: Map<u32, char>, s: Seq<char>) -> Seq<char> {
    s.map_values(|c: char| map_or_self(m2, map_or_self(m1, c)))
}

fn map_char(m: &HashMapWithView<u32, char>, c: char) -> (r: char)
    ensures
        r == map_or_self(m@, c),
{
    match m.get(&(c as u32)) {
        Some(x) => *x,
        None => c,
    }
}

fn convert_chars(m1: &HashMapWithView<u32, char>, m2: Option<&HashMapWithView<u32, char>>, s: &str) -> (r: String)
    ensures
        r@ == (match m2 {
            Some(m2) => convert_seq2(m1@, m2@, s@),
            None => convert_seq(m1@, s@),
        }),
{
    let cs = chars_of(s);
    let mut out: Vec<char> = Vec::new();
    let mut i: usize = 0;
    while i < cs.len()
        invariant
            cs@ == s@,
            i <= cs.len(),
            out@ == (match m2 {
                Some(m2) => convert_seq2(m1@, m2@, s@.take(i as int)),
                None => convert_seq(m1@, s@.take(i as int)),
            }),
        decreases cs.len() - i,
    {
        let c1 = map_char(m1, cs[i]);
        let c2 = match m2 {
            Some(m) => map_char(m, c1),
            None => c1,
        };
        out.push(c2);
        proof {
            assert(s@.take(i + 1) =~= s@.take(i as int).push(s@[i as int]));
            match m2 {
                Some(m2) => {
                    assert(out@ =~= convert_seq2(m1@, m2@, s@.take(i + 1)));
                },
                None => {
                    assert(out@ =~= convert_seq(m1@, s@.take(i + 1)));
                },
            }
        }
        i += 1;
    }
    assert(s@.take(s@.len() as int) =~= s@);
    string_from_chars(out.as_slice())
}

/// A copy of a char vector.
pub fn copy_chars(v: &Vec<char>) -> (r: Vec<char>)
    ensures
        r@ == v@,
{
    let mut out: Vec<char> = Vec::new();
    let mut i: usize = 0;
    while i < v.len()
        invariant
            i <= v@.len(),
            out@ == v@.take(i as int),
        decreases v@.len() - i,
    {
        out.push(v[i]);
        assert(v@.take(i + 1) =~= v@.take(i as int).push(v@[i as int]));
        i += 1;
    }
    assert(v@.take(v@.len() as int) =~= v@);
    out
}

/// Insert `c` into a sorted distinct char list.
pub fn insert_sorted(v: &mut Vec<char>, c: char)
    requires
        sorted_chars(old(v)@),
    ensures
        sorted_chars(final(v)@),
        final(v)@.to_set() == old(v)@.to_set().insert(c),
{
    let mut i: usize = 0;
    while i < v.len() && (v[i] as u32) < (c as u32)
        invariant
            i <= v@.len(),
            forall|j: int| 0 <= j < i ==> (v@[j] as u32) < (c as u32),
        decreases v@.len() - i,
    {
        i += 1;
    }
    if i < v.len() && v[i] == c {
        assert(v@.contains(c));
        assert(v@.to_set().insert(c) =~= v@.to_set());
        return;
    }
    let ghost old_v = v@;
    v.insert(i, c);
    proof {
        assert(v@ == old_v.insert(i as int, c));
        if i < old_v.len() {
            assert((old_v[i as int] as u32) >= (c as u32));
            assert(old_v[i as int] != c);
            crate::text::lemma_char_range(c);
            crate::text::lemma_char_range(old_v[i as int]);
            assert((old_v[i as int] as u32) != (c as u32));
        }
        assert forall|a: int, b: int| 0 <= a < b < v@.len() implies (v@[a] as u32) < (
        v@[b] as u32) by {
            if b < i {
            } else if a < i && b == i {
            } else if a < i {
                assert(v@[b] == old_v[b - 1]);
                assert((old_v[a] as u32) < (c as u32));
                if (b - 1) > i {
                    assert((old_v[i as int] as u32) < (old_v[b - 1] as u32));
                }
            } else if a == i {
                assert(v@[b] == old_v[b - 1]);
            } else {
                assert(v@[a] == old_v[a - 1] && v@[b] == old_v[b - 1]);
            }
        }
        assert forall|x: char| #[trigger] v@.to_set().contains(x) <==> old_v.to_set().insert(
            c,
        ).contains(x) by {
            if v@.to_set().contains(x) {
                let k = choose|k: int| 0 <= k < v@.len() && v@[k] == x;
                if k < i {
                    assert(old_v[k] == x);
                } else if k > i {
                    assert(old_v[k - 1] == x);
                }
            }
            if old_v.to_set().contains(x) {
                let k = choose|k: int| 0 <= k < old_v.len() && old_v[k] == x;
                if k < i {
                    assert(v@[k] == x);
                } else {
                    assert(v@[k + 1] == x);
                }
            }
            if x == c {
                assert(v@[i as int] == c);
            }
        }
        assert(v@.to_set() =~= old_v.to_set().insert(c));
    }
}

/// Every char of `src`, inserted into a sorted distinct list.
pub fn insert_all_sorted(v: &mut Vec<char>, src: &Vec<char>)
    requires
        sorted_chars(old(v)@),
    ensures
        sorted_chars(final(v)@),
        final(v)@.to_set() == old(v)@.to_set().union(src@.to_set()),
{
    let mut i: usize = 0;
    while i < src.len()
        invariant
            i <= src@.len(),
            sorted_chars(v@),
            v@.to_set() == old(v)@.to_set().union(src@.take(i as int).to_set()),
        decreases src@.len() - i,
    {
        insert_sorted(v, src[i]);
        proof {
            assert(src@.take(i + 1) =~= src@.take(i as int).push(src@[i as int]));
            src@.take(i as int).lemma_push_to_set_commute(src@[i as int]);
            assert(v@.to_set() =~= old(v)@.to_set().union(src@.take(i + 1).to_set()));
        }
        i += 1;
    }
    assert(src@.take(src@.len() as int) =~= src@);
}

/// Keep the first occurrence of each string.
pub open spec fn dedup_first(xs: Seq<Seq<char>>) -> Seq<Seq<char>>
    decreases xs.len(),
{
    if xs.len() == 0 {
        Seq::empty()
    } else {
        let p = dedup_first(xs.drop_last());
        if p.contains(xs.last()) {
            p
        } else {
            p.push(xs.last())
        }
    }
}

/// Every string of `xs` is in `dedup_first(xs)`, and nothing else is.
pub proof fn lemma_dedup_first(xs: Seq<Seq<char>>)
    ensures
        forall|x: Seq<char>| xs.contains(x) <==> #[trigger] dedup_first(xs).contains(x),
        forall|a: int, b: int|
            0 <= a < b < dedup_first(xs).len() ==> dedup_first(xs)[a] != dedup_first(xs)[b],
    decreases xs.len(),
{
    if xs.len() > 0 {
        let t = xs.drop_last();
        lemma_dedup_first(t);
        let p = dedup_first(t);
        let l = xs.last();
        assert forall|x: Seq<char>| xs.contains(x) <==> (t.contains(x) || x == l) by {
            if xs.contains(x) {
                let i = choose|i: int| 0 <= i < xs.len() && xs[i] == x;
                if i < xs.len() - 1 {
                    assert(t[i] == x);
                }
            }
            if t.contains(x) {
                let i = choose|i: int| 0 <= i < t.len() && t[i] == x;
                assert(xs[i] == x);
            }
            if x == l {
                assert(xs[xs.len() - 1] == x);
            }
        }
        if !p.contains(l) {
            assert forall|x: Seq<char>| p.push(l).contains(x) <==> (p.contains(x) || x == l) by {
                if p.push(l).contains(x) && x != l {
                    let i = choose|i: int| 0 <= i < p.len() + 1 && p.push(l)[i] == x;
                    assert(p[i] == x);
                }
                if p.contains(x) {
                    let i = choose|i: int| 0 <= i < p.len() && p[i] == x;
                    assert(p.push(l)[i] == x);
                }
                if x == l {
                    assert(p.push(l)[p.len() as int] == x);
                }
            }
            assert forall|a: int, b: int| 0 <= a < b < p.push(l).len() implies p.push(l)[a] != p.push(l)[b] by {
                if b == p.len() {
                    assert(p.contains(p[a]));
                }
            }
        }
        assert forall|x: Seq<char>| xs.contains(x) <==> #[trigger] dedup_first(xs).contains(x) by {
            assert(t.contains(x) <==> p.contains(x));
        }
    }
}


/// Every prefix of `p` extended by every char of `choices`, prefix-major.
pub open spec fn extend_all(p: Seq<Seq<char>>, choices: Seq<char>) -> Seq<Seq<char>>
    decreases p.len(),
{
    if p.len() == 0 {
        Seq::empty()
    } else {
        extend_all(p.drop_last(), choices) + choices.map_values(|c: char| p.last().push(c))
    }
}

/// All strings taking one char from each option list, in order.
pub open spec fn product(opts: Seq<Seq<char>>) -> Seq<Seq<char>>
    decreases opts.len(),
{
    if opts.len() == 0 {
        seq![Seq::<char>::empty()]
    } else {
        extend_all(product(opts.drop_last()), opts.last())
    }
}

/// Number of strings in `product(opts)`.
pub open spec fn product_len(opts: Seq<Seq<char>>) -> int
    decreases opts.len(),
{
    if opts.len() == 0 {
        1
    } else {
        product_len(opts.drop_last()) * opts.last().len()
    }
}

proof fn lemma_extend_contains(p: Seq<Seq<char>>, choices: Seq<char>, x: Seq<char>, c: char)
    requires
        p.contains(x),
        choices.contains(c),
    ensures
        extend_all(p, choices).contains(x.push(c)),
    decreases p.len(),
{
    let t = p.drop_last();
    if x == p.last() {
        let j = choose|j: int| 0 <= j < choices.len() && choices[j] == c;
        let m = choices.map_values(|c: char| p.last().push(c));
        assert(m[j] == x.push(c));
        assert((extend_all(t, choices) + m)[extend_all(t, choices).len() + j] == x.push(c));
    } else {
        let i = choose|i: int| 0 <= i < p.len() && p[i] == x;
        assert(t[i] == x);
        lemma_extend_contains(t, choices, x, c);
        let k = choose|k: int| 0 <= k < extend_all(t, choices).len() && extend_all(t, choices)[k] == x.push(c);
        let m = choices.map_values(|c: char| p.last().push(c));
        assert((extend_all(t, choices) + m)[k] == x.push(c));
    }
}

/// A word is among the products of option lists that each hold its char.
pub proof fn lemma_product_contains(opts: Seq<Seq<char>>, w: Seq<char>)
    requires
        opts.len() == w.len(),
        forall|i: int| 0 <= i < w.len() ==> #[trigger] opts[i].contains(w[i]),
    ensures
        product(opts).contains(w),
    decreases w.len(),
{
    if w.len() == 0 {
        assert(product(opts)[0] == w);
    } else {
        let ot = opts.drop_last();
        let wt = w.drop_last();
        assert forall|i: int| 0 <= i < wt.len() implies #[trigger] ot[i].contains(wt[i]) by {
            assert(opts[i].contains(w[i]));
        }
        lemma_product_contains(ot, wt);
        assert(opts[w.len() - 1].contains(w[w.len() - 1]));
        lemma_extend_contains(product(ot), opts.last(), wt, w.last());
        assert(wt.push(w.last()) =~= w);
    }
}

/// A member of `extend_all(p, choices)` is a member of `p` with one of the choices after it.
proof fn lemma_extend_member(p: Seq<Seq<char>>, choices: Seq<char>, y: Seq<char>)
    requires
        extend_all(p, choices).contains(y),
    ensures
        y.len() > 0,
        p.contains(y.drop_last()),
        choices.contains(y.last()),
    decreases p.len(),
{
    if p.len() == 0 {
        assert(extend_all(p, choices) =~= Seq::<Seq<char>>::empty());
    } else {
        let t = p.drop_last();
        let e = extend_all(t, choices);
        let m = choices.map_values(|c: char| p.last().push(c));
        assert(extend_all(p, choices) == e + m);
        let k = choose|k: int| 0 <= k < (e + m).len() && #[trigger] (e + m)[k] == y;
        if k < e.len() {
            assert(e[k] == y);
            lemma_extend_member(t, choices, y);
            let i = choose|i: int| 0 <= i < t.len() && #[trigger] t[i] == y.drop_last();
            assert(p[i] == t[i]);
        } else {
            let j = k - e.len();
            assert(m[j] == y);
            assert(y == p.last().push(choices[j]));
            assert(y.drop_last() =~= p.last());
            assert(p[p.len() - 1] == p.last());
            assert(choices[j] == y.last());
        }
    }
}

/// A member of `product(opts)` takes, at each position, one of that position's options.
proof fn lemma_product_member(opts: Seq<Seq<char>>, s: Seq<char>)
    requires
        product(opts).contains(s),
    ensures
        s.len() == opts.len(),
        forall|i: int| 0 <= i < s.len() ==> #[trigger] opts[i].contains(s[i]),
    decreases opts.len(),
{
    if opts.len() == 0 {
        let k = choose|k: int| 0 <= k < product(opts).len() && #[trigger] product(opts)[k] == s;
        assert(product(opts) =~= seq![Seq::<char>::empty()]);
    } else {
        let ot = opts.drop_last();
        lemma_extend_member(product(ot), opts.last(), s);
        lemma_product_member(ot, s.drop_last());
        assert forall|i: int| 0 <= i < s.len() implies #[trigger] opts[i].contains(s[i]) by {
            if i < s.len() - 1 {
                assert(s.drop_last()[i] == s[i]);
                assert(ot[i] == opts[i]);
                assert(ot[i].contains(s.drop_last()[i]));
            } else {
                assert(s.last() == s[i]);
                assert(opts.last() == opts[i]);
            }
        }
    }
}

/// `a` comes before `b` in code-point order: at the first char where they differ `a` has
/// the smaller one, or `a` is a proper prefix of `b`.
pub open spec fn lex_before(a: Seq<char>, b: Seq<char>) -> bool {
    (exists|k: int|
        #![trigger a[k], b[k]]
        0 <= k < a.len() && k < b.len() && a.subrange(0, k) == b.subrange(0, k) && (a[k] as u32) < (b[k] as u32)) || (
    a.len() < b.len() && b.subrange(0, a.len() as int) == a)
}

/// Strictly increasing in code-point order: sorted, without repeats.
pub open spec fn lex_sorted(xs: Seq<Seq<char>>) -> bool {
    forall|i: int, j: int| 0 <= i < j < xs.len() ==> lex_before(#[trigger] xs[i], #[trigger] xs[j])
}

/// Order between two strings of one length survives one more char on each.
proof fn lemma_lex_push(a: Seq<char>, b: Seq<char>, x: char, y: char)
    requires
        a.len() == b.len(),
        lex_before(a, b),
    ensures
        lex_before(a.push(x), b.push(y)),
{
    let k = choose|k: int|
        #![trigger a[k], b[k]]
        0 <= k < a.len() && k < b.len() && a.subrange(0, k) == b.subrange(0, k) && (a[k] as u32) < (b[k] as u32);
    assert(a.push(x).subrange(0, k) =~= a.subrange(0, k));
    assert(b.push(y).subrange(0, k) =~= b.subrange(0, k));
    assert(a.push(x)[k] == a[k] && b.push(y)[k] == b[k]);
}

/// One string with a smaller last char comes first.
proof fn lemma_lex_last(p: Seq<char>, x: char, y: char)
    requires
        (x as u32) < (y as u32),
    ensures
        lex_before(p.push(x), p.push(y)),
{
    let k = p.len() as int;
    assert(p.push(x).subrange(0, k) =~= p);
    assert(p.push(y).subrange(0, k) =~= p);
    assert(p.push(x)[k] == x && p.push(y)[k] == y);
}

/// Extending sorted strings of one length by sorted choices, prefix-major, keeps them
/// sorted.
proof fn lemma_extend_sorted(p: Seq<Seq<char>>, c: Seq<char>, l: int)
    requires
        lex_sorted(p),
        forall|i: int| 0 <= i < p.len() ==> (#[trigger] p[i]).len() == l,
        sorted_chars(c),
    ensures
        lex_sorted(extend_all(p, c)),
        forall|i: int| 0 <= i < extend_all(p, c).len() ==> (#[trigger] extend_all(p, c)[i]).len() == l + 1,
    decreases p.len(),
{
    if p.len() > 0 {
        let t = p.drop_last();
        let last = p.last();
        assert(lex_sorted(t)) by {
            assert forall|i: int, j: int| 0 <= i < j < t.len() implies lex_before(#[trigger] t[i], #[trigger] t[j]) by {
                assert(t[i] == p[i] && t[j] == p[j]);
            }
        }
        assert forall|i: int| 0 <= i < t.len() implies (#[trigger] t[i]).len() == l by {
            assert(t[i] == p[i]);
        }
        lemma_extend_sorted(t, c, l);
        let e = extend_all(t, c);
        let m = c.map_values(|x: char| last.push(x));
        assert(extend_all(p, c) == e + m);
        let all = e + m;
        assert(last.len() == l) by {
            assert(p[p.len() - 1] == last);
        }
        assert forall|i: int, j: int| 0 <= i < j < all.len() implies lex_before(#[trigger] all[i], #[trigger] all[j]) by {
            if j < e.len() {
                assert(all[i] == e[i] && all[j] == e[j]);
            } else if i >= e.len() {
                let i2 = i - e.len();
                let j2 = j - e.len();
                assert(all[i] == last.push(c[i2]) && all[j] == last.push(c[j2]));
                lemma_lex_last(last, c[i2], c[j2]);
            } else {
                let j2 = j - e.len();
                let a = e[i];
                assert(e.contains(a));
                lemma_extend_member(t, c, a);
                let q = choose|q: int| 0 <= q < t.len() && t[q] == a.drop_last();
                assert(t[q] == p[q]);
                assert(lex_before(p[q], p[p.len() - 1]));
                assert(a.drop_last().len() == l);
                lemma_lex_push(a.drop_last(), last, a.last(), c[j2]);
                assert(a.drop_last().push(a.last()) =~= a);
                assert(all[i] == a && all[j] == last.push(c[j2]));
            }
        }
        assert forall|i: int| 0 <= i < all.len() implies (#[trigger] all[i]).len() == l + 1 by {
            if i < e.len() {
                assert(all[i] == e[i]);
            } else {
                assert(all[i] == last.push(c[i - e.len()]));
            }
        }
    }
}

/// The product of sorted choice lists is sorted, each string one char per list.
proof fn lemma_product_sorted(opts: Seq<Seq<char>>)
    requires
        forall|i: int| 0 <= i < opts.len() ==> sorted_chars(#[trigger] opts[i]),
    ensures
        lex_sorted(product(opts)),
        forall|i: int| 0 <= i < product(opts).len() ==> (#[trigger] product(opts)[i]).len() == opts.len(),
    decreases opts.len(),
{
    if opts.len() > 0 {
        let ot = opts.drop_last();
        assert forall|i: int| 0 <= i < ot.len() implies sorted_chars(#[trigger] ot[i]) by {
            assert(ot[i] == opts[i]);
        }
        lemma_product_sorted(ot);
        assert(sorted_chars(opts.last())) by {
            assert(opts[opts.len() - 1] == opts.last());
        }
        lemma_extend_sorted(product(ot), opts.last(), ot.len() as int);
    } else {
        assert(product(opts) =~= seq![Seq::<char>::empty()]);
    }
}

/// A sorted char list has as many chars as its set.
proof fn lemma_sorted_len(v: Seq<char>)
    requires
        sorted_chars(v),
    ensures
        v.len() == v.to_set().len(),
{
    assert forall|i: int, j: int| 0 <= i < v.len() && 0 <= j < v.len() && i != j implies v[i] != v[j] by {
        if i < j {
            assert((v[i] as u32) < (v[j] as u32));
        } else {
            assert((v[j] as u32) < (v[i] as u32));
        }
    }
    assert(v.no_duplicates());
    v.unique_seq_to_set();
}

/// The sorted list of a set of chars.
pub open spec fn sorted_list(cs: Set<char>) -> Seq<char> {
    choose|v: Seq<char>| sorted_chars(v) && v.to_set() == cs
}

/// Two sorted lists agree on their first `i` chars when they hold the same chars.
proof fn lemma_sorted_prefix(a: Seq<char>, b: Seq<char>, i: int)
    requires
        sorted_chars(a),
        sorted_chars(b),
        a.to_set() == b.to_set(),
        a.len() == b.len(),
        0 <= i <= a.len(),
    ensures
        forall|k: int| 0 <= k < i ==> a[k] == b[k],
    decreases i,
{
    if i > 0 {
        lemma_sorted_prefix(a, b, i - 1);
        let k = i - 1;
        assert(a.to_set().contains(a[k]));
        assert(b.to_set().contains(a[k]));
        let j = choose|j: int| 0 <= j < b.len() && b[j] == a[k];
        if j < k {
            assert(b[j] == a[j]);
            assert((a[j] as u32) < (a[k] as u32));
        }
        if j > k {
            assert((b[k] as u32) < (b[j] as u32));
        }
        assert(b.to_set().contains(b[k]));
        assert(a.to_set().contains(b[k]));
        let j2 = choose|j2: int| 0 <= j2 < a.len() && a[j2] == b[k];
        if j2 < k {
            assert(a[j2] == b[j2]);
            assert((b[j2] as u32) < (b[k] as u32));
        }
        if j2 > k {
            assert((a[k] as u32) < (a[j2] as u32));
        }
        assert((a[k] as u32) == (b[k] as u32));
    }
}

/// Two sorted lists of the same chars are the same list.
pub proof fn lemma_sorted_unique(a: Seq<char>, b: Seq<char>)
    requires
        sorted_chars(a),
        sorted_chars(b),
        a.to_set() == b.to_set(),
    ensures
        a == b,
{
    lemma_sorted_len(a);
    lemma_sorted_len(b);
    lemma_sorted_prefix(a, b, a.len() as int);
    assert(a =~= b);
}

/// A sorted list of chars is the sorted list of its set.
pub proof fn lemma_sorted_list(v: Seq<char>)
    requires
        sorted_chars(v),
    ensures
        sorted_list(v.to_set()) == v,
{
    let w = sorted_list(v.to_set());
    assert(sorted_chars(w) && w.to_set() == v.to_set());
    lemma_sorted_unique(w, v);
}

/// `seen` holds exactly the strings in `out`, and `out` has no repeats.
pub open spec fn seen_matches(seen: Set<Seq<char>>, out: Seq<Seq<char>>) -> bool {
    &&& forall|x: Seq<char>| seen.contains(x) <==> out.contains(x)
    &&& forall|a: int, b: int| 0 <= a < b < out.len() ==> out[a] != out[b]
}

/// Append `s` unless already seen.
fn push_unique(seen: &mut StringHashSet, out: &mut Vec<String>, s: &String)
    requires
        seen_matches(old(seen)@, old(out)@.map_values(|x: String| x@)),
    ensures
        seen_matches(final(seen)@, final(out)@.map_values(|x: String| x@)),
        final(out)@.map_values(|x: String| x@) == (if old(out)@.map_values(|x: String| x@).contains(s@) {
            old(out)@.map_values(|x: String| x@)
        } else {
            old(out)@.map_values(|x: String| x@).push(s@)
        }),
{
    if seen.contains(s.as_str()) {
        return;
    }
    let ghost o = out@.map_values(|x: String| x@);
    seen.insert(s.clone());
    out.push(s.clone());
    assert(out@.map_values(|x: String| x@) =~= o.push(s@));
    assert forall|x: Seq<char>| seen@.contains(x) <==> o.push(s@).contains(x) by {
        if o.contains(x) {
            let i = choose|i: int| 0 <= i < o.len() && o[i] == x;
            assert(o.push(s@)[i] == x);
        }
        if o.push(s@).contains(x) && x != s@ {
            let i = choose|i: int| 0 <= i < o.len() + 1 && o.push(s@)[i] == x;
            assert(o[i] == x);
        }
        if x == s@ {
            assert(o.push(s@)[o.len() as int] == x);
        }
    }
    assert forall|a: int, b: int| 0 <= a < b < o.push(s@).len() implies o.push(s@)[a] != o.push(
        s@,
    )[b] by {
        if b == o.len() {
            assert(o.contains(o[a]));
        }
    }
}

impl CjkTables {
    /// The alias list of `c` (empty when none).
    pub open spec fn alias_of(&self, c: char) -> Seq<char> {
        if self.alias@.contains_key(c as u32) {
            self.alias@[c as u32]@
        } else {
            Seq::empty()
        }
    }

    /// The tables other than the aliases are those of `other`.
    pub open spec fn same_maps(&self, other: &CjkTables) -> bool {
        &&& self.jp2zht@ == other.jp2zht@
        &&& self.jp2zhs@ == other.jp2zhs@
        &&& self.zht2zhs@ == other.zht2zhs@
        &&& self.zhs2zht@ == other.zhs2zht@
        &&& self.zht2jp@ == other.zht2jp@
        &&& self.zhs2jp@ == other.zhs2jp@
        &&& self.cn2tw@ == other.cn2tw@
        &&& self.tw2cn@ == other.tw2cn@
    }

    /// Alias lists are sorted and distinct.
    pub open spec fn wf(&self) -> bool {
        forall|k: u32| #[trigger] self.alias@.contains_key(k) ==> sorted_chars(self.alias@[k]@)
    }

    /// `auto()` of one char: the char, its converted forms and all their aliases.
    pub open spec fn auto_set(&self, ch: char) -> Set<char> {
        let jt = map_or_self(self.jp2zht@, ch);
        let js = map_or_self(self.jp2zhs@, ch);
        set![
            ch,
            map_or_self(self.cn2tw@, ch),
            map_or_self(self.tw2cn@, ch),
            jt,
            js,
            map_or_self(self.tw2cn@, jt),
            map_or_self(self.cn2tw@, js),
        ].union(self.alias_of(ch).to_set()).union(self.alias_of(jt).to_set()).union(
            self.alias_of(js).to_set(),
        )
    }

    /// No table holds anything.
    pub open spec fn is_empty(&self) -> bool {
        &&& self.alias@ == Map::<u32, Vec<char>>::empty()
        &&& self.jp2zht@ == Map::<u32, char>::empty()
        &&& self.jp2zhs@ == Map::<u32, char>::empty()
        &&& self.zht2zhs@ == Map::<u32, char>::empty()
        &&& self.zhs2zht@ == Map::<u32, char>::empty()
        &&& self.zht2jp@ == Map::<u32, char>::empty()
        &&& self.zhs2jp@ == Map::<u32, char>::empty()
        &&& self.cn2tw@ == Map::<u32, char>::empty()
        &&& self.tw2cn@ == Map::<u32, char>::empty()
    }

    /// With empty tables every conversion of a word is the word itself, so the candidates
    /// of a list are its own strings.
    pub proof fn lemma_arr_list_empty(&self, items: Seq<Seq<char>>)
        requires
            self.is_empty(),
        ensures
            forall|x: Seq<char>| #[trigger] self.arr_list(items).contains(x) <==> items.contains(x),
        decreases items.len(),
    {
        if items.len() > 0 {
            let t = items.drop_last();
            self.lemma_arr_list_empty(t);
            let w = items.last();
            assert(convert_seq(self.cn2tw@, w) =~= w);
            assert(convert_seq2(self.zhs2zht@, self.jp2zht@, w) =~= w);
            assert(convert_seq2(self.zht2zhs@, self.jp2zhs@, w) =~= w);
            assert(convert_seq2(self.zhs2jp@, self.zht2jp@, w) =~= w);
            let c = self.arr_candidates(w);
            assert forall|x: Seq<char>| #[trigger] self.arr_list(items).contains(x) <==> items.contains(x) by {
                let l = self.arr_list(items);
                assert(l == self.arr_list(t) + c);
                if l.contains(x) {
                    let i = choose|i: int| 0 <= i < l.len() && l[i] == x;
                    if i < self.arr_list(t).len() {
                        assert(self.arr_list(t)[i] == x);
                        assert(self.arr_list(t).contains(x));
                        let j = choose|j: int| 0 <= j < t.len() && t[j] == x;
                        assert(items[j] == x);
                    } else {
                        assert(c[i - self.arr_list(t).len()] == x);
                        assert(items[items.len() - 1] == x);
                    }
                }
                if items.contains(x) {
                    let j = choose|j: int| 0 <= j < items.len() && items[j] == x;
                    if j < t.len() {
                        assert(t[j] == x);
                        assert(self.arr_list(t).contains(x));
                        let i = choose|i: int| 0 <= i < self.arr_list(t).len() && self.arr_list(t)[i] == x;
                        assert(l[i] == x);
                    } else {
                        assert(c[0] == x);
                        assert(l[self.arr_list(t).len() as int] == x);
                    }
                }
            }
        }
    }

    /// Empty tables.
    pub fn new() -> (r: Self)
        ensures
            r.wf(),
            r.is_empty(),
    {
        broadcast use vstd::std_specs::hash::group_hash_axioms;

        CjkTables {
            alias: HashMapWithView::new(),
            jp2zht: HashMapWithView::new(),
            jp2zhs: HashMapWithView::new(),
            zht2zhs: HashMapWithView::new(),
            zhs2zht: HashMapWithView::new(),
            zht2jp: HashMapWithView::new(),
            zhs2jp: HashMapWithView::new(),
            cn2tw: HashMapWithView::new(),
            tw2cn: HashMapWithView::new(),
        }
    }

    fn alias_list(&self, c: char) -> (r: Vec<char>)
        requires
            self.wf(),
        ensures
            r@ == self.alias_of(c),
            sorted_chars(r@),
    {
        match self.alias.get(&(c as u32)) {
            Some(v) => v.clone(),
            None => Vec::new(),
        }
    }

    /// Add `to` to the alias list of `from`.
    pub fn add_alias(&mut self, from: char, to: char)
        requires
            old(self).wf(),
        ensures
            final(self).wf(),
            final(self).alias_of(from).to_set() == old(self).alias_of(from).to_set().insert(to),
            forall|c: char|
                c != from ==> #[trigger] final(self).alias_of(c) == old(self).alias_of(c),
            final(self).same_maps(old(self)),
    {
        let mut list = self.alias_list(from);
        insert_sorted(&mut list, to);
        self.alias.insert(from as u32, list);
        proof {
            assert forall|c: char| c != from implies #[trigger] self.alias_of(c) == old(
                self,
            ).alias_of(c) by {
                crate::text::lemma_char_range(c);
                crate::text::lemma_char_range(from);
                assert((c as u32) != (from as u32));
            }
        }
    }

    /// Every member of a group becomes an alias of every member.
    pub fn add_alias_group(&mut self, members: &Vec<char>)
        requires
            old(self).wf(),
        ensures
            final(self).wf(),
            forall|c: char| #[trigger] final(self).alias_of(c).to_set() == (if members@.contains(c) {
                old(self).alias_of(c).to_set().union(members@.to_set())
            } else {
                old(self).alias_of(c).to_set()
            }),
            final(self).same_maps(old(self)),
    {
        let mut i: usize = 0;
        while i < members.len()
            invariant
                self.wf(),
                i <= members@.len(),
                self.same_maps(old(self)),
                forall|c: char| #[trigger] self.alias_of(c).to_set() == (if members@.take(i as int).contains(c) {
                    old(self).alias_of(c).to_set().union(members@.to_set())
                } else {
                    old(self).alias_of(c).to_set()
                }),
            decreases members@.len() - i,
        {
            let m = members[i];
            let ghost before = *self;
            let mut j: usize = 0;
            while j < members.len()
                invariant
                    self.wf(),
                    i < members@.len(),
                    m == members@[i as int],
                    j <= members@.len(),
                    self.same_maps(old(self)),
                    forall|c: char| c != m ==> #[trigger] self.alias_of(c) == before.alias_of(c),
                    self.alias_of(m).to_set() == before.alias_of(m).to_set().union(members@.take(j as int).to_set()),
                decreases members@.len() - j,
            {
                proof {
                    assert(members@.take(j + 1) =~= members@.take(j as int).push(members@[j as int]));
                    members@.take(j as int).lemma_push_to_set_commute(members@[j as int]);
                }
                self.add_alias(m, members[j]);
                proof {
                    assert(before.alias_of(m).to_set().union(members@.take(j as int).to_set()).insert(members@[j as int])
                        =~= before.alias_of(m).to_set().union(members@.take(j + 1).to_set()));
                }
                j += 1;
            }
            proof {
                assert(members@.take(members@.len() as int) =~= members@);
                assert(members@.take(i + 1) =~= members@.take(i as int).push(m));
                assert forall|c: char| #[trigger] self.alias_of(c).to_set() == (if members@.take(i + 1).contains(c) {
                    old(self).alias_of(c).to_set().union(members@.to_set())
                } else {
                    old(self).alias_of(c).to_set()
                }) by {
                    if c == m {
                        assert(members@.take(i + 1)[i as int] == c);
                        if members@.take(i as int).contains(c) {
                            assert(before.alias_of(c).to_set().union(members@.to_set()) =~= old(self).alias_of(c).to_set().union(members@.to_set()));
                        }
                    } else {
                        assert(self.alias_of(c) == before.alias_of(c));
                        if members@.take(i + 1).contains(c) {
                            let k = choose|k: int| 0 <= k < i + 1 && #[trigger] members@.take(i + 1)[k] == c;
                            assert(members@.take(i as int)[k] == c);
                        }
                        if members@.take(i as int).contains(c) {
                            let k = choose|k: int| 0 <= k < i && #[trigger] members@.take(i as int)[k] == c;
                            assert(members@.take(i + 1)[k] == c);
                        }
                    }
                }
            }
            i += 1;
        }
        proof {
            assert(members@.take(members@.len() as int) =~= members@);
        }
    }

    /// Set one simplified→traditional pair (the first target of a row wins).
    pub fn set_cn2tw(&mut self, from: char, to: char)
        ensures
            final(self).cn2tw@ == (if old(self).cn2tw@.contains_key(from as u32) {
                old(self).cn2tw@
            } else {
                old(self).cn2tw@.insert(from as u32, to)
            }),
            final(self).alias@ == old(self).alias@,
            final(self).tw2cn@ == old(self).tw2cn@,
            final(self).jp2zht@ == old(self).jp2zht@,
            final(self).jp2zhs@ == old(self).jp2zhs@,
            final(self).zht2zhs@ == old(self).zht2zhs@,
            final(self).zhs2zht@ == old(self).zhs2zht@,
            final(self).zht2jp@ == old(self).zht2jp@,
            final(self).zhs2jp@ == old(self).zhs2jp@,
    {
        if !self.cn2tw.contains_key(&(from as u32)) {
            self.cn2tw.insert(from as u32, to);
        }
    }

    /// Set one traditional→simplified pair (the first target of a row wins).
    pub fn set_tw2cn(&mut self, from: char, to: char)
        ensures
            final(self).tw2cn@ == (if old(self).tw2cn@.contains_key(from as u32) {
                old(self).tw2cn@
            } else {
                old(self).tw2cn@.insert(from as u32, to)
            }),
            final(self).alias@ == old(self).alias@,
            final(self).cn2tw@ == old(self).cn2tw@,
            final(self).jp2zht@ == old(self).jp2zht@,
            final(self).jp2zhs@ == old(self).jp2zhs@,
            final(self).zht2zhs@ == old(self).zht2zhs@,
            final(self).zhs2zht@ == old(self).zhs2zht@,
            final(self).zht2jp@ == old(self).zht2jp@,
            final(self).zhs2jp@ == old(self).zhs2jp@,
    {
        if !self.tw2cn.contains_key(&(from as u32)) {
            self.tw2cn.insert(from as u32, to);
        }
    }

    /// One row of the Japanese table: (Japanese, traditional, simplified).
    pub fn add_jp_row(&mut self, jp: char, zht: char, zhs: char)
        ensures
            final(self).jp2zht@ == old(self).jp2zht@.insert(jp as u32, zht),
            final(self).jp2zhs@ == old(self).jp2zhs@.insert(jp as u32, zhs),
            final(self).zht2zhs@ == old(self).zht2zhs@.insert(zht as u32, zhs),
            final(self).zhs2zht@ == old(self).zhs2zht@.insert(zhs as u32, zht),
            final(self).zht2jp@ == old(self).zht2jp@.insert(zht as u32, jp),
            final(self).zhs2jp@ == old(self).zhs2jp@.insert(zhs as u32, jp),
            final(self).alias@ == old(self).alias@,
            final(self).cn2tw@ == old(self).cn2tw@,
            final(self).tw2cn@ == old(self).tw2cn@,
    {
        self.jp2zht.insert(jp as u32, zht);
        self.jp2zhs.insert(jp as u32, zhs);
        self.zht2zhs.insert(zht as u32, zhs);
        self.zhs2zht.insert(zhs as u32, zht);
        self.zht2jp.insert(zht as u32, jp);
        self.zhs2jp.insert(zhs as u32, jp);
    }

    /// `auto()` with `{ safe: true }`: every variant of `ch`, sorted by code point.
    pub fn auto_char(&self, ch: char) -> (r: Vec<char>)
        requires
            self.wf(),
        ensures
            sorted_chars(r@),
            r@.to_set() == self.auto_set(ch),
            r@.contains(ch),
            r@ == sorted_list(self.auto_set(ch)),
    {
        let mut out: Vec<char> = Vec::new();
        let jt = map_char(&self.jp2zht, ch);
        let js = map_char(&self.jp2zhs, ch);
        let ghost e = Set::<char>::empty();
        assert(out@.to_set() =~= e);
        insert_sorted(&mut out, ch);
        let a1 = self.alias_list(ch);
        insert_all_sorted(&mut out, &a1);
        insert_sorted(&mut out, map_char(&self.cn2tw, ch));
        insert_sorted(&mut out, map_char(&self.tw2cn, ch));
        insert_sorted(&mut out, jt);
        insert_sorted(&mut out, js);
        insert_sorted(&mut out, map_char(&self.tw2cn, jt));
        insert_sorted(&mut out, map_char(&self.cn2tw, js));
        let a2 = self.alias_list(jt);
        insert_all_sorted(&mut out, &a2);
        let a3 = self.alias_list(js);
        insert_all_sorted(&mut out, &a3);
        assert(out@.to_set() =~= self.auto_set(ch));
        assert(out@.to_set().contains(ch));
        proof {
            lemma_sorted_list(out@);
        }
        out
    }

    /// Character-level Simplified → Traditional.
    pub fn convert_cn2tw(&self, text: &str) -> (r: String)
        ensures
            r@ == convert_seq(self.cn2tw@, text@),
    {
        convert_chars(&self.cn2tw, None, text)
    }

    /// Character-level Traditional → Simplified.
    pub fn convert_tw2cn(&self, text: &str) -> (r: String)
        ensures
            r@ == convert_seq(self.tw2cn@, text@),
    {
        convert_chars(&self.tw2cn, None, text)
    }

    /// The whole-string conversions `arr_cjk` tries for one word, the word itself first.
    pub open spec fn arr_candidates(&self, w: Seq<char>) -> Seq<Seq<char>> {
        seq![
            w,
            convert_seq2(self.zhs2zht@, self.jp2zht@, w),
            convert_seq(self.cn2tw@, w),
            convert_seq2(self.zht2zhs@, self.jp2zhs@, w),
            convert_seq2(self.zhs2jp@, self.zht2jp@, w),
        ]
    }

    /// All candidates of all items, in order.
    pub open spec fn arr_list(&self, items: Seq<Seq<char>>) -> Seq<Seq<char>>
        decreases items.len(),
    {
        if items.len() == 0 {
            Seq::empty()
        } else {
            self.arr_list(items.drop_last()) + self.arr_candidates(items.last())
        }
    }

    /// Each item and its whole-string conversions, first occurrences only.
    pub fn arr_cjk(&self, items: &Vec<String>) -> (r: Vec<String>)
        ensures
            r@.map_values(|s: String| s@) == dedup_first(
                self.arr_list(items@.map_values(|s: String| s@)),
            ),
    {
        let ghost iv = items@.map_values(|s: String| s@);
        let mut seen = StringHashSet::new();
        let mut out: Vec<String> = Vec::new();
        let mut i: usize = 0;
        assert(out@.map_values(|s: String| s@) =~= dedup_first(Seq::<Seq<char>>::empty()));
        while i < items.len()
            invariant
                i <= items@.len(),
                iv == items@.map_values(|s: String| s@),
                seen_matches(seen@, out@.map_values(|s: String| s@)),
                out@.map_values(|s: String| s@) == dedup_first(self.arr_list(iv.take(i as int))),
            decreases items@.len() - i,
        {
            let w = items[i].as_str();
            let cands = [
                w.to_owned(),
                convert_chars(&self.zhs2zht, Some(&self.jp2zht), w),
                convert_chars(&self.cn2tw, None, w),
                convert_chars(&self.zht2zhs, Some(&self.jp2zhs), w),
                convert_chars(&self.zhs2jp, Some(&self.zht2jp), w),
            ];
            let ghost cs = self.arr_candidates(iv[i as int]);
            assert(cands@.map_values(|s: String| s@) =~= cs);
            let ghost base = self.arr_list(iv.take(i as int));
            let mut k: usize = 0;
            while k < 5
                invariant
                    k <= 5,
                    cands@.map_values(|s: String| s@) == cs,
                    seen_matches(seen@, out@.map_values(|s: String| s@)),
                    out@.map_values(|s: String| s@) == dedup_first(base + cs.take(k as int)),
                decreases 5 - k,
            {
                push_unique(&mut seen, &mut out, &cands[k]);
                proof {
                    assert((base + cs.take(k + 1)).drop_last() =~= base + cs.take(k as int));
                    assert((base + cs.take(k + 1)).last() == cs[k as int]);
                }
                k += 1;
            }
            proof {
                assert(iv.take(i + 1).drop_last() =~= iv.take(i as int));
                assert(cs.take(5) =~= cs);
            }
            i += 1;
        }
        assert(iv.take(items@.len() as int) =~= iv);
        out
    }

    /// `s` takes, at each position, one of the variants of the char of `w` there.
    pub open spec fn variant_of(&self, w: Seq<char>, s: Seq<char>) -> bool {
        s.len() == w.len() && forall|i: int| 0 <= i < w.len() ==> #[trigger] self.auto_set(w[i]).contains(s[i])
    }

    /// How many strings `variant_of` admits for `w`.
    pub open spec fn variant_count(&self, w: Seq<char>) -> int
        decreases w.len(),
    {
        if w.len() == 0 {
            1
        } else {
            self.variant_count(w.drop_last()) * self.auto_set(w.last()).len()
        }
    }

    /// The sorted variants of each char of `w`.
    pub open spec fn variant_lists(&self, w: Seq<char>) -> Seq<Seq<char>> {
        w.map_values(|c: char| sorted_list(self.auto_set(c)))
    }

    /// What `text_list` gives: the word itself when empty; the whole-string conversions
    /// when there would be more than 65536 combinations; else every combination of the
    /// chars' sorted variants, in order.
    pub open spec fn text_list_spec(&self, w: Seq<char>) -> Seq<Seq<char>> {
        if w.len() == 0 {
            seq![w]
        } else if self.variant_count(w) > 65536 {
            dedup_first(self.arr_candidates(w))
        } else {
            product(self.variant_lists(w))
        }
    }

    /// The variant lists of the items, one after another.
    pub open spec fn list_variants(&self, items: Seq<Seq<char>>) -> Seq<Seq<char>>
        decreases items.len(),
    {
        if items.len() == 0 {
            Seq::empty()
        } else {
            self.list_variants(items.drop_last()) + self.text_list_spec(items.last())
        }
    }

    /// Every combination of per-char variants (already in sorted order, since
    /// each char's variants are sorted and all results have the same length); when there
    /// would be more than 65536, the whole-string conversions of `arr_cjk` instead.
    pub fn text_list(&self, word: &str) -> (r: Vec<String>)
        requires
            self.wf(),
        ensures
            string_views(r@) == self.text_list_spec(word@),
            word@.len() > 0 && self.variant_count(word@) <= 65536 ==> lex_sorted(string_views(r@)),
            r@.map_values(|s: String| s@).contains(word@),
            word@.len() == 0 ==> r@.map_values(|s: String| s@) == seq![word@],
            word@.len() > 0 && self.variant_count(word@) > 65536 ==> r@.map_values(|s: String| s@) == dedup_first(
                self.arr_candidates(word@),
            ),
            word@.len() > 0 && self.variant_count(word@) <= 65536 ==> forall|s: Seq<char>|
                #![trigger string_views(r@).contains(s)]
                #![trigger self.variant_of(word@, s)]
                string_views(r@).contains(s) <==> self.variant_of(word@, s),
    {
        if word.is_empty() {
            let r = vec![word.to_owned()];
            assert(r@.map_values(|s: String| s@)[0] == word@);
            return r;
        }
        let chars = chars_of(word);
        let mut opts: Vec<Vec<char>> = Vec::new();
        let mut total: usize = 1;
        let mut too_many = false;
        let mut i: usize = 0;
        while i < chars.len()
            invariant
                chars@ == word@,
                i <= chars@.len(),
                opts@.len() == i,
                self.wf(),
                forall|j: int| 0 <= j < i ==> (#[trigger] opts@[j])@.contains(chars@[j]),
                forall|j: int| 0 <= j < i ==> (#[trigger] opts@[j])@.to_set() == self.auto_set(chars@[j]),
                forall|j: int| 0 <= j < i ==> (#[trigger] opts@[j])@ == sorted_list(self.auto_set(chars@[j])),
                forall|j: int| 0 <= j < i ==> sorted_chars((#[trigger] opts@[j])@),
                !too_many ==> total as int == self.variant_count(word@.take(i as int)) && total <= 65536,
                too_many ==> self.variant_count(word@.take(i as int)) > 65536,
            decreases chars@.len() - i,
        {
            let o = self.auto_char(chars[i]);
            let ghost vc = self.variant_count(word@.take(i as int));
            let ghost len = self.auto_set(chars@[i as int]).len();
            proof {
                assert(word@.take(i + 1).drop_last() =~= word@.take(i as int));
                assert(word@.take(i + 1).last() == chars@[i as int]);
                assert(self.variant_count(word@.take(i + 1)) == vc * len);
                lemma_sorted_len(o@);
                assert(o@.len() == len);
                assert(o@.len() >= 1) by {
                    let k = choose|k: int| 0 <= k < o@.len() && o@[k] == chars@[i as int];
                }
                if too_many {
                    assert(vc * len >= vc) by (nonlinear_arith)
                        requires
                            len >= 1,
                            vc > 65536,
                    ;
                }
            }
            if !too_many {
                match total.checked_mul(o.len()) {
                    Some(t) => {
                        total = t;
                        if total > 65536 {
                            too_many = true;
                        }
                    },
                    None => {
                        proof {
                            assert(vc * len > 65536) by (nonlinear_arith)
                                requires
                                    vc * len > usize::MAX,
                            ;
                        }
                        too_many = true;
                    },
                }
            }
            opts.push(o);
            i += 1;
        }
        proof {
            assert(word@.take(chars@.len() as int) =~= word@);
        }
        if too_many {
            let items = vec![word.to_owned()];
            let r = self.arr_cjk(&items);
            proof {
                let iv = items@.map_values(|s: String| s@);
                assert(iv.drop_last() =~= Seq::<Seq<char>>::empty());
                assert(iv.last() == word@);
                assert(self.arr_list(iv.drop_last()) == Seq::<Seq<char>>::empty());
                assert(self.arr_list(iv) =~= self.arr_candidates(word@));
                assert(Seq::<Seq<char>>::empty() + self.arr_candidates(word@) =~= self.arr_candidates(word@));
                assert(self.arr_candidates(word@)[0] == word@);
                assert(self.arr_list(iv).contains(word@));
                lemma_dedup_first(self.arr_list(iv));
            }
            return r;
        }
        let mut acc: Vec<Vec<char>> = Vec::new();
        acc.push(Vec::new());
        let ghost ov = opts@.map_values(|v: Vec<char>| v@);
        proof {
            assert(acc@.map_values(|v: Vec<char>| v@) =~= product(ov.take(0)));
        }
        let mut k: usize = 0;
        while k < opts.len()
            invariant
                k <= opts@.len(),
                ov == opts@.map_values(|v: Vec<char>| v@),
                acc@.map_values(|v: Vec<char>| v@) == product(ov.take(k as int)),
            decreases opts@.len() - k,
        {
            let choices = &opts[k];
            let mut next: Vec<Vec<char>> = Vec::new();
            let mut a: usize = 0;
            while a < acc.len()
                invariant
                    a <= acc@.len(),
                    k < ov.len(),
                    choices@ == ov[k as int],
                    next@.map_values(|v: Vec<char>| v@) == extend_all(
                        acc@.map_values(|v: Vec<char>| v@).take(a as int),
                        choices@,
                    ),
                decreases acc@.len() - a,
            {
                let mut b: usize = 0;
                let ghost before = next@.map_values(|v: Vec<char>| v@);
                while b < choices.len()
                    invariant
                        a < acc@.len(),
                        b <= choices@.len(),
                        next@.map_values(|v: Vec<char>| v@) == before + choices@.take(b as int).map_values(
                            |c: char| acc@[a as int]@.push(c),
                        ),
                    decreases choices@.len() - b,
                {
                    let mut s = copy_chars(&acc[a]);
                    s.push(choices[b]);
                    let ghost old_next = next@;
                    let ghost sv = s@;
                    next.push(s);
                    proof {
                        assert(sv == acc@[a as int]@.push(choices@[b as int]));
                        assert(next@.map_values(|v: Vec<char>| v@) =~= old_next.map_values(|v: Vec<char>| v@).push(sv));
                        assert(choices@.take(b + 1).map_values(|c: char| acc@[a as int]@.push(c)) =~= choices@.take(b as int).map_values(|c: char| acc@[a as int]@.push(c)).push(sv));
                        assert(choices@.take(b + 1) =~= choices@.take(b as int).push(choices@[b as int]));
                        assert(next@.map_values(|v: Vec<char>| v@) =~= before + choices@.take(b + 1).map_values(
                            |c: char| acc@[a as int]@.push(c),
                        ));
                    }
                    b += 1;
                }
                proof {
                    let av = acc@.map_values(|v: Vec<char>| v@);
                    assert(av.take(a + 1).drop_last() =~= av.take(a as int));
                    assert(av.take(a + 1).last() == acc@[a as int]@);
                    assert(choices@.take(choices@.len() as int) =~= choices@);
                }
                a += 1;
            }
            proof {
                let av = acc@.map_values(|v: Vec<char>| v@);
                assert(av.take(av.len() as int) =~= av);
                assert(ov.take(k + 1).drop_last() =~= ov.take(k as int));
                assert(ov.take(k + 1).last() == ov[k as int]);
            }
            acc = next;
            k += 1;
        }
        let mut out: Vec<String> = Vec::new();
        let mut j: usize = 0;
        while j < acc.len()
            invariant
                j <= acc@.len(),
                out@.map_values(|s: String| s@) == acc@.map_values(|v: Vec<char>| v@).take(j as int),
            decreases acc@.len() - j,
        {
            out.push(string_from_chars(acc[j].as_slice()));
            proof {
                let av = acc@.map_values(|v: Vec<char>| v@);
                assert(av.take(j + 1) =~= av.take(j as int).push(av[j as int]));
                assert(out@.map_values(|s: String| s@) =~= av.take(j + 1));
            }
            j += 1;
        }
        proof {
            let av = acc@.map_values(|v: Vec<char>| v@);
            assert(av.take(av.len() as int) =~= av);
            assert(ov.take(ov.len() as int) =~= ov);
            assert forall|i: int| 0 <= i < word@.len() implies #[trigger] ov[i].contains(word@[i]) by {
                assert(ov[i] == opts@[i]@);
            }
            lemma_product_contains(ov, word@);
            assert(string_views(out@) == av);
            assert(ov =~= self.variant_lists(word@));
            assert forall|i: int| 0 <= i < ov.len() implies sorted_chars(#[trigger] ov[i]) by {
                assert(ov[i] == opts@[i]@);
            }
            lemma_product_sorted(ov);
            assert forall|s: Seq<char>| #[trigger] av.contains(s) <==> self.variant_of(word@, s) by {
                if av.contains(s) {
                    lemma_product_member(ov, s);
                    assert forall|i: int| 0 <= i < word@.len() implies #[trigger] self.auto_set(word@[i]).contains(s[i]) by {
                        assert(ov[i] == opts@[i]@);
                        assert(ov[i].contains(s[i]));
                        assert(opts@[i]@.to_set().contains(s[i]));
                    }
                }
                if self.variant_of(word@, s) {
                    assert forall|i: int| 0 <= i < s.len() implies #[trigger] ov[i].contains(s[i]) by {
                        assert(ov[i] == opts@[i]@);
                        assert(self.auto_set(word@[i]).contains(s[i]));
                        assert(opts@[i]@.to_set().contains(s[i]));
                    }
                    lemma_product_contains(ov, s);
                }
            }
        }
        out
    }

    /// Same as `text_list`.
    pub fn expand_cjk_variants(&self, word: &str) -> (r: Vec<String>)
        requires
            self.wf(),
        ensures
            string_views(r@) == self.text_list_spec(word@),
            word@.len() > 0 && self.variant_count(word@) <= 65536 ==> lex_sorted(string_views(r@)),
            r@.map_values(|s: String| s@).contains(word@),
            word@.len() == 0 ==> r@.map_values(|s: String| s@) == seq![word@],
            word@.len() > 0 && self.variant_count(word@) > 65536 ==> r@.map_values(|s: String| s@) == dedup_first(
                self.arr_candidates(word@),
            ),
            word@.len() > 0 && self.variant_count(word@) <= 65536 ==> forall|s: Seq<char>|
                #![trigger string_views(r@).contains(s)]
                #![trigger self.variant_of(word@, s)]
                string_views(r@).contains(s) <==> self.variant_of(word@, s),
    {
        self.text_list(word)
    }

    /// `text_list` of every item, first occurrences only.
    pub fn expand_cjk_list(&self, items: &Vec<String>) -> (r: Vec<String>)
        requires
            self.wf(),
        ensures
            string_views(r@) == dedup_first(self.list_variants(string_views(items@))),
            forall|i: int|
                0 <= i < items@.len() ==> r@.map_values(|s: String| s@).contains(
                    #[trigger] items@[i]@,
                ),
    {
        let ghost iv = string_views(items@);
        let mut seen = StringHashSet::new();
        let mut out: Vec<String> = Vec::new();
        let mut i: usize = 0;
        assert(seen_matches(seen@, out@.map_values(|x: String| x@)));
        proof {
            assert(iv.take(0) =~= Seq::<Seq<char>>::empty());
            assert(string_views(out@) =~= dedup_first(Seq::<Seq<char>>::empty()));
        }
        while i < items.len()
            invariant
                i <= items@.len(),
                self.wf(),
                iv == string_views(items@),
                seen_matches(seen@, out@.map_values(|x: String| x@)),
                forall|j: int|
                    0 <= j < i ==> out@.map_values(|s: String| s@).contains(#[trigger] items@[j]@),
                string_views(out@) == dedup_first(self.list_variants(iv.take(i as int))),
            decreases items@.len() - i,
        {
            let list = self.text_list(items[i].as_str());
            let ghost lv = string_views(list@);
            let ghost base = self.list_variants(iv.take(i as int));
            proof {
                assert(iv.take(i + 1).drop_last() =~= iv.take(i as int));
                assert(iv.take(i + 1).last() == items@[i as int]@);
                assert(lv == self.text_list_spec(items@[i as int]@));
                assert(base + lv.take(0) =~= base);
            }
            let mut k: usize = 0;
            while k < list.len()
                invariant
                    k <= list@.len(),
                    i < items@.len(),
                    lv == string_views(list@),
                    seen_matches(seen@, out@.map_values(|x: String| x@)),
                    forall|j: int|
                        0 <= j < i ==> out@.map_values(|s: String| s@).contains(#[trigger] items@[j]@),
                    forall|m: int|
                        0 <= m < k ==> out@.map_values(|s: String| s@).contains(#[trigger] list@[m]@),
                    string_views(out@) == dedup_first(base + lv.take(k as int)),
                decreases list@.len() - k,
            {
                let ghost o = out@.map_values(|x: String| x@);
                push_unique(&mut seen, &mut out, &list[k]);
                proof {
                    let xs = base + lv.take(k as int);
                    assert((base + lv.take(k + 1)).drop_last() =~= xs);
                    assert((base + lv.take(k + 1)).last() == list@[k as int]@);
                    assert(string_views(out@) =~= out@.map_values(|x: String| x@));
                }
                proof {
                    let o2 = out@.map_values(|x: String| x@);
                    assert forall|x: Seq<char>| o.contains(x) implies o2.contains(x) by {
                        let p = choose|p: int| 0 <= p < o.len() && o[p] == x;
                        if o2 != o {
                            assert(o2 == o.push(list@[k as int]@));
                            assert(o2[p] == x);
                        }
                    }
                    assert(o2.contains(list@[k as int]@)) by {
                        if o2 != o {
                            assert(o2[o.len() as int] == list@[k as int]@);
                        }
                    }
                }
                k += 1;
            }
            proof {
                let lv2 = list@.map_values(|s: String| s@);
                let p = choose|p: int| 0 <= p < lv2.len() && lv2[p] == items@[i as int]@;
                assert(out@.map_values(|s: String| s@).contains(list@[p]@));
                assert(lv.take(lv.len() as int) =~= lv);
            }
            i += 1;
        }
        proof {
            assert(iv.take(iv.len() as int) =~= iv);
        }
        out
    }
}

} // verus!
