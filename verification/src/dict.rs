//! Dictionary tables.
use vstd::prelude::*;
use vstd::hash_map::StringHashMap;
use vstd::hash_set::StringHashSet;
use crate::strs::{trim, trim_seq, to_owned_string};
use crate::text::{char_len, u16_len};

verus! {

/// One dictionary row: POS flags, weight (bit pattern), native flag.
#[derive(Clone, Copy, Debug, PartialEq, Eq)]
pub struct DictEntry {
    pub p: u32,
    pub f: u64,
    pub s: bool,
}

/// Main word table (`TABLE`) plus the sorted list of word lengths present (`TABLE2`'s keys).
///
/// The length buckets of the table are the words of `table` grouped by UTF-16 length;
/// `lengths` lists every length in use, ascending.
pub struct TableDict {
    pub table: StringHashMap<DictEntry>,
    pub lengths: Vec<usize>,
}

impl TableDict {
    /// Lengths sorted strictly ascending, all positive, covering every key's length;
    /// no key is empty.
    pub open spec fn wf(&self) -> bool {
        &&& forall|i: int, j: int|
            0 <= i < j < self.lengths@.len() ==> self.lengths@[i] < self.lengths@[j]
        &&& forall|i: int| 0 <= i < self.lengths@.len() ==> self.lengths@[i] >= 1
        &&& forall|k: Seq<char>|
            #[trigger] self.table@.contains_key(k) ==> k.len() > 0 && exists|i: int|
                0 <= i < self.lengths@.len() && self.lengths@[i] == u16_len(k)
    }

    /// No word of the table holds U+FFFD, the char a lone surrogate decodes to.
    pub open spec fn no_fffd_keys(&self) -> bool {
        forall|k: Seq<char>| #[trigger] self.table@.contains_key(k) ==> !k.contains('\u{FFFD}')
    }

    pub fn new() -> (r: Self)
        ensures
            r.wf(),
            r.table@ == Map::<Seq<char>, DictEntry>::empty(),
    {
        TableDict { table: StringHashMap::new(), lengths: Vec::new() }
    }

    /// The entry of `w`, if the table has one.
    pub fn get(&self, w: &str) -> (r: Option<&DictEntry>)
        ensures
            match r {
                Some(e) => self.table@.contains_key(w@) && *e == self.table@[w@],
                None => !self.table@.contains_key(w@),
            },
    {
        self.table.get(w)
    }

    pub fn contains(&self, w: &str) -> (r: bool)
        ensures
            r == self.table@.contains_key(w@),
    {
        self.table.contains_key(w)
    }

    /// Insert `len` into the sorted length list.
    fn note_length(&mut self, len: usize)
        requires
            old(self).wf(),
            len >= 1,
        ensures
            final(self).table == old(self).table,
            final(self).wf(),
            exists|i: int| 0 <= i < final(self).lengths@.len() && final(self).lengths@[i] == len,
            forall|x: usize|
                old(self).lengths@.contains(x) ==> #[trigger] final(self).lengths@.contains(x),
    {
        let mut i: usize = 0;
        while i < self.lengths.len() && self.lengths[i] < len
            invariant
                i <= self.lengths@.len(),
                forall|j: int| 0 <= j < i ==> self.lengths@[j] < len,
            decreases self.lengths@.len() - i,
        {
            i += 1;
        }
        if i < self.lengths.len() && self.lengths[i] == len {
            assert(self.lengths@.contains(len) ==> true);
            return;
        }
        let ghost old_l = self.lengths@;
        self.lengths.insert(i, len);
        assert(self.lengths@ == old_l.insert(i as int, len));
        assert forall|x: usize| old_l.contains(x) implies #[trigger] self.lengths@.contains(x) by {
            let k = choose|k: int| 0 <= k < old_l.len() && old_l[k] == x;
            if k < i {
                assert(self.lengths@[k] == x);
            } else {
                assert(self.lengths@[k + 1] == x);
            }
        }
        assert forall|k: Seq<char>| #[trigger] self.table@.contains_key(k) implies k.len() > 0
            && exists|j: int| 0 <= j < self.lengths@.len() && self.lengths@[j] == u16_len(k) by {
            let j = choose|j: int| 0 <= j < old_l.len() && old_l[j] == u16_len(k);
            if j < i {
                assert(self.lengths@[j] == u16_len(k));
            } else {
                assert(self.lengths@[j + 1] == u16_len(k));
            }
        }
        assert(self.lengths@[i as int] == len);
    }

    /// Add or replace an entry; an empty word is ignored.
    pub fn add(&mut self, w: String, p: u32, f: u64, s: bool)
        requires
            old(self).wf(),
        ensures
            final(self).wf(),
            final(self).table@ == (if w@.len() == 0 {
                old(self).table@
            } else {
                old(self).table@.insert(w@, DictEntry { p, f, s })
            }),
    {
        if w.as_str().is_empty() {
            return;
        }
        let len = char_len(w.as_str());
        proof {
            crate::text::lemma_encode_len_bound(w@);
        }
        self.note_length(len);
        let ghost wv = w@;
        let ghost li = choose|i: int| 0 <= i < self.lengths@.len() && self.lengths@[i] == len;
        self.table.insert(w, DictEntry { p, f, s });
        assert forall|k: Seq<char>| #[trigger] self.table@.contains_key(k) implies k.len() > 0
            && exists|j: int| 0 <= j < self.lengths@.len() && self.lengths@[j] == u16_len(k) by {
            if k != wv {
                assert(old(self).table@.contains_key(k));
                let j = choose|j: int|
                    0 <= j < old(self).lengths@.len() && old(self).lengths@[j] == u16_len(k);
                assert(old(self).lengths@.contains(old(self).lengths@[j]));
                assert(self.lengths@.contains(old(self).lengths@[j]));
            } else {
                assert(self.lengths@[li] == u16_len(k));
            }
        }
    }

    /// Remove an entry (its length stays listed; an unused length matches nothing).
    pub fn remove(&mut self, w: &str)
        requires
            old(self).wf(),
        ensures
            final(self).wf(),
            final(self).table@ == old(self).table@.remove(w@),
    {
        self.table.remove(w);
        assert(self.lengths@ == old(self).lengths@);
        assert forall|k: Seq<char>| #[trigger] self.table@.contains_key(k) implies k.len() > 0
            && exists|j: int| 0 <= j < self.lengths@.len() && self.lengths@[j] == u16_len(k) by {
            assert(old(self).table@.contains_key(k));
            let j = choose|j: int|
                0 <= j < old(self).lengths@.len() && old(self).lengths@[j] == u16_len(k);
            assert(self.lengths@[j] == u16_len(k));
        }
    }

    pub fn size(&self) -> (r: usize)
        ensures
            r == self.table@.len(),
    {
        self.table.len()
    }
}

/// Index of the first string equal to `w`.
pub fn index_of_str(items: &Vec<String>, w: &str) -> (r: Option<usize>)
    ensures
        match r {
            Some(i) => i < items@.len() && items@[i as int]@ == w@ && forall|j: int|
                0 <= j < i ==> items@[j]@ != w@,
            None => forall|j: int| 0 <= j < items@.len() ==> items@[j]@ != w@,
        },
{
    let mut i: usize = 0;
    while i < items.len()
        invariant
            i <= items@.len(),
            forall|j: int| 0 <= j < i ==> items@[j]@ != w@,
        decreases items@.len() - i,
    {
        if crate::strs::str_eq(items[i].as_str(), w) {
            return Some(i);
        }
        i += 1;
    }
    None
}

/// Set-like dictionary (stopword / blacklist), remembering insertion order for iteration.
pub struct SetDict {
    pub table: StringHashSet,
    pub items: Vec<String>,
}

impl SetDict {
    /// No word of the set holds U+FFFD, the char a lone surrogate decodes to.
    pub open spec fn no_fffd_words(&self) -> bool {
        forall|k: Seq<char>| #[trigger] self.table@.contains(k) ==> !k.contains('\u{FFFD}')
    }

    /// `items` lists the members of `table`, each once.
    pub open spec fn wf(&self) -> bool {
        &&& forall|k: Seq<char>|
            self.table@.contains(k) <==> exists|i: int|
                0 <= i < self.items@.len() && #[trigger] self.items@[i]@ == k
        &&& forall|i: int, j: int|
            0 <= i < j < self.items@.len() ==> self.items@[i]@ != self.items@[j]@
        &&& forall|k: Seq<char>| #[trigger] self.table@.contains(k) ==> k.len() > 0
    }

    pub fn new() -> (r: Self)
        ensures
            r.wf(),
            r.table@ == Set::<Seq<char>>::empty(),
    {
        SetDict { table: StringHashSet::new(), items: Vec::new() }
    }

    /// Add a non-empty word.
    pub fn add(&mut self, w: String)
        requires
            old(self).wf(),
        ensures
            final(self).wf(),
            final(self).table@ == (if w@.len() == 0 {
                old(self).table@
            } else {
                old(self).table@.insert(w@)
            }),
    {
        if w.as_str().is_empty() {
            return;
        }
        if self.table.contains(w.as_str()) {
            assert(self.table@.insert(w@) =~= self.table@);
            return;
        }
        let ghost wv = w@;
        let w2 = w.clone();
        self.table.insert(w);
        let ghost old_items = self.items@;
        self.items.push(w2);
        assert forall|k: Seq<char>| self.table@.contains(k) <==> exists|i: int|
            0 <= i < self.items@.len() && #[trigger] self.items@[i]@ == k by {
            if k == wv {
                assert(self.items@[old_items.len() as int]@ == k);
            } else if self.table@.contains(k) {
                let i = choose|i: int| 0 <= i < old_items.len() && #[trigger] old_items[i]@ == k;
                assert(self.items@[i]@ == k);
            } else {
                if exists|i: int| 0 <= i < self.items@.len() && #[trigger] self.items@[i]@ == k {
                    let i = choose|i: int| 0 <= i < self.items@.len() && #[trigger] self.items@[i]@ == k;
                    if i < old_items.len() {
                        assert(old_items[i]@ == k);
                    }
                }
            }
        }
        assert forall|i: int, j: int| 0 <= i < j < self.items@.len() implies self.items@[i]@
            != self.items@[j]@ by {
            if j == old_items.len() {
                assert(old(self).table@.contains(old_items[i]@));
            } else {
                assert(old_items[i] == self.items@[i] && old_items[j] == self.items@[j]);
            }
        }
    }

    pub fn remove(&mut self, w: &str)
        requires
            old(self).wf(),
        ensures
            final(self).wf(),
            final(self).table@ == old(self).table@.remove(w@),
    {
        if !self.table.contains(w) {
            assert(self.table@.remove(w@) =~= self.table@);
            return;
        }
        let i = match index_of_str(&self.items, w) {
            Some(i) => i,
            None => {
                assert(false);
                return;
            },
        };
        let ghost old_items = self.items@;
        self.items.remove(i);
        self.table.remove(w);
        assert(old_items[i as int]@ == w@);
        assert forall|k: Seq<char>| self.table@.contains(k) <==> exists|j: int|
            0 <= j < self.items@.len() && #[trigger] self.items@[j]@ == k by {
            if self.table@.contains(k) {
                let j = choose|j: int| 0 <= j < old_items.len() && #[trigger] old_items[j]@ == k;
                if j < i {
                    assert(self.items@[j]@ == k);
                } else {
                    assert(j != i);
                    assert(self.items@[j - 1]@ == k);
                }
            }
            if exists|j: int| 0 <= j < self.items@.len() && #[trigger] self.items@[j]@ == k {
                let j = choose|j: int| 0 <= j < self.items@.len() && #[trigger] self.items@[j]@ == k;
                if j < i {
                    assert(old_items[j]@ == k);
                    assert(k != w@);
                } else {
                    assert(old_items[j + 1]@ == k);
                    assert(old_items[i as int]@ != old_items[j + 1]@);
                }
            }
        }
        assert forall|a: int, b: int| 0 <= a < b < self.items@.len() implies self.items@[a]@
            != self.items@[b]@ by {
            let a0 = if a < i { a } else { a + 1 };
            let b0 = if b < i { b } else { b + 1 };
            assert(self.items@[a] == old_items[a0]);
            assert(self.items@[b] == old_items[b0]);
        }
    }

    pub fn contains(&self, w: &str) -> (r: bool)
        ensures
            r == self.table@.contains(w@),
    {
        self.table.contains(w)
    }
}

/// One step of `SynonymDict::add`: register trimmed `v0` as a variant of `c`, unless it is
/// empty, already a known variant (with `skip`), or itself a canonical word; a canonical
/// word that pointed back to the new variant is dropped.
pub open spec fn syn_step(
    t: Map<Seq<char>, Seq<char>>,
    t2: Map<Seq<char>, Seq<Seq<char>>>,
    c: Seq<char>,
    v0: Seq<char>,
    skip: bool,
) -> (Map<Seq<char>, Seq<char>>, Map<Seq<char>, Seq<Seq<char>>>) {
    let v = trim_seq(v0);
    if v.len() == 0 || (skip && t.contains_key(v)) || t2.contains_key(v) {
        (t, t2)
    } else {
        let t2n = t2.insert(c, t2[c].push(v));
        let tn = t.insert(v, c);
        if tn.contains_key(c) && tn[c] == v {
            (tn.remove(c), t2n)
        } else {
            (tn, t2n)
        }
    }
}

/// `syn_step` over all variants, in order.
pub open spec fn syn_fold(
    t: Map<Seq<char>, Seq<char>>,
    t2: Map<Seq<char>, Seq<Seq<char>>>,
    c: Seq<char>,
    vs: Seq<Seq<char>>,
    skip: bool,
) -> (Map<Seq<char>, Seq<char>>, Map<Seq<char>, Seq<Seq<char>>>)
    decreases vs.len(),
{
    if vs.len() == 0 {
        (t, t2)
    } else {
        let prev = syn_fold(t, t2, c, vs.drop_last(), skip);
        syn_step(prev.0, prev.1, c, vs.last(), skip)
    }
}

/// The whole of `SynonymDict::add` on the two maps.
pub open spec fn syn_add(
    t: Map<Seq<char>, Seq<char>>,
    t2: Map<Seq<char>, Seq<Seq<char>>>,
    c0: Seq<char>,
    vs: Seq<Seq<char>>,
    skip: bool,
) -> (Map<Seq<char>, Seq<char>>, Map<Seq<char>, Seq<Seq<char>>>) {
    let c = trim_seq(c0);
    if c.len() == 0 {
        (t, t2)
    } else {
        let t2a = if t2.contains_key(c) {
            t2
        } else {
            t2.insert(c, Seq::empty())
        };
        syn_fold(t, t2a, c, vs, skip)
    }
}

/// Where following variant → canonical `n` times from `a` leads, if it gets that far.
pub open spec fn follow(t: Map<Seq<char>, Seq<char>>, a: Seq<char>, n: nat) -> Option<Seq<char>>
    decreases n,
{
    if n == 0 {
        Some(a)
    } else {
        match follow(t, a, (n - 1) as nat) {
            Some(x) => if t.contains_key(x) {
                Some(t[x])
            } else {
                None
            },
            None => None,
        }
    }
}

/// The synonym maps are sound: there are finitely many variants, every canonical word a
/// variant points to is registered as canonical, and following variant → canonical never
/// comes back to where it started, so repeated lookups end.
pub open spec fn syn_inv(t: Map<Seq<char>, Seq<char>>, t2: Map<Seq<char>, Seq<Seq<char>>>) -> bool {
    &&& t.dom().finite()
    &&& forall|k: Seq<char>| #[trigger] t.contains_key(k) ==> t2.contains_key(t[k])
    &&& forall|a: Seq<char>, n: nat| n >= 1 ==> #[trigger] follow(t, a, n) != Some(a)
}

/// Following the new map from a word other than `v` takes the old map's steps, when `v`
/// is not a value of the new map and the maps agree away from `v`.
proof fn lemma_follow_avoid(
    t: Map<Seq<char>, Seq<char>>,
    tn: Map<Seq<char>, Seq<char>>,
    t2n: Map<Seq<char>, Seq<Seq<char>>>,
    v: Seq<char>,
    a: Seq<char>,
    n: nat,
)
    requires
        forall|x: Seq<char>| x != v ==> (#[trigger] tn.contains_key(x) == t.contains_key(x)) && (tn.contains_key(x)
            ==> tn[x] == t[x]),
        forall|k: Seq<char>| #[trigger] tn.contains_key(k) ==> t2n.contains_key(tn[k]),
        !t2n.contains_key(v),
        a != v,
        follow(tn, a, n) is Some,
    ensures
        follow(t, a, n) == follow(tn, a, n),
    decreases n,
{
    if n > 0 {
        let x = follow(tn, a, (n - 1) as nat)->0;
        lemma_follow_avoid(t, tn, t2n, v, a, (n - 1) as nat);
        if n - 1 > 0 {
            let y = follow(tn, a, (n - 2) as nat)->0;
            assert(tn.contains_key(y) && x == tn[y]);
            assert(t2n.contains_key(x));
        }
        assert(x != v);
        assert(tn.contains_key(x));
    }
}

/// Following `i` steps then `d` more is following `i + d` steps.
pub proof fn lemma_follow_add(t: Map<Seq<char>, Seq<char>>, a: Seq<char>, i: nat, d: nat)
    requires
        follow(t, a, i) is Some,
    ensures
        follow(t, a, i + d) == follow(t, follow(t, a, i)->0, d),
    decreases d,
{
    if d > 0 {
        lemma_follow_add(t, a, i, (d - 1) as nat);
        assert((i + d - 1) as nat == i + (d - 1) as nat);
    }
}

/// Where following gets `k` steps far, every earlier step was at a variant.
pub proof fn lemma_follow_prefix(t: Map<Seq<char>, Seq<char>>, a: Seq<char>, k: nat, i: nat)
    requires
        follow(t, a, k) is Some,
        i < k,
    ensures
        follow(t, a, i) is Some,
        t.contains_key(follow(t, a, i)->0),
    decreases k,
{
    if i + 1 < k {
        lemma_follow_prefix(t, a, (k - 1) as nat, i);
    }
}

/// With sound maps, following gets at most as many steps far as there are variants.
pub proof fn lemma_follow_bound(t: Map<Seq<char>, Seq<char>>, t2: Map<Seq<char>, Seq<Seq<char>>>, a: Seq<char>, k: nat)
    requires
        syn_inv(t, t2),
        follow(t, a, k) is Some,
    ensures
        k <= t.dom().len(),
{
    let s = Seq::new(k, |i: int| follow(t, a, i as nat)->0);
    assert forall|i: int| 0 <= i < k implies t.contains_key(#[trigger] s[i]) by {
        lemma_follow_prefix(t, a, k, i as nat);
    }
    assert forall|i: int, j: int| 0 <= i < j < k implies #[trigger] s[i] != #[trigger] s[j] by {
        lemma_follow_prefix(t, a, k, i as nat);
        lemma_follow_prefix(t, a, k, j as nat);
        lemma_follow_add(t, a, i as nat, (j - i) as nat);
        assert((i + (j - i)) as nat == j as nat);
        if s[i] == s[j] {
            assert(follow(t, s[i], (j - i) as nat) == Some(s[i]));
        }
    }
    assert(s.no_duplicates());
    s.unique_seq_to_set();
    assert(s.to_set().subset_of(t.dom()));
    vstd::set_lib::lemma_len_subset(s.to_set(), t.dom());
}

/// The empty maps are sound.
pub proof fn lemma_syn_inv_empty()
    ensures
        syn_inv(Map::<Seq<char>, Seq<char>>::empty(), Map::<Seq<char>, Seq<Seq<char>>>::empty()),
{
    assert forall|a: Seq<char>, n: nat| n >= 1 implies #[trigger] follow(Map::<Seq<char>, Seq<char>>::empty(), a, n)
        != Some(a) by {
        let e = Map::<Seq<char>, Seq<char>>::empty();
        assert(follow(e, a, (n - 1) as nat) is Some ==> !e.contains_key(follow(e, a, (n - 1) as nat)->0));
    }
}

proof fn lemma_syn_step_inv(
    t: Map<Seq<char>, Seq<char>>,
    t2: Map<Seq<char>, Seq<Seq<char>>>,
    c: Seq<char>,
    v0: Seq<char>,
    skip: bool,
)
    requires
        syn_inv(t, t2),
        t2.contains_key(c),
    ensures
        syn_inv(syn_step(t, t2, c, v0, skip).0, syn_step(t, t2, c, v0, skip).1),
        syn_step(t, t2, c, v0, skip).1.contains_key(c),
{
    let v = trim_seq(v0);
    if !(v.len() == 0 || (skip && t.contains_key(v)) || t2.contains_key(v)) {
        let t2n = t2.insert(c, t2[c].push(v));
        let tn = t.insert(v, c);
        assert(c != v);
        if t.contains_key(c) {
            assert(t2.contains_key(t[c]));
            assert(tn[c] == t[c]);
            assert(tn[c] != v);
        }
        assert(syn_step(t, t2, c, v0, skip) == (tn, t2n));
        assert forall|k: Seq<char>| #[trigger] tn.contains_key(k) implies t2n.contains_key(tn[k]) by {
            if k != v {
                assert(t2.contains_key(t[k]));
            }
        }
        assert forall|a: Seq<char>, n: nat| n >= 1 implies #[trigger] follow(tn, a, n) != Some(a) by {
            if follow(tn, a, n) == Some(a) {
                let y = follow(tn, a, (n - 1) as nat)->0;
                assert(tn.contains_key(y) && a == tn[y]);
                assert(t2n.contains_key(a));
                assert(a != v);
                lemma_follow_avoid(t, tn, t2n, v, a, n);
                assert(follow(t, a, n) == Some(a));
            }
        }
    }
}

proof fn lemma_syn_fold_inv(
    t: Map<Seq<char>, Seq<char>>,
    t2: Map<Seq<char>, Seq<Seq<char>>>,
    c: Seq<char>,
    vs: Seq<Seq<char>>,
    skip: bool,
)
    requires
        syn_inv(t, t2),
        t2.contains_key(c),
    ensures
        syn_inv(syn_fold(t, t2, c, vs, skip).0, syn_fold(t, t2, c, vs, skip).1),
        syn_fold(t, t2, c, vs, skip).1.contains_key(c),
    decreases vs.len(),
{
    if vs.len() > 0 {
        lemma_syn_fold_inv(t, t2, c, vs.drop_last(), skip);
        let prev = syn_fold(t, t2, c, vs.drop_last(), skip);
        lemma_syn_step_inv(prev.0, prev.1, c, vs.last(), skip);
    }
}

/// `SynonymDict::add` keeps the synonym maps sound, whatever its arguments (and the maps
/// start sound: see `lemma_syn_inv_empty`).
pub proof fn lemma_syn_add_inv(
    t: Map<Seq<char>, Seq<char>>,
    t2: Map<Seq<char>, Seq<Seq<char>>>,
    c0: Seq<char>,
    vs: Seq<Seq<char>>,
    skip: bool,
)
    requires
        syn_inv(t, t2),
    ensures
        syn_inv(syn_add(t, t2, c0, vs, skip).0, syn_add(t, t2, c0, vs, skip).1),
{
    let c = trim_seq(c0);
    if c.len() > 0 {
        let t2a = if t2.contains_key(c) {
            t2
        } else {
            t2.insert(c, Seq::empty())
        };
        assert forall|k: Seq<char>| #[trigger] t.contains_key(k) implies t2a.contains_key(t[k]) by {
            assert(t2.contains_key(t[k]));
        }
        lemma_syn_fold_inv(t, t2a, c, vs, skip);
    }
}

/// One-to-many synonym map: variant → canonical, and canonical → its variants.
pub struct SynonymDict {
    /// variant → canonical
    pub table: StringHashMap<String>,
    /// canonical → variants
    pub table2: StringHashMap<Vec<String>>,
}

pub open spec fn str_map_view(m: Map<Seq<char>, String>) -> Map<Seq<char>, Seq<char>> {
    Map::new(|k: Seq<char>| m.contains_key(k), |k: Seq<char>| m[k]@)
}

pub open spec fn list_map_view(m: Map<Seq<char>, Vec<String>>) -> Map<
    Seq<char>,
    Seq<Seq<char>>,
> {
    Map::new(|k: Seq<char>| m.contains_key(k), |k: Seq<char>| m[k]@.map_values(|s: String| s@))
}

impl SynonymDict {
    pub open spec fn forward(&self) -> Map<Seq<char>, Seq<char>> {
        str_map_view(self.table@)
    }

    pub open spec fn backward(&self) -> Map<Seq<char>, Seq<Seq<char>>> {
        list_map_view(self.table2@)
    }

    /// The maps are sound (`syn_inv`): finitely many variants, each pointing to a
    /// registered canonical word, and no chain of lookups coming back to its start.
    pub open spec fn wf(&self) -> bool {
        syn_inv(self.forward(), self.backward())
    }

    pub fn new() -> (r: Self)
        ensures
            r.wf(),
            r.forward() == Map::<Seq<char>, Seq<char>>::empty(),
            r.backward() == Map::<Seq<char>, Seq<Seq<char>>>::empty(),
    {
        let r = SynonymDict { table: StringHashMap::new(), table2: StringHashMap::new() };
        assert(r.forward() =~= Map::<Seq<char>, Seq<char>>::empty());
        assert(r.backward() =~= Map::<Seq<char>, Seq<Seq<char>>>::empty());
        proof {
            lemma_syn_inv_empty();
        }
        r
    }

    fn set_list(&mut self, c: &String, list: Vec<String>)
        ensures
            final(self).forward() == old(self).forward(),
            final(self).backward() == old(self).backward().insert(
                c@,
                list@.map_values(|s: String| s@),
            ),
    {
        self.table2.insert(c.clone(), list);
        assert(self.backward() =~= old(self).backward().insert(
            c@,
            list@.map_values(|s: String| s@),
        ));
    }

    fn list_of(&self, c: &str) -> (r: Vec<String>)
        ensures
            r@.map_values(|s: String| s@) == (if self.backward().contains_key(c@) {
                self.backward()[c@]
            } else {
                Seq::empty()
            }),
    {
        match self.table2.get(c) {
            Some(v) => {
                let r = crate::options::clone_strings(v);
                r
            },
            None => {
                let r: Vec<String> = Vec::new();
                assert(r@.map_values(|s: String| s@) =~= Seq::<Seq<char>>::empty());
                r
            },
        }
    }

    /// Register `variants` as variants of `canonical` (both trimmed; empty ones ignored).
    pub fn add(&mut self, canonical: &str, variants: &[String], skip_exists: bool)
        requires
            old(self).wf(),
        ensures
            final(self).wf(),
            (final(self).forward(), final(self).backward()) == syn_add(
                old(self).forward(),
                old(self).backward(),
                canonical@,
                variants@.map_values(|s: String| s@),
                skip_exists,
            ),
    {
        let c = trim(canonical);
        if c.as_str().is_empty() {
            return;
        }
        if !self.table2.contains_key(c.as_str()) {
            let empty: Vec<String> = Vec::new();
            assert(empty@.map_values(|s: String| s@) =~= Seq::<Seq<char>>::empty());
            self.set_list(&c, empty);
        }
        let ghost t0 = self.forward();
        let ghost t20 = self.backward();
        let ghost vs = variants@.map_values(|s: String| s@);
        let mut i: usize = 0;
        while i < variants.len()
            invariant
                i <= variants@.len(),
                c@ == trim_seq(canonical@),
                c@.len() > 0,
                self.backward().contains_key(c@),
                vs == variants@.map_values(|s: String| s@),
                (self.forward(), self.backward()) == syn_fold(
                    t0,
                    t20,
                    c@,
                    vs.subrange(0, i as int),
                    skip_exists,
                ),
            decreases variants@.len() - i,
        {
            proof {
                assert(vs.subrange(0, i + 1).drop_last() =~= vs.subrange(0, i as int));
                assert(vs.subrange(0, i + 1).last() == variants@[i as int]@);
            }
            let v = trim(variants[i].as_str());
            let skip = v.as_str().is_empty() || (skip_exists && self.table.contains_key(
                v.as_str(),
            )) || self.table2.contains_key(v.as_str());
            if !skip {
                let mut list = self.list_of(c.as_str());
                list.push(v.clone());
                proof {
                    assert(list@.map_values(|s: String| s@) =~= self.backward()[c@].push(v@));
                }
                self.set_list(&c, list);
                self.table.insert(v.clone(), c.clone());
                let back = match self.table.get(c.as_str()) {
                    Some(s) => crate::strs::str_eq(s.as_str(), v.as_str()),
                    None => false,
                };
                if back {
                    self.table.remove(c.as_str());
                }
            }
            proof {
                let tn = old(self).forward();
                assert(self.forward() =~= syn_step(
                    syn_fold(t0, t20, c@, vs.subrange(0, i as int), skip_exists).0,
                    syn_fold(t0, t20, c@, vs.subrange(0, i as int), skip_exists).1,
                    c@,
                    vs[i as int],
                    skip_exists,
                ).0);
            }
            i += 1;
        }
        assert(vs.subrange(0, variants@.len() as int) =~= vs);
        proof {
            lemma_syn_add_inv(old(self).forward(), old(self).backward(), canonical@, vs, skip_exists);
        }
    }

    /// The canonical word for `w`, if `w` is a known variant.
    pub fn get(&self, w: &str) -> (r: Option<&str>)
        ensures
            match r {
                Some(s) => self.forward().contains_key(w@) && s@ == self.forward()[w@],
                None => !self.forward().contains_key(w@),
            },
    {
        match self.table.get(w) {
            Some(s) => Some(s.as_str()),
            None => None,
        }
    }
}

} // verus!
