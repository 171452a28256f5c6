//! Filling the dictionaries from their texts, the library's error type, and building the
//! CJK variant tables from their sources.
use vstd::prelude::*;
use crate::cjk::CjkTables;
use crate::dict::{syn_add, DictEntry, TableDict};
use crate::loader::{fields, pos_value, nonempty_trimmed, clean_lines, clean_lines_spec, lines_of, lines_spec, skipped_line, parse_pos, parse_synonym_line, split_dict_line, split_fields};
use crate::segment::Segment;
use crate::strs::{string_views, chars_of, concat_str, has_prefix, is_whitespace, is_ws, str_eq, to_lowercase, to_owned_string, trim, trim_seq};

verus! {

/// What can go wrong when loading dictionaries or adding words.
pub enum Error {
    /// Reading a file failed (the system's message).
    Io(String),
    /// No file stands for this dictionary name.
    DictNotFound { name: String },
    /// A dictionary line could not be read.
    InvalidDictLine { path: String, line: String },
    /// An argument was not acceptable.
    InvalidInput(String),
}

impl Error {
    /// The error as a sentence.
    pub fn message(&self) -> (r: String)
        ensures
            r@ == (match self {
                Error::Io(e) => "io error: "@ + e@,
                Error::DictNotFound { name } => "cannot find dict file `"@ + name@ + "`"@,
                Error::InvalidDictLine { path, line } => "invalid dict line in "@ + path@ + ": "@ + line@,
                Error::InvalidInput(s) => "invalid input: "@ + s@,
            }),
    {
        match self {
            Error::Io(e) => concat_str("io error: ", e.as_str()),
            Error::DictNotFound { name } => concat_str(concat_str("cannot find dict file `", name.as_str()).as_str(), "`"),
            Error::InvalidDictLine { path, line } => concat_str(
                concat_str(concat_str("invalid dict line in ", path.as_str()).as_str(), ": ").as_str(),
                line.as_str(),
            ),
            Error::InvalidInput(s) => concat_str("invalid input: ", s.as_str()),
        }
    }
}

/// The synonym maps after one line of a synonym file (`正字,錯字,…`; comments, empty lines
/// and lines with fewer than two entries change nothing).
pub open spec fn syn_line(
    t: Map<Seq<char>, Seq<char>>,
    t2: Map<Seq<char>, Seq<Seq<char>>>,
    line: Seq<char>,
    skip: bool,
) -> (Map<Seq<char>, Seq<char>>, Map<Seq<char>, Seq<Seq<char>>>) {
    let tr = trim_seq(line);
    let ps = nonempty_trimmed(fields(tr, ','));
    if skipped_line(tr) || ps.len() < 2 {
        (t, t2)
    } else {
        syn_add(t, t2, ps[0], ps.skip(1), skip)
    }
}

/// The synonym maps after the lines of a synonym file, in order.
pub open spec fn syn_lines(
    t: Map<Seq<char>, Seq<char>>,
    t2: Map<Seq<char>, Seq<Seq<char>>>,
    ls: Seq<Seq<char>>,
    skip: bool,
) -> (Map<Seq<char>, Seq<char>>, Map<Seq<char>, Seq<Seq<char>>>)
    decreases ls.len(),
{
    if ls.len() == 0 {
        (t, t2)
    } else {
        let prev = syn_lines(t, t2, ls.drop_last(), skip);
        syn_line(prev.0, prev.1, ls.last(), skip)
    }
}

/// The variants a synonym line lists (none for a line that adds nothing).
pub open spec fn row_variants(line: Seq<char>) -> Seq<Seq<char>> {
    let tr = trim_seq(line);
    let ps = nonempty_trimmed(fields(tr, ','));
    if skipped_line(tr) || ps.len() < 2 {
        Seq::empty()
    } else {
        ps.skip(1)
    }
}

/// The first field of a synonym line: its canonical word.
pub open spec fn line_canonical(line: Seq<char>) -> Seq<char> {
    nonempty_trimmed(fields(trim_seq(line), ','))[0]
}

/// The entry table after the lines of a synonym file: for each line, the variants of its
/// canonical word get that word's entry where the table knows it and lacks them.
pub open spec fn spread_lines(t: Map<Seq<char>, DictEntry>, ls: Seq<Seq<char>>) -> Map<Seq<char>, DictEntry>
    decreases ls.len(),
{
    if ls.len() == 0 {
        t
    } else {
        crate::run::spread_table(spread_lines(t, ls.drop_last()), line_canonical(ls.last()), row_variants(ls.last()))
    }
}

/// A dictionary row with its weight as the bit pattern of the float it reads as.
pub struct DictRow {
    pub w: String,
    pub p: u32,
    pub f: u64,
}

/// The table after the variants `vs` of `w`, in turn: each non-empty variant other than `w`
/// that the table lacks so far gets a non-native entry with POS `p` and weight `f`.
pub open spec fn add_variants_spec(
    t: Map<Seq<char>, DictEntry>,
    w: Seq<char>,
    vs: Seq<Seq<char>>,
    p: u32,
    f: u64,
) -> Map<Seq<char>, DictEntry>
    decreases vs.len(),
{
    if vs.len() == 0 {
        t
    } else {
        let prev = add_variants_spec(t, w, vs.drop_last(), p, f);
        let v = vs.last();
        if v != w && v.len() > 0 && !prev.contains_key(v) {
            prev.insert(v, DictEntry { p, f, s: false })
        } else {
            prev
        }
    }
}

/// What `add_with_cjk` makes of the table.
pub open spec fn cjk_added(
    t: Map<Seq<char>, DictEntry>,
    w: Seq<char>,
    p: u32,
    f: u64,
    auto_cjk: bool,
    cjk: CjkTables,
) -> Map<Seq<char>, DictEntry> {
    let t1 = if w.len() == 0 {
        t
    } else {
        t.insert(w, DictEntry { p, f, s: true })
    };
    if auto_cjk {
        add_variants_spec(t1, w, cjk.text_list_spec(w), p, f)
    } else {
        t1
    }
}

/// Adding variants keeps every entry there was and adds exactly the new non-empty variants
/// other than `w`, each non-native with POS `p` and weight `f`.
pub proof fn lemma_add_variants(t: Map<Seq<char>, DictEntry>, w: Seq<char>, vs: Seq<Seq<char>>, p: u32, f: u64)
    ensures
        forall|k: Seq<char>| #[trigger] add_variants_spec(t, w, vs, p, f).contains_key(k) <==> t.contains_key(k) || (
        vs.contains(k) && k != w && k.len() > 0),
        forall|k: Seq<char>| #[trigger] t.contains_key(k) ==> add_variants_spec(t, w, vs, p, f)[k] == t[k],
        forall|k: Seq<char>|
            !t.contains_key(k) && #[trigger] vs.contains(k) && k != w && k.len() > 0 ==> add_variants_spec(t, w, vs, p, f)[k]
                == (DictEntry { p, f, s: false }),
    decreases vs.len(),
{
    if vs.len() > 0 {
        let t0 = vs.drop_last();
        lemma_add_variants(t, w, t0, p, f);
        assert forall|k: Seq<char>| #[trigger] vs.contains(k) <==> t0.contains(k) || k == vs.last() by {
            if vs.contains(k) {
                let i = choose|i: int| 0 <= i < vs.len() && vs[i] == k;
                if i < t0.len() {
                    assert(t0[i] == k);
                }
            }
            if t0.contains(k) {
                let i = choose|i: int| 0 <= i < t0.len() && t0[i] == k;
                assert(vs[i] == k);
            }
            if k == vs.last() {
                assert(vs[vs.len() - 1] == k);
            }
        }
        let prev = add_variants_spec(t, w, t0, p, f);
        let v = vs.last();
        let r = add_variants_spec(t, w, vs, p, f);
        assert forall|k: Seq<char>| #[trigger] r.contains_key(k) <==> t.contains_key(k) || (vs.contains(k) && k != w
            && k.len() > 0) by {
            assert(vs.contains(k) <==> t0.contains(k) || k == v);
            assert(prev.contains_key(k) <==> t.contains_key(k) || (t0.contains(k) && k != w && k.len() > 0));
        }
        assert forall|k: Seq<char>| #[trigger] t.contains_key(k) implies r[k] == t[k] by {
            assert(prev.contains_key(k));
        }
        assert forall|k: Seq<char>|
            !t.contains_key(k) && #[trigger] vs.contains(k) && k != w && k.len() > 0 implies r[k] == (DictEntry {
                p,
                f,
                s: false,
            }) by {
            assert(vs.contains(k) <==> t0.contains(k) || k == v);
            if t0.contains(k) {
                assert(prev.contains_key(k));
            }
        }
    }
}

impl TableDict {
    /// Add a native entry; with `auto_cjk`, also every CJK variant of the word that the
    /// table lacks, as a non-native entry with the same POS and weight.
    pub fn add_with_cjk(&mut self, w: &str, p: u32, f: u64, auto_cjk: bool, cjk: &CjkTables)
        requires
            old(self).wf(),
            cjk.wf(),
        ensures
            final(self).wf(),
            final(self).table@ == cjk_added(old(self).table@, w@, p, f, auto_cjk, *cjk),
            w@.len() > 0 ==> final(self).table@.contains_key(w@) && final(self).table@[w@] == (DictEntry { p, f, s: true }),
            forall|k: Seq<char>| #[trigger] old(self).table@.contains_key(k) && k != w@ ==> final(self).table@.contains_key(k)
                && final(self).table@[k] == old(self).table@[k],
            forall|k: Seq<char>| #[trigger] final(self).table@.contains_key(k) <==> old(self).table@.contains_key(k) || (k == w@
                && k.len() > 0) || (auto_cjk && cjk.text_list_spec(w@).contains(k) && k.len() > 0),
            auto_cjk ==> forall|v: Seq<char>|
                #[trigger] cjk.text_list_spec(w@).contains(v) && v != w@ && v.len() > 0 && !old(self).table@.contains_key(v)
                    ==> final(self).table@[v] == (DictEntry { p, f, s: false }),
    {
        let ghost t1 = if w@.len() == 0 {
            old(self).table@
        } else {
            old(self).table@.insert(w@, DictEntry { p, f, s: true })
        };
        self.add(to_owned_string(w), p, f, true);
        proof {
            lemma_add_variants(t1, w@, cjk.text_list_spec(w@), p, f);
        }
        if !auto_cjk {
            return;
        }
        let vs = cjk.expand_cjk_variants(w);
        let ghost sv = string_views(vs@);
        let mut i: usize = 0;
        while i < vs.len()
            invariant
                self.wf(),
                i <= vs@.len(),
                sv == string_views(vs@),
                self.table@ == add_variants_spec(t1, w@, sv.take(i as int), p, f),
            decreases vs@.len() - i,
        {
            proof {
                assert(sv.take(i + 1).drop_last() =~= sv.take(i as int));
                assert(sv.take(i + 1).last() == vs@[i as int]@);
            }
            let v = vs[i].as_str();
            if !str_eq(v, w) && !self.contains(v) {
                self.add(to_owned_string(v), p, f, false);
            }
            i += 1;
        }
        proof {
            assert(sv.take(sv.len() as int) =~= sv);
            if w@.len() > 0 {
                assert(t1.contains_key(w@));
            }
            assert forall|k: Seq<char>| #[trigger] old(self).table@.contains_key(k) && k != w@ implies self.table@.contains_key(k)
                && self.table@[k] == old(self).table@[k] by {
                assert(t1.contains_key(k));
            }
            assert forall|v: Seq<char>|
                #[trigger] cjk.text_list_spec(w@).contains(v) && v != w@ && v.len() > 0 && !old(self).table@.contains_key(v)
                    implies self.table@[v] == (DictEntry { p, f, s: false }) by {
                assert(!t1.contains_key(v));
            }
        }
    }
}

/// A row's word, lowercased when asked.
pub open spec fn row_word(r: DictRow, lower: bool) -> Seq<char> {
    if lower {
        crate::strs::spec_to_lowercase(r.w@)
    } else {
        r.w@
    }
}

/// The wildcard table after the rows: each row's non-empty word gets a native entry with
/// the row's POS and weight.
pub open spec fn wild_rows(t: Map<Seq<char>, DictEntry>, rows: Seq<DictRow>, lower: bool) -> Map<Seq<char>, DictEntry>
    decreases rows.len(),
{
    if rows.len() == 0 {
        t
    } else {
        let prev = wild_rows(t, rows.drop_last(), lower);
        let r = rows.last();
        let w = row_word(r, lower);
        if w.len() == 0 {
            prev
        } else {
            prev.insert(w, DictEntry { p: r.p, f: r.f, s: true })
        }
    }
}

/// The main table after the rows: each row added as by `add_with_cjk`.
pub open spec fn main_rows(
    t: Map<Seq<char>, DictEntry>,
    rows: Seq<DictRow>,
    lower: bool,
    auto_cjk: bool,
    cjk: CjkTables,
) -> Map<Seq<char>, DictEntry>
    decreases rows.len(),
{
    if rows.len() == 0 {
        t
    } else {
        let r = rows.last();
        cjk_added(main_rows(t, rows.drop_last(), lower, auto_cjk, cjk), row_word(r, lower), r.p, r.f, auto_cjk, cjk)
    }
}

/// The last row for a word gives its entry, in either table.
pub proof fn lemma_rows_last(
    wt: Map<Seq<char>, DictEntry>,
    mt: Map<Seq<char>, DictEntry>,
    rows: Seq<DictRow>,
    lower: bool,
    auto_cjk: bool,
    cjk: CjkTables,
    i: int,
)
    requires
        0 <= i < rows.len(),
        row_word(rows[i], lower).len() > 0,
        forall|j: int| i < j < rows.len() ==> row_word(rows[j], lower) != row_word(rows[i], lower),
    ensures
        wild_rows(wt, rows, lower).contains_key(row_word(rows[i], lower)),
        wild_rows(wt, rows, lower)[row_word(rows[i], lower)] == (DictEntry { p: rows[i].p, f: rows[i].f, s: true }),
        main_rows(mt, rows, lower, auto_cjk, cjk).contains_key(row_word(rows[i], lower)),
        main_rows(mt, rows, lower, auto_cjk, cjk)[row_word(rows[i], lower)] == (DictEntry {
            p: rows[i].p,
            f: rows[i].f,
            s: true,
        }),
    decreases rows.len(),
{
    let w = row_word(rows[i], lower);
    let last = rows.last();
    let prev = main_rows(mt, rows.drop_last(), lower, auto_cjk, cjk);
    let lw = row_word(last, lower);
    let t1 = if lw.len() == 0 {
        prev
    } else {
        prev.insert(lw, DictEntry { p: last.p, f: last.f, s: true })
    };
    lemma_add_variants(t1, lw, cjk.text_list_spec(lw), last.p, last.f);
    if i < rows.len() - 1 {
        let r0 = rows.drop_last();
        assert(r0[i] == rows[i]);
        assert forall|j: int| i < j < r0.len() implies row_word(r0[j], lower) != row_word(r0[i], lower) by {
            assert(r0[j] == rows[j]);
        }
        lemma_rows_last(wt, mt, r0, lower, auto_cjk, cjk, i);
        assert(lw != w);
        assert(t1.contains_key(w));
    } else {
        assert(t1.contains_key(w));
    }
}

/// Which word set a list file fills.
pub enum SetKind {
    Stopword,
    Blacklist,
    BlacklistOptimizer,
    BlacklistSynonym,
}

impl Segment {
    /// Add dictionary rows: to the wildcard table (native), or to the main table with CJK
    /// variants when the options ask for them; `lower` lowercases each word first. A later
    /// row for the same word wins.
    pub fn add_dict_rows(&mut self, rows: &Vec<DictRow>, wildcard: bool, lower: bool)
        requires
            old(self).wf(),
        ensures
            final(self).wf(),
            wildcard ==> final(self).table == old(self).table,
            !wildcard ==> final(self).wildcard == old(self).wildcard,
            final(self).options == old(self).options,
            final(self).cjk == old(self).cjk,
            wildcard ==> final(self).wildcard.table@ == wild_rows(old(self).wildcard.table@, rows@, lower),
            !wildcard ==> final(self).table.table@ == main_rows(
                old(self).table.table@,
                rows@,
                lower,
                old(self).options.auto_cjk,
                old(self).cjk,
            ),
            forall|i: int|
                0 <= i < rows@.len() && row_word(#[trigger] rows@[i], lower).len() > 0 && (forall|j: int|
                    i < j < rows@.len() ==> row_word(rows@[j], lower) != row_word(rows@[i], lower)) ==> ({
                    let t = if wildcard {
                        final(self).wildcard.table@
                    } else {
                        final(self).table.table@
                    };
                    t.contains_key(row_word(rows@[i], lower)) && t[row_word(rows@[i], lower)] == (DictEntry {
                        p: rows@[i].p,
                        f: rows@[i].f,
                        s: true,
                    })
                }),
            final(self).inited,
    {
        let mut i: usize = 0;
        while i < rows.len()
            invariant
                self.wf(),
                i <= rows@.len(),
                wildcard ==> self.table == old(self).table,
                !wildcard ==> self.wildcard == old(self).wildcard,
                self.options == old(self).options,
                self.cjk == old(self).cjk,
                wildcard ==> self.wildcard.table@ == wild_rows(old(self).wildcard.table@, rows@.take(i as int), lower),
                !wildcard ==> self.table.table@ == main_rows(
                    old(self).table.table@,
                    rows@.take(i as int),
                    lower,
                    old(self).options.auto_cjk,
                    old(self).cjk,
                ),
            decreases rows@.len() - i,
        {
            proof {
                assert(rows@.take(i + 1).drop_last() =~= rows@.take(i as int));
                assert(rows@.take(i + 1).last() == rows@[i as int]);
            }
            let row = &rows[i];
            let w = if lower {
                to_lowercase(row.w.as_str())
            } else {
                to_owned_string(row.w.as_str())
            };
            if wildcard {
                self.wildcard.add(w, row.p, row.f, true);
            } else {
                let auto_cjk = self.options.auto_cjk;
                self.table.add_with_cjk(w.as_str(), row.p, row.f, auto_cjk, &self.cjk);
            }
            i += 1;
        }
        proof {
            assert(rows@.take(rows@.len() as int) =~= rows@);
            assert forall|i: int|
                0 <= i < rows@.len() && row_word(#[trigger] rows@[i], lower).len() > 0 && (forall|j: int|
                    i < j < rows@.len() ==> row_word(rows@[j], lower) != row_word(rows@[i], lower)) implies ({
                    let t = if wildcard {
                        self.wildcard.table@
                    } else {
                        self.table.table@
                    };
                    t.contains_key(row_word(rows@[i], lower)) && t[row_word(rows@[i], lower)] == (DictEntry {
                        p: rows@[i].p,
                        f: rows@[i].f,
                        s: true,
                    })
                }) by {
                lemma_rows_last(old(self).wildcard.table@, old(self).table.table@, rows@, lower, old(self).options.auto_cjk, old(self).cjk, i);
            }
        }
        self.inited = true;
    }

    /// Add the synonym rows of a synonym file's text; variants of known canonical words
    /// become known words.
    pub fn add_synonym_text(&mut self, text: &str, skip_exists: bool)
        requires
            old(self).wf(),
        ensures
            final(self).wf(),
            final(self).inited,
            (final(self).synonym.forward(), final(self).synonym.backward()) == syn_lines(
                old(self).synonym.forward(),
                old(self).synonym.backward(),
                lines_spec(text@),
                skip_exists,
            ),
            forall|k: Seq<char>| #[trigger] old(self).table.table@.contains_key(k) ==> final(self).table.table@.contains_key(k)
                && final(self).table.table@[k] == old(self).table.table@[k],
            forall|k: Seq<char>| #[trigger] final(self).table.table@.contains_key(k) ==> old(self).table.table@.contains_key(k)
                || exists|i: int| 0 <= i < lines_spec(text@).len() && #[trigger] row_variants(lines_spec(text@)[i]).contains(k),
            final(self).table.table@ == spread_lines(old(self).table.table@, lines_spec(text@)),
    {
        let lines = lines_of(text);
        let ghost lv = lines@.map_values(|x: String| x@);
        let mut i: usize = 0;
        while i < lines.len()
            invariant
                self.wf(),
                i <= lines@.len(),
                lv == lines@.map_values(|x: String| x@),
                lv == lines_spec(text@),
                (self.synonym.forward(), self.synonym.backward()) == syn_lines(
                    old(self).synonym.forward(),
                    old(self).synonym.backward(),
                    lv.take(i as int),
                    skip_exists,
                ),
                forall|k: Seq<char>| #[trigger] old(self).table.table@.contains_key(k) ==> self.table.table@.contains_key(k)
                    && self.table.table@[k] == old(self).table.table@[k],
                forall|k: Seq<char>| #[trigger] self.table.table@.contains_key(k) ==> old(self).table.table@.contains_key(k)
                    || exists|j: int| 0 <= j < i && #[trigger] row_variants(lv[j]).contains(k),
                self.table.table@ == spread_lines(old(self).table.table@, lv.take(i as int)),
            decreases lines@.len() - i,
        {
            proof {
                assert(lv[i as int] == lines@[i as int]@);
                assert(lv.take(i + 1).drop_last() =~= lv.take(i as int));
                assert(lv.take(i + 1).last() == lv[i as int]);
            }
            let ghost before = self.table.table@;
            match parse_synonym_line(lines[i].as_str()) {
                Some((canon, vars)) => {
                    self.synonym.add(canon.as_str(), vars.as_slice(), skip_exists);
                    self.spread_entry(canon.as_str(), &vars);
                    proof {
                        assert forall|k: Seq<char>| #[trigger] self.table.table@.contains_key(k) implies old(self).table.table@.contains_key(k)
                            || exists|j: int| 0 <= j < i + 1 && #[trigger] row_variants(lv[j]).contains(k) by {
                            if !before.contains_key(k) {
                                let a = choose|a: int| 0 <= a < vars@.len() && vars@[a]@ == k;
                                assert(vars@.map_values(|x: String| x@)[a] == k);
                                assert(row_variants(lv[i as int]).contains(k));
                            }
                        }
                    }
                },
                None => {
                    proof {
                        assert(row_variants(lv[i as int]) =~= Seq::<Seq<char>>::empty());
                        lemma_add_variants(before, line_canonical(lv[i as int]), Seq::<Seq<char>>::empty(), 0, 0);
                        if before.contains_key(line_canonical(lv[i as int])) {
                            let e = before[line_canonical(lv[i as int])];
                            lemma_add_variants(before, line_canonical(lv[i as int]), Seq::<Seq<char>>::empty(), e.p, e.f);
                            assert(crate::run::spread_table(before, line_canonical(lv[i as int]), Seq::<Seq<char>>::empty()) =~= before);
                        }
                    }
                },
            }
            i += 1;
        }
        proof {
            assert(lv.take(lv.len() as int) =~= lv);
        }
        self.inited = true;
    }

    /// Add the words of a word-list file's text (its trimmed lines that are neither empty
    /// nor comments) to one of the word sets; the other sets and the tables stay as they are.
    pub fn add_set_text(&mut self, text: &str, kind: SetKind)
        requires
            old(self).wf(),
        ensures
            final(self).wf(),
            final(self).table == old(self).table,
            final(self).wildcard == old(self).wildcard,
            final(self).synonym == old(self).synonym,
            ({
                let added = clean_lines_spec(lines_spec(text@)).to_set();
                &&& final(self).stopword.table@ == (if kind is Stopword {
                    old(self).stopword.table@.union(added)
                } else {
                    old(self).stopword.table@
                })
                &&& final(self).blacklist.table@ == (if kind is Blacklist {
                    old(self).blacklist.table@.union(added)
                } else {
                    old(self).blacklist.table@
                })
                &&& final(self).blacklist_optimizer.table@ == (if kind is BlacklistOptimizer {
                    old(self).blacklist_optimizer.table@.union(added)
                } else {
                    old(self).blacklist_optimizer.table@
                })
                &&& final(self).blacklist_synonym.table@ == (if kind is BlacklistSynonym {
                    old(self).blacklist_synonym.table@.union(added)
                } else {
                    old(self).blacklist_synonym.table@
                })
            }),
    {
        let lines = clean_lines(text);
        let ghost lv = lines@.map_values(|x: String| x@);
        proof {
            lemma_clean_lines_nonempty(lines_spec(text@));
        }
        let mut i: usize = 0;
        while i < lines.len()
            invariant
                self.wf(),
                self.table == old(self).table,
                self.wildcard == old(self).wildcard,
                self.synonym == old(self).synonym,
                i <= lines@.len(),
                lv == lines@.map_values(|x: String| x@),
                lv == clean_lines_spec(lines_spec(text@)),
                forall|k: int| 0 <= k < lv.len() ==> (#[trigger] lv[k]).len() > 0,
                ({
                    let added = lv.subrange(0, i as int).to_set();
                    &&& self.stopword.table@ == (if kind is Stopword {
                        old(self).stopword.table@.union(added)
                    } else {
                        old(self).stopword.table@
                    })
                    &&& self.blacklist.table@ == (if kind is Blacklist {
                        old(self).blacklist.table@.union(added)
                    } else {
                        old(self).blacklist.table@
                    })
                    &&& self.blacklist_optimizer.table@ == (if kind is BlacklistOptimizer {
                        old(self).blacklist_optimizer.table@.union(added)
                    } else {
                        old(self).blacklist_optimizer.table@
                    })
                    &&& self.blacklist_synonym.table@ == (if kind is BlacklistSynonym {
                        old(self).blacklist_synonym.table@.union(added)
                    } else {
                        old(self).blacklist_synonym.table@
                    })
                }),
            decreases lines@.len() - i,
        {
            let w = lines[i].clone();
            proof {
                assert(w@ == lv[i as int]);
                assert(lv.subrange(0, i + 1) =~= lv.subrange(0, i as int).push(w@));
                lv.subrange(0, i as int).lemma_push_to_set_commute(w@);
                assert(lv.subrange(0, i as int).to_set().insert(w@) =~= lv.subrange(0, i + 1).to_set());
            }
            match kind {
                SetKind::Stopword => self.stopword.add(w),
                SetKind::Blacklist => self.blacklist.add(w),
                SetKind::BlacklistOptimizer => self.blacklist_optimizer.add(w),
                SetKind::BlacklistSynonym => self.blacklist_synonym.add(w),
            }
            proof {
                let a = lv.subrange(0, i as int).to_set();
                let x = lv[i as int];
                assert(old(self).stopword.table@.union(a).insert(x) =~= old(self).stopword.table@.union(a.insert(x)));
                assert(old(self).blacklist.table@.union(a).insert(x) =~= old(self).blacklist.table@.union(a.insert(x)));
                assert(old(self).blacklist_optimizer.table@.union(a).insert(x) =~= old(self).blacklist_optimizer.table@.union(a.insert(x)));
                assert(old(self).blacklist_synonym.table@.union(a).insert(x) =~= old(self).blacklist_synonym.table@.union(a.insert(x)));
            }
            i += 1;
        }
        proof {
            assert(lv.subrange(0, lv.len() as int) =~= lv);
        }
    }

    /// Add a word given as `詞|詞性|詞權值`, or just the word. A row with fields takes its
    /// POS from the row and its weight from `row_weight` (the bits of the float the row's
    /// weight field reads as, the caller's work); `row_pos_float` is what the row's POS
    /// field reads as when taken as a float. A bare word (or a comment-like spec) is added
    /// trimmed, with the POS `p` and the weight `f` given; an empty spec is refused.
    pub fn add_word(&mut self, spec: &str, p: Option<u32>, f: Option<u64>, row_pos_float: Option<u32>, row_weight: u64) -> (r: Result<(), Error>)
        requires
            old(self).wf(),
        ensures
            final(self).wf(),
            (r is Err) == (trim_seq(spec@).len() == 0),
            r matches Err(e) ==> e matches Error::InvalidInput(s) && s@ == spec@,
            r is Err ==> final(self).table.table@ == old(self).table.table@,
            r is Ok ==> ({
                let t = trim_seq(spec@);
                let fs = fields(t, '|');
                if !skipped_line(t) && trim_seq(fs[0]).len() > 0 && fs.len() > 1 {
                    final(self).table.table@.contains_key(trim_seq(fs[0])) && final(self).table.table@[trim_seq(fs[0])]
                        == (DictEntry {
                        p: if fs.len() > 1 {
                            match pos_value(fs[1], row_pos_float) {
                                Some(v) => v,
                                None => 0,
                            }
                        } else {
                            0
                        },
                        f: row_weight,
                        s: true,
                    })
                } else {
                    final(self).table.table@.contains_key(t) && final(self).table.table@[t] == (DictEntry {
                        p: match p {
                            Some(x) => x,
                            None => 0,
                        },
                        f: match f {
                            Some(x) => x,
                            None => 0,
                        },
                        s: true,
                    })
                }
            }),
            forall|k: Seq<char>| #[trigger] final(self).table.table@.contains_key(k) ==> old(self).table.table@.contains_key(k)
                || k == trim_seq(spec@) || k == trim_seq(fields(trim_seq(spec@), '|')[0]) || old(self).options.auto_cjk,
            r is Ok ==> ({
                let t = trim_seq(spec@);
                let fs = fields(t, '|');
                final(self).table.table@ == if !skipped_line(t) && trim_seq(fs[0]).len() > 0 && fs.len() > 1 {
                    cjk_added(
                        old(self).table.table@,
                        trim_seq(fs[0]),
                        match pos_value(fs[1], row_pos_float) {
                            Some(v) => v,
                            None => 0,
                        },
                        row_weight,
                        old(self).options.auto_cjk,
                        old(self).cjk,
                    )
                } else {
                    cjk_added(
                        old(self).table.table@,
                        t,
                        match p {
                            Some(x) => x,
                            None => 0,
                        },
                        match f {
                            Some(x) => x,
                            None => 0,
                        },
                        old(self).options.auto_cjk,
                        old(self).cjk,
                    )
                }
            }),
    {
        match split_dict_line(spec) {
            Some(fields) if fields.pos.is_some() => {
                let pos = match &fields.pos {
                    Some(t) => match parse_pos(t.as_str(), row_pos_float) {
                        Some(v) => v,
                        None => 0,
                    },
                    None => 0,
                };
                let auto_cjk = self.options.auto_cjk;
                self.table.add_with_cjk(fields.w.as_str(), pos, row_weight, auto_cjk, &self.cjk);
                Ok(())
            },
            _ => {
                let t = trim(spec);
                if t.as_str().is_empty() {
                    return Err(Error::InvalidInput(to_owned_string(spec)));
                }
                let pv = match p {
                    Some(x) => x,
                    None => 0,
                };
                let fv = match f {
                    Some(x) => x,
                    None => 0,
                };
                let auto_cjk = self.options.auto_cjk;
                self.table.add_with_cjk(t.as_str(), pv, fv, auto_cjk, &self.cjk);
                Ok(())
            },
        }
    }
}

/// The lines of a word list are never empty.
proof fn lemma_clean_lines_nonempty(ls: Seq<Seq<char>>)
    ensures
        forall|k: int| 0 <= k < clean_lines_spec(ls).len() ==> (#[trigger] clean_lines_spec(ls)[k]).len() > 0,
    decreases ls.len(),
{
    if ls.len() > 0 {
        lemma_clean_lines_nonempty(ls.drop_last());
        let r = clean_lines_spec(ls.drop_last());
        let t = trim_seq(ls.last());
        if !skipped_line(t) {
            assert forall|k: int| 0 <= k < r.push(t).len() implies (#[trigger] r.push(t)[k]).len() > 0 by {
                if k < r.len() {
                    assert(r.push(t)[k] == r[k]);
                }
            }
        }
    }
}

/// The first char of a text, if any.
fn first_char(s: &str) -> (r: Option<char>)
    ensures
        r == (if s@.len() > 0 {
            Some(s@[0])
        } else {
            None::<char>
        }),
{
    let cs = chars_of(s);
    if cs.len() > 0 {
        Some(cs[0])
    } else {
        None
    }
}

/// The runs of non-whitespace chars of `s` that are complete, and the run in progress.
pub open spec fn ws_runs(s: Seq<char>) -> (Seq<Seq<char>>, Seq<char>)
    decreases s.len(),
{
    if s.len() == 0 {
        (Seq::empty(), Seq::empty())
    } else {
        let prev = ws_runs(s.drop_last());
        let ch = s.last();
        if is_ws(ch) {
            if prev.1.len() > 0 {
                (prev.0.push(prev.1), Seq::empty())
            } else {
                prev
            }
        } else {
            (prev.0, prev.1.push(ch))
        }
    }
}

/// The runs of non-whitespace chars of `s`, in order.
pub open spec fn split_ws_spec(s: Seq<char>) -> Seq<Seq<char>> {
    let st = ws_runs(s);
    if st.1.len() > 0 {
        st.0.push(st.1)
    } else {
        st.0
    }
}

/// `str::split_whitespace`: the runs of non-whitespace chars.
pub fn split_ws(s: &str) -> (r: Vec<String>)
    ensures
        r@.map_values(|x: String| x@) == split_ws_spec(s@),
        forall|i: int| 0 <= i < r@.len() ==> (#[trigger] r@[i])@.len() > 0,
{
    let cs = chars_of(s);
    let mut out: Vec<String> = Vec::new();
    let mut cur: Vec<char> = Vec::new();
    let mut i: usize = 0;
    while i < cs.len()
        invariant
            cs@ == s@,
            i <= cs@.len(),
            forall|k: int| 0 <= k < out@.len() ==> (#[trigger] out@[k])@.len() > 0,
            out@.map_values(|x: String| x@) == ws_runs(s@.take(i as int)).0,
            cur@ == ws_runs(s@.take(i as int)).1,
        decreases cs@.len() - i,
    {
        proof {
            assert(s@.take(i + 1).drop_last() =~= s@.take(i as int));
            assert(s@.take(i + 1).last() == cs@[i as int]);
        }
        if is_whitespace(cs[i]) {
            if cur.len() > 0 {
                let piece = crate::strs::string_from_chars(cur.as_slice());
                proof {
                    assert(out@.push(piece).map_values(|x: String| x@) =~= out@.map_values(|x: String| x@).push(piece@));
                }
                out.push(piece);
                cur = Vec::new();
            }
        } else {
            cur.push(cs[i]);
        }
        i += 1;
    }
    proof {
        assert(s@.take(cs@.len() as int) =~= s@);
    }
    if cur.len() > 0 {
        let piece = crate::strs::string_from_chars(cur.as_slice());
        proof {
            assert(out@.push(piece).map_values(|x: String| x@) =~= out@.map_values(|x: String| x@).push(piece@));
        }
        out.push(piece);
    }
    out
}

/// A row of an OpenCC table (`源\t目 目…`, trimmed; not empty, not a `#` comment): the
/// first char of the source and the first char of each target.
pub open spec fn opencc_row_spec(line: Seq<char>) -> Option<(char, Seq<char>)> {
    let t = trim_seq(line);
    let parts = fields(t, '\t');
    if t.len() == 0 || has_prefix(t, "#"@) || parts.len() < 2 || parts[0].len() == 0 {
        None
    } else {
        Some((parts[0][0], split_ws_spec(parts[1]).map_values(|w: Seq<char>| w[0])))
    }
}

/// What one row of a character table adds to the aliases of `c`: the source gains itself
/// and its targets, each target gains the source and itself.
pub open spec fn pair_row_gain(row: Option<(char, Seq<char>)>, c: char) -> Set<char> {
    match row {
        Some((from, ds)) => (if c == from {
            ds.to_set().insert(from)
        } else {
            Set::empty()
        }).union(
            if ds.contains(c) {
                set![from, c]
            } else {
                Set::empty()
            },
        ),
        None => Set::empty(),
    }
}

/// What the rows of a character table add to the aliases of `c`.
pub open spec fn pair_gain(ls: Seq<Seq<char>>, c: char) -> Set<char>
    decreases ls.len(),
{
    if ls.len() == 0 {
        Set::empty()
    } else {
        pair_gain(ls.drop_last(), c).union(pair_row_gain(opencc_row_spec(ls.last()), c))
    }
}

/// What one row of a variant table adds to the aliases of `c`: the source gains its
/// targets, each target gains the source.
pub open spec fn alias_row_gain(row: Option<(char, Seq<char>)>, c: char) -> Set<char> {
    match row {
        Some((from, ds)) => (if c == from {
            ds.to_set()
        } else {
            Set::empty()
        }).union(
            if ds.contains(c) {
                set![from]
            } else {
                Set::empty()
            },
        ),
        None => Set::empty(),
    }
}

/// What the rows of a variant table add to the aliases of `c`.
pub open spec fn alias_gain(ls: Seq<Seq<char>>, c: char) -> Set<char>
    decreases ls.len(),
{
    if ls.len() == 0 {
        Set::empty()
    } else {
        alias_gain(ls.drop_last(), c).union(alias_row_gain(opencc_row_spec(ls.last()), c))
    }
}

/// `m` with each row's source mapped to its first target, where the source is not yet
/// mapped (the first row for a source wins).
pub open spec fn first_targets(m: Map<u32, char>, ls: Seq<Seq<char>>) -> Map<u32, char>
    decreases ls.len(),
{
    if ls.len() == 0 {
        m
    } else {
        let prev = first_targets(m, ls.drop_last());
        match opencc_row_spec(ls.last()) {
            Some((from, ds)) => if ds.len() > 0 && !prev.contains_key(from as u32) {
                prev.insert(from as u32, ds[0])
            } else {
                prev
            },
            None => prev,
        }
    }
}

/// The source char and the first chars of the targets of an OpenCC row (`源\t目 目…`).
fn opencc_row(line: &str) -> (r: Option<(char, Vec<char>)>)
    ensures
        r matches Some(x) ==> opencc_row_spec(line@) == Some((x.0, x.1@)),
        r is None ==> opencc_row_spec(line@) is None,
{
    let t = trim(line);
    if t.as_str().is_empty() || crate::strs::starts_with(t.as_str(), "#") {
        return None;
    }
    let parts = split_fields(t.as_str(), '\t');
    let ghost pv = parts@.map_values(|x: String| x@);
    if parts.len() < 2 {
        return None;
    }
    proof {
        assert(pv[0] == parts@[0]@);
        assert(pv[1] == parts@[1]@);
    }
    let from = match first_char(parts[0].as_str()) {
        Some(c) => c,
        None => {
            return None;
        },
    };
    let words = split_ws(parts[1].as_str());
    let ghost wv = words@.map_values(|x: String| x@);
    let mut dests: Vec<char> = Vec::new();
    let mut i: usize = 0;
    while i < words.len()
        invariant
            i <= words@.len(),
            wv == words@.map_values(|x: String| x@),
            forall|k: int| 0 <= k < words@.len() ==> (#[trigger] words@[k])@.len() > 0,
            dests@ == wv.take(i as int).map_values(|w: Seq<char>| w[0]),
        decreases words@.len() - i,
    {
        proof {
            assert(wv[i as int] == words@[i as int]@);
            assert(wv.take(i + 1) =~= wv.take(i as int).push(wv[i as int]));
            assert(wv.take(i + 1).map_values(|w: Seq<char>| w[0]) =~= wv.take(i as int).map_values(|w: Seq<char>| w[0]).push(wv[i as int][0]));
        }
        match first_char(words[i].as_str()) {
            Some(c) => dests.push(c),
            None => {},
        }
        i += 1;
    }
    proof {
        assert(wv.take(wv.len() as int) =~= wv);
    }
    Some((from, dests))
}

impl CjkTables {
    /// `from` and `to` become aliases of one another, and `to` of itself.
    fn link_pair(&mut self, from: char, to: char)
        requires
            old(self).wf(),
        ensures
            final(self).wf(),
            final(self).same_maps(old(self)),
            forall|c: char| #[trigger] final(self).alias_of(c).to_set() == old(self).alias_of(c).to_set().union(
                if c == from {
                    set![to]
                } else {
                    Set::empty()
                },
            ).union(
                if c == to {
                    set![from, to]
                } else {
                    Set::empty()
                },
            ),
    {
        let ghost s0 = *self;
        self.add_alias(from, to);
        let ghost s1 = *self;
        self.add_alias(to, from);
        let ghost s2 = *self;
        self.add_alias(to, to);
        proof {
            assert forall|c: char| #[trigger] self.alias_of(c).to_set() == s0.alias_of(c).to_set().union(
                if c == from {
                    set![to]
                } else {
                    Set::empty()
                },
            ).union(
                if c == to {
                    set![from, to]
                } else {
                    Set::empty()
                },
            ) by {
                if c == to {
                    if c == from {
                        assert(self.alias_of(c).to_set() =~= s0.alias_of(c).to_set().insert(to).insert(from).insert(to));
                    } else {
                        assert(s1.alias_of(c) == s0.alias_of(c));
                    }
                } else {
                    assert(s2.alias_of(c) == s1.alias_of(c));
                    assert(self.alias_of(c) == s2.alias_of(c));
                    if c != from {
                        assert(s1.alias_of(c) == s0.alias_of(c));
                    }
                }
                assert(self.alias_of(c).to_set() =~= s0.alias_of(c).to_set().union(
                    if c == from {
                        set![to]
                    } else {
                        Set::empty()
                    },
                ).union(
                    if c == to {
                        set![from, to]
                    } else {
                        Set::empty()
                    },
                ));
            }
        }
    }

    /// `from` and `to` become aliases of one another.
    fn link_alias(&mut self, from: char, to: char)
        requires
            old(self).wf(),
        ensures
            final(self).wf(),
            final(self).same_maps(old(self)),
            forall|c: char| #[trigger] final(self).alias_of(c).to_set() == old(self).alias_of(c).to_set().union(
                if c == from {
                    set![to]
                } else {
                    Set::empty()
                },
            ).union(
                if c == to {
                    set![from]
                } else {
                    Set::empty()
                },
            ),
    {
        let ghost s0 = *self;
        self.add_alias(from, to);
        let ghost s1 = *self;
        self.add_alias(to, from);
        proof {
            assert forall|c: char| #[trigger] self.alias_of(c).to_set() == s0.alias_of(c).to_set().union(
                if c == from {
                    set![to]
                } else {
                    Set::empty()
                },
            ).union(
                if c == to {
                    set![from]
                } else {
                    Set::empty()
                },
            ) by {
                if c != to {
                    assert(self.alias_of(c) == s1.alias_of(c));
                }
                if c != from {
                    assert(s1.alias_of(c) == s0.alias_of(c));
                }
                assert(self.alias_of(c).to_set() =~= s0.alias_of(c).to_set().union(
                    if c == from {
                        set![to]
                    } else {
                        Set::empty()
                    },
                ).union(
                    if c == to {
                        set![from]
                    } else {
                        Set::empty()
                    },
                ));
            }
        }
    }

    /// Read an OpenCC character table (`STCharacters` with `cn2tw`, `TSCharacters`
    /// otherwise): each source char maps to its first target unless already mapped, and
    /// source and targets become aliases of one another.
    pub fn add_opencc_pairs(&mut self, text: &str, cn2tw: bool)
        requires
            old(self).wf(),
        ensures
            final(self).wf(),
            forall|c: char| #[trigger] final(self).alias_of(c).to_set() == old(self).alias_of(c).to_set().union(
                pair_gain(lines_spec(text@), c),
            ),
            final(self).cn2tw@ == (if cn2tw {
                first_targets(old(self).cn2tw@, lines_spec(text@))
            } else {
                old(self).cn2tw@
            }),
            final(self).tw2cn@ == (if cn2tw {
                old(self).tw2cn@
            } else {
                first_targets(old(self).tw2cn@, lines_spec(text@))
            }),
            final(self).jp2zht@ == old(self).jp2zht@,
            final(self).jp2zhs@ == old(self).jp2zhs@,
            final(self).zht2zhs@ == old(self).zht2zhs@,
            final(self).zhs2zht@ == old(self).zhs2zht@,
            final(self).zht2jp@ == old(self).zht2jp@,
            final(self).zhs2jp@ == old(self).zhs2jp@,
    {
        let lines = lines_of(text);
        let ghost lv = lines@.map_values(|x: String| x@);
        let mut i: usize = 0;
        while i < lines.len()
            invariant
                self.wf(),
                i <= lines@.len(),
                lv == lines@.map_values(|x: String| x@),
                lv == lines_spec(text@),
                forall|c: char| #[trigger] self.alias_of(c).to_set() == old(self).alias_of(c).to_set().union(
                    pair_gain(lv.take(i as int), c),
                ),
                self.cn2tw@ == (if cn2tw {
                    first_targets(old(self).cn2tw@, lv.take(i as int))
                } else {
                    old(self).cn2tw@
                }),
                self.tw2cn@ == (if cn2tw {
                    old(self).tw2cn@
                } else {
                    first_targets(old(self).tw2cn@, lv.take(i as int))
                }),
                self.jp2zht@ == old(self).jp2zht@,
                self.jp2zhs@ == old(self).jp2zhs@,
                self.zht2zhs@ == old(self).zht2zhs@,
                self.zhs2zht@ == old(self).zhs2zht@,
                self.zht2jp@ == old(self).zht2jp@,
                self.zhs2jp@ == old(self).zhs2jp@,
            decreases lines@.len() - i,
        {
            proof {
                assert(lv[i as int] == lines@[i as int]@);
                assert(lv.take(i + 1).drop_last() =~= lv.take(i as int));
                assert(lv.take(i + 1).last() == lv[i as int]);
            }
            let ghost start = *self;
            let ghost row = opencc_row_spec(lv[i as int]);
            match opencc_row(lines[i].as_str()) {
                Some((from, dests)) => {
                    if dests.len() > 0 {
                        if cn2tw {
                            self.set_cn2tw(from, dests[0]);
                        } else {
                            self.set_tw2cn(from, dests[0]);
                        }
                    }
                    let ghost mid = *self;
                    self.add_alias(from, from);
                    let mut k: usize = 0;
                    while k < dests.len()
                        invariant
                            self.wf(),
                            k <= dests@.len(),
                            self.same_maps(&mid),
                            forall|c: char| #[trigger] self.alias_of(c).to_set() == start.alias_of(c).to_set().union(
                                if c == from {
                                    dests@.take(k as int).to_set().insert(from)
                                } else {
                                    Set::empty()
                                },
                            ).union(
                                if dests@.take(k as int).contains(c) {
                                    set![from, c]
                                } else {
                                    Set::empty()
                                },
                            ),
                        decreases dests@.len() - k,
                    {
                        let to = dests[k];
                        let ghost before = *self;
                        self.link_pair(from, to);
                        proof {
                            let tk = dests@.take(k as int);
                            let tk1 = dests@.take(k + 1);
                            assert(tk1 =~= tk.push(to));
                            tk.lemma_push_to_set_commute(to);
                            assert forall|c: char| #[trigger] self.alias_of(c).to_set() == start.alias_of(c).to_set().union(
                                if c == from {
                                    tk1.to_set().insert(from)
                                } else {
                                    Set::empty()
                                },
                            ).union(
                                if tk1.contains(c) {
                                    set![from, c]
                                } else {
                                    Set::empty()
                                },
                            ) by {
                                assert(before.alias_of(c).to_set() == start.alias_of(c).to_set().union(
                                    if c == from {
                                        tk.to_set().insert(from)
                                    } else {
                                        Set::empty()
                                    },
                                ).union(
                                    if tk.contains(c) {
                                        set![from, c]
                                    } else {
                                        Set::empty()
                                    },
                                ));
                                if tk1.contains(c) && c != to {
                                    let j = choose|j: int| 0 <= j < tk1.len() && tk1[j] == c;
                                    assert(tk[j] == c);
                                }
                                if tk.contains(c) {
                                    let j = choose|j: int| 0 <= j < tk.len() && tk[j] == c;
                                    assert(tk1[j] == c);
                                }
                                if c == to {
                                    assert(tk1[k as int] == c);
                                }
                                assert(self.alias_of(c).to_set() =~= start.alias_of(c).to_set().union(
                                    if c == from {
                                        tk1.to_set().insert(from)
                                    } else {
                                        Set::empty()
                                    },
                                ).union(
                                    if tk1.contains(c) {
                                        set![from, c]
                                    } else {
                                        Set::empty()
                                    },
                                ));
                            }
                        }
                        k += 1;
                    }
                    proof {
                        assert(dests@.take(dests@.len() as int) =~= dests@);
                        assert(row == Some((from, dests@)));
                    }
                },
                None => {},
            }
            proof {
                assert forall|c: char| #[trigger] self.alias_of(c).to_set() == old(self).alias_of(c).to_set().union(
                    pair_gain(lv.take(i + 1), c),
                ) by {
                    assert(pair_gain(lv.take(i + 1), c) == pair_gain(lv.take(i as int), c).union(pair_row_gain(row, c)));
                    assert(self.alias_of(c).to_set() =~= start.alias_of(c).to_set().union(pair_row_gain(row, c)));
                    assert(old(self).alias_of(c).to_set().union(pair_gain(lv.take(i as int), c)).union(pair_row_gain(row, c))
                        =~= old(self).alias_of(c).to_set().union(pair_gain(lv.take(i + 1), c)));
                }
            }
            i += 1;
        }
        proof {
            assert(lv.take(lv.len() as int) =~= lv);
        }
    }

    /// Read an OpenCC variant or phrase table: each source char and the first char of
    /// each target become aliases of one another.
    pub fn add_opencc_aliases(&mut self, text: &str)
        requires
            old(self).wf(),
        ensures
            final(self).wf(),
            forall|c: char| #[trigger] final(self).alias_of(c).to_set() == old(self).alias_of(c).to_set().union(
                alias_gain(lines_spec(text@), c),
            ),
            final(self).same_maps(old(self)),
    {
        let lines = lines_of(text);
        let ghost lv = lines@.map_values(|x: String| x@);
        let mut i: usize = 0;
        while i < lines.len()
            invariant
                self.wf(),
                i <= lines@.len(),
                lv == lines@.map_values(|x: String| x@),
                lv == lines_spec(text@),
                forall|c: char| #[trigger] self.alias_of(c).to_set() == old(self).alias_of(c).to_set().union(
                    alias_gain(lv.take(i as int), c),
                ),
                self.same_maps(old(self)),
            decreases lines@.len() - i,
        {
            proof {
                assert(lv[i as int] == lines@[i as int]@);
                assert(lv.take(i + 1).drop_last() =~= lv.take(i as int));
                assert(lv.take(i + 1).last() == lv[i as int]);
            }
            let ghost start = *self;
            let ghost row = opencc_row_spec(lv[i as int]);
            match opencc_row(lines[i].as_str()) {
                Some((from, dests)) => {
                    let mut k: usize = 0;
                    while k < dests.len()
                        invariant
                            self.wf(),
                            k <= dests@.len(),
                            self.same_maps(old(self)),
                            forall|c: char| #[trigger] self.alias_of(c).to_set() == start.alias_of(c).to_set().union(
                                if c == from {
                                    dests@.take(k as int).to_set()
                                } else {
                                    Set::empty()
                                },
                            ).union(
                                if dests@.take(k as int).contains(c) {
                                    set![from]
                                } else {
                                    Set::empty()
                                },
                            ),
                        decreases dests@.len() - k,
                    {
                        let to = dests[k];
                        let ghost before = *self;
                        self.link_alias(from, to);
                        proof {
                            let tk = dests@.take(k as int);
                            let tk1 = dests@.take(k + 1);
                            assert(tk1 =~= tk.push(to));
                            tk.lemma_push_to_set_commute(to);
                            assert forall|c: char| #[trigger] self.alias_of(c).to_set() == start.alias_of(c).to_set().union(
                                if c == from {
                                    tk1.to_set()
                                } else {
                                    Set::empty()
                                },
                            ).union(
                                if tk1.contains(c) {
                                    set![from]
                                } else {
                                    Set::empty()
                                },
                            ) by {
                                assert(before.alias_of(c).to_set() == start.alias_of(c).to_set().union(
                                    if c == from {
                                        tk.to_set()
                                    } else {
                                        Set::empty()
                                    },
                                ).union(
                                    if tk.contains(c) {
                                        set![from]
                                    } else {
                                        Set::empty()
                                    },
                                ));
                                if tk1.contains(c) && c != to {
                                    let j = choose|j: int| 0 <= j < tk1.len() && tk1[j] == c;
                                    assert(tk[j] == c);
                                }
                                if tk.contains(c) {
                                    let j = choose|j: int| 0 <= j < tk.len() && tk[j] == c;
                                    assert(tk1[j] == c);
                                }
                                if c == to {
                                    assert(tk1[k as int] == c);
                                }
                                assert(self.alias_of(c).to_set() =~= start.alias_of(c).to_set().union(
                                    if c == from {
                                        tk1.to_set()
                                    } else {
                                        Set::empty()
                                    },
                                ).union(
                                    if tk1.contains(c) {
                                        set![from]
                                    } else {
                                        Set::empty()
                                    },
                                ));
                            }
                        }
                        k += 1;
                    }
                    proof {
                        assert(dests@.take(dests@.len() as int) =~= dests@);
                        assert(row == Some((from, dests@)));
                    }
                },
                None => {},
            }
            proof {
                assert forall|c: char| #[trigger] self.alias_of(c).to_set() == old(self).alias_of(c).to_set().union(
                    alias_gain(lv.take(i + 1), c),
                ) by {
                    assert(alias_gain(lv.take(i + 1), c) == alias_gain(lv.take(i as int), c).union(alias_row_gain(row, c)));
                    assert(self.alias_of(c).to_set() =~= start.alias_of(c).to_set().union(alias_row_gain(row, c)));
                    assert(old(self).alias_of(c).to_set().union(alias_gain(lv.take(i as int), c)).union(alias_row_gain(row, c))
                        =~= old(self).alias_of(c).to_set().union(alias_gain(lv.take(i + 1), c)));
                }
            }
            i += 1;
        }
        proof {
            assert(lv.take(lv.len() as int) =~= lv);
        }
    }

    /// A simplified char and its listed forms become aliases of it (`table_cn` rows).
    pub fn add_alias_star(&mut self, from: char, tos: &Vec<char>)
        requires
            old(self).wf(),
        ensures
            final(self).wf(),
            final(self).alias_of(from).to_set() == old(self).alias_of(from).to_set().insert(from).union(tos@.to_set()),
            forall|c: char| c != from ==> #[trigger] final(self).alias_of(c) == old(self).alias_of(c),
            final(self).same_maps(old(self)),
    {
        self.add_alias(from, from);
        let mut k: usize = 0;
        while k < tos.len()
            invariant
                self.wf(),
                k <= tos@.len(),
                self.alias_of(from).to_set() == old(self).alias_of(from).to_set().insert(from).union(tos@.take(k as int).to_set()),
                forall|c: char| c != from ==> #[trigger] self.alias_of(c) == old(self).alias_of(c),
                self.same_maps(old(self)),
            decreases tos@.len() - k,
        {
            proof {
                assert(tos@.take(k + 1) =~= tos@.take(k as int).push(tos@[k as int]));
                tos@.take(k as int).lemma_push_to_set_commute(tos@[k as int]);
            }
            self.add_alias(from, tos[k]);
            proof {
                let base = old(self).alias_of(from).to_set().insert(from);
                assert(base.union(tos@.take(k as int).to_set()).insert(tos@[k as int]) =~= base.union(tos@.take(k + 1).to_set()));
            }
            k += 1;
        }
        proof {
            assert(tos@.take(tos@.len() as int) =~= tos@);
        }
    }
}

} // verus!
