//! Checking a segmentation against expectations, and the text processing the command line
//! and API offer.
use vstd::prelude::*;
use crate::cjk::CjkTables;
use crate::dict_tokenizer::ChunkScorer;
use crate::options::DoSegmentOptions;
use crate::segment::Segment;
use crate::strs::{
    string_views, chars_of, concat_str, find_from, find_from_exec, push_char, str_eq, string_from_chars, to_owned_string,
    trim, trim_seq, is_ws, is_whitespace,
};
use crate::re::{concat_pieces, lemma_concat_push, regex_valid, spec_regex_valid, split_keep_re, RE_DEBUG_SPLIT};
use crate::word::{stringify, stringify_list, text_of, texts_of, views, Word, WordView};
use crate::run::{blank, disabled_for, flatten_views, segment_result};
use crate::optimizers::view_text;
use crate::options::flag_of;

verus! {

/// Which segmenter profile a request uses.
#[derive(Clone, Copy, Debug, PartialEq, Eq)]
pub enum SegmentMode {
    /// CJK variants, every module, synonym conversion.
    Novel,
    /// The synonym files of the novel profile.
    NodeNovel,
}

/// One expected word: a text, or any of several texts.
pub enum ExpectedItem {
    One(String),
    Any(Vec<String>),
}

/// `v` joined with `sep` between the items.
pub open spec fn joined(v: Seq<Seq<char>>, sep: Seq<char>) -> Seq<char>
    decreases v.len(),
{
    if v.len() == 0 {
        Seq::empty()
    } else if v.len() == 1 {
        v[0]
    } else {
        joined(v.drop_last(), sep) + sep + v.last()
    }
}

fn join_with(v: &Vec<String>, sep: &str) -> (r: String)
    ensures
        r@ == joined(v@.map_values(|s: String| s@), sep@),
{
    let ghost vv = v@.map_values(|s: String| s@);
    let mut out = String::new();
    let mut i: usize = 0;
    while i < v.len()
        invariant
            vv == v@.map_values(|s: String| s@),
            i <= v@.len(),
            out@ == joined(vv.subrange(0, i as int), sep@),
        decreases v@.len() - i,
    {
        proof {
            assert(vv.subrange(0, i + 1).drop_last() =~= vv.subrange(0, i as int));
            assert(vv[i as int] == v@[i as int]@);
        }
        if i == 0 {
            out = to_owned_string(v[0].as_str());
            proof {
                assert(vv.subrange(0, 1) =~= seq![vv[0]]);
            }
        } else {
            out = concat_str(concat_str(out.as_str(), sep).as_str(), v[i].as_str());
        }
        i += 1;
    }
    proof {
        assert(vv.subrange(0, vv.len() as int) =~= vv);
    }
    out
}

impl ExpectedItem {
    /// The item as shown in a report: the text, or the texts joined by `/`.
    pub fn label(&self) -> (r: String)
        ensures
            r@ == (match self {
                ExpectedItem::One(s) => s@,
                ExpectedItem::Any(v) => joined(v@.map_values(|s: String| s@), "/"@),
            }),
    {
        match self {
            ExpectedItem::One(s) => to_owned_string(s.as_str()),
            ExpectedItem::Any(v) => join_with(v, "/"),
        }
    }
}

/// Which expectations held (`None` where none was given).
pub struct MatchResults {
    pub match_expected_full: Option<bool>,
    pub match_expected_contains: Option<bool>,
    pub match_expected_contains_not: Option<bool>,
    pub match_expected_index_of: Option<bool>,
    pub match_expected_index_of_not: Option<bool>,
}

/// Line breaks as `\n`: `\r\n` and lone `\r` become `\n`.
pub open spec fn crlf(s: Seq<char>) -> Seq<char>
    decreases s.len(),
{
    if s.len() == 0 {
        Seq::empty()
    } else if s[0] == '\r' && s.len() >= 2 && s[1] == '\n' {
        seq!['\n'] + crlf(s.skip(2))
    } else if s[0] == '\r' {
        seq!['\n'] + crlf(s.skip(1))
    } else {
        seq![s[0]] + crlf(s.skip(1))
    }
}

/// Replace `\r\n`, then every remaining `\r`, by `\n`.
pub fn crlf_normalize(text: &str) -> (r: String)
    ensures
        r@ == crlf(text@),
{
    let cs = chars_of(text);
    let mut out: Vec<char> = Vec::new();
    let mut i: usize = 0;
    assert(text@.skip(0) =~= text@);
    assert(out@ + crlf(text@) =~= crlf(text@));
    while i < cs.len()
        invariant
            cs@ == text@,
            i <= cs@.len(),
            out@ + crlf(text@.skip(i as int)) == crlf(text@),
        decreases cs@.len() - i,
    {
        assert(i < cs@.len());
        let ghost rest = text@.skip(i as int);
        if cs[i] == '\r' && i + 1 < cs.len() && cs[i + 1] == '\n' {
            proof {
                assert(rest[0] == '\r' && rest[1] == '\n');
                assert(rest.skip(2) =~= text@.skip(i + 2));
                assert(out@.push('\n') + crlf(text@.skip(i + 2)) =~= out@ + (seq!['\n'] + crlf(rest.skip(2))));
            }
            out.push('\n');
            i += 2;
        } else {
            let c = if cs[i] == '\r' {
                '\n'
            } else {
                cs[i]
            };
            proof {
                assert(rest[0] == cs@[i as int]);
                assert(rest.skip(1) =~= text@.skip(i + 1));
                assert(out@.push(c) + crlf(text@.skip(i + 1)) =~= out@ + (seq![c] + crlf(rest.skip(1))));
            }
            out.push(c);
            i += 1;
        }
    }
    proof {
        assert(text@.skip(cs@.len() as int) =~= Seq::<char>::empty());
        assert(out@ + Seq::<char>::empty() =~= out@);
    }
    string_from_chars(out.as_slice())
}

/// After normalizing, no `\r` is left.
pub proof fn law_crlf_no_cr(s: Seq<char>)
    ensures
        !crlf(s).contains('\r'),
    decreases s.len(),
{
    if s.len() > 0 {
        if s[0] == '\r' && s.len() >= 2 && s[1] == '\n' {
            law_crlf_no_cr(s.skip(2));
            lemma_no_cr_prepend('\n', crlf(s.skip(2)));
        } else if s[0] == '\r' {
            law_crlf_no_cr(s.skip(1));
            lemma_no_cr_prepend('\n', crlf(s.skip(1)));
        } else {
            law_crlf_no_cr(s.skip(1));
            lemma_no_cr_prepend(s[0], crlf(s.skip(1)));
        }
    }
}

proof fn lemma_no_cr_prepend(c: char, t: Seq<char>)
    requires
        c != '\r',
        !t.contains('\r'),
    ensures
        !(seq![c] + t).contains('\r'),
{
    if (seq![c] + t).contains('\r') {
        let i = choose|i: int| 0 <= i < (seq![c] + t).len() && (seq![c] + t)[i] == '\r';
        if i > 0 {
            assert(t[i - 1] == '\r');
        }
    }
}

/// A text without `\r` is left as it is.
pub proof fn law_crlf_fixed(s: Seq<char>)
    requires
        !s.contains('\r'),
    ensures
        crlf(s) == s,
    decreases s.len(),
{
    if s.len() > 0 {
        assert(s[0] != '\r');
        assert(!s.skip(1).contains('\r')) by {
            if s.skip(1).contains('\r') {
                let i = choose|i: int| 0 <= i < s.skip(1).len() && s.skip(1)[i] == '\r';
                assert(s[i + 1] == '\r');
            }
        }
        law_crlf_fixed(s.skip(1));
        assert(seq![s[0]] + s.skip(1) =~= s);
    }
}

/// Normalizing twice is normalizing once.
pub proof fn law_crlf_idempotent(s: Seq<char>)
    ensures
        crlf(crlf(s)) == crlf(s),
{
    law_crlf_no_cr(s);
    law_crlf_fixed(crlf(s));
}

/// Trim, then normalize line breaks.
pub fn normalize_text(text: &str) -> (r: String)
    ensures
        r@ == crlf(trim_seq(text@)),
{
    crlf_normalize(trim(text).as_str())
}

/// `w` is the expected text, or one of the expected texts.
pub open spec fn hits_item(w: Seq<char>, exp: ExpectedItem) -> bool {
    match exp {
        ExpectedItem::One(s) => w == s@,
        ExpectedItem::Any(v) => exists|k: int| 0 <= k < v@.len() && #[trigger] v@[k]@ == w,
    }
}

/// Some text of `v` is `w`.
fn any_eq(v: &Vec<String>, w: &str) -> (r: bool)
    ensures
        r == exists|k: int| 0 <= k < v@.len() && #[trigger] v@[k]@ == w@,
{
    let mut k: usize = 0;
    while k < v.len()
        invariant
            k <= v@.len(),
            forall|j: int| 0 <= j < k ==> v@[j]@ != w@,
        decreases v@.len() - k,
    {
        if str_eq(v[k].as_str(), w) {
            assert(v@[k as int]@ == w@);
            return true;
        }
        k += 1;
    }
    false
}

pub fn item_hit(w: &str, exp: &ExpectedItem) -> (r: bool)
    ensures
        r == hits_item(w@, *exp),
{
    match exp {
        ExpectedItem::One(s) => str_eq(w, s.as_str()),
        ExpectedItem::Any(v) => any_eq(v, w),
    }
}

/// First index `>= from` of a word that hits `exp`.
pub open spec fn first_hit(got: Seq<Seq<char>>, exp: ExpectedItem, from: int) -> Option<int>
    decreases got.len() - from,
{
    if from < 0 || from >= got.len() {
        None
    } else if hits_item(got[from], exp) {
        Some(from)
    } else {
        first_hit(got, exp, from + 1)
    }
}

/// The expected items found in order (each after the previous hit); the labels of the
/// ones not found, with the search going on from where it was.
pub open spec fn ordered_failures(got: Seq<Seq<char>>, exp: Seq<ExpectedItem>, from: int) -> Seq<ExpectedItem>
    decreases exp.len(),
{
    if exp.len() == 0 {
        Seq::empty()
    } else {
        match first_hit(got, exp[0], from) {
            Some(i) => ordered_failures(got, exp.skip(1), i + 1),
            None => seq![exp[0]] + ordered_failures(got, exp.skip(1), from),
        }
    }
}

fn find_hit(got: &Vec<String>, exp: &ExpectedItem, from: usize) -> (r: Option<usize>)
    ensures
        r matches Some(i) ==> first_hit(got@.map_values(|s: String| s@), *exp, from as int) == Some(i as int) && i < got@.len(),
        r is None ==> first_hit(got@.map_values(|s: String| s@), *exp, from as int) is None,
{
    let ghost gv = got@.map_values(|s: String| s@);
    let mut i = from;
    while i < got.len()
        invariant
            gv == got@.map_values(|s: String| s@),
            from <= i,
            first_hit(gv, *exp, from as int) == first_hit(gv, *exp, i as int),
        decreases got@.len() - i,
    {
        proof {
            assert(gv[i as int] == got@[i as int]@);
        }
        if item_hit(got[i].as_str(), exp) {
            return Some(i);
        }
        i += 1;
    }
    None
}

/// The labels of items.
pub open spec fn labels(items: Seq<ExpectedItem>) -> Seq<Seq<char>> {
    items.map_values(|e: ExpectedItem| label_of(e))
}

pub open spec fn label_of(e: ExpectedItem) -> Seq<char> {
    match e {
        ExpectedItem::One(s) => s@,
        ExpectedItem::Any(v) => joined(v@.map_values(|s: String| s@), "/"@),
    }
}

/// Whether the expected items occur in order among the words, and the labels of those
/// that do not.
pub fn ordered_contains(got: &Vec<String>, expected: &Vec<ExpectedItem>) -> (r: (bool, Vec<String>))
    ensures
        r.1@.map_values(|s: String| s@) == labels(ordered_failures(got@.map_values(|s: String| s@), expected@, 0)),
        r.0 == (r.1@.len() == 0),
{
    let ghost gv = got@.map_values(|s: String| s@);
    let glen = got.len();
    let mut i: usize = 0;
    let mut failed: Vec<String> = Vec::new();
    let mut k: usize = 0;
    proof {
        assert(expected@.skip(0) =~= expected@);
        assert(failed@.map_values(|s: String| s@) + labels(ordered_failures(gv, expected@, 0)) =~= labels(ordered_failures(gv, expected@, 0)));
    }
    while k < expected.len()
        invariant
            glen == got@.len(),
            gv == got@.map_values(|s: String| s@),
            k <= expected@.len(),
            i <= got@.len(),
            labels(ordered_failures(gv, expected@, 0)) == failed@.map_values(|s: String| s@) + labels(
                ordered_failures(gv, expected@.skip(k as int), i as int),
            ),
        decreases expected@.len() - k,
    {
        let ghost rest = expected@.skip(k as int);
        proof {
            assert(rest[0] == expected@[k as int]);
            assert(rest.skip(1) =~= expected@.skip(k + 1));
        }
        match find_hit(got, &expected[k], i) {
            Some(idx) => {
                proof {
                    assert(gv.len() == got@.len());
                    assert(ordered_failures(gv, rest, i as int) == ordered_failures(gv, rest.skip(1), idx + 1));
                }
                i = idx + 1;
            },
            None => {
                let l = expected[k].label();
                let ghost prev = failed@.map_values(|s: String| s@);
                failed.push(l);
                proof {
                    assert(failed@.map_values(|s: String| s@) =~= prev.push(l@));
                    let tail = ordered_failures(gv, expected@.skip(k + 1), i as int);
                    assert(labels(seq![rest[0]] + tail) =~= seq![label_of(rest[0])] + labels(tail));
                    assert(prev + (seq![label_of(rest[0])] + labels(tail)) =~= prev.push(l@) + labels(tail));
                }
            },
        }
        k += 1;
    }
    proof {
        assert(expected@.skip(expected@.len() as int) =~= Seq::<ExpectedItem>::empty());
        assert(labels(Seq::<ExpectedItem>::empty()) =~= Seq::<Seq<char>>::empty());
        assert(failed@.map_values(|s: String| s@) + Seq::<Seq<char>>::empty() =~= failed@.map_values(|s: String| s@));
    }
    (failed.len() == 0, failed)
}

/// Where an item is found in `joined` from `from` on: for several texts, the one found
/// first (the earliest listed among equals), with the length of the text found.
pub open spec fn find_item_spec(joined: Seq<char>, from: int, exp: ExpectedItem) -> Option<(int, int)> {
    match exp {
        ExpectedItem::One(s) => match find_from(joined, s@, from) {
            Some(i) => Some((i, s@.len() as int)),
            None => None,
        },
        ExpectedItem::Any(v) => earliest(joined, from, v@.map_values(|s: String| s@), v@.len() as int),
    }
}

/// The earliest find among the first `k` texts (the first listed among equals).
pub open spec fn earliest(joined: Seq<char>, from: int, v: Seq<Seq<char>>, k: int) -> Option<(int, int)>
    decreases k,
{
    if k <= 0 {
        None
    } else {
        let prev = earliest(joined, from, v, k - 1);
        match find_from(joined, v[k - 1], from) {
            Some(i) => match prev {
                Some(p) => if i < p.0 {
                    Some((i, v[k - 1].len() as int))
                } else {
                    prev
                },
                None => Some((i, v[k - 1].len() as int)),
            },
            None => prev,
        }
    }
}

/// Find an item in the joined output (positions in chars).
pub fn find_item(joined: &str, from: usize, exp: &ExpectedItem) -> (r: Option<(usize, usize)>)
    ensures
        r matches Some(x) ==> find_item_spec(joined@, from as int, *exp) == Some((x.0 as int, x.1 as int)),
        r is None ==> find_item_spec(joined@, from as int, *exp) is None,
{
    let cs = chars_of(joined);
    match exp {
        ExpectedItem::One(s) => {
            let sc = chars_of(s.as_str());
            match find_from_exec(cs.as_slice(), sc.as_slice(), from) {
                Some(i) => Some((i, sc.len())),
                None => None,
            }
        },
        ExpectedItem::Any(v) => {
            let ghost vv = v@.map_values(|s: String| s@);
            let mut best: Option<(usize, usize)> = None;
            let mut k: usize = 0;
            while k < v.len()
                invariant
                    cs@ == joined@,
                    vv == v@.map_values(|s: String| s@),
                    k <= v@.len(),
                    match best {
                        Some(x) => earliest(joined@, from as int, vv, k as int) == Some((x.0 as int, x.1 as int)),
                        None => earliest(joined@, from as int, vv, k as int) is None,
                    },
                decreases v@.len() - k,
            {
                let sc = chars_of(v[k].as_str());
                proof {
                    assert(vv[k as int] == v@[k as int]@);
                }
                match find_from_exec(cs.as_slice(), sc.as_slice(), from) {
                    Some(i) => {
                        match best {
                            Some(b) => {
                                if i < b.0 {
                                    best = Some((i, sc.len()));
                                }
                            },
                            None => {
                                best = Some((i, sc.len()));
                            },
                        }
                    },
                    None => {},
                }
                k += 1;
            }
            best
        },
    }
}

/// Labels of the items not found in order in the joined output.
pub open spec fn index_failures(joined: Seq<char>, exp: Seq<ExpectedItem>, from: int) -> Seq<ExpectedItem>
    decreases exp.len(),
{
    if exp.len() == 0 {
        Seq::empty()
    } else {
        match find_item_spec(joined, from, exp[0]) {
            Some(x) => index_failures(joined, exp.skip(1), x.0 + x.1),
            None => seq![exp[0]] + index_failures(joined, exp.skip(1), from),
        }
    }
}

/// Whether the expected items occur in order in the joined output, and the labels of those
/// that do not.
pub fn index_of_all(joined: &str, expected: &Vec<ExpectedItem>) -> (r: (bool, Vec<String>))
    ensures
        r.1@.map_values(|s: String| s@) == labels(index_failures(joined@, expected@, 0)),
        r.0 == (r.1@.len() == 0),
{
    let mut pos: usize = 0;
    let mut failed: Vec<String> = Vec::new();
    let mut k: usize = 0;
    let n = chars_of(joined).len();
    proof {
        assert(expected@.skip(0) =~= expected@);
        assert(failed@.map_values(|s: String| s@) + labels(index_failures(joined@, expected@, 0)) =~= labels(index_failures(joined@, expected@, 0)));
    }
    while k < expected.len()
        invariant
            n == joined@.len(),
            k <= expected@.len(),
            pos <= n,
            labels(index_failures(joined@, expected@, 0)) == failed@.map_values(|s: String| s@) + labels(
                index_failures(joined@, expected@.skip(k as int), pos as int),
            ),
        decreases expected@.len() - k,
    {
        let ghost rest = expected@.skip(k as int);
        proof {
            assert(rest[0] == expected@[k as int]);
            assert(rest.skip(1) =~= expected@.skip(k + 1));
        }
        match find_item(joined, pos, &expected[k]) {
            Some((at, len)) => {
                proof {
                    lemma_find_item_bound(joined@, pos as int, expected@[k as int]);
                    assert(index_failures(joined@, rest, pos as int) == index_failures(joined@, rest.skip(1), at + len));
                }
                pos = at + len;
            },
            None => {
                let l = expected[k].label();
                let ghost prev = failed@.map_values(|s: String| s@);
                failed.push(l);
                proof {
                    assert(failed@.map_values(|s: String| s@) =~= prev.push(l@));
                    let tail = index_failures(joined@, expected@.skip(k + 1), pos as int);
                    assert(labels(seq![rest[0]] + tail) =~= seq![label_of(rest[0])] + labels(tail));
                    assert(prev + (seq![label_of(rest[0])] + labels(tail)) =~= prev.push(l@) + labels(tail));
                }
            },
        }
        k += 1;
    }
    proof {
        assert(expected@.skip(expected@.len() as int) =~= Seq::<ExpectedItem>::empty());
        assert(labels(Seq::<ExpectedItem>::empty()) =~= Seq::<Seq<char>>::empty());
        assert(failed@.map_values(|s: String| s@) + Seq::<Seq<char>>::empty() =~= failed@.map_values(|s: String| s@));
    }
    (failed.len() == 0, failed)
}

/// A find lies inside the text.
proof fn lemma_find_item_bound(joined: Seq<char>, from: int, exp: ExpectedItem)
    requires
        0 <= from,
    ensures
        find_item_spec(joined, from, exp) matches Some(x) ==> 0 <= x.0 && x.0 + x.1 <= joined.len(),
{
    match exp {
        ExpectedItem::One(s) => {
            crate::strs::lemma_find_from(joined, s@, from);
        },
        ExpectedItem::Any(v) => {
            lemma_earliest_bound(joined, from, v@.map_values(|s: String| s@), v@.len() as int);
        },
    }
}

proof fn lemma_earliest_bound(joined: Seq<char>, from: int, v: Seq<Seq<char>>, k: int)
    requires
        0 <= from,
        k <= v.len(),
    ensures
        earliest(joined, from, v, k) matches Some(x) ==> 0 <= x.0 && x.0 + x.1 <= joined.len(),
    decreases k,
{
    if k > 0 {
        lemma_earliest_bound(joined, from, v, k - 1);
        crate::strs::lemma_find_from(joined, v[k - 1], from);
    }
}

/// The text occurs somewhere in the joined output.
pub open spec fn occurs(joined: Seq<char>, s: Seq<char>) -> bool {
    find_from(joined, s, 0) is Some
}

/// The items of which some text occurs in the joined output.
pub open spec fn present_items(joined: Seq<char>, exp: Seq<ExpectedItem>) -> Seq<ExpectedItem>
    decreases exp.len(),
{
    if exp.len() == 0 {
        Seq::empty()
    } else {
        let r = present_items(joined, exp.drop_last());
        let e = exp.last();
        let hit = match e {
            ExpectedItem::One(s) => occurs(joined, s@),
            ExpectedItem::Any(v) => exists|k: int| 0 <= k < v@.len() && occurs(joined, #[trigger] v@[k]@),
        };
        if hit {
            r.push(e)
        } else {
            r
        }
    }
}

/// Labels of the items that occur in the joined output (none of them should).
pub fn index_of_not_failed(joined: &str, expected: &Vec<ExpectedItem>) -> (r: Vec<String>)
    ensures
        r@.map_values(|s: String| s@) == labels(present_items(joined@, expected@)),
{
    let cs = chars_of(joined);
    let mut failed: Vec<String> = Vec::new();
    let mut k: usize = 0;
    while k < expected.len()
        invariant
            cs@ == joined@,
            k <= expected@.len(),
            failed@.map_values(|s: String| s@) == labels(present_items(joined@, expected@.subrange(0, k as int))),
        decreases expected@.len() - k,
    {
        proof {
            assert(expected@.subrange(0, k + 1).drop_last() =~= expected@.subrange(0, k as int));
        }
        let hit = match &expected[k] {
            ExpectedItem::One(s) => {
                let sc = chars_of(s.as_str());
                find_from_exec(cs.as_slice(), sc.as_slice(), 0).is_some()
            },
            ExpectedItem::Any(v) => {
                let mut h = false;
                let mut j: usize = 0;
                while j < v.len()
                    invariant
                        cs@ == joined@,
                        j <= v@.len(),
                        h == exists|m: int| 0 <= m < j && occurs(joined@, #[trigger] v@[m]@),
                    decreases v@.len() - j,
                {
                    let sc = chars_of(v[j].as_str());
                    if find_from_exec(cs.as_slice(), sc.as_slice(), 0).is_some() {
                        h = true;
                    }
                    j += 1;
                }
                h
            },
        };
        let ghost prev = failed@.map_values(|s: String| s@);
        if hit {
            let l = expected[k].label();
            failed.push(l);
            proof {
                assert(failed@.map_values(|s: String| s@) =~= prev.push(l@));
                assert(labels(present_items(joined@, expected@.subrange(0, k as int)).push(expected@[k as int])) =~= prev.push(
                    label_of(expected@[k as int]),
                ));
            }
        }
        k += 1;
    }
    proof {
        assert(expected@.subrange(0, expected@.len() as int) =~= expected@);
    }
    failed
}

/// Success: no expectation failed, and, with none given, the text came back unchanged.
pub open spec fn success_spec(m: MatchResults, changed: bool) -> bool {
    if m.match_expected_full == Some(false) || m.match_expected_contains == Some(false)
        || m.match_expected_contains_not == Some(false) || m.match_expected_index_of == Some(false)
        || m.match_expected_index_of_not == Some(false) {
        false
    } else if m.match_expected_full is None && m.match_expected_contains is None
        && m.match_expected_contains_not is None && m.match_expected_index_of is None
        && m.match_expected_index_of_not is None {
        !changed
    } else {
        true
    }
}

pub fn calculate_success(m: &MatchResults, changed: bool) -> (r: bool)
    ensures
        r == success_spec(*m, changed),
{
    if m.match_expected_full == Some(false) || m.match_expected_contains == Some(false)
        || m.match_expected_contains_not == Some(false) || m.match_expected_index_of == Some(false)
        || m.match_expected_index_of_not == Some(false) {
        return false;
    }
    if m.match_expected_full.is_none() && m.match_expected_contains.is_none()
        && m.match_expected_contains_not.is_none() && m.match_expected_index_of.is_none()
        && m.match_expected_index_of_not.is_none() {
        return !changed;
    }
    true
}

/// `label: PASSED` / `label: FAILED` for a given result.
pub open spec fn msg_of(v: Option<bool>, label: Seq<char>) -> Seq<Seq<char>> {
    match v {
        Some(ok) => seq![label + ": "@ + (if ok {
            "PASSED"@
        } else {
            "FAILED"@
        })],
        None => Seq::empty(),
    }
}

/// Append the report line of one expectation, when it was given.
pub fn push_msg(out: &mut Vec<String>, v: Option<bool>, label: &str)
    ensures
        final(out)@.map_values(|s: String| s@) == old(out)@.map_values(|s: String| s@) + msg_of(v, label@),
{
    let ghost prev = out@.map_values(|s: String| s@);
    match v {
        Some(ok) => {
            let s = concat_str(concat_str(label, ": ").as_str(), if ok {
                "PASSED"
            } else {
                "FAILED"
            });
            out.push(s);
            assert(out@.map_values(|s: String| s@) =~= prev + msg_of(v, label@));
        },
        None => {
            assert(out@.map_values(|s: String| s@) =~= prev + msg_of(v, label@));
        },
    }
}

/// The report lines of all expectations.
pub open spec fn report_lines(m: MatchResults) -> Seq<Seq<char>> {
    msg_of(m.match_expected_full, "Full match"@) + msg_of(m.match_expected_contains, "Contains match"@)
        + msg_of(m.match_expected_contains_not, "Contains-not match"@) + msg_of(
        m.match_expected_index_of,
        "Index-of match"@,
    ) + msg_of(m.match_expected_index_of_not, "Index-of-not match"@)
}

/// The report: the lines joined by `; `, or with no expectation a sentence on whether the
/// text changed.
pub open spec fn message_spec(m: MatchResults, changed: bool) -> Seq<char> {
    if report_lines(m).len() == 0 {
        if changed {
            "Text was changed during segmentation (no validation tests provided)"@
        } else {
            "Text was not changed during segmentation"@
        }
    } else {
        joined(report_lines(m), "; "@)
    }
}

/// The report: the lines joined by `; `, or with no expectation a sentence on whether the
/// text changed.
pub fn build_message(m: &MatchResults, changed: bool) -> (r: String)
    ensures
        r@ == message_spec(*m, changed),
{
    let mut messages: Vec<String> = Vec::new();
    push_msg(&mut messages, m.match_expected_full, "Full match");
    push_msg(&mut messages, m.match_expected_contains, "Contains match");
    push_msg(&mut messages, m.match_expected_contains_not, "Contains-not match");
    push_msg(&mut messages, m.match_expected_index_of, "Index-of match");
    push_msg(&mut messages, m.match_expected_index_of_not, "Index-of-not match");
    proof {
        assert(messages@.map_values(|s: String| s@) =~= report_lines(*m));
    }
    if messages.len() == 0 {
        if changed {
            to_owned_string("Text was changed during segmentation (no validation tests provided)")
        } else {
            to_owned_string("Text was not changed during segmentation")
        }
    } else {
        join_with(&messages, "; ")
    }
}

/// The two texts have different chars (or only one has a char) at `p`.
pub open spec fn differs(e: Seq<char>, a: Seq<char>, p: int) -> bool {
    at(e, p) != at(a, p)
}

/// The length of the longer text.
pub open spec fn longer_len(e: Seq<char>, a: Seq<char>) -> int {
    if e.len() > a.len() {
        e.len() as int
    } else {
        a.len() as int
    }
}

/// Position `p` lies in one of the runs.
pub open spec fn covered(r: Seq<DiffSpan>, p: int) -> bool {
    exists|k: int| 0 <= k < r.len() && #[trigger] r[k].start <= p < r[k].end
}

/// A run of differing chars between an expected and an actual text.
pub struct DiffSpan {
    pub start: usize,
    pub end: usize,
    pub expected: String,
    pub actual: String,
}

/// The char at `i`, if there is one.
pub open spec fn at(s: Seq<char>, i: int) -> Option<char> {
    if 0 <= i < s.len() {
        Some(s[i])
    } else {
        None
    }
}

/// Runs of positions where the two texts differ, each cut after 33 chars; each run with
/// the chars of either text in it.
pub fn diff_positions(expected: &str, actual: &str) -> (r: Vec<DiffSpan>)
    ensures
        forall|k: int|
            0 <= k < r@.len() ==> (#[trigger] r@[k]).start < r@[k].end && r@[k].end - r@[k].start <= 33
                && at(expected@, r@[k].start as int) != at(actual@, r@[k].start as int) && r@[k].expected@
                == part(expected@, r@[k].start as int, r@[k].end as int) && r@[k].actual@ == part(actual@, r@[k].start as int, r@[k].end as int),
        forall|j: int, k: int| 0 <= j < k < r@.len() ==> #[trigger] r@[j].end <= #[trigger] r@[k].start,
        forall|k: int, p: int|
            #![trigger r@[k], differs(expected@, actual@, p)]
            0 <= k < r@.len() && r@[k].start <= p < r@[k].end ==> differs(expected@, actual@, p),
        forall|k: int|
            0 <= k < r@.len() ==> (#[trigger] r@[k]).end == longer_len(expected@, actual@) || !differs(expected@, actual@, r@[k].end as int)
                || r@[k].end - r@[k].start == 33,
        forall|p: int|
            0 <= p < longer_len(expected@, actual@) && #[trigger] differs(expected@, actual@, p) ==> covered(r@, p),
{
    let ev = chars_of(expected);
    let av = chars_of(actual);
    let max = if ev.len() > av.len() {
        ev.len()
    } else {
        av.len()
    };
    let mut i: usize = 0;
    let mut positions: Vec<DiffSpan> = Vec::new();
    while i < max
        invariant
            ev@ == expected@,
            av@ == actual@,
            max == (if ev@.len() > av@.len() {
                ev@.len()
            } else {
                av@.len()
            }),
            i <= max,
            forall|k: int|
                0 <= k < positions@.len() ==> (#[trigger] positions@[k]).start < positions@[k].end
                    && positions@[k].end - positions@[k].start <= 33 && positions@[k].end <= i && at(
                    expected@,
                    positions@[k].start as int,
                ) != at(actual@, positions@[k].start as int) && positions@[k].expected@ == part(expected@, positions@[k].start as int, positions@[k].end as int) && positions@[k].actual@ == part(actual@, positions@[k].start as int, positions@[k].end as int),
            forall|j: int, k: int| 0 <= j < k < positions@.len() ==> #[trigger] positions@[j].end <= #[trigger] positions@[k].start,
            forall|k: int, p: int|
                #![trigger positions@[k], differs(expected@, actual@, p)]
                0 <= k < positions@.len() && positions@[k].start <= p < positions@[k].end ==> differs(expected@, actual@, p),
            forall|k: int|
                0 <= k < positions@.len() ==> (#[trigger] positions@[k]).end == max || !differs(expected@, actual@, positions@[k].end as int)
                    || positions@[k].end - positions@[k].start == 33,
            forall|p: int| 0 <= p < i && #[trigger] differs(expected@, actual@, p) ==> covered(positions@, p),
        decreases max - i,
    {
        let e = char_opt(&ev, i);
        let a = char_opt(&av, i);
        if e != a {
            let start = i;
            let mut exp: Vec<char> = Vec::new();
            let mut act: Vec<char> = Vec::new();
            proof {
                assert(part(expected@, start as int, start as int) =~= Seq::<char>::empty());
                assert(part(actual@, start as int, start as int) =~= Seq::<char>::empty());
            }
            loop
                invariant_except_break
                    i - start <= 32,
                invariant
                    ev@ == expected@,
                    av@ == actual@,
                    start < max,
                    start < i <= max || i == start,
                    i - start <= 33,
                    exp@ == part(expected@, start as int, i as int),
                    act@ == part(actual@, start as int, i as int),
                    i == start ==> char_opt_spec(ev@, start as int) != char_opt_spec(av@, start as int),
                    forall|p: int| start <= p < i ==> #[trigger] differs(expected@, actual@, p),
                ensures
                    start < i <= max,
                    i - start <= 33,
                    exp@ == part(expected@, start as int, i as int),
                    act@ == part(actual@, start as int, i as int),
                    forall|p: int| start <= p < i ==> #[trigger] differs(expected@, actual@, p),
                    i == max || !differs(expected@, actual@, i as int) || i - start == 33,
                decreases max - i,
            {
                proof {
                    assert(at(expected@, i as int) == char_opt_spec(ev@, i as int));
                    assert(at(actual@, i as int) == char_opt_spec(av@, i as int));
                }
                if !(i < max && char_opt(&ev, i) != char_opt(&av, i)) {
                    break;
                }
                if i < ev.len() {
                    exp.push(ev[i]);
                }
                if i < av.len() {
                    act.push(av[i]);
                }
                proof {
                    assert(part(expected@, start as int, i + 1) =~= exp@);
                    assert(part(actual@, start as int, i + 1) =~= act@);
                }
                i += 1;
                if i - start > 32 {
                    break;
                }
            }
            let ghost before = positions@;
            positions.push(DiffSpan {
                start,
                end: i,
                expected: string_from_chars(exp.as_slice()),
                actual: string_from_chars(act.as_slice()),
            });
            proof {
                assert(at(expected@, start as int) == char_opt_spec(ev@, start as int));
                assert(at(actual@, start as int) == char_opt_spec(av@, start as int));
                assert forall|j: int, k: int| 0 <= j < k < positions@.len() implies #[trigger] positions@[j].end <= #[trigger] positions@[k].start by {
                    if k < before.len() {
                        assert(positions@[j] == before[j] && positions@[k] == before[k]);
                    } else {
                        assert(positions@[j] == before[j]);
                    }
                }
                assert forall|k: int| 0 <= k < positions@.len() implies (#[trigger] positions@[k]).start < positions@[k].end
                    && positions@[k].end - positions@[k].start <= 33 && positions@[k].end <= i && at(
                    expected@,
                    positions@[k].start as int,
                ) != at(actual@, positions@[k].start as int) && positions@[k].expected@ == part(expected@, positions@[k].start as int, positions@[k].end as int) && positions@[k].actual@ == part(actual@, positions@[k].start as int, positions@[k].end as int) by {
                    if k < before.len() {
                        assert(positions@[k] == before[k]);
                    }
                }
                assert forall|k: int, p: int|
                    #![trigger positions@[k], differs(expected@, actual@, p)]
                    0 <= k < positions@.len() && positions@[k].start <= p < positions@[k].end implies differs(expected@, actual@, p) by {
                    if k < before.len() {
                        assert(positions@[k] == before[k]);
                    }
                }
                assert forall|k: int|
                    0 <= k < positions@.len() implies (#[trigger] positions@[k]).end == max || !differs(expected@, actual@, positions@[k].end as int)
                        || positions@[k].end - positions@[k].start == 33 by {
                    if k < before.len() {
                        assert(positions@[k] == before[k]);
                    }
                }
                assert forall|p: int| 0 <= p < i && #[trigger] differs(expected@, actual@, p) implies covered(positions@, p) by {
                    if p < start {
                        assert(covered(before, p));
                        let k = choose|k: int| 0 <= k < before.len() && #[trigger] before[k].start <= p < before[k].end;
                        assert(positions@[k] == before[k]);
                    } else {
                        let k = positions@.len() - 1;
                        assert(positions@[k].start <= p < positions@[k].end);
                    }
                }
            }
        } else {
            proof {
                assert(at(expected@, i as int) == char_opt_spec(ev@, i as int));
                assert(at(actual@, i as int) == char_opt_spec(av@, i as int));
            }
            i += 1;
        }
    }
    positions
}

/// The chars of `s` at positions `a .. b` that exist.
pub open spec fn part(s: Seq<char>, a: int, b: int) -> Seq<char> {
    let lo = crate::text::min_int(a, s.len() as int);
    let hi = crate::text::min_int(b, s.len() as int);
    s.subrange(lo, if hi < lo {
        lo
    } else {
        hi
    })
}

pub open spec fn char_opt_spec(v: Seq<char>, i: int) -> Option<char> {
    if 0 <= i < v.len() {
        Some(v[i])
    } else {
        None
    }
}

fn char_opt(v: &Vec<char>, i: usize) -> (r: Option<char>)
    ensures
        r == char_opt_spec(v@, i as int),
{
    if i < v.len() {
        Some(v[i])
    } else {
        None
    }
}

/// Character-level conversion between simplified and traditional Chinese.
pub fn convert_joined(cjk: &CjkTables, text: &str, tw2cn: bool) -> (r: String)
    ensures
        r@ == (if tw2cn {
            crate::cjk::convert_seq(cjk.tw2cn@, text@)
        } else {
            crate::cjk::convert_seq(cjk.cn2tw@, text@)
        }),
{
    if tw2cn {
        cjk.convert_tw2cn(text)
    } else {
        cjk.convert_cn2tw(text)
    }
}

/// Options that set nothing.
pub fn no_options() -> (r: DoSegmentOptions)
    ensures
        r.simple is None,
        r.strip_punctuation is None,
        r.convert_synonym is None,
        r.strip_stopword is None,
        r.strip_space is None,
        r.disable_modules@.len() == 0,
{
    DoSegmentOptions {
        simple: None,
        strip_punctuation: None,
        convert_synonym: None,
        strip_stopword: None,
        strip_space: None,
        disable_modules: Vec::new(),
    }
}

/// The segmenter's default options ask for no filter and it runs no synonym optimizer:
/// then its words spell the text when it is BMP or its tokenizers keep any text.
pub open spec fn plain_profile(seg: Segment) -> bool {
    let o = seg.options.options_do_segment;
    let disabled = if o.disable_modules@.len() == 0 {
        seg.options.disable_modules@
    } else {
        o.disable_modules@
    };
    !crate::options::flag_of(o.strip_punctuation) && !crate::options::flag_of(o.convert_synonym)
        && !crate::options::flag_of(o.strip_stopword) && !crate::options::flag_of(o.strip_space)
        && !crate::run::enabled_optimizers(seg.optimizers@, disabled).contains(
        crate::segment::OptimizerKind::ZhtSynonym,
    )
}

/// The modules a call without options disables: the segmenter's call defaults, else its
/// own list.
pub open spec fn default_disabled(seg: Segment) -> Seq<String> {
    let o = seg.options.options_do_segment;
    if o.disable_modules@.len() == 0 {
        seg.options.disable_modules@
    } else {
        o.disable_modules@
    }
}

/// A result `do_segment` may give on `t` called without options.
pub open spec fn default_result<S: ChunkScorer>(seg: Segment, scorer: S, t: Seq<char>, r: Seq<WordView>) -> bool {
    let o = seg.options.options_do_segment;
    segment_result(
        seg,
        scorer,
        t,
        default_disabled(seg),
        flag_of(o.strip_punctuation),
        flag_of(o.convert_synonym),
        flag_of(o.strip_stopword),
        flag_of(o.strip_space),
        r,
    )
}

/// The pieces the piecewise segmentation cuts a text into.
pub open spec fn debug_pieces(t: Seq<char>) -> Seq<Seq<char>> {
    crate::re::split_keep_spec(t, crate::re::spec_regex_matches(RE_DEBUG_SPLIT@, t))
}

/// The joined words, converted to traditional characters and with normalized line breaks
/// when asked for.
pub open spec fn finish_text(seg: Segment, t: Seq<char>, convert_to_zh_tw: bool, crlf_out: bool) -> Seq<char> {
    let a = if convert_to_zh_tw {
        crate::cjk::convert_seq(seg.cjk.cn2tw@, t)
    } else {
        t
    };
    if crlf_out {
        crlf(a)
    } else {
        a
    }
}

/// Segment a text piece by piece: it is cut at line feeds and punctuation, the cuts kept
/// as pieces of their own, and each piece is segmented alone. `None` when the cutting
/// pattern does not compile.
pub fn debug_each_segment<S: ChunkScorer>(seg: &Segment, text: &str, scorer: &S) -> (r: Option<Vec<Word>>)
    requires
        seg.wf(),
        seg.max_chunk_count < usize::MAX,
    ensures
        (r is None) == !spec_regex_valid(RE_DEBUG_SPLIT@),
        r matches Some(ws) ==> ((crate::text::all_bmp(text@) || crate::run::all_keep_text(*seg, crate::run::enabled_tokenizers(seg.tokenizers@, default_disabled(*seg)))) && plain_profile(*seg) ==> text_of(ws@) == text@),
        r matches Some(ws) ==> exists|rs: Seq<Seq<WordView>>|
            #![trigger flatten_views(rs)]
            rs.len() == debug_pieces(text@).len() && (forall|i: int|
                0 <= i < rs.len() ==> default_result(*seg, *scorer, debug_pieces(text@)[i], #[trigger] rs[i])) && views(ws@)
                == flatten_views(rs),
{
    if !regex_valid(RE_DEBUG_SPLIT) {
        return None;
    }
    let parts = split_keep_re(text, RE_DEBUG_SPLIT);
    let ghost pv = parts@.map_values(|s: String| s@);
    let ghost plain = (crate::text::all_bmp(text@) || crate::run::all_keep_text(*seg, crate::run::enabled_tokenizers(seg.tokenizers@, default_disabled(*seg)))) && plain_profile(*seg);
    let opts = no_options();
    let mut out: Vec<Word> = Vec::new();
    let ghost mut rs: Seq<Seq<WordView>> = Seq::empty();
    proof {
        assert(views(out@) =~= Seq::<WordView>::empty());
        assert(disabled_for(*seg, opts) == default_disabled(*seg));
    }
    let mut k: usize = 0;
    while k < parts.len()
        invariant
            seg.wf(),
            seg.max_chunk_count < usize::MAX,
            k <= parts@.len(),
            pv == parts@.map_values(|s: String| s@),
            concat_pieces(pv) == text@,
            plain == ((crate::text::all_bmp(text@) || crate::run::all_keep_text(*seg, crate::run::enabled_tokenizers(seg.tokenizers@, default_disabled(*seg)))) && plain_profile(*seg)),
            opts.strip_punctuation is None,
            opts.convert_synonym is None,
            opts.strip_stopword is None,
            opts.strip_space is None,
            opts.disable_modules@.len() == 0,
            plain ==> text_of(out@) == concat_pieces(pv.subrange(0, k as int)),
            disabled_for(*seg, opts) == default_disabled(*seg),
            rs.len() == k,
            forall|i: int| 0 <= i < k ==> default_result(*seg, *scorer, pv[i], #[trigger] rs[i]),
            views(out@) == flatten_views(rs),
        decreases parts@.len() - k,
    {
        let piece = parts[k].as_str();
        proof {
            assert(pv[k as int] == piece@);
            assert(pv.subrange(0, k + 1) =~= pv.subrange(0, k as int).push(pv[k as int]));
            lemma_concat_push(pv.subrange(0, k as int), pv[k as int]);
            if crate::text::all_bmp(text@) {
                crate::run::lemma_concat_bmp(pv, k as int);
            }
        }
        let mut ws = seg.do_segment(piece, &opts, scorer);
        let ghost b = views(ws@);
        let ghost before = views(out@);
        proof {
            crate::word::lemma_text_of_add(out@, ws@);
            assert(default_result(*seg, *scorer, pv[k as int], b));
        }
        out.append(&mut ws);
        proof {
            let rs2 = rs.push(b);
            assert(rs2.drop_last() =~= rs);
            assert(views(out@) =~= before + b);
            assert(flatten_views(rs2) == flatten_views(rs) + b);
            assert forall|i: int| 0 <= i < k + 1 implies default_result(*seg, *scorer, pv[i], #[trigger] rs2[i]) by {
                if i < k {
                    assert(rs2[i] == rs[i]);
                }
            }
            rs = rs2;
        }
        k += 1;
    }
    proof {
        assert(pv.subrange(0, pv.len() as int) =~= pv);
        assert(pv == debug_pieces(text@));
    }
    Some(out)
}

/// Segment a text and join the words again, optionally converting to traditional
/// characters and normalizing line breaks.
pub fn process_text<S: ChunkScorer>(seg: &Segment, text: &str, convert_to_zh_tw: bool, crlf_out: bool, scorer: &S) -> (r: String)
    requires
        seg.wf(),
        seg.max_chunk_count < usize::MAX,
    ensures
        ({
            let o = seg.options.options_do_segment;
            let disabled = if o.disable_modules@.len() == 0 {
                seg.options.disable_modules@
            } else {
                o.disable_modules@
            };
            (crate::text::all_bmp(text@) || crate::run::all_keep_text(
                *seg,
                crate::run::enabled_tokenizers(seg.tokenizers@, disabled),
            )) && !convert_to_zh_tw && !crate::options::flag_of(o.strip_punctuation)
                && !crate::options::flag_of(o.convert_synonym) && !crate::options::flag_of(o.strip_stopword)
                && !crate::options::flag_of(o.strip_space) && !crate::run::enabled_optimizers(seg.optimizers@, disabled).contains(
                crate::segment::OptimizerKind::ZhtSynonym,
            ) ==> r@ == (if crlf_out {
                crlf(text@)
            } else {
                text@
            })
        }),
        exists|ws: Seq<WordView>|
            #![trigger default_result(*seg, *scorer, text@, ws)]
            default_result(*seg, *scorer, text@, ws) && r@ == finish_text(*seg, view_text(ws), convert_to_zh_tw, crlf_out),
{
    let opts = no_options();
    let words = seg.do_segment(text, &opts, scorer);
    let mut out = stringify(words.as_slice());
    proof {
        assert(disabled_for(*seg, opts) == default_disabled(*seg));
        assert(default_result(*seg, *scorer, text@, views(words@)));
        crate::optimizers::lemma_views_text(words@);
    }
    if convert_to_zh_tw {
        out = seg.cjk.convert_cn2tw(out.as_str());
    }
    if crlf_out {
        out = crlf_normalize(out.as_str());
    }
    out
}

/// Which expectations failed, by kind, with the labels of the failing items.
pub struct Failures {
    pub contains: Option<Vec<String>>,
    pub contains_not: Option<Vec<String>>,
    pub index_of: Option<Vec<String>>,
    pub index_of_not: Option<Vec<String>>,
}

/// The normalized expected and actual texts, and where they differ.
pub struct FullDiff {
    pub expected: String,
    pub actual: String,
    pub positions: Vec<DiffSpan>,
}

/// The outcome of checking a segmentation.
pub struct Evaluation {
    pub success: bool,
    pub changed: bool,
    pub match_results: MatchResults,
    pub output_text: String,
    pub output_words: Vec<String>,
    pub message: String,
    pub diff: Option<FullDiff>,
    pub failures: Failures,
}

/// An expectation list that was given and is not empty.
fn given(o: &Option<Vec<ExpectedItem>>) -> (r: Option<&Vec<ExpectedItem>>)
    ensures
        r matches Some(v) ==> o is Some && *v == o->0 && v@.len() > 0,
        r is None ==> o is None || o->0@.len() == 0,
{
    match o {
        Some(v) => if v.len() > 0 {
            Some(v)
        } else {
            None
        },
        None => None,
    }
}

/// The error a test without text gets.
pub const NO_TEXT_MESSAGE: &'static str = "No text provided for segmentation";

/// Whether a test's text is blank, so that there is nothing to segment.
pub fn is_blank(text: &str) -> (r: bool)
    ensures
        r == blank(text@),
{
    let cs = chars_of(text);
    let mut i: usize = 0;
    while i < cs.len()
        invariant
            cs@ == text@,
            i <= cs@.len(),
            forall|j: int| 0 <= j < i ==> is_ws(#[trigger] cs@[j]),
        decreases cs@.len() - i,
    {
        if !is_whitespace(cs[i]) {
            return false;
        }
        i += 1;
    }
    true
}

/// Check the words of a text against the expectations (`run_test` without reading files
/// or segmenting): the full text after normalizing, the words in order, the words not in
/// order, substrings in order, and absent substrings.
pub fn evaluate(
    text: &str,
    words: &Vec<Word>,
    expected_full: &Option<String>,
    contains: &Option<Vec<ExpectedItem>>,
    contains_not: &Option<Vec<ExpectedItem>>,
    index_of: &Option<Vec<ExpectedItem>>,
    index_of_not: &Option<Vec<ExpectedItem>>,
) -> (r: Evaluation)
    ensures
        r.output_text@ == text_of(words@),
        r.output_words@.len() == words@.len(),
        forall|i: int| 0 <= i < words@.len() ==> #[trigger] r.output_words@[i]@ == words@[i].w@,
        r.changed == (crlf(trim_seq(text_of(words@))) != crlf(trim_seq(text@))),
        r.match_results.match_expected_full == (match expected_full {
            Some(e) => Some(crlf(trim_seq(e@)) == crlf(trim_seq(text_of(words@)))),
            None => None::<bool>,
        }),
        (r.match_results.match_expected_full == Some(false)) == (r.diff is Some),
        r.match_results.match_expected_contains == (match contains {
            Some(v) => if v@.len() > 0 {
                Some(ordered_failures(texts_of(words@), v@, 0).len() == 0)
            } else {
                None::<bool>
            },
            None => None::<bool>,
        }),
        r.match_results.match_expected_contains_not == (match contains_not {
            Some(v) => if v@.len() > 0 {
                Some(ordered_failures(texts_of(words@), v@, 0).len() != 0)
            } else {
                None::<bool>
            },
            None => None::<bool>,
        }),
        r.match_results.match_expected_index_of == (match index_of {
            Some(v) => if v@.len() > 0 {
                Some(index_failures(text_of(words@), v@, 0).len() == 0)
            } else {
                None::<bool>
            },
            None => None::<bool>,
        }),
        r.match_results.match_expected_index_of_not == (match index_of_not {
            Some(v) => if v@.len() > 0 {
                Some(present_items(text_of(words@), v@).len() == 0)
            } else {
                None::<bool>
            },
            None => None::<bool>,
        }),
        r.success == success_spec(r.match_results, r.changed),
        r.message@ == message_spec(r.match_results, r.changed),
        r.diff matches Some(d) ==> expected_full matches Some(e) && d.expected@ == crlf(trim_seq(e@)) && d.actual@ == crlf(
            trim_seq(text_of(words@)),
        ),
        (r.failures.contains is Some) == (r.match_results.match_expected_contains == Some(false)),
        r.failures.contains matches Some(f) ==> contains matches Some(v) && string_views(f@) == labels(
            ordered_failures(texts_of(words@), v@, 0),
        ),
        (r.failures.contains_not is Some) == (r.match_results.match_expected_contains_not == Some(false)),
        r.failures.contains_not matches Some(f) ==> contains_not matches Some(v) && string_views(f@) == labels(
            ordered_failures(texts_of(words@), v@, 0),
        ),
        (r.failures.index_of is Some) == (r.match_results.match_expected_index_of == Some(false)),
        r.failures.index_of matches Some(f) ==> index_of matches Some(v) && string_views(f@) == labels(
            index_failures(text_of(words@), v@, 0),
        ),
        (r.failures.index_of_not is Some) == (r.match_results.match_expected_index_of_not == Some(false)),
        r.failures.index_of_not matches Some(f) ==> index_of_not matches Some(v) && string_views(f@) == labels(
            present_items(text_of(words@), v@),
        ),
{
    let output_words = stringify_list(words.as_slice());
    let output_text = stringify(words.as_slice());
    proof {
        assert(output_words@.map_values(|s: String| s@) =~= texts_of(words@));
    }
    let changed = !str_eq(normalize_text(output_text.as_str()).as_str(), normalize_text(text).as_str());
    let mut m = MatchResults {
        match_expected_full: None,
        match_expected_contains: None,
        match_expected_contains_not: None,
        match_expected_index_of: None,
        match_expected_index_of_not: None,
    };
    let mut failures = Failures { contains: None, contains_not: None, index_of: None, index_of_not: None };
    let mut diff: Option<FullDiff> = None;
    match expected_full {
        Some(exp) => {
            let ne = normalize_text(exp.as_str());
            let na = normalize_text(output_text.as_str());
            let ok = str_eq(ne.as_str(), na.as_str());
            m.match_expected_full = Some(ok);
            if !ok {
                let positions = diff_positions(ne.as_str(), na.as_str());
                diff = Some(FullDiff { expected: ne, actual: na, positions });
            }
        },
        None => {},
    }
    match given(contains) {
        Some(exp) => {
            let (ok, failed) = ordered_contains(&output_words, exp);
            proof {
                let fv = ordered_failures(texts_of(words@), exp@, 0);
                assert(failed@.map_values(|s: String| s@).len() == failed@.len());
                assert(labels(fv).len() == fv.len());
            }
            m.match_expected_contains = Some(ok);
            if !ok {
                failures.contains = Some(failed);
            }
        },
        None => {},
    }
    match given(contains_not) {
        Some(exp) => {
            let (hit, failed) = ordered_contains(&output_words, exp);
            proof {
                let fv = ordered_failures(texts_of(words@), exp@, 0);
                assert(failed@.map_values(|s: String| s@).len() == failed@.len());
                assert(labels(fv).len() == fv.len());
            }
            m.match_expected_contains_not = Some(!hit);
            if hit {
                failures.contains_not = Some(failed);
            }
        },
        None => {},
    }
    match given(index_of) {
        Some(exp) => {
            let (ok, failed) = index_of_all(output_text.as_str(), exp);
            proof {
                let fv = index_failures(text_of(words@), exp@, 0);
                assert(failed@.map_values(|s: String| s@).len() == failed@.len());
                assert(labels(fv).len() == fv.len());
            }
            m.match_expected_index_of = Some(ok);
            if !ok {
                failures.index_of = Some(failed);
            }
        },
        None => {},
    }
    match given(index_of_not) {
        Some(exp) => {
            let failed = index_of_not_failed(output_text.as_str(), exp);
            proof {
                let fv = present_items(text_of(words@), exp@);
                assert(failed@.map_values(|s: String| s@).len() == failed@.len());
                assert(labels(fv).len() == fv.len());
            }
            let ok = failed.len() == 0;
            m.match_expected_index_of_not = Some(ok);
            if !ok {
                failures.index_of_not = Some(failed);
            }
        },
        None => {},
    }
    let success = calculate_success(&m, changed);
    let message = build_message(&m, changed);
    Evaluation { success, changed, match_results: m, output_text, output_words, message, diff, failures }
}

} // verus!
