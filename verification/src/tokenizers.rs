//! Built-in tokenizers (all but the dictionary one).
use vstd::prelude::*;
use crate::pipeline::{
    hit_texts, hits_consistent, interleave_hits, interleave_spec, lemma_interleave_text,
    char_interleave_spec, interleave_at_chars, lemma_char_interleave_text, hit_end, interleave_body,
    lemma_pieces_text_push,
    lemma_words_are_text, pieces_text, words_are, Materialized, unit_piece, opt_string_view,
    CHS_NAME_TOKENIZER, FOREIGN_TOKENIZER, JP_SIMPLE_TOKENIZER, PUNCTUATION_TOKENIZER,
    URL_TOKENIZER, WILDCARD_TOKENIZER, ZHUYIN_TOKENIZER,
};
use crate::postag::POSTAG;
use crate::segment::{Lexicon, Segment};
use crate::dict::{DictEntry, TableDict};
use crate::re::{split_keep_spec, spec_regex_matches, RE_JP, RE_ZHUYIN, concat_pieces, regex_is_match, regex_valid, spec_regex_valid, split_keep_re, RE_SPLIT_1, RE_SPLIT_2, RE_SPLIT_NUM};
use crate::text::{char_at, unit_char_at, char_len, char_slice, decode_utf16_lossy, encode_utf16, unit_slice, unit_tail};
use crate::strs::{spec_to_lowercase, to_lowercase};
use crate::strs::{char_to_string, concat_str, str_eq, to_owned_string, chars_of, occurs_at, occurs_at_exec, slice_of, string_from_chars};
use crate::text::{all_bmp, is_bmp_char, u16_len, lemma_bmp_units, lemma_encode_len_bound};
use crate::word::{lemma_text_of_add, lemma_text_of_push, lemma_text_of_single, text_of, views, Word, WordView};

verus! {

/// A text that is BMP has BMP parts.
pub proof fn lemma_bmp_sub(t: Seq<char>, a: int, b: int)
    requires
        all_bmp(t),
        0 <= a <= b <= t.len(),
    ensures
        all_bmp(t.subrange(a, b)),
{
    assert forall|i: int| 0 <= i < b - a implies is_bmp_char(#[trigger] t.subrange(a, b)[i]) by {
        assert(t.subrange(a, b)[i] == t[a + i]);
    }
}

/// Each word of a BMP word list is BMP.
pub proof fn lemma_bmp_word(ws: Seq<Word>, i: int)
    requires
        all_bmp(text_of(ws)),
        0 <= i < ws.len(),
    ensures
        all_bmp(ws[i].w@),
{
    crate::word::lemma_text_of_split(ws, i);
    let rest = ws.subrange(i, ws.len() as int);
    crate::word::lemma_text_of_split(rest, 1);
    assert(rest.subrange(0, 1) =~= seq![ws[i]]);
    lemma_text_of_single(ws[i]);
    let a: int = text_of(ws.subrange(0, i)).len() as int;
    assert(text_of(ws).subrange(a, a + ws[i].w@.len()) =~= ws[i].w@);
    lemma_bmp_sub(text_of(ws), a, a + ws[i].w@.len());
}

/// A word the splitter may split: one without a POS (`unset_only`), or with a zero POS.
pub open spec fn splittable(w: Word, unset_only: bool) -> bool {
    if unset_only {
        w.p is None
    } else {
        w.pos_of() == 0
    }
}

/// The views of an optional word list.
pub open spec fn opt_views(r: Option<Vec<Word>>) -> Option<Seq<WordView>> {
    match r {
        Some(v) => Some(views(v@)),
        None => None,
    }
}

/// A plain word: its text and its tag, nothing else set.
pub open spec fn plain_view(p: (Seq<char>, Option<u32>)) -> WordView {
    WordView {
        w: p.0,
        p: p.1,
        f: None,
        c: None,
        s: None,
        ow: None,
        op: None,
        m: None,
        auto_create: false,
        os: None,
    }
}

/// Plain words for pieces.
pub open spec fn piece_views(ps: Seq<(Seq<char>, Option<u32>)>) -> Seq<WordView> {
    ps.map_values(|p: (Seq<char>, Option<u32>)| plain_view(p))
}

/// Words that are the pieces, as plain words, have the pieces' views.
pub proof fn lemma_words_are_views(ws: Seq<Word>, ps: Seq<(Seq<char>, Option<u32>)>)
    requires
        words_are(ws, ps),
    ensures
        views(ws) == piece_views(ps),
{
    assert forall|i: int| 0 <= i < ws.len() implies #[trigger] views(ws)[i] == piece_views(ps)[i] by {
        assert(ws[i].w@ == ps[i].0);
    }
    assert(views(ws) =~= piece_views(ps));
}

/// What a split around hits gives: nothing without hits; else the text before, between
/// and after the hits as untagged words, and the hits with their tags.
pub open spec fn hit_split(
    text: Seq<char>,
    starts: Seq<usize>,
    hits: Seq<Seq<char>>,
    tags: Seq<u32>,
    r: Option<Seq<WordView>>,
) -> bool {
    if starts.len() == 0 {
        r is None
    } else {
        r == Some(piece_views(interleave_spec(text, starts, hits, tags)))
    }
}

/// `n` copies of one tag.
pub open spec fn same_tags(n: nat, tag: u32) -> Seq<u32> {
    Seq::new(n, |i: int| tag)
}

/// A tokenizer's work on one word's text.
pub trait TextSplitter {
    /// When the pieces this tokenizer gives for `text` spell it again.
    spec fn keeps_text(&self, text: Seq<char>, seg: Segment) -> bool;

    /// How the pieces this tokenizer gives for `text` relate to it.
    spec fn splits_to(&self, text: Seq<char>, seg: Segment, r: Option<Seq<WordView>>) -> bool;

    /// Pieces for `text`, or `None` to keep the word as it is.
    fn split_text(&self, text: &str, seg: &Segment) -> (r: Option<Vec<Word>>)
        requires
            seg.wf(),
        ensures
            r matches Some(ps) ==> (self.keeps_text(text@, *seg) ==> text_of(ps@) == text@),
            r matches Some(ps) ==> (text_of(ps@) == text@ || text_of(ps@).contains('\u{FFFD}')),
            self.splits_to(text@, *seg, opt_views(r)),
    ;
}

/// Words laid end to end, each replaced by its pieces where it has some.
pub open spec fn flat_split(vs: Seq<WordView>, rs: Seq<Option<Seq<WordView>>>) -> Seq<WordView>
    decreases vs.len(),
{
    if vs.len() == 0 {
        Seq::empty()
    } else {
        flat_split(vs.drop_last(), rs.drop_last()) + match rs.last() {
            Some(ps) => ps,
            None => seq![vs.last()],
        }
    }
}

/// `r` is `ws` with each word the splitter may split replaced by the pieces the splitter
/// gave for its text, where it gave some; `rs[i]` is what it gave for word `i`.
pub open spec fn split_by<S: TextSplitter>(s: S, seg: Segment, ws: Seq<Word>, unset_only: bool, r: Seq<Word>) -> bool {
    exists|rs: Seq<Option<Seq<WordView>>>|
        #![trigger flat_split(views(ws), rs)]
        rs.len() == ws.len() && (forall|i: int|
            0 <= i < ws.len() ==> (if splittable(ws[i], unset_only) {
                s.splits_to(ws[i].w@, seg, #[trigger] rs[i])
            } else {
                rs[i] is None
            })) && views(r) == flat_split(views(ws), rs)
}

/// The splitter keeps the text of every word.
pub open spec fn keeps_all<S: TextSplitter>(s: S, seg: Segment, ws: Seq<Word>) -> bool {
    forall|i: int| 0 <= i < ws.len() ==> s.keeps_text(#[trigger] ws[i].w@, seg)
}

/// A splitter that keeps the text of BMP words keeps the text of BMP word lists.
pub proof fn lemma_keeps_all_bmp<S: TextSplitter>(s: S, seg: Segment, ws: Seq<Word>)
    requires
        all_bmp(text_of(ws)),
        forall|t: Seq<char>| all_bmp(t) ==> #[trigger] s.keeps_text(t, seg),
    ensures
        keeps_all(s, seg, ws),
{
    assert forall|i: int| 0 <= i < ws.len() implies s.keeps_text(#[trigger] ws[i].w@, seg) by {
        lemma_bmp_word(ws, i);
    }
}

/// Apply `s` to the words it may split: those without a POS (`unset_only`) or with a
/// zero POS; other words pass through.
pub fn split_words<S: TextSplitter>(s: &S, words: &Vec<Word>, seg: &Segment, unset_only: bool) -> (r: Vec<Word>)
    requires
        seg.wf(),
    ensures
        keeps_all(*s, *seg, words@) ==> text_of(r@) == text_of(words@),
        text_of(r@) == text_of(words@) || text_of(r@).contains('\u{FFFD}'),
        split_by(*s, *seg, words@, unset_only, r@),
{
    let mut out: Vec<Word> = Vec::new();
    let ghost mut rs: Seq<Option<Seq<WordView>>> = Seq::empty();
    let mut i: usize = 0;
    while i < words.len()
        invariant
            seg.wf(),
            i <= words@.len(),
            keeps_all(*s, *seg, words@) ==> text_of(out@) == text_of(
                words@.subrange(0, i as int),
            ),
            text_of(out@) == text_of(words@.subrange(0, i as int)) || text_of(out@).contains('\u{FFFD}'),
            rs.len() == i,
            forall|j: int|
                0 <= j < i ==> (if splittable(words@[j], unset_only) {
                    s.splits_to(words@[j].w@, *seg, #[trigger] rs[j])
                } else {
                    rs[j] is None
                }),
            views(out@) == flat_split(views(words@.subrange(0, i as int)), rs),
        decreases words@.len() - i,
    {
        let w = &words[i];
        let take = if unset_only {
            w.p.is_none()
        } else {
            !w.is_recognized()
        };
        let ghost before = out@;
        proof {
            assert(words@.subrange(0, i + 1) =~= words@.subrange(0, i as int).push(words@[i as int]));
            lemma_text_of_push(words@.subrange(0, i as int), words@[i as int]);
            assert(views(words@.subrange(0, i + 1)).drop_last() =~= views(words@.subrange(0, i as int)));
            assert(views(words@.subrange(0, i + 1)).last() == words@[i as int]@);
        }
        let mut pushed_parts = false;
        let ghost mut got: Option<Seq<WordView>> = None;
        if take {
            let res = s.split_text(w.w.as_str(), seg);
            proof {
                got = opt_views(res);
            }
            match res {
                Some(parts) => {
                    let mut j: usize = 0;
                    while j < parts.len()
                        invariant
                            j <= parts@.len(),
                            text_of(out@) == text_of(before) + text_of(parts@.subrange(0, j as int)),
                            views(out@) == views(before) + views(parts@).subrange(0, j as int),
                        decreases parts@.len() - j,
                    {
                        let x = crate::word::clone_word(&parts[j]);
                        proof {
                            lemma_text_of_push(out@, x);
                            assert(parts@.subrange(0, j + 1) =~= parts@.subrange(0, j as int).push(parts@[j as int]));
                            lemma_text_of_push(parts@.subrange(0, j as int), parts@[j as int]);
                            assert(text_of(before) + text_of(parts@.subrange(0, j as int)) + x.w@ =~= text_of(before) + (text_of(parts@.subrange(0, j as int)) + parts@[j as int].w@));
                        }
                        let ghost prev = views(out@);
                        out.push(x);
                        proof {
                            assert(views(out@) =~= prev.push(x@));
                            assert(views(parts@).subrange(0, j + 1) =~= views(parts@).subrange(0, j as int).push(x@));
                            assert(views(out@) =~= views(before) + views(parts@).subrange(0, j + 1));
                        }
                        j += 1;
                    }
                    proof {
                        assert(parts@.subrange(0, parts@.len() as int) =~= parts@);
                        crate::word::lemma_concat_contains(text_of(before), text_of(parts@), '\u{FFFD}');
                        crate::word::lemma_concat_contains(text_of(before), words@[i as int].w@, '\u{FFFD}');
                        assert(views(parts@).subrange(0, parts@.len() as int) =~= views(parts@));
                        assert(got == Some(views(parts@)));
                        assert(views(out@) == views(before) + views(parts@));
                    }
                    pushed_parts = true;
                },
                None => {},
            }
        }
        if !pushed_parts {
            let x = crate::word::clone_word(w);
            proof {
                lemma_text_of_push(before, x);
                assert(got is None);
            }
            let ghost prev = views(out@);
            out.push(x);
            proof {
                crate::word::lemma_concat_contains(text_of(before), x.w@, '\u{FFFD}');
                assert(views(out@) =~= prev + seq![x@]);
                assert(prev == views(before));
                assert(x@ == words@[i as int]@);
            }
        }
        proof {
            let tail = match got {
                Some(ps) => ps,
                None => seq![words@[i as int]@],
            };
            assert(views(out@) == views(before) + tail);
            let rs_old = rs;
            rs = rs.push(got);
            assert(rs.drop_last() =~= rs_old);
            assert(rs.subrange(0, i as int) =~= rs_old);
            assert forall|j: int| 0 <= j < i + 1 implies (if splittable(words@[j], unset_only) {
                s.splits_to(words@[j].w@, *seg, #[trigger] rs[j])
            } else {
                rs[j] is None
            }) by {
                if j < i {
                    assert(rs[j] == rs.subrange(0, i as int)[j]);
                }
            }
            let vs1 = views(words@.subrange(0, i + 1));
            assert(vs1.drop_last() =~= views(words@.subrange(0, i as int)));
            assert(rs.last() == got);
            assert(vs1.last() == words@[i as int]@);
            assert(flat_split(vs1, rs) == flat_split(views(words@.subrange(0, i as int)), rs.drop_last()) + tail);
        }
        i += 1;
    }
    proof {
        assert(words@.subrange(0, words@.len() as int) =~= words@);
        assert(views(out@) == flat_split(views(words@), rs));
    }
    out
}

/// `http://`, `https://`, `ftp://`, `news://`, `telnet://`.
pub open spec fn protocol_seqs() -> Seq<Seq<char>> {
    seq![
        seq!['h', 't', 't', 'p', ':', '/', '/'],
        seq!['h', 't', 't', 'p', 's', ':', '/', '/'],
        seq!['f', 't', 'p', ':', '/', '/'],
        seq!['n', 'e', 'w', 's', ':', '/', '/'],
        seq!['t', 'e', 'l', 'n', 'e', 't', ':', '/', '/'],
    ]
}

/// The URL protocols, as char lists (all ASCII).
pub fn protocols() -> (r: Vec<Vec<char>>)
    ensures
        r@.len() == 5,
        forall|k: int| 0 <= k < r@.len() ==> all_bmp(#[trigger] r@[k]@) && r@[k]@.len() >= 6,
        forall|k: int| 0 <= k < r@.len() ==> #[trigger] r@[k]@ == protocol_seqs()[k],
{
    let r = vec![
        vec!['h', 't', 't', 'p', ':', '/', '/'],
        vec!['h', 't', 't', 'p', 's', ':', '/', '/'],
        vec!['f', 't', 'p', ':', '/', '/'],
        vec!['n', 'e', 'w', 's', ':', '/', '/'],
        vec!['t', 'e', 'l', 'n', 'e', 't', ':', '/', '/'],
    ];
    assert(r@[0]@ =~= seq!['h', 't', 't', 'p', ':', '/', '/']);
    assert(r@[1]@ =~= seq!['h', 't', 't', 'p', 's', ':', '/', '/']);
    assert(r@[2]@ =~= seq!['f', 't', 'p', ':', '/', '/']);
    assert(r@[3]@ =~= seq!['n', 'e', 'w', 's', ':', '/', '/']);
    assert(r@[4]@ =~= seq!['t', 'e', 'l', 'n', 'e', 't', ':', '/', '/']);
    r
}

/// A protocol starts at `i`.
pub open spec fn url_start(text: Seq<char>, i: int) -> bool {
    exists|p: int| 0 <= p < 5 && #[trigger] occurs_at(text, protocol_seqs()[p], i)
}

/// Characters that may continue a URL.
pub open spec fn url_char(c: char) -> bool {
    ('a' <= c && c <= 'z') || ('A' <= c && c <= 'Z') || ('0' <= c && c <= '9') || c == '!' || c
        == '#' || c == '$' || c == '%' || c == '&' || c == '\u{2018}' || c == '(' || c == ')' || c
        == '*' || c == '+' || c == ',' || c == '-' || c == '.' || c == '/' || c == ':' || c == ';'
        || c == '=' || c == '?' || c == '@' || c == '[' || c == '\\' || c == ']' || c == '^' || c
        == '_' || c == '`' || c == '|' || c == '~'
}

/// The characters a URL goes on with are exactly the ASCII letters and digits and
/// `!#$%&‘()*+,-./:;=?@[\]^_`|~`: a query string (`?q=1`), a path or a fragment stays in the
/// URL, and a URL hit ends only before some other character or at the end of the text.
pub proof fn law_url_chars(text: Seq<char>, st: int, w: Seq<char>)
    ensures
        forall|c: char|
            #[trigger] url_char(c) <==> (('a' <= c && c <= 'z') || ('A' <= c && c <= 'Z') || ('0' <= c && c <= '9')
                || c == '!' || c == '#' || c == '$' || c == '%' || c == '&' || c == '\u{2018}' || c == '(' || c == ')'
                || c == '*' || c == '+' || c == ',' || c == '-' || c == '.' || c == '/' || c == ':' || c == ';'
                || c == '=' || c == '?' || c == '@' || c == '[' || c == '\\' || c == ']' || c == '^' || c == '_'
                || c == '`' || c == '|' || c == '~'),
        url_hit(text, st, w) && st + w.len() < text.len() ==> !(('a' <= text[st + w.len()] && text[st + w.len()] <= 'z')
            || ('0' <= text[st + w.len()] && text[st + w.len()] <= '9') || text[st + w.len()] == '?'
            || text[st + w.len()] == '=' || text[st + w.len()] == '&' || text[st + w.len()] == '/'
            || text[st + w.len()] == '#' || text[st + w.len()] == '.'),
{
}

pub fn is_url_char(c: char) -> (r: bool)
    ensures
        r == url_char(c),
        r ==> is_bmp_char(c),
{
    ('a' <= c && c <= 'z') || ('A' <= c && c <= 'Z') || ('0' <= c && c <= '9') || c == '!' || c
        == '#' || c == '$' || c == '%' || c == '&' || c == '\u{2018}' || c == '(' || c == ')' || c
        == '*' || c == '+' || c == ',' || c == '-' || c == '.' || c == '/' || c == ':' || c == ';'
        || c == '=' || c == '?' || c == '@' || c == '[' || c == '\\' || c == ']' || c == '^' || c
        == '_' || c == '`' || c == '|' || c == '~'
}

/// Hit positions and texts in chars: in order, without overlap, each the text at its
/// position, each BMP.
pub open spec fn char_hits(text: Seq<char>, starts: Seq<usize>, words: Seq<Seq<char>>) -> bool {
    &&& hits_consistent(text, starts, words)
    &&& forall|k: int| 0 <= k < words.len() ==> all_bmp(#[trigger] words[k])
}

pub open spec fn last_hit_end(starts: Seq<usize>, words: Seq<Seq<char>>) -> int {
    if starts.len() == 0 {
        0
    } else {
        starts.last() + words.last().len()
    }
}

/// Position `i` lies inside one of the hits.
pub open spec fn in_hit(starts: Seq<usize>, words: Seq<Seq<char>>, i: int) -> bool {
    exists|k: int| 0 <= k < starts.len() && #[trigger] starts[k] <= i < starts[k] + words[k].len()
}

/// A URL hit: a protocol at its start, URL chars only, and no URL char right after it.
pub open spec fn url_hit(text: Seq<char>, st: int, w: Seq<char>) -> bool {
    &&& url_start(text, st)
    &&& forall|i: int| 0 <= i < w.len() ==> url_char(#[trigger] w[i])
    &&& (st + w.len() == text.len() || !url_char(text[st + w.len()]))
}

/// What `match_url` finds: URL hits in order, each beginning more than six chars before the
/// end of the text, and every protocol that begins there lies inside a hit.
pub open spec fn url_hits(text: Seq<char>, starts: Seq<usize>, words: Seq<Seq<char>>) -> bool {
    &&& hits_consistent(text, starts, words)
    &&& forall|k: int| 0 <= k < starts.len() ==> url_hit(text, #[trigger] starts[k] as int, words[k])
    &&& forall|k: int| 0 <= k < starts.len() ==> #[trigger] starts[k] + 6 < text.len()
    &&& forall|i: int|
        0 <= i && i + 6 < text.len() && #[trigger] url_start(text, i) ==> in_hit(starts, words, i)
}

/// Every char of every protocol is a URL char.
proof fn lemma_protocol_chars()
    ensures
        forall|k: int, i: int|
            0 <= k < 5 && 0 <= i < protocol_seqs()[k].len() ==> url_char(
                #[trigger] protocol_seqs()[k][i],
            ),
{
    assert forall|k: int, i: int| 0 <= k < 5 && 0 <= i < protocol_seqs()[k].len() implies url_char(
        #[trigger] protocol_seqs()[k][i],
    ) by {
        let p = protocol_seqs()[k];
        if k == 0 {
            assert(p == seq!['h', 't', 't', 'p', ':', '/', '/']);
        } else if k == 1 {
            assert(p == seq!['h', 't', 't', 'p', 's', ':', '/', '/']);
        } else if k == 2 {
            assert(p == seq!['f', 't', 'p', ':', '/', '/']);
        } else if k == 3 {
            assert(p == seq!['n', 'e', 'w', 's', ':', '/', '/']);
        } else {
            assert(p == seq!['t', 'e', 'l', 'n', 'e', 't', ':', '/', '/']);
        }
    }
}

/// The chars of a protocol found at `i` are URL chars.
proof fn lemma_url_start_chars(text: Seq<char>, i: int, p: int)
    requires
        0 <= p < 5,
        occurs_at(text, protocol_seqs()[p], i),
    ensures
        forall|j: int| i <= j < i + protocol_seqs()[p].len() ==> url_char(#[trigger] text[j]),
        url_char(text[i]),
{
    lemma_protocol_chars();
    let pr = protocol_seqs()[p];
    assert forall|j: int| i <= j < i + pr.len() implies url_char(#[trigger] text[j]) by {
        assert(text.subrange(i, i + pr.len())[j - i] == text[j]);
        assert(url_char(pr[j - i]));
    }
    assert(pr.len() >= 6) by {
        if p == 0 {
            assert(pr == seq!['h', 't', 't', 'p', ':', '/', '/']);
        } else if p == 1 {
            assert(pr == seq!['h', 't', 't', 'p', 's', ':', '/', '/']);
        } else if p == 2 {
            assert(pr == seq!['f', 't', 'p', ':', '/', '/']);
        } else if p == 3 {
            assert(pr == seq!['n', 'e', 'w', 's', ':', '/', '/']);
        } else {
            assert(pr == seq!['t', 'e', 'l', 'n', 'e', 't', ':', '/', '/']);
        }
    }
}

/// URL chars are BMP chars.
proof fn lemma_url_chars_bmp(w: Seq<char>)
    requires
        forall|i: int| 0 <= i < w.len() ==> url_char(#[trigger] w[i]),
    ensures
        all_bmp(w),
{
    assert forall|i: int| 0 <= i < w.len() implies is_bmp_char(#[trigger] w[i]) by {
        assert(url_char(w[i]));
    }
}

/// Length of the first protocol found at `cur`, or 0 when none is there.
fn protocol_len_at(chars: &Vec<char>, protos: &Vec<Vec<char>>, cur: usize) -> (r: usize)
    requires
        protos@.len() == 5,
        forall|k: int| 0 <= k < 5 ==> #[trigger] protos@[k]@ == protocol_seqs()[k],
    ensures
        r == 0 <==> !url_start(chars@, cur as int),
        r > 0 ==> exists|p: int|
            0 <= p < 5 && #[trigger] occurs_at(chars@, protocol_seqs()[p], cur as int)
                && protocol_seqs()[p].len() == r,
{
    let mut p: usize = 0;
    while p < protos.len()
        invariant
            protos@.len() == 5,
            forall|k: int| 0 <= k < 5 ==> #[trigger] protos@[k]@ == protocol_seqs()[k],
            p <= 5,
            forall|k: int| 0 <= k < p ==> !#[trigger] occurs_at(chars@, protocol_seqs()[k], cur as int),
        decreases protos@.len() - p,
    {
        if occurs_at_exec(chars.as_slice(), protos[p].as_slice(), cur) {
            proof {
                assert(protos@[p as int]@ == protocol_seqs()[p as int]);
                lemma_url_start_chars(chars@, cur as int, p as int);
            }
            return protos[p].len();
        }
        p += 1;
    }
    0
}

proof fn lemma_in_hit_push(starts: Seq<usize>, words: Seq<Seq<char>>, st: usize, w: Seq<char>, i: int)
    requires
        starts.len() == words.len(),
        in_hit(starts, words, i),
    ensures
        in_hit(starts.push(st), words.push(w), i),
{
    let k = choose|k: int| 0 <= k < starts.len() && #[trigger] starts[k] <= i < starts[k] + words[k].len();
    assert(starts.push(st)[k] == starts[k]);
    assert(words.push(w)[k] == words[k]);
}

proof fn lemma_push_hit(text: Seq<char>, starts: Seq<usize>, words: Seq<Seq<char>>, st: usize, end: int)
    requires
        hits_consistent(text, starts, words),
        forall|k: int| 0 <= k < starts.len() ==> url_hit(text, #[trigger] starts[k] as int, words[k]),
        last_hit_end(starts, words) <= st,
        st < end <= text.len(),
        url_start(text, st as int),
        forall|i: int| st <= i < end ==> url_char(#[trigger] text[i]),
        end == text.len() || !url_char(text[end]),
    ensures
        hits_consistent(text, starts.push(st), words.push(text.subrange(st as int, end))),
        forall|k: int| 0 <= k < starts.len() + 1 ==> url_hit(
            text,
            #[trigger] starts.push(st)[k] as int,
            words.push(text.subrange(st as int, end))[k],
        ),
        forall|i: int| in_hit(starts, words, i) ==> in_hit(starts.push(st), words.push(text.subrange(st as int, end)), i),
        forall|i: int| st <= i < end ==> in_hit(starts.push(st), words.push(text.subrange(st as int, end)), i),
        last_hit_end(starts.push(st), words.push(text.subrange(st as int, end))) == end,
{
    let w = text.subrange(st as int, end);
    let s2 = starts.push(st);
    let w2 = words.push(w);
    assert forall|j: int, k: int| 0 <= j < k < s2.len() implies #[trigger] s2[j] + w2[j].len() <= #[trigger] s2[k] by {
        if k == starts.len() {
            if j < starts.len() - 1 {
                assert(starts[j] + words[j].len() <= starts[starts.len() - 1]);
            }
        } else {
            assert(s2[j] == starts[j] && s2[k] == starts[k] && w2[j] == words[j]);
        }
    }
    assert forall|k: int| 0 <= k < s2.len() implies s2[k] + w2[k].len() <= text.len() && #[trigger] w2[k]
        == text.subrange(s2[k] as int, s2[k] + w2[k].len()) by {
        if k < starts.len() {
            assert(s2[k] == starts[k] && w2[k] == words[k]);
        }
    }
    assert forall|k: int| 0 <= k < s2.len() implies url_hit(text, #[trigger] s2[k] as int, w2[k]) by {
        if k < starts.len() {
            assert(s2[k] == starts[k] && w2[k] == words[k]);
        } else {
            assert forall|i: int| 0 <= i < w.len() implies url_char(#[trigger] w[i]) by {
                assert(w[i] == text[st + i]);
            }
        }
    }
    assert forall|i: int| in_hit(starts, words, i) implies in_hit(s2, w2, i) by {
        lemma_in_hit_push(starts, words, st, w, i);
    }
    assert forall|i: int| st <= i < end implies in_hit(s2, w2, i) by {
        let k = starts.len() as int;
        assert(s2[k] == st && w2[k] == w);
    }
}

/// URLs found in `text`: a protocol (looked for only while more than six chars remain),
/// then URL chars up to the first other char.
#[verifier::spinoff_prover]
#[verifier::rlimit(40)]
pub fn match_url(text: &str) -> (r: (Vec<usize>, Vec<String>))
    ensures
        url_hits(text@, r.0@, hit_texts(r.1@)),
        char_hits(text@, r.0@, hit_texts(r.1@)),
{
    let chars = chars_of(text);
    let n = chars.len();
    let protos = protocols();
    let mut starts: Vec<usize> = Vec::new();
    let mut words: Vec<String> = Vec::new();
    let mut s: Option<usize> = None;
    let mut cur: usize = 0;
    while cur < n
        invariant
            chars@ == text@,
            n == chars@.len(),
            protos@.len() == 5,
            forall|k: int| 0 <= k < 5 ==> #[trigger] protos@[k]@ == protocol_seqs()[k],
            cur <= n,
            starts@.len() == words@.len(),
            hits_consistent(text@, starts@, hit_texts(words@)),
            forall|k: int|
                0 <= k < starts@.len() ==> url_hit(text@, #[trigger] starts@[k] as int, hit_texts(words@)[k]),
            forall|k: int| 0 <= k < starts@.len() ==> #[trigger] starts@[k] + 6 < n,
            forall|i: int|
                0 <= i < cur && i + 6 < n && #[trigger] url_start(text@, i) ==> in_hit(
                    starts@,
                    hit_texts(words@),
                    i,
                ) || (s matches Some(st) && st <= i),
            match s {
                Some(st) => {
                    &&& last_hit_end(starts@, hit_texts(words@)) <= st
                    &&& st + 6 < n
                    &&& st < cur
                    &&& forall|i: int| st <= i < cur ==> url_char(#[trigger] text@[i])
                    &&& url_start(text@, st as int)
                },
                None => last_hit_end(starts@, hit_texts(words@)) <= cur,
            },
        decreases n - cur,
    {
        if s.is_none() && n > 6 && cur < n - 6 {
            let plen = protocol_len_at(&chars, &protos, cur);
            if plen > 0 {
                proof {
                    let p = choose|p: int|
                        0 <= p < 5 && #[trigger] occurs_at(chars@, protocol_seqs()[p], cur as int)
                            && protocol_seqs()[p].len() == plen;
                    lemma_url_start_chars(text@, cur as int, p);
                }
                s = Some(cur);
                cur = cur + plen - 1;
            }
        } else if let Some(start) = s {
            if !is_url_char(chars[cur]) {
                let w = string_from_chars(slice_of(&chars, start, cur));
                proof {
                    assert(w@ == text@.subrange(start as int, cur as int));
                    lemma_push_hit(text@, starts@, hit_texts(words@), start, cur as int);
                    assert forall|i: int| 0 <= i <= cur && i + 6 < n && #[trigger] url_start(text@, i) implies in_hit(
                        starts@.push(start),
                        hit_texts(words@).push(w@),
                        i,
                    ) by {
                        if i == cur {
                            let p = choose|p: int| 0 <= p < 5 && #[trigger] occurs_at(text@, protocol_seqs()[p], i);
                            lemma_url_start_chars(text@, i, p);
                        }
                    }
                }
                let ghost st0 = starts@;
                starts.push(start);
                words.push(w);
                proof {
                    assert(hit_texts(words@) =~= hit_texts(words@.drop_last()).push(w@));
                    assert forall|k: int| 0 <= k < starts@.len() implies #[trigger] starts@[k] + 6 < n by {
                        if k < st0.len() {
                            assert(starts@[k] == st0[k]);
                        }
                    }
                }
                s = None;
            }
        }
        cur += 1;
    }
    if let Some(start) = s {
        let w = string_from_chars(slice_of(&chars, start, n));
        proof {
            lemma_push_hit(text@, starts@, hit_texts(words@), start, n as int);
        }
        let ghost st0 = starts@;
        starts.push(start);
        words.push(w);
        proof {
            assert(hit_texts(words@) =~= hit_texts(words@.drop_last()).push(w@));
            assert forall|k: int| 0 <= k < starts@.len() implies #[trigger] starts@[k] + 6 < n by {
                if k < st0.len() {
                    assert(starts@[k] == st0[k]);
                }
            }
        }
    }
    proof {
        assert forall|k: int| 0 <= k < hit_texts(words@).len() implies all_bmp(#[trigger] hit_texts(words@)[k]) by {
            assert(url_hit(text@, starts@[k] as int, hit_texts(words@)[k]));
            lemma_url_chars_bmp(hit_texts(words@)[k]);
        }
    }
    (starts, words)
}

/// `n` copies of `tag`.
pub fn repeat_tag(tag: u32, n: usize) -> (r: Vec<u32>)
    ensures
        r@.len() == n,
        forall|i: int| 0 <= i < n ==> #[trigger] r@[i] == tag,
{
    let mut r: Vec<u32> = Vec::new();
    let mut i: usize = 0;
    while i < n
        invariant
            i <= n,
            r@.len() == i,
            forall|j: int| 0 <= j < i ==> #[trigger] r@[j] == tag,
        decreases n - i,
    {
        r.push(tag);
        i += 1;
    }
    r
}

/// Words for hits found in chars, cut at char positions: gaps untagged, hits tagged;
/// the words give back the text.
pub fn interleave_char_hits(text: &str, starts: &Vec<usize>, words: &Vec<String>, tags: &Vec<u32>) -> (r: Vec<Word>)
    requires
        hits_consistent(text@, starts@, hit_texts(words@)),
        tags@.len() == starts@.len(),
    ensures
        words_are(r@, char_interleave_spec(text@, starts@, hit_texts(words@), tags@)),
        starts@.len() > 0 ==> text_of(r@) == text@,
{
    let r = interleave_at_chars(text, starts, words, tags);
    proof {
        if starts@.len() > 0 {
            lemma_char_interleave_text(text@, starts@, hit_texts(words@), tags@);
            lemma_words_are_text(r@, char_interleave_spec(text@, starts@, hit_texts(words@), tags@));
        }
    }
    r
}

/// Splits URLs out of unrecognized words and tags them `URL`.
pub struct UrlTokenizer;

/// What a split around hits placed by char positions gives: nothing without hits; else
/// the text before, between and after the hits as untagged words, and the hits with their
/// tags.
pub open spec fn char_hit_split(
    text: Seq<char>,
    starts: Seq<usize>,
    hits: Seq<Seq<char>>,
    tags: Seq<u32>,
    r: Option<Seq<WordView>>,
) -> bool {
    if starts.len() == 0 {
        r is None
    } else {
        r == Some(piece_views(char_interleave_spec(text, starts, hits, tags)))
    }
}

/// The URL tokenizer's pieces: the URL hits `match_url` describes, tagged `URL`.
pub open spec fn url_split(text: Seq<char>, r: Option<Seq<WordView>>) -> bool {
    exists|starts: Seq<usize>, hits: Seq<Seq<char>>|
        #![trigger char_hit_split(text, starts, hits, same_tags(starts.len(), POSTAG::URL), r)]
        url_hits(text, starts, hits) && char_hits(text, starts, hits) && char_hit_split(
            text,
            starts,
            hits,
            same_tags(starts.len(), POSTAG::URL),
            r,
        )
}

impl TextSplitter for UrlTokenizer {
    open spec fn keeps_text(&self, text: Seq<char>, seg: Segment) -> bool {
        true
    }

    open spec fn splits_to(&self, text: Seq<char>, seg: Segment, r: Option<Seq<WordView>>) -> bool {
        url_split(text, r)
    }

    fn split_text(&self, text: &str, seg: &Segment) -> (r: Option<Vec<Word>>) {
        let (starts, words) = match_url(text);
        if starts.len() == 0 {
            proof {
                assert(char_hit_split(text@, starts@, hit_texts(words@), same_tags(starts@.len(), POSTAG::URL), None));
            }
            return None;
        }
        let tags = repeat_tag(POSTAG::URL, starts.len());
        let r = interleave_char_hits(text, &starts, &words, &tags);
        proof {
            assert(tags@ =~= same_tags(starts@.len(), POSTAG::URL));
            lemma_words_are_views(r@, char_interleave_spec(text@, starts@, hit_texts(words@), tags@));
            assert(char_hit_split(text@, starts@, hit_texts(words@), same_tags(starts@.len(), POSTAG::URL), Some(views(r@))));
        }
        Some(r)
    }
}

impl UrlTokenizer {
    pub fn name(&self) -> (r: &'static str)
        ensures
            r@ == URL_TOKENIZER@,
    {
        URL_TOKENIZER
    }

    /// Split the URLs out of the unrecognized words; the words still spell the text.
    pub fn split(&self, words: Vec<Word>, seg: &Segment) -> (r: Vec<Word>)
        requires
            seg.wf(),
        ensures
            text_of(r@) == text_of(words@),
            split_by(*self, *seg, words@, false, r@),
            text_of(r@) == text_of(words@) || text_of(r@).contains('\u{FFFD}'),
    {
        split_words(self, &words, seg, false)
    }
}

/// Hits found in UTF-16 units: each is the text's piece at its position, in order,
/// without overlap.
pub open spec fn unit_hits(text: Seq<char>, starts: Seq<usize>, words: Seq<Seq<char>>) -> bool {
    &&& starts.len() == words.len()
    &&& forall|k: int|
        0 <= k < starts.len() ==> unit_piece(text, #[trigger] starts[k] as int, u16_len(words[k]) as int)
            == Some(words[k])
    &&& forall|j: int, k: int|
        0 <= j < k < starts.len() ==> #[trigger] starts[j] + u16_len(words[j]) <= #[trigger] starts[k]
}

/// On BMP text, unit hits are char hits.
pub proof fn lemma_unit_hits_bmp(text: Seq<char>, starts: Seq<usize>, words: Seq<Seq<char>>)
    requires
        all_bmp(text),
        unit_hits(text, starts, words),
    ensures
        char_hits(text, starts, words),
{
    lemma_bmp_units(text);
    assert forall|k: int| 0 <= k < starts.len() implies starts[k] + words[k].len() <= text.len()
        && #[trigger] words[k] == text.subrange(starts[k] as int, starts[k] + words[k].len())
        && all_bmp(words[k]) by {
        let c = starts[k] as int;
        let l = u16_len(words[k]) as int;
        assert(unit_piece(text, c, l) == Some(words[k]));
        crate::text::lemma_bmp_slice(text, c, c + l);
        lemma_bmp_sub(text, c, c + l);
        lemma_bmp_units(words[k]);
    }
    assert forall|j: int, k: int| 0 <= j < k < starts.len() implies #[trigger] starts[j] + words[j].len()
        <= #[trigger] starts[k] by {
        assert(starts[j] + u16_len(words[j]) <= starts[k]);
        assert(all_bmp(words[j]));
        lemma_bmp_units(words[j]);
    }
    assert forall|k: int| 0 <= k < words.len() implies all_bmp(#[trigger] words[k]) by {
        assert(starts[k] == starts[k]);
    }
}

/// Every hit is non-empty and holds no U+FFFD.
pub open spec fn clean_hits(words: Seq<Seq<char>>) -> bool {
    forall|k: int| 0 <= k < words.len() ==> (#[trigger] words[k]).len() > 0 && !words[k].contains('\u{FFFD}')
}

proof fn lemma_unit_interleave_body(
    text: Seq<char>,
    starts: Seq<usize>,
    words: Seq<Seq<char>>,
    tags: Seq<u32>,
    k: int,
)
    requires
        unit_hits(text, starts, words),
        clean_hits(words),
        0 <= k <= starts.len(),
    ensures
        0 <= hit_end(starts, words, k) <= u16_len(text),
        crate::text::unit_boundary(text, hit_end(starts, words, k)),
        pieces_text(interleave_body(text, starts, words, tags, k)) == decode_utf16_lossy(
            encode_utf16(text).subrange(0, hit_end(starts, words, k)),
        ),
    decreases k,
{
    let u = encode_utf16(text);
    if k == 0 {
        if u.len() > 0 && crate::text::is_low_surrogate(u[0]) {
            crate::text::lemma_low_follows_high(text, 0);
        }
        assert(u.subrange(0, 0) =~= Seq::<u16>::empty());
        assert(pieces_text(interleave_body(text, starts, words, tags, 0)) =~= Seq::<char>::empty());
    } else {
        lemma_unit_interleave_body(text, starts, words, tags, k - 1);
        let prev = interleave_body(text, starts, words, tags, k - 1);
        let last = hit_end(starts, words, k - 1);
        let c = starts[k - 1] as int;
        let w = words[k - 1];
        let l = u16_len(w) as int;
        assert(unit_piece(text, c, l) == Some(w));
        assert(w.len() > 0 && !w.contains('\u{FFFD}'));
        crate::text::lemma_encode_len_bound(w);
        crate::text::lemma_piece_boundaries(text, c, l);
        if k >= 2 {
            assert(starts[k - 2] + u16_len(words[k - 2]) <= starts[k - 1]);
        }
        assert(last <= c);
        crate::text::lemma_decode_join(text, 0, c, c + l);
        if c > last {
            let g = unit_slice(text, last, c - last);
            assert(g == decode_utf16_lossy(u.subrange(last, c)));
            crate::text::lemma_decode_join(text, 0, last, c);
            lemma_pieces_text_push(prev, (g, None::<u32>));
            lemma_pieces_text_push(prev.push((g, None::<u32>)), (w, Some(tags[k - 1])));
        } else {
            lemma_pieces_text_push(prev, (w, Some(tags[k - 1])));
        }
    }
}

/// When a hit holds U+FFFD, so do the pieces around the hits.
proof fn lemma_pieces_fffd(text: Seq<char>, starts: Seq<usize>, words: Seq<Seq<char>>, tags: Seq<u32>, k: int, j: int)
    requires
        0 <= j < k <= starts.len(),
        words.len() == starts.len(),
        words[j].contains('\u{FFFD}'),
    ensures
        pieces_text(interleave_body(text, starts, words, tags, k)).contains('\u{FFFD}'),
    decreases k,
{
    let prev = interleave_body(text, starts, words, tags, k - 1);
    let last = hit_end(starts, words, k - 1);
    let c = starts[k - 1] as int;
    let w = words[k - 1];
    let with_gap = if c > last {
        prev.push((unit_slice(text, last, c - last), None::<u32>))
    } else {
        prev
    };
    lemma_pieces_text_push(with_gap, (w, Some(tags[k - 1])));
    crate::word::lemma_concat_contains(pieces_text(with_gap), w, '\u{FFFD}');
    if j < k - 1 {
        lemma_pieces_fffd(text, starts, words, tags, k - 1, j);
        if c > last {
            lemma_pieces_text_push(prev, (unit_slice(text, last, c - last), None::<u32>));
            crate::word::lemma_concat_contains(pieces_text(prev), unit_slice(text, last, c - last), '\u{FFFD}');
        }
    }
}

/// The pieces around non-empty hits give back the text, or hold U+FFFD (where a hit holds
/// it, or a surrogate pair was cut).
pub proof fn lemma_unit_interleave_text_or_fffd(
    text: Seq<char>,
    starts: Seq<usize>,
    words: Seq<Seq<char>>,
    tags: Seq<u32>,
)
    requires
        unit_hits(text, starts, words),
        forall|k: int| 0 <= k < words.len() ==> (#[trigger] words[k]).len() > 0,
        starts.len() > 0,
    ensures
        pieces_text(interleave_spec(text, starts, words, tags)) == text || pieces_text(
            interleave_spec(text, starts, words, tags),
        ).contains('\u{FFFD}'),
{
    if clean_hits(words) {
        lemma_unit_interleave_text(text, starts, words, tags);
    } else {
        let j = choose|j: int| 0 <= j < words.len() && !((#[trigger] words[j]).len() > 0 && !words[j].contains('\u{FFFD}'));
        let k = starts.len() as int;
        lemma_pieces_fffd(text, starts, words, tags, k, j);
        let body = interleave_body(text, starts, words, tags, k);
        let end = hit_end(starts, words, k);
        if end < u16_len(text) {
            lemma_pieces_text_push(body, (unit_tail(text, end), None::<u32>));
            crate::word::lemma_concat_contains(pieces_text(body), unit_tail(text, end), '\u{FFFD}');
        }
    }
}

/// Hits found in UTF-16 units that are non-empty and hold no U+FFFD lie on char
/// boundaries, so the pieces give back the text, whatever chars it holds.
pub proof fn lemma_unit_interleave_text(
    text: Seq<char>,
    starts: Seq<usize>,
    words: Seq<Seq<char>>,
    tags: Seq<u32>,
)
    requires
        unit_hits(text, starts, words),
        clean_hits(words),
        starts.len() > 0,
    ensures
        pieces_text(interleave_spec(text, starts, words, tags)) == text,
{
    let k = starts.len() as int;
    lemma_unit_interleave_body(text, starts, words, tags, k);
    let u = encode_utf16(text);
    let body = interleave_body(text, starts, words, tags, k);
    let end = hit_end(starts, words, k);
    crate::text::lemma_decode_encode(text);
    if end < u16_len(text) {
        crate::text::lemma_decode_join(text, 0, end, u.len() as int);
        lemma_pieces_text_push(body, (unit_tail(text, end), None::<u32>));
    }
    assert(u.subrange(0, u.len() as int) =~= u);
}

/// Words for hits found in UTF-16 units; they give back the text when it is BMP or when
/// the hits are non-empty and hold no U+FFFD.
pub fn interleave_unit_hits(text: &str, starts: &Vec<usize>, words: &Vec<String>, tags: &Vec<u32>) -> (r: Vec<Word>)
    requires
        unit_hits(text@, starts@, hit_texts(words@)),
        tags@.len() == starts@.len(),
    ensures
        words_are(r@, interleave_spec(text@, starts@, hit_texts(words@), tags@)),
        all_bmp(text@) && starts@.len() > 0 ==> text_of(r@) == text@,
        clean_hits(hit_texts(words@)) && starts@.len() > 0 ==> text_of(r@) == text@,
        (forall|k: int| 0 <= k < starts@.len() ==> (#[trigger] hit_texts(words@)[k]).len() > 0) && starts@.len() > 0
            ==> text_of(r@) == text@ || text_of(r@).contains('\u{FFFD}'),
{
    proof {
        assert forall|k: int| 0 <= k < starts@.len() implies #[trigger] starts@[k] + u16_len(words@[k]@) <= u16_len(text@) by {
            assert(hit_texts(words@)[k] == words@[k]@);
        }
    }
    let r = interleave_hits(text, starts, words, tags);
    proof {
        if clean_hits(hit_texts(words@)) && starts@.len() > 0 {
            lemma_unit_interleave_text(text@, starts@, hit_texts(words@), tags@);
            lemma_words_are_text(r@, interleave_spec(text@, starts@, hit_texts(words@), tags@));
        }
        if (forall|k: int| 0 <= k < starts@.len() ==> (#[trigger] hit_texts(words@)[k]).len() > 0) && starts@.len() > 0 {
            lemma_unit_interleave_text_or_fffd(text@, starts@, hit_texts(words@), tags@);
            lemma_words_are_text(r@, interleave_spec(text@, starts@, hit_texts(words@), tags@));
        }
        if all_bmp(text@) && starts@.len() > 0 {
            lemma_unit_hits_bmp(text@, starts@, hit_texts(words@));
            lemma_interleave_text(text@, starts@, hit_texts(words@), tags@);
            lemma_words_are_text(r@, interleave_spec(text@, starts@, hit_texts(words@), tags@));
        }
    }
    r
}

/// An entry of `table` begins at unit `p` and is `len` units long.
pub open spec fn key_at(table: TableDict, text: Seq<char>, p: int, len: int) -> bool {
    match unit_piece(text, p, len) {
        Some(w) => table.table@.contains_key(w),
        None => false,
    }
}

/// No entry of `table` begins at unit `p`.
pub open spec fn no_entry_at(table: TableDict, text: Seq<char>, p: int) -> bool {
    forall|len: int| 1 <= len ==> !#[trigger] key_at(table, text, p, len)
}

/// No shorter entry of `table` begins where an entry of `len` units does.
pub open spec fn shortest_at(table: TableDict, text: Seq<char>, p: int, len: int) -> bool {
    forall|l: int| 1 <= l < len ==> !#[trigger] key_at(table, text, p, l)
}

/// Unit `p` lies inside one of the hits.
pub open spec fn in_unit_hit(starts: Seq<usize>, words: Seq<Seq<char>>, p: int) -> bool {
    exists|k: int| 0 <= k < starts.len() && #[trigger] starts[k] <= p < starts[k] + u16_len(words[k])
}

/// An entry found at a position has one of the table's lengths.
pub(crate) proof fn lemma_key_len(table: TableDict, text: Seq<char>, p: int, len: int) -> (j: int)
    requires
        table.wf(),
        key_at(table, text, p, len),
    ensures
        0 <= j < table.lengths@.len(),
        table.lengths@[j] == len,
{
    let w = unit_piece(text, p, len)->0;
    let u = crate::text::encode_utf16(text).subrange(p, p + len);
    crate::text::lemma_decode_len(u);
    assert(u16_len(w) == len);
    choose|j: int| 0 <= j < table.lengths@.len() && table.lengths@[j] == u16_len(w)
}

/// Punctuation runs: at each position the shortest punctuation entry found there. Every
/// hit is an entry, the shortest one at its position, and outside the hits no entry
/// begins anywhere.
pub fn match_stopword(text: &str, punct: &TableDict) -> (r: (Vec<usize>, Vec<String>))
    requires
        punct.wf(),
    ensures
        unit_hits(text@, r.0@, hit_texts(r.1@)),
        forall|k: int| 0 <= k < r.1@.len() ==> punct.table@.contains_key(#[trigger] hit_texts(r.1@)[k]),
        forall|k: int| 0 <= k < r.0@.len() ==> shortest_at(*punct, text@, #[trigger] r.0@[k] as int, u16_len(hit_texts(r.1@)[k]) as int),
        forall|p: int| 0 <= p < u16_len(text@) && !in_unit_hit(r.0@, hit_texts(r.1@), p) ==> no_entry_at(*punct, text@, p),
{

    let m = Materialized::of(text);
    let n = m.len();
    let mut starts: Vec<usize> = Vec::new();
    let mut words: Vec<String> = Vec::new();
    let mut cur: usize = 0;
    while cur < n
        invariant
            m.wf(),
            m.text() == text@,
            n == u16_len(text@),
            punct.wf(),
            cur <= n,
            unit_hits(text@, starts@, hit_texts(words@)),
            forall|k: int| 0 <= k < words@.len() ==> punct.table@.contains_key(#[trigger] hit_texts(words@)[k]),
            forall|k: int| 0 <= k < starts@.len() ==> #[trigger] starts@[k] + u16_len(hit_texts(words@)[k]) <= cur,
            forall|p: int| 0 <= p < cur && !in_unit_hit(starts@, hit_texts(words@), p) ==> no_entry_at(*punct, text@, p),
            forall|k: int| 0 <= k < starts@.len() ==> shortest_at(*punct, text@, #[trigger] starts@[k] as int, u16_len(hit_texts(words@)[k]) as int),
        decreases n - cur,
    {
        let mut found: Option<String> = None;
        let mut li: usize = 0;
        while li < punct.lengths.len() && found.is_none()
            invariant
                m.wf(),
                m.text() == text@,
                punct.wf(),
                li <= punct.lengths@.len(),
                match found {
                    Some(w) => punct.table@.contains_key(w@) && unit_piece(text@, cur as int, u16_len(w@) as int) == Some(w@) && u16_len(w@) >= 1
                        && li >= 1 && u16_len(w@) == punct.lengths@[li - 1]
                        && forall|j: int| 0 <= j < li - 1 ==> !key_at(*punct, text@, cur as int, #[trigger] punct.lengths@[j] as int),
                    None => forall|j: int| 0 <= j < li ==> !key_at(*punct, text@, cur as int, #[trigger] punct.lengths@[j] as int),
                },
            decreases punct.lengths@.len() - li + (if found is None { 1int } else { 0int }),
        {
            let len = punct.lengths[li];
            match m.piece(cur, len) {
                Some(w) => {
                    if punct.contains(w.as_str()) {
                        proof {
                            crate::text::lemma_decode_len(crate::text::encode_utf16(text@).subrange(cur as int, cur + len));
                        }
                        found = Some(w);
                    }
                },
                None => {},
            }
            li += 1;
        }
        proof {
            if found is None {
                assert forall|len: int| 1 <= len implies !key_at(*punct, text@, cur as int, len) by {
                    if key_at(*punct, text@, cur as int, len) {
                        let j = lemma_key_len(*punct, text@, cur as int, len);
                        assert(!key_at(*punct, text@, cur as int, punct.lengths@[j] as int));
                    }
                }
            }
        }
        match found {
            Some(w) => {
                let step = char_len(w.as_str());
                let ghost hw = hit_texts(words@);
                let ghost hs = starts@;
                let ghost last = li - 1;
                proof {
                    assert forall|len: int| 1 <= len < u16_len(w@) implies !key_at(*punct, text@, cur as int, len) by {
                        if key_at(*punct, text@, cur as int, len) {
                            let j = lemma_key_len(*punct, text@, cur as int, len);
                            if j >= last {
                                if j > last {
                                    assert(punct.lengths@[last] < punct.lengths@[j]);
                                }
                            }
                            assert(!key_at(*punct, text@, cur as int, punct.lengths@[j] as int));
                        }
                    }
                }
                starts.push(cur);
                words.push(w);
                proof {
                    assert forall|p: int| 0 <= p < cur + step && !in_unit_hit(starts@, hit_texts(words@), p) implies no_entry_at(*punct, text@, p) by {
                        let kk = starts@.len() - 1;
                        assert(starts@.drop_last() =~= hs);
                        if p >= cur {
                            assert(starts@[kk] <= p < starts@[kk] + u16_len(hit_texts(words@)[kk]));
                        } else if in_unit_hit(hs, hw, p) {
                            let k = choose|k: int| 0 <= k < hs.len() && #[trigger] hs[k] <= p < hs[k] + u16_len(hw[k]);
                            assert(starts@[k] == hs[k]);
                            assert(hit_texts(words@)[k] == hw[k]);
                        }
                    }
                    assert forall|k: int| 0 <= k < starts@.len() implies shortest_at(*punct, text@, #[trigger] starts@[k] as int, u16_len(hit_texts(words@)[k]) as int) by {
                        if k < starts@.len() - 1 {
                            assert(hit_texts(words@)[k] == hw[k]);
                            assert(starts@[k] == starts@.drop_last()[k]);
                        }
                    }
                    assert(hit_texts(words@) =~= hw.push(w@));
                    assert forall|j: int, k: int| 0 <= j < k < starts@.len() implies #[trigger] starts@[j] + u16_len(hit_texts(words@)[j])
                        <= #[trigger] starts@[k] by {
                        if k == starts@.len() - 1 {
                            assert(starts@[j] + u16_len(hw[j]) <= cur);
                        } else {
                            assert(hw[j] == hit_texts(words@)[j]);
                        }
                    }
                    assert forall|k: int| 0 <= k < starts@.len() implies unit_piece(text@, #[trigger] starts@[k] as int, u16_len(hit_texts(words@)[k]) as int)
                        == Some(hit_texts(words@)[k]) by {
                        if k < starts@.len() - 1 {
                            assert(hw[k] == hit_texts(words@)[k]);
                        }
                    }
                }
                cur = cur + step;
            },
            None => {
                proof {
                    assert forall|p: int| 0 <= p < cur + 1 && !in_unit_hit(starts@, hit_texts(words@), p) implies no_entry_at(*punct, text@, p) by {
                        if p == cur {
                            assert forall|len: int| 1 <= len implies !key_at(*punct, text@, p, len) by {
                            }
                        }
                    }
                }
                cur += 1;
            },
        }
    }
    (starts, words)
}

/// Splits punctuation out of unrecognized words and tags it `D_W`.
pub struct PunctuationTokenizer;

/// Punctuation hits as `match_stopword` describes them: entries of the table, each the
/// shortest at its position, and no entry outside them.
pub open spec fn stop_hits(punct: TableDict, text: Seq<char>, starts: Seq<usize>, hits: Seq<Seq<char>>) -> bool {
    &&& unit_hits(text, starts, hits)
    &&& forall|k: int| 0 <= k < hits.len() ==> punct.table@.contains_key(#[trigger] hits[k])
    &&& forall|k: int| 0 <= k < starts.len() ==> shortest_at(punct, text, #[trigger] starts[k] as int, u16_len(hits[k]) as int)
    &&& forall|p: int| 0 <= p < u16_len(text) && !in_unit_hit(starts, hits, p) ==> no_entry_at(punct, text, p)
}

/// The punctuation tokenizer's pieces: the punctuation hits, tagged `D_W`.
pub open spec fn punct_split(punct: TableDict, text: Seq<char>, r: Option<Seq<WordView>>) -> bool {
    exists|starts: Seq<usize>, hits: Seq<Seq<char>>|
        #![trigger hit_split(text, starts, hits, same_tags(starts.len(), POSTAG::D_W), r)]
        stop_hits(punct, text, starts, hits) && hit_split(text, starts, hits, same_tags(starts.len(), POSTAG::D_W), r)
}

impl TextSplitter for PunctuationTokenizer {
    open spec fn keeps_text(&self, text: Seq<char>, seg: Segment) -> bool {
        all_bmp(text) || seg.lexicon.punctuation.no_fffd_keys()
    }

    open spec fn splits_to(&self, text: Seq<char>, seg: Segment, r: Option<Seq<WordView>>) -> bool {
        punct_split(seg.lexicon.punctuation, text, r)
    }

    fn split_text(&self, text: &str, seg: &Segment) -> (r: Option<Vec<Word>>) {
        let (starts, words) = match_stopword(text, &seg.lexicon.punctuation);
        proof {
            assert(stop_hits(seg.lexicon.punctuation, text@, starts@, hit_texts(words@)));
        }
        if starts.len() == 0 {
            proof {
                assert(hit_split(text@, starts@, hit_texts(words@), same_tags(starts@.len(), POSTAG::D_W), None));
            }
            return None;
        }
        let tags = repeat_tag(POSTAG::D_W, starts.len());
        proof {
            assert forall|k: int| 0 <= k < starts@.len() implies (#[trigger] hit_texts(words@)[k]).len() > 0 by {
                assert(seg.lexicon.punctuation.table@.contains_key(hit_texts(words@)[k]));
            }
            if seg.lexicon.punctuation.no_fffd_keys() {
                assert forall|k: int| 0 <= k < hit_texts(words@).len() implies (#[trigger] hit_texts(words@)[k]).len() > 0
                    && !hit_texts(words@)[k].contains('\u{FFFD}') by {
                    assert(seg.lexicon.punctuation.table@.contains_key(hit_texts(words@)[k]));
                }
            }
        }
        let r = interleave_unit_hits(text, &starts, &words, &tags);
        proof {
            assert(tags@ =~= same_tags(starts@.len(), POSTAG::D_W));
            lemma_words_are_views(r@, interleave_spec(text@, starts@, hit_texts(words@), tags@));
            assert(hit_split(text@, starts@, hit_texts(words@), same_tags(starts@.len(), POSTAG::D_W), Some(views(r@))));
        }
        Some(r)
    }
}

impl PunctuationTokenizer {
    pub fn name(&self) -> (r: &'static str)
        ensures
            r@ == PUNCTUATION_TOKENIZER@,
    {
        PUNCTUATION_TOKENIZER
    }

    /// Split punctuation out of the unrecognized words; the words still spell the text when
    /// it is BMP or when no punctuation entry holds U+FFFD.
    pub fn split(&self, words: Vec<Word>, seg: &Segment) -> (r: Vec<Word>)
        requires
            seg.wf(),
        ensures
            all_bmp(text_of(words@)) || seg.lexicon.punctuation.no_fffd_keys() ==> text_of(r@) == text_of(words@),
            split_by(*self, *seg, words@, false, r@),
            text_of(r@) == text_of(words@) || text_of(r@).contains('\u{FFFD}'),
    {
        proof {
            if all_bmp(text_of(words@)) {
                lemma_keeps_all_bmp(*self, *seg, words@);
            }
        }
        split_words(self, &words, seg, false)
    }
}

/// The POS of a wildcard word, looked up by its lowercase form (0 when absent).
fn wildcard_tag(table: &TableDict, w: &str) -> (r: u32)
    ensures
        r == (if table.table@.contains_key(spec_to_lowercase(w@)) {
            table.table@[spec_to_lowercase(w@)].p
        } else {
            0
        }),
{
    let lw = to_lowercase(w);
    match table.get(lw.as_str()) {
        Some(e) => e.p,
        None => 0,
    }
}

/// A wildcard entry of `len` chars is at `p` in the lowercased text `lw`.
pub open spec fn wild_at(table: TableDict, lw: Seq<char>, p: int, len: int) -> bool {
    table.table@.contains_key(unit_slice(lw, p, len)) && u16_len(unit_slice(lw, p, len)) == len
}

/// No wildcard entry is at `p` in the lowercased text.
pub open spec fn no_wild_at(table: TableDict, lw: Seq<char>, p: int) -> bool {
    forall|len: int| 1 <= len ==> !#[trigger] wild_at(table, lw, p, len)
}

/// `w` is the piece of `text` at `p` as long as the longest wildcard entry there.
pub open spec fn longest_wild(table: TableDict, lw: Seq<char>, text: Seq<char>, p: int, w: Seq<char>) -> bool {
    exists|l: int|
        #![trigger wild_at(table, lw, p, l)]
        wild_at(table, lw, p, l) && w == unit_slice(text, p, l) && forall|l2: int| l < l2 ==> !#[trigger] wild_at(
            table,
            lw,
            p,
            l2,
        )
}

/// Wildcard words: at each position the longest entry whose lowercase form is there in
/// the lowercased text; the hit is the original text's piece of that length. Outside the
/// hits no entry is found anywhere.
pub fn match_wildcard(text: &str, table: &TableDict) -> (r: (Vec<usize>, Vec<String>))
    requires
        table.wf(),
    ensures
        unit_hits(text@, r.0@, hit_texts(r.1@)),
        forall|k: int| 0 <= k < r.1@.len() ==> u16_len(#[trigger] hit_texts(r.1@)[k]) >= 1,
        forall|k: int| 0 <= k < r.0@.len() ==> longest_wild(*table, spec_to_lowercase(text@), text@, #[trigger] r.0@[k] as int, hit_texts(r.1@)[k]),
        forall|p: int| 0 <= p < u16_len(text@) && !in_unit_hit(r.0@, hit_texts(r.1@), p) ==> no_wild_at(*table, spec_to_lowercase(text@), p),
{
    let lower = to_lowercase(text);
    let ghost lw = lower@;
    let n = char_len(text);
    let mut starts: Vec<usize> = Vec::new();
    let mut words: Vec<String> = Vec::new();
    let mut cur: usize = 0;
    while cur < n
        invariant
            n == u16_len(text@),
            table.wf(),
            lw == lower@,
            lw == spec_to_lowercase(text@),
            cur <= n,
            unit_hits(text@, starts@, hit_texts(words@)),
            forall|k: int| 0 <= k < words@.len() ==> u16_len(#[trigger] hit_texts(words@)[k]) >= 1,
            forall|k: int| 0 <= k < starts@.len() ==> #[trigger] starts@[k] + u16_len(hit_texts(words@)[k]) <= cur,
            forall|k: int| 0 <= k < starts@.len() ==> longest_wild(*table, lw, text@, #[trigger] starts@[k] as int, hit_texts(words@)[k]),
            forall|p: int| 0 <= p < cur && !in_unit_hit(starts@, hit_texts(words@), p) ==> no_wild_at(*table, lw, p),
        decreases n - cur,
    {
        let mut best: Option<String> = None;
        let ghost mut bj: int = 0;
        let mut li: usize = 0;
        while li < table.lengths.len()
            invariant
                table.wf(),
                cur < n,
                n == u16_len(text@),
                lw == lower@,
                li <= table.lengths@.len(),
                match best {
                    Some(w) => w@ == unit_slice(text@, cur as int, u16_len(w@) as int) && 1 <= u16_len(w@) && cur + u16_len(w@) <= n
                        && 0 <= bj < li && wild_at(*table, lw, cur as int, table.lengths@[bj] as int)
                        && w@ == unit_slice(text@, cur as int, table.lengths@[bj] as int)
                        && forall|j: int| bj < j < li ==> !wild_at(*table, lw, cur as int, #[trigger] table.lengths@[j] as int),
                    None => forall|j: int| 0 <= j < li ==> !wild_at(*table, lw, cur as int, #[trigger] table.lengths@[j] as int),
                },
            decreases table.lengths@.len() - li,
        {
            let len = table.lengths[li];
            let piece = char_slice(lower.as_str(), cur, len);
            if table.contains(piece.as_str()) && char_len(piece.as_str()) == len {
                let w = char_slice(text, cur, len);
                proof {
                    let u = crate::text::encode_utf16(text@);
                    let e = crate::text::min_int(cur + len, n as int);
                    crate::text::lemma_decode_len(u.subrange(cur as int, e));
                    assert(u16_len(w@) == e - cur);
                    bj = li as int;
                }
                best = Some(w);
            }
            li += 1;
        }
        proof {
            if best is None {
                assert forall|len: int| 1 <= len implies !#[trigger] wild_at(*table, lw, cur as int, len) by {
                    if wild_at(*table, lw, cur as int, len) {
                        let j = choose|j: int| 0 <= j < table.lengths@.len() && table.lengths@[j] == u16_len(unit_slice(lw, cur as int, len));
                        assert(!wild_at(*table, lw, cur as int, table.lengths@[j] as int));
                    }
                }
            }
        }
        match best {
            Some(w) => {
                let step = char_len(w.as_str());
                let ghost hw = hit_texts(words@);
                let ghost hs = starts@;
                proof {
                    let u = crate::text::encode_utf16(text@);
                    let l = u16_len(w@) as int;
                    assert(unit_slice(text@, cur as int, l) == decode_utf16_lossy(u.subrange(cur as int, cur + l)));
                    let lb = table.lengths@[bj] as int;
                    assert forall|l2: int| lb < l2 implies !#[trigger] wild_at(*table, lw, cur as int, l2) by {
                        if wild_at(*table, lw, cur as int, l2) {
                            let j = choose|j: int| 0 <= j < table.lengths@.len() && table.lengths@[j] == u16_len(unit_slice(lw, cur as int, l2));
                            if j <= bj {
                                if j < bj {
                                    assert(table.lengths@[j] < table.lengths@[bj]);
                                }
                            }
                            assert(!wild_at(*table, lw, cur as int, table.lengths@[j] as int));
                        }
                    }
                    assert(longest_wild(*table, lw, text@, cur as int, w@));
                }
                starts.push(cur);
                words.push(w);
                proof {
                    assert(hit_texts(words@) =~= hw.push(w@));
                    assert forall|j: int, k: int| 0 <= j < k < starts@.len() implies #[trigger] starts@[j] + u16_len(hit_texts(words@)[j])
                        <= #[trigger] starts@[k] by {
                        if k == starts@.len() - 1 {
                            assert(starts@[j] + u16_len(hw[j]) <= cur);
                        } else {
                            assert(hw[j] == hit_texts(words@)[j]);
                        }
                    }
                    assert forall|k: int| 0 <= k < starts@.len() implies unit_piece(text@, #[trigger] starts@[k] as int, u16_len(hit_texts(words@)[k]) as int)
                        == Some(hit_texts(words@)[k]) by {
                        if k < starts@.len() - 1 {
                            assert(hw[k] == hit_texts(words@)[k]);
                        }
                    }
                    assert forall|k: int| 0 <= k < starts@.len() implies longest_wild(*table, lw, text@, #[trigger] starts@[k] as int, hit_texts(words@)[k]) by {
                        if k < starts@.len() - 1 {
                            assert(hw[k] == hit_texts(words@)[k]);
                            assert(starts@[k] == hs[k]);
                        }
                    }
                    assert forall|p: int| 0 <= p < cur + step && !in_unit_hit(starts@, hit_texts(words@), p) implies no_wild_at(*table, lw, p) by {
                        let kk = starts@.len() - 1;
                        assert(starts@.drop_last() =~= hs);
                        if p >= cur {
                            assert(starts@[kk] <= p < starts@[kk] + u16_len(hit_texts(words@)[kk]));
                        } else if in_unit_hit(hs, hw, p) {
                            let k = choose|k: int| 0 <= k < hs.len() && #[trigger] hs[k] <= p < hs[k] + u16_len(hw[k]);
                            assert(starts@[k] == hs[k]);
                            assert(hit_texts(words@)[k] == hw[k]);
                        }
                    }
                }
                cur = cur + step;
            },
            None => {
                cur += 1;
            },
        }
    }
    (starts, words)
}

/// Tag per hit: the entry's POS by lowercase lookup.
/// The POS of a wildcard hit, looked up by its lowercase form (0 when absent).
pub open spec fn wild_tag(table: TableDict, w: Seq<char>) -> u32 {
    if table.table@.contains_key(spec_to_lowercase(w)) {
        table.table@[spec_to_lowercase(w)].p
    } else {
        0
    }
}

/// The tags of wildcard hits.
pub open spec fn wild_tags(table: TableDict, hits: Seq<Seq<char>>) -> Seq<u32> {
    hits.map_values(|h: Seq<char>| wild_tag(table, h))
}

fn wildcard_tags(table: &TableDict, words: &Vec<String>) -> (r: Vec<u32>)
    ensures
        r@ == wild_tags(*table, hit_texts(words@)),
{
    let mut r: Vec<u32> = Vec::new();
    let mut i: usize = 0;
    while i < words.len()
        invariant
            i <= words@.len(),
            r@ == wild_tags(*table, hit_texts(words@)).take(i as int),
        decreases words@.len() - i,
    {
        let t = wildcard_tag(table, words[i].as_str());
        proof {
            assert(hit_texts(words@)[i as int] == words@[i as int]@);
            assert(wild_tags(*table, hit_texts(words@)).take(i + 1) =~= wild_tags(*table, hit_texts(words@)).take(i as int).push(t));
        }
        r.push(t);
        i += 1;
    }
    proof {
        assert(wild_tags(*table, hit_texts(words@)).take(words@.len() as int) =~= wild_tags(*table, hit_texts(words@)));
    }
    r
}

/// Splits wildcard-dictionary words out of unrecognized words.
pub struct WildcardTokenizer;

/// Wildcard hits as `match_wildcard` describes them: each the longest entry at its
/// position (compared lowercase), and no entry outside them.
pub open spec fn wild_hits(table: TableDict, text: Seq<char>, starts: Seq<usize>, hits: Seq<Seq<char>>) -> bool {
    &&& unit_hits(text, starts, hits)
    &&& forall|k: int| 0 <= k < hits.len() ==> u16_len(#[trigger] hits[k]) >= 1
    &&& forall|k: int| 0 <= k < starts.len() ==> longest_wild(table, spec_to_lowercase(text), text, #[trigger] starts[k] as int, hits[k])
    &&& forall|p: int| 0 <= p < u16_len(text) && !in_unit_hit(starts, hits, p) ==> no_wild_at(table, spec_to_lowercase(text), p)
}

/// The wildcard tokenizer's pieces: nothing with an empty table; else the wildcard hits,
/// each tagged with its entry's POS.
pub open spec fn wild_split(table: TableDict, text: Seq<char>, r: Option<Seq<WordView>>) -> bool {
    &&& table.table@.len() == 0 ==> r is None
    &&& table.table@.len() > 0 ==> exists|starts: Seq<usize>, hits: Seq<Seq<char>>|
        #![trigger hit_split(text, starts, hits, wild_tags(table, hits), r)]
        wild_hits(table, text, starts, hits) && hit_split(text, starts, hits, wild_tags(table, hits), r)
}

impl TextSplitter for WildcardTokenizer {
    open spec fn keeps_text(&self, text: Seq<char>, seg: Segment) -> bool {
        all_bmp(text) || seg.wildcard.table@.len() == 0
    }

    open spec fn splits_to(&self, text: Seq<char>, seg: Segment, r: Option<Seq<WordView>>) -> bool {
        wild_split(seg.wildcard, text, r)
    }

    fn split_text(&self, text: &str, seg: &Segment) -> (r: Option<Vec<Word>>) {
        if seg.wildcard.size() == 0 {
            return None;
        }
        let (starts, words) = match_wildcard(text, &seg.wildcard);
        proof {
            assert(wild_hits(seg.wildcard, text@, starts@, hit_texts(words@)));
        }
        if starts.len() == 0 {
            proof {
                assert(hit_split(text@, starts@, hit_texts(words@), wild_tags(seg.wildcard, hit_texts(words@)), None));
            }
            return None;
        }
        let tags = wildcard_tags(&seg.wildcard, &words);
        proof {
            assert forall|k: int| 0 <= k < starts@.len() implies (#[trigger] hit_texts(words@)[k]).len() > 0 by {
                assert(u16_len(hit_texts(words@)[k]) >= 1);
                lemma_encode_len_bound(hit_texts(words@)[k]);
            }
        }
        let r = interleave_unit_hits(text, &starts, &words, &tags);
        proof {
            lemma_words_are_views(r@, interleave_spec(text@, starts@, hit_texts(words@), tags@));
            assert(hit_split(text@, starts@, hit_texts(words@), wild_tags(seg.wildcard, hit_texts(words@)), Some(views(r@))));
        }
        Some(r)
    }
}

impl WildcardTokenizer {
    pub fn name(&self) -> (r: &'static str)
        ensures
            r@ == WILDCARD_TOKENIZER@,
    {
        WILDCARD_TOKENIZER
    }

    /// Split wildcard words out of the unrecognized words; the words still spell the text
    /// when it is BMP (positions are found in the lowercase text, which may not keep the
    /// text's surrogate pairs in place) or when there are no wildcard words.
    pub fn split(&self, words: Vec<Word>, seg: &Segment) -> (r: Vec<Word>)
        requires
            seg.wf(),
        ensures
            all_bmp(text_of(words@)) || seg.wildcard.table@.len() == 0 ==> text_of(r@) == text_of(words@),
            split_by(*self, *seg, words@, false, r@),
            text_of(r@) == text_of(words@) || text_of(r@).contains('\u{FFFD}'),
    {
        proof {
            if all_bmp(text_of(words@)) {
                lemma_keeps_all_bmp(*self, *seg, words@);
            }
        }
        split_words(self, &words, seg, false)
    }
}

/// A word recognized from a dictionary entry.
pub fn raw_from_entry(w: &str, e: &DictEntry) -> (r: Word)
    ensures
        r.w@ == w@,
        r.p == Some(e.p),
        r.f == Some(e.f),
        r.s == Some(e.s),
        r.c is None,
        r.ow is None,
        r.op is None,
        r.m is None,
        !r.auto_create,
        r.os is None,
{
    let mut r = Word::new(w);
    r.p = Some(e.p);
    r.f = Some(e.f);
    r.s = Some(e.s);
    r
}

/// Code of the first char, with full-width digits and letters folded to ASCII.
pub open spec fn folded_first_code(s: Seq<char>) -> u32 {
    let c = if s.len() == 0 {
        0u32
    } else {
        s[0] as u32
    };
    if 65296 <= c <= 65370 {
        (c - 65248) as u32
    } else {
        c
    }
}

/// POS of a foreign piece by its first char: digits `A_M`, Latin letters `A_NX`, else none.
pub open spec fn foreign_pos(s: Seq<char>) -> u32 {
    let c = folded_first_code(s);
    if 48 <= c <= 57 {
        POSTAG::A_M
    } else if (65 <= c <= 90) || (97 <= c <= 122) {
        POSTAG::A_NX
    } else {
        POSTAG::UNK
    }
}

fn foreign_pos_exec(s: &str) -> (r: u32)
    ensures
        r == foreign_pos(s@),
{
    let cs = chars_of(s);
    let mut c: u32 = if cs.len() == 0 {
        0
    } else {
        crate::text::char_code(cs[0])
    };
    if 65296 <= c && c <= 65370 {
        c = c - 65248;
    }
    if 48 <= c && c <= 57 {
        POSTAG::A_M
    } else if (65 <= c && c <= 90) || (97 <= c && c <= 122) {
        POSTAG::A_NX
    } else {
        POSTAG::UNK
    }
}

/// A word taken from a dictionary entry.
pub open spec fn entry_view(w: Seq<char>, e: DictEntry) -> WordView {
    WordView {
        w,
        p: Some(e.p),
        f: Some(e.f),
        c: None,
        s: Some(e.s),
        ow: None,
        op: None,
        m: None,
        auto_create: false,
        os: None,
    }
}

/// The word for one piece of a foreign run cut at digit runs: a Latin piece the table
/// knows from its entry, else the piece with the POS of its first char.
pub open spec fn foreign_part_view(seg: Segment, part: Seq<char>) -> WordView {
    let pos = foreign_pos(part);
    if pos == POSTAG::A_NX && seg.table.table@.contains_key(part) {
        entry_view(part, seg.table.table@[part])
    } else {
        plain_view((part, if pos != POSTAG::UNK { Some(pos) } else { None }))
    }
}

/// The words of the non-empty pieces of a foreign run.
pub open spec fn run_words(seg: Segment, ps: Seq<Seq<char>>) -> Seq<WordView>
    decreases ps.len(),
{
    if ps.len() == 0 {
        Seq::empty()
    } else {
        run_words(seg, ps.drop_last()) + (if ps.last().len() == 0 {
            Seq::empty()
        } else {
            seq![foreign_part_view(seg, ps.last())]
        })
    }
}

/// The words of a foreign run the table does not know: its pieces cut at digit runs.
pub open spec fn foreign_run_views(seg: Segment, w: Seq<char>) -> Seq<WordView> {
    if spec_regex_valid(RE_SPLIT_NUM@) {
        run_words(seg, split_keep_spec(w, spec_regex_matches(RE_SPLIT_NUM@, w)))
    } else {
        seq![plain_view((w, None))]
    }
}

/// The words of one non-empty piece of a text cut at CJK, number and foreign-script runs:
/// a foreign or number run the table knows from its entry, other such runs cut further,
/// anything else as it is.
pub open spec fn foreign_piece_views(seg: Segment, w: Seq<char>) -> Seq<WordView> {
    if spec_regex_matches(RE_SPLIT_2@, w).len() > 0 {
        if seg.table.table@.contains_key(w) {
            seq![entry_view(w, seg.table.table@[w])]
        } else {
            foreign_run_views(seg, w)
        }
    } else {
        seq![plain_view((w, None))]
    }
}

/// The words of the non-empty pieces of a text.
pub open spec fn foreign_words(seg: Segment, ps: Seq<Seq<char>>) -> Seq<WordView>
    decreases ps.len(),
{
    if ps.len() == 0 {
        Seq::empty()
    } else {
        foreign_words(seg, ps.drop_last()) + (if ps.last().len() == 0 {
            Seq::empty()
        } else {
            foreign_piece_views(seg, ps.last())
        })
    }
}

/// What `split_foreign` gives for a text: nothing when a pattern does not compile or no
/// word comes out.
pub open spec fn foreign_views(seg: Segment, text: Seq<char>) -> Option<Seq<WordView>> {
    if !spec_regex_valid(RE_SPLIT_1@) || !spec_regex_valid(RE_SPLIT_2@) {
        None
    } else {
        let all = foreign_words(seg, split_keep_spec(text, spec_regex_matches(RE_SPLIT_1@, text)));
        if all.len() == 0 {
            None
        } else {
            Some(all)
        }
    }
}

/// The pieces of a foreign run, split at digit runs: a Latin piece the dictionary knows
/// comes from its entry, other pieces carry the POS of their first char.
fn foreign_parts(w: &str, seg: &Segment, out: &mut Vec<Word>)
    requires
        seg.wf(),
    ensures
        text_of(final(out)@) == text_of(old(out)@) + w@,
        views(final(out)@) == views(old(out)@) + foreign_run_views(*seg, w@),
{
    let ghost before = out@;
    if !regex_valid(RE_SPLIT_NUM) {
        let x = Word::new(w);
        proof {
            lemma_text_of_push(out@, x);
        }
        out.push(x);
        proof {
            assert(views(out@) =~= views(before) + seq![plain_view((w@, None))]);
        }
        return;
    }
    let parts = split_keep_re(w, RE_SPLIT_NUM);
    let ghost pv = parts@.map_values(|s: String| s@);
    let mut i: usize = 0;
    while i < parts.len()
        invariant
            seg.wf(),
            i <= parts@.len(),
            pv == parts@.map_values(|s: String| s@),
            pv == split_keep_spec(w@, spec_regex_matches(RE_SPLIT_NUM@, w@)),
            spec_regex_valid(RE_SPLIT_NUM@),
            text_of(out@) == text_of(before) + concat_pieces(pv.subrange(0, i as int)),
            views(out@) == views(before) + run_words(*seg, pv.subrange(0, i as int)),
        decreases parts@.len() - i,
    {
        let part = parts[i].as_str();
        let ghost vo = views(out@);
        proof {
            assert(pv.subrange(0, i + 1).drop_last() =~= pv.subrange(0, i as int));
            assert(pv.subrange(0, i + 1).last() == pv[i as int]);
        }
        proof {
            assert(pv.subrange(0, i + 1) =~= pv.subrange(0, i as int).push(pv[i as int]));
            crate::re::lemma_concat_push(pv.subrange(0, i as int), pv[i as int]);
            assert(pv[i as int] == part@);
        }
        if part.is_empty() {
            proof {
                assert(part@.len() == 0);
                assert(concat_pieces(pv.subrange(0, i as int)) + part@ =~= concat_pieces(pv.subrange(0, i as int)));
                assert(views(out@) =~= vo + Seq::<WordView>::empty());
            }
        } else {
            let lasttype = foreign_pos_exec(part);
            let mut done = false;
            if lasttype == POSTAG::A_NX {
                match seg.table.get(part) {
                    Some(cw) => {
                        let x = raw_from_entry(part, cw);
                        proof {
                            lemma_text_of_push(out@, x);
                            assert(x@ == foreign_part_view(*seg, part@));
                        }
                        out.push(x);
                        proof {
                            assert(views(out@) =~= vo.push(x@));
                        }
                        done = true;
                    },
                    None => {},
                }
            }
            if !done {
                let mut tok = Word::new(part);
                if lasttype != POSTAG::UNK {
                    tok.p = Some(lasttype);
                }
                proof {
                    lemma_text_of_push(out@, tok);
                    assert(tok@ == foreign_part_view(*seg, part@));
                }
                out.push(tok);
                proof {
                    assert(views(out@) =~= vo.push(tok@));
                }
            }
        }
        i += 1;
    }
    proof {
        assert(pv.subrange(0, pv.len() as int) =~= pv);
    }
}

/// Cut a word into CJK runs, number runs and foreign-script runs; foreign runs the
/// dictionary knows come from their entry, others are split further at digit runs.
pub fn split_foreign(text: &str, seg: &Segment) -> (r: Option<Vec<Word>>)
    requires
        seg.wf(),
    ensures
        r matches Some(ws) ==> text_of(ws@) == text@ && ws@.len() > 0,
        opt_views(r) == foreign_views(*seg, text@),
{
    if !regex_valid(RE_SPLIT_1) || !regex_valid(RE_SPLIT_2) {
        return None;
    }
    let pieces = split_keep_re(text, RE_SPLIT_1);
    let ghost pv = pieces@.map_values(|s: String| s@);
    let mut ret: Vec<Word> = Vec::new();
    let mut i: usize = 0;
    while i < pieces.len()
        invariant
            seg.wf(),
            spec_regex_valid(RE_SPLIT_2@),
            i <= pieces@.len(),
            pv == pieces@.map_values(|s: String| s@),
            pv == split_keep_spec(text@, spec_regex_matches(RE_SPLIT_1@, text@)),
            text_of(ret@) == concat_pieces(pv.subrange(0, i as int)),
            views(ret@) == foreign_words(*seg, pv.subrange(0, i as int)),
        decreases pieces@.len() - i,
    {
        let w = pieces[i].as_str();
        let ghost vo = views(ret@);
        proof {
            assert(pv.subrange(0, i + 1).drop_last() =~= pv.subrange(0, i as int));
            assert(pv.subrange(0, i + 1).last() == pv[i as int]);
        }
        proof {
            assert(pv.subrange(0, i + 1) =~= pv.subrange(0, i as int).push(pv[i as int]));
            crate::re::lemma_concat_push(pv.subrange(0, i as int), pv[i as int]);
            assert(pv[i as int] == w@);
        }
        if w.is_empty() {
            proof {
                assert(w@.len() == 0);
                assert(concat_pieces(pv.subrange(0, i as int)) + w@ =~= concat_pieces(pv.subrange(0, i as int)));
                assert(views(ret@) =~= vo + Seq::<WordView>::empty());
            }
        } else if regex_is_match(RE_SPLIT_2, w) {
            match seg.table.get(w) {
                Some(cw) => {
                    let x = raw_from_entry(w, cw);
                    proof {
                        lemma_text_of_push(ret@, x);
                    }
                    ret.push(x);
                    proof {
                        assert(views(ret@) =~= vo + seq![entry_view(w@, seg.table.table@[w@])]);
                    }
                },
                None => {
                    foreign_parts(w, seg, &mut ret);
                },
            }
        } else {
            let x = Word::new(w);
            proof {
                lemma_text_of_push(ret@, x);
            }
            ret.push(x);
            proof {
                assert(views(ret@) =~= vo + seq![plain_view((w@, None))]);
            }
        }
        i += 1;
    }
    proof {
        assert(pv.subrange(0, pv.len() as int) =~= pv);
    }
    if ret.len() == 0 {
        None
    } else {
        Some(ret)
    }
}

/// Splits foreign-script runs and numbers out of unrecognized words.
pub struct ForeignTokenizer;

impl TextSplitter for ForeignTokenizer {
    open spec fn keeps_text(&self, text: Seq<char>, seg: Segment) -> bool {
        true
    }

    open spec fn splits_to(&self, text: Seq<char>, seg: Segment, r: Option<Seq<WordView>>) -> bool {
        r == foreign_views(seg, text)
    }

    fn split_text(&self, text: &str, seg: &Segment) -> (r: Option<Vec<Word>>) {
        split_foreign(text, seg)
    }
}

impl ForeignTokenizer {
    pub fn name(&self) -> (r: &'static str)
        ensures
            r@ == FOREIGN_TOKENIZER@,
    {
        FOREIGN_TOKENIZER
    }

    /// Split foreign runs out of the unrecognized words; the words still spell the text.
    pub fn split(&self, words: Vec<Word>, seg: &Segment) -> (r: Vec<Word>)
        requires
            seg.wf(),
        ensures
            text_of(r@) == text_of(words@),
            split_by(*self, *seg, words@, false, r@),
            text_of(r@) == text_of(words@) || text_of(r@).contains('\u{FFFD}'),
    {
        split_words(self, &words, seg, false)
    }
}

/// The char at a UTF-16 position as a text (empty past the end or on a surrogate).
pub open spec fn char_seq_at(text: Seq<char>, i: int) -> Seq<char> {
    match unit_char_at(text, i) {
        Some(c) => seq![c],
        None => Seq::empty(),
    }
}

fn char_str_at(text: &str, i: usize) -> (r: String)
    ensures
        r@ == char_seq_at(text@, i as int),
{
    match char_at(text, i) {
        Some(c) => char_to_string(c),
        None => String::new(),
    }
}

/// A given name after the family name `fam`: a double given name, or a single one
/// (doubled when the next char repeats it).
pub open spec fn given_name(lex: Lexicon, fam: Seq<char>, n1: Seq<char>, n2: Seq<char>) -> Option<Seq<char>> {
    if lex.double_name_1.table@.contains(n1) && lex.double_name_2.table@.contains(n2) {
        Some(fam + n1 + n2)
    } else if lex.single_name.table@.contains(n1) {
        Some(fam + n1 + (if n1 == n2 {
            n2
        } else {
            Seq::empty()
        }))
    } else {
        None
    }
}

/// The name starting at `cur`: a two-char family name first, then a one-char one.
pub open spec fn name_at(lex: Lexicon, text: Seq<char>, cur: int) -> Option<Seq<char>> {
    let f2 = unit_slice(text, cur, 2);
    let a = if lex.family_name_2.table@.contains(f2) {
        given_name(lex, f2, char_seq_at(text, cur + 2), char_seq_at(text, cur + 3))
    } else {
        None
    };
    if a is Some {
        a
    } else {
        let f1 = char_seq_at(text, cur);
        if lex.family_name_1.table@.contains(f1) {
            given_name(lex, f1, char_seq_at(text, cur + 1), char_seq_at(text, cur + 2))
        } else {
            None
        }
    }
}

/// The char at unit `i`, as a one-char text, is the decoded unit there.
proof fn lemma_char_seq_unit(text: Seq<char>, i: int)
    requires
        char_seq_at(text, i).len() > 0,
    ensures
        0 <= i < u16_len(text),
        decode_utf16_lossy(encode_utf16(text).subrange(i, i + 1)) == char_seq_at(text, i),
        !crate::text::is_low_surrogate(encode_utf16(text)[i]),
{
    let u = encode_utf16(text);
    let v = u.subrange(i, i + 1);
    assert(v[0] == u[i]);
    assert(v.skip(1) =~= Seq::<u16>::empty());
    assert(decode_utf16_lossy(Seq::<u16>::empty()) =~= Seq::<char>::empty());
    assert(decode_utf16_lossy(v) == seq![(v[0] as u32) as char] + decode_utf16_lossy(v.skip(1)));
    assert(decode_utf16_lossy(v) =~= char_seq_at(text, i));
}

/// A name found is non-empty and is the text's units from its position, decoded; with name
/// lists free of U+FFFD it holds no U+FFFD.
pub proof fn lemma_name_piece(lex: Lexicon, text: Seq<char>, cur: int)
    requires
        lex.wf(),
        0 <= cur,
        name_at(lex, text, cur) is Some,
    ensures
        name_at(lex, text, cur)->0.len() > 0,
        lex.names_no_fffd() ==> !name_at(lex, text, cur)->0.contains('\u{FFFD}'),
        unit_piece(text, cur, u16_len(name_at(lex, text, cur)->0) as int) == name_at(lex, text, cur),
{
    let u = encode_utf16(text);
    let f2 = unit_slice(text, cur, 2);
    let a = if lex.family_name_2.table@.contains(f2) {
        given_name(lex, f2, char_seq_at(text, cur + 2), char_seq_at(text, cur + 3))
    } else {
        None
    };
    let (fam, k) = if a is Some {
        (f2, 2int)
    } else {
        (char_seq_at(text, cur), 1int)
    };
    let n1 = char_seq_at(text, cur + k);
    let n2 = char_seq_at(text, cur + k + 1);
    let w = name_at(lex, text, cur)->0;
    assert(w == given_name(lex, fam, n1, n2)->0);
    assert(lex.double_name_1.table@.contains(n1) || lex.single_name.table@.contains(n1));
    assert(n1.len() > 0);
    lemma_char_seq_unit(text, cur + k);
    assert(fam.len() > 0);
    if k == 2 {
        assert(lex.family_name_2.table@.contains(fam));
        assert(cur + 2 <= u.len());
        assert(fam == decode_utf16_lossy(u.subrange(cur, cur + 2)));
        crate::text::lemma_decode_len(u.subrange(cur, cur + 2));
    } else {
        assert(lex.family_name_1.table@.contains(fam));
        lemma_char_seq_unit(text, cur);
        crate::text::lemma_decode_len(u.subrange(cur, cur + 1));
    }
    assert(u16_len(fam) == k);
    let tail = w.subrange((fam.len() + n1.len()) as int, w.len() as int);
    assert(w =~= fam + n1 + tail);
    assert(tail.len() == 0 || tail == n2);
    if tail.len() > 0 {
        assert(n2.len() > 0);
        lemma_char_seq_unit(text, cur + k + 1);
    }
    if lex.names_no_fffd() {
        assert(!fam.contains('\u{FFFD}'));
        assert(!n1.contains('\u{FFFD}'));
        assert(!tail.contains('\u{FFFD}')) by {
            if tail.len() > 0 {
                if lex.double_name_1.table@.contains(n1) && lex.double_name_2.table@.contains(n2) {
                    assert(lex.double_name_2.table@.contains(tail));
                } else {
                    assert(tail == n1);
                }
            }
        }
        assert(!w.contains('\u{FFFD}')) by {
            if w.contains('\u{FFFD}') {
                let j = choose|j: int| 0 <= j < w.len() && w[j] == '\u{FFFD}';
                if j < fam.len() {
                    assert(fam[j] == w[j]);
                } else if j < fam.len() + n1.len() {
                    assert(n1[j - fam.len()] == w[j]);
                } else {
                    assert(tail[j - fam.len() - n1.len()] == w[j]);
                }
            }
        }
    }
    let t = tail.len() as int;
    crate::text::lemma_encode_add(fam + n1, tail);
    crate::text::lemma_encode_add(fam, n1);
    assert(u16_len(n1) == 1) by {
        crate::text::lemma_decode_len(u.subrange(cur + k, cur + k + 1));
    }
    if t > 0 {
        crate::text::lemma_decode_len(u.subrange(cur + k + 1, cur + k + 2));
    }
    assert(u16_len(tail) == t) by {
        if t == 0 {
            assert(tail =~= Seq::<char>::empty());
        }
    }
    let l = k + 1 + t;
    assert(u16_len(w) == l);
    assert(cur + l <= u.len());
    // join the pieces at the char units after the family name
    let v = u.subrange(cur, cur + l);
    crate::text::lemma_decode_split(v, k);
    assert(v.take(k) =~= u.subrange(cur, cur + k));
    let v2 = v.skip(k);
    assert(v2 =~= u.subrange(cur + k, cur + l));
    if t > 0 {
        assert(v2[1] == u[cur + k + 1]);
        crate::text::lemma_decode_split(v2, 1);
        assert(v2.take(1) =~= u.subrange(cur + k, cur + k + 1));
        assert(v2.skip(1) =~= u.subrange(cur + k + 1, cur + k + 2));
    } else {
        assert(v2 =~= u.subrange(cur + k, cur + k + 1));
    }
    assert(decode_utf16_lossy(v) =~= w);
}

fn given_name_exec(lex: &Lexicon, fam: &str, n1: &str, n2: &str) -> (r: Option<String>)
    ensures
        opt_string_view(r) == given_name(*lex, fam@, n1@, n2@),
{
    if lex.double_name_1.contains(n1) && lex.double_name_2.contains(n2) {
        Some(concat_str(concat_str(fam, n1).as_str(), n2))
    } else if lex.single_name.contains(n1) {
        let extra = if str_eq(n1, n2) {
            to_owned_string(n2)
        } else {
            String::new()
        };
        Some(concat_str(concat_str(fam, n1).as_str(), extra.as_str()))
    } else {
        None
    }
}

/// `char_seq_at(text, cur + off)` for a position `cur` inside the text of `n` units.
fn char_str_after(text: &str, n: usize, cur: usize, off: usize) -> (r: String)
    requires
        n == u16_len(text@),
        cur < n,
    ensures
        r@ == char_seq_at(text@, cur + off),
{
    if off >= n - cur {
        String::new()
    } else {
        char_str_at(text, cur + off)
    }
}

fn name_at_exec(lex: &Lexicon, text: &str, n: usize, cur: usize) -> (r: Option<String>)
    requires
        n == u16_len(text@),
        cur < n,
    ensures
        opt_string_view(r) == name_at(*lex, text@, cur as int),
{
    let f2 = char_slice(text, cur, 2);
    let mut name: Option<String> = None;
    if lex.family_name_2.contains(f2.as_str()) {
        let n1 = char_str_after(text, n, cur, 2);
        let n2 = char_str_after(text, n, cur, 3);
        name = given_name_exec(lex, f2.as_str(), n1.as_str(), n2.as_str());
    }
    if name.is_none() {
        let f1 = char_str_at(text, cur);
        if lex.family_name_1.contains(f1.as_str()) {
            let n1 = char_str_after(text, n, cur, 1);
            let n2 = char_str_after(text, n, cur, 2);
            name = given_name_exec(lex, f1.as_str(), n1.as_str(), n2.as_str());
        }
    }
    name
}

/// A char found at a unit position lies in the text and takes one unit.
proof fn lemma_char_seq_at(text: Seq<char>, i: int)
    ensures
        char_seq_at(text, i).len() > 0 ==> 0 <= i < u16_len(text) && u16_len(char_seq_at(text, i)) == 1,
        char_seq_at(text, i).len() <= 1,
{
    if char_seq_at(text, i).len() > 0 {
        let u = crate::text::encode_utf16(text);
        let c = ((u[i] as u32) as char);
        assert((((u[i] as u32) as char) as u32) == u[i] as u32);
        assert(crate::text::encode_utf16(seq![c]) =~= crate::text::encode_utf16(Seq::<char>::empty()) + crate::text::char_units(c)) by {
            assert(seq![c].drop_last() =~= Seq::<char>::empty());
        }
    }
}

/// A name found at `cur` lies in the text and is not empty; on BMP text it is the
/// text at `cur`.
proof fn lemma_name_at(lex: Lexicon, text: Seq<char>, cur: int, nm: Seq<char>)
    requires
        lex.wf(),
        0 <= cur,
        name_at(lex, text, cur) == Some(nm),
    ensures
        cur + u16_len(nm) <= u16_len(text),
        u16_len(nm) >= 1,
        all_bmp(text) ==> cur + nm.len() <= text.len() && nm == text.subrange(cur, cur + nm.len()),
{
    let f2 = unit_slice(text, cur, 2);
    let n = u16_len(text) as int;
    lemma_char_seq_at(text, cur);
    lemma_char_seq_at(text, cur + 1);
    lemma_char_seq_at(text, cur + 2);
    lemma_char_seq_at(text, cur + 3);
    let a = if lex.family_name_2.table@.contains(f2) {
        given_name(lex, f2, char_seq_at(text, cur + 2), char_seq_at(text, cur + 3))
    } else {
        None
    };
    if a is Some {
        let n1 = char_seq_at(text, cur + 2);
        let n2 = char_seq_at(text, cur + 3);
        assert(n1.len() > 0);
        assert(cur + 2 < n);
        let u = crate::text::encode_utf16(text);
        crate::text::lemma_decode_len(u.subrange(cur, cur + 2));
        assert(u16_len(f2) == 2);
        let extra: Seq<char> = if lex.double_name_1.table@.contains(n1) && lex.double_name_2.table@.contains(n2) {
            n2
        } else if n1 == n2 {
            n2
        } else {
            Seq::empty()
        };
        assert(nm == f2 + n1 + extra);
        crate::text::lemma_encode_add(f2 + n1, extra);
        crate::text::lemma_encode_add(f2, n1);
        if extra.len() > 0 {
            assert(cur + 3 < n);
        }
        if all_bmp(text) {
            lemma_bmp_units(text);
            assert(f2 == text.subrange(cur, cur + 2));
            assert(n1 == seq![text[cur + 2]]);
            if extra.len() > 0 {
                assert(extra == seq![text[cur + 3]]);
            }
            assert(nm =~= text.subrange(cur, cur + nm.len()));
        }
    } else {
        let f1 = char_seq_at(text, cur);
        let n1 = char_seq_at(text, cur + 1);
        let n2 = char_seq_at(text, cur + 2);
        assert(lex.family_name_1.table@.contains(f1));
        assert(f1.len() > 0);
        assert(n1.len() > 0);
        let extra: Seq<char> = if lex.double_name_1.table@.contains(n1) && lex.double_name_2.table@.contains(n2) {
            n2
        } else if n1 == n2 {
            n2
        } else {
            Seq::empty()
        };
        assert(nm == f1 + n1 + extra);
        crate::text::lemma_encode_add(f1 + n1, extra);
        crate::text::lemma_encode_add(f1, n1);
        if extra.len() > 0 {
            assert(cur + 2 < n);
        }
        if all_bmp(text) {
            lemma_bmp_units(text);
            assert(f1 == seq![text[cur]]);
            assert(n1 == seq![text[cur + 1]]);
            if extra.len() > 0 {
                assert(extra == seq![text[cur + 2]]);
            }
            assert(nm =~= text.subrange(cur, cur + nm.len()));
        }
    }
}

/// Hits lie inside the text in UTF-16 units, in order, and are char hits on BMP text.
pub open spec fn mixed_hits(text: Seq<char>, starts: Seq<usize>, words: Seq<Seq<char>>) -> bool {
    &&& starts.len() == words.len()
    &&& forall|k: int| 0 <= k < starts.len() ==> #[trigger] starts[k] + u16_len(words[k]) <= u16_len(text)
    &&& forall|j: int, k: int|
        0 <= j < k < starts.len() ==> #[trigger] starts[j] + u16_len(words[j]) <= #[trigger] starts[k]
    &&& all_bmp(text) ==> char_hits(text, starts, words)
}

/// Chinese names, left to right: at each position the name `name_at` finds there, the
/// search going on after it; no name starts at a position outside the names found.
#[verifier::spinoff_prover]
#[verifier::rlimit(40)]
pub fn match_name(text: &str, lex: &Lexicon) -> (r: (Vec<usize>, Vec<String>))
    requires
        lex.wf(),
    ensures
        mixed_hits(text@, r.0@, hit_texts(r.1@)),
        forall|k: int|
            0 <= k < r.0@.len() ==> name_at(*lex, text@, #[trigger] r.0@[k] as int) == Some(
                hit_texts(r.1@)[k],
            ),
        forall|p: int|
            0 <= p < u16_len(text@) && !in_unit_hit(r.0@, hit_texts(r.1@), p) ==> #[trigger] name_at(*lex, text@, p)
                is None,
{
    let n = char_len(text);
    let mut starts: Vec<usize> = Vec::new();
    let mut words: Vec<String> = Vec::new();
    let mut cur: usize = 0;
    proof {
        crate::text::lemma_encode_len_bound(text@);
    }
    while cur < n
        invariant
            n == u16_len(text@),
            n <= 2 * text@.len(),
            lex.wf(),
            cur <= n,
            mixed_hits(text@, starts@, hit_texts(words@)),
            forall|k: int|
                0 <= k < starts@.len() ==> name_at(*lex, text@, #[trigger] starts@[k] as int) == Some(
                    hit_texts(words@)[k],
                ),
            forall|k: int| 0 <= k < starts@.len() ==> #[trigger] starts@[k] + u16_len(hit_texts(words@)[k]) <= cur,
            forall|p: int|
                0 <= p < cur && !in_unit_hit(starts@, hit_texts(words@), p) ==> #[trigger] name_at(*lex, text@, p) is None,
        decreases n - cur,
    {
        match name_at_exec(lex, text, n, cur) {
            Some(nm) => {
                let step = char_len(nm.as_str());
                let ghost hw = hit_texts(words@);
                let ghost s0 = starts@;
                proof {
                    lemma_name_at(*lex, text@, cur as int, nm@);
                }
                starts.push(cur);
                words.push(nm);
                proof {
                    let hw2 = hit_texts(words@);
                    assert(hw2 =~= hw.push(nm@));
                    assert forall|j: int, k: int| 0 <= j < k < starts@.len() implies #[trigger] starts@[j] + u16_len(hw2[j])
                        <= #[trigger] starts@[k] by {
                        if k == starts@.len() - 1 {
                            assert(starts@[j] + u16_len(hw[j]) <= cur);
                        } else {
                            assert(hw[j] == hw2[j]);
                        }
                    }
                    assert forall|k: int| 0 <= k < starts@.len() implies name_at(*lex, text@, #[trigger] starts@[k] as int) == Some(hw2[k]) by {
                        if k < starts@.len() - 1 {
                            assert(hw[k] == hw2[k]);
                        }
                    }
                    assert forall|p: int|
                        0 <= p < cur + u16_len(nm@) && !in_unit_hit(starts@, hw2, p) implies #[trigger] name_at(*lex, text@, p)
                            is None by {
                        if p < cur {
                            if in_unit_hit(s0, hw, p) {
                                let k = choose|k: int| 0 <= k < s0.len() && #[trigger] s0[k] <= p < s0[k] + u16_len(hw[k]);
                                assert(starts@[k] == s0[k] && hw2[k] == hw[k]);
                                assert(in_unit_hit(starts@, hw2, p));
                            }
                        } else {
                            let k = starts@.len() - 1;
                            assert(starts@[k] == cur && hw2[k] == nm@);
                            assert(starts@[k] <= p < starts@[k] + u16_len(hw2[k]));
                        }
                    }
                    if all_bmp(text@) {
                        lemma_bmp_units(text@);
                        assert(char_hits(text@, starts@.drop_last(), hw));
                        assert forall|j: int, k: int| 0 <= j < k < starts@.len() implies #[trigger] starts@[j] + hw2[j].len()
                            <= #[trigger] starts@[k] by {
                            if k == starts@.len() - 1 {
                                assert(starts@[j] + u16_len(hw[j]) <= cur);
                                lemma_bmp_units(hw[j]);
                            } else {
                                assert(hw[j] == hw2[j]);
                            }
                        }
                        assert forall|k: int| 0 <= k < starts@.len() implies starts@[k] + hw2[k].len() <= text@.len()
                            && #[trigger] hw2[k] == text@.subrange(starts@[k] as int, starts@[k] + hw2[k].len()) by {
                            if k < starts@.len() - 1 {
                                assert(hw[k] == hw2[k]);
                            }
                        }
                        assert forall|k: int| 0 <= k < hw2.len() implies all_bmp(#[trigger] hw2[k]) by {
                            if k < hw2.len() - 1 {
                                assert(hw[k] == hw2[k]);
                            } else {
                                lemma_bmp_sub(text@, cur as int, cur + nm@.len());
                            }
                        }
                    }
                }
                cur = cur + step;
            },
            None => {
                cur += 1;
            },
        }
    }
    (starts, words)
}

/// Words for mixed hits; on BMP text they give back the text.
pub fn interleave_mixed_hits(text: &str, starts: &Vec<usize>, words: &Vec<String>, tags: &Vec<u32>) -> (r: Vec<Word>)
    requires
        mixed_hits(text@, starts@, hit_texts(words@)),
        tags@.len() == starts@.len(),
    ensures
        words_are(r@, interleave_spec(text@, starts@, hit_texts(words@), tags@)),
        all_bmp(text@) && starts@.len() > 0 ==> text_of(r@) == text@,
{
    proof {
        assert forall|k: int| 0 <= k < starts@.len() implies #[trigger] starts@[k] + u16_len(words@[k]@) <= u16_len(text@) by {
            assert(hit_texts(words@)[k] == words@[k]@);
        }
    }
    let r = interleave_hits(text, starts, words, tags);
    proof {
        if all_bmp(text@) && starts@.len() > 0 {
            lemma_interleave_text(text@, starts@, hit_texts(words@), tags@);
            lemma_words_are_text(r@, interleave_spec(text@, starts@, hit_texts(words@), tags@));
        }
    }
    r
}

/// Splits Chinese personal names out of unrecognized words and tags them `A_NR`.
pub struct ChsNameTokenizer;

/// The name tokenizer's pieces: the names `match_name` finds, tagged `A_NR`.
pub open spec fn name_split(lex: Lexicon, text: Seq<char>, r: Option<Seq<WordView>>) -> bool {
    exists|starts: Seq<usize>, hits: Seq<Seq<char>>|
        #![trigger hit_split(text, starts, hits, same_tags(starts.len(), POSTAG::A_NR), r)]
        mixed_hits(text, starts, hits) && (forall|k: int|
            0 <= k < starts.len() ==> name_at(lex, text, #[trigger] starts[k] as int) == Some(hits[k])) && (forall|p: int|
            0 <= p < u16_len(text) && !in_unit_hit(starts, hits, p) ==> #[trigger] name_at(lex, text, p) is None)
            && hit_split(text, starts, hits, same_tags(starts.len(), POSTAG::A_NR), r)
}

impl TextSplitter for ChsNameTokenizer {
    open spec fn keeps_text(&self, text: Seq<char>, seg: Segment) -> bool {
        all_bmp(text) || seg.lexicon.names_no_fffd()
    }

    open spec fn splits_to(&self, text: Seq<char>, seg: Segment, r: Option<Seq<WordView>>) -> bool {
        name_split(seg.lexicon, text, r)
    }

    fn split_text(&self, text: &str, seg: &Segment) -> (r: Option<Vec<Word>>) {
        let (starts, words) = match_name(text, &seg.lexicon);
        if starts.len() == 0 {
            proof {
                assert(hit_split(text@, starts@, hit_texts(words@), same_tags(starts@.len(), POSTAG::A_NR), None));
            }
            return None;
        }
        let tags = repeat_tag(POSTAG::A_NR, starts.len());
        let r = interleave_mixed_hits(text, &starts, &words, &tags);
        proof {
            let hw = hit_texts(words@);
            assert forall|k: int| 0 <= k < starts@.len() implies unit_piece(text@, #[trigger] starts@[k] as int, u16_len(hw[k]) as int)
                == Some(hw[k]) && hw[k].len() > 0 by {
                lemma_name_piece(seg.lexicon, text@, starts@[k] as int);
            }
            assert(unit_hits(text@, starts@, hw));
            assert forall|k: int| 0 <= k < hw.len() implies (#[trigger] hw[k]).len() > 0 by {
                lemma_name_piece(seg.lexicon, text@, starts@[k] as int);
            }
            lemma_unit_interleave_text_or_fffd(text@, starts@, hw, tags@);
            lemma_words_are_text(r@, interleave_spec(text@, starts@, hw, tags@));
            if seg.lexicon.names_no_fffd() {
                assert forall|k: int| 0 <= k < starts@.len() implies unit_piece(text@, #[trigger] starts@[k] as int, u16_len(hw[k]) as int)
                    == Some(hw[k]) && hw[k].len() > 0 && !hw[k].contains('\u{FFFD}') by {
                    lemma_name_piece(seg.lexicon, text@, starts@[k] as int);
                }
                assert(unit_hits(text@, starts@, hw));
                assert(clean_hits(hw)) by {
                    assert forall|k: int| 0 <= k < hw.len() implies (#[trigger] hw[k]).len() > 0 && !hw[k].contains('\u{FFFD}') by {
                        lemma_name_piece(seg.lexicon, text@, starts@[k] as int);
                    }
                }
                lemma_unit_interleave_text(text@, starts@, hw, tags@);
                lemma_words_are_text(r@, interleave_spec(text@, starts@, hw, tags@));
            }
            assert(tags@ =~= same_tags(starts@.len(), POSTAG::A_NR));
            lemma_words_are_views(r@, interleave_spec(text@, starts@, hit_texts(words@), tags@));
            assert(hit_split(text@, starts@, hit_texts(words@), same_tags(starts@.len(), POSTAG::A_NR), Some(views(r@))));
        }
        Some(r)
    }
}

impl ChsNameTokenizer {
    pub fn name(&self) -> (r: &'static str)
        ensures
            r@ == CHS_NAME_TOKENIZER@,
    {
        CHS_NAME_TOKENIZER
    }

    /// Split names out of the unrecognized words; the words still spell the text when it is
    /// BMP or when no name list holds a word with U+FFFD.
    pub fn split(&self, words: Vec<Word>, seg: &Segment) -> (r: Vec<Word>)
        requires
            seg.wf(),
        ensures
            all_bmp(text_of(words@)) || seg.lexicon.names_no_fffd() ==> text_of(r@) == text_of(words@),
            split_by(*self, *seg, words@, false, r@),
            text_of(r@) == text_of(words@) || text_of(r@).contains('\u{FFFD}'),
    {
        proof {
            if all_bmp(text_of(words@)) {
                lemma_keeps_all_bmp(*self, *seg, words@);
            }
        }
        split_words(self, &words, seg, false)
    }
}

/// Plain words for the non-empty pieces, in order.
/// Untagged words for the non-empty pieces, in order.
pub open spec fn plain_pieces(ps: Seq<Seq<char>>) -> Seq<WordView>
    decreases ps.len(),
{
    if ps.len() == 0 {
        Seq::empty()
    } else {
        plain_pieces(ps.drop_last()) + (if ps.last().len() == 0 {
            Seq::empty()
        } else {
            seq![plain_view((ps.last(), None))]
        })
    }
}

fn nonempty_words(parts: &Vec<String>) -> (r: Vec<Word>)
    ensures
        text_of(r@) == concat_pieces(parts@.map_values(|s: String| s@)),
        forall|i: int| 0 <= i < r@.len() ==> (#[trigger] r@[i]).w@.len() > 0 && r@[i].p is None,
        views(r@) == plain_pieces(parts@.map_values(|s: String| s@)),
{
    let ghost pv = parts@.map_values(|s: String| s@);
    let mut ret: Vec<Word> = Vec::new();
    let mut i: usize = 0;
    while i < parts.len()
        invariant
            i <= parts@.len(),
            pv == parts@.map_values(|s: String| s@),
            text_of(ret@) == concat_pieces(pv.subrange(0, i as int)),
            forall|j: int| 0 <= j < ret@.len() ==> (#[trigger] ret@[j]).w@.len() > 0 && ret@[j].p is None,
            views(ret@) == plain_pieces(pv.subrange(0, i as int)),
        decreases parts@.len() - i,
    {
        let part = parts[i].as_str();
        let ghost vo = views(ret@);
        proof {
            assert(pv.subrange(0, i + 1).drop_last() =~= pv.subrange(0, i as int));
            assert(pv.subrange(0, i + 1).last() == pv[i as int]);
        }
        proof {
            assert(pv.subrange(0, i + 1) =~= pv.subrange(0, i as int).push(pv[i as int]));
            crate::re::lemma_concat_push(pv.subrange(0, i as int), pv[i as int]);
            assert(pv[i as int] == part@);
        }
        if part.is_empty() {
            proof {
                assert(concat_pieces(pv.subrange(0, i as int)) + part@ =~= concat_pieces(pv.subrange(0, i as int)));
                assert(vo =~= vo + Seq::<WordView>::empty());
            }
        } else {
            let x = Word::new(part);
            proof {
                lemma_text_of_push(ret@, x);
            }
            ret.push(x);
            proof {
                assert(views(ret@) =~= vo + seq![plain_view((part@, None))]);
            }
        }
        i += 1;
    }
    proof {
        assert(pv.subrange(0, pv.len() as int) =~= pv);
    }
    ret
}

pub open spec fn hira(c: char) -> bool {
    '\u{3041}' <= c && c <= '\u{3093}'
}

pub open spec fn kata(c: char) -> bool {
    ('\u{30A1}' <= c && c <= '\u{30F4}') || c == 'ー' || ('\u{FF71}' <= c && c <= '\u{FF9D}') || c
        == 'ﾞ' || c == 'ｰ'
}

pub fn is_hira(c: char) -> (r: bool)
    ensures
        r == hira(c),
{
    '\u{3041}' <= c && c <= '\u{3093}'
}

pub fn is_kata(c: char) -> (r: bool)
    ensures
        r == kata(c),
{
    ('\u{30A1}' <= c && c <= '\u{30F4}') || c == 'ー' || ('\u{FF71}' <= c && c <= '\u{FF9D}') || c
        == 'ﾞ' || c == 'ｰ'
}

/// Counts of hiragana and katakana chars.
fn kana_counts(cs: &Vec<char>) -> (r: (usize, usize))
    ensures
        (r.0 > 0) == (exists|i: int| 0 <= i < cs@.len() && hira(#[trigger] cs@[i])),
        (r.1 > 0) == (exists|i: int| 0 <= i < cs@.len() && kata(#[trigger] cs@[i])),
        (r.0 == cs@.len()) == (forall|i: int| 0 <= i < cs@.len() ==> hira(#[trigger] cs@[i])),
        (r.1 == cs@.len()) == (forall|i: int| 0 <= i < cs@.len() ==> kata(#[trigger] cs@[i])),
{
    let mut h: usize = 0;
    let mut k: usize = 0;
    let mut i: usize = 0;
    let ghost mut hs: Seq<int> = Seq::empty();
    let ghost mut ks: Seq<int> = Seq::empty();
    while i < cs.len()
        invariant
            i <= cs@.len(),
            h <= i,
            k <= i,
            (h > 0) == (exists|j: int| 0 <= j < i && hira(#[trigger] cs@[j])),
            (k > 0) == (exists|j: int| 0 <= j < i && kata(#[trigger] cs@[j])),
            (h == i) == (forall|j: int| 0 <= j < i ==> hira(#[trigger] cs@[j])),
            (k == i) == (forall|j: int| 0 <= j < i ==> kata(#[trigger] cs@[j])),
        decreases cs@.len() - i,
    {
        let c = cs[i];
        let ghost old_h = h;
        let ghost old_k = k;
        if is_hira(c) {
            h += 1;
        }
        if is_kata(c) {
            k += 1;
        }
        proof {
            if !hira(c) && old_h == i {
                assert(!(forall|j: int| 0 <= j < i + 1 ==> hira(#[trigger] cs@[j])));
            }
            if !kata(c) && old_k == i {
                assert(!(forall|j: int| 0 <= j < i + 1 ==> kata(#[trigger] cs@[j])));
            }
            if old_h < i {
                assert(!(forall|j: int| 0 <= j < i ==> hira(#[trigger] cs@[j])));
                assert(!(forall|j: int| 0 <= j < i + 1 ==> hira(#[trigger] cs@[j])));
            }
            if old_k < i {
                assert(!(forall|j: int| 0 <= j < i ==> kata(#[trigger] cs@[j])));
                assert(!(forall|j: int| 0 <= j < i + 1 ==> kata(#[trigger] cs@[j])));
            }
        }
        i += 1;
    }
    (h, k)
}

/// Japanese kana runs. A word of one kana script only stays whole; one that mixes
/// hiragana and katakana is cut at the script changes (when the pattern for that is
/// available to the regex engine; otherwise it stays as it is); other words are left.
pub fn split_jp(text: &str) -> (r: Option<Vec<Word>>)
    ensures
        ({
            let t = text@;
            let b1 = exists|i: int| 0 <= i < t.len() && hira(#[trigger] t[i]);
            let b2 = exists|i: int| 0 <= i < t.len() && kata(#[trigger] t[i]);
            let all_h = forall|i: int| 0 <= i < t.len() ==> hira(#[trigger] t[i]);
            let all_k = forall|i: int| 0 <= i < t.len() ==> kata(#[trigger] t[i]);
            &&& (!b1 || !b2) ==> ((r is Some) == ((b1 && all_h) || (b2 && all_k)))
            &&& (!b1 || !b2) && r is Some ==> r->0@.len() == 1 && r->0@[0].w@ == t && r->0@[0].p is None
            &&& (b1 && b2 && r is Some) ==> text_of(r->0@) == t
            &&& b1 && b2 ==> (r is Some ==> spec_regex_valid(RE_JP@)) && (r matches Some(ws) ==> views(ws@) == plain_pieces(
                split_keep_spec(t, spec_regex_matches(RE_JP@, t)),
            ))
        }),
{
    let cs = chars_of(text);
    let (h, k) = kana_counts(&cs);
    let b1 = h > 0;
    let b2 = k > 0;
    if !b1 || !b2 {
        if (b1 && h == cs.len()) || (b2 && k == cs.len()) {
            return Some(vec![Word::new(text)]);
        }
        return None;
    }
    if !regex_valid(RE_JP) {
        return None;
    }
    let parts = split_keep_re(text, RE_JP);
    let ret = nonempty_words(&parts);
    if ret.len() == 0 {
        None
    } else {
        Some(ret)
    }
}

/// Splits Japanese kana runs out of words without a POS.
pub struct JpSimpleTokenizer;

/// The kana tokenizer's pieces: a text with only one kind of kana is kept whole when it
/// is all of that kind and left alone otherwise.
pub open spec fn jp_split(t: Seq<char>, r: Option<Seq<WordView>>) -> bool {
    let b1 = exists|i: int| 0 <= i < t.len() && hira(#[trigger] t[i]);
    let b2 = exists|i: int| 0 <= i < t.len() && kata(#[trigger] t[i]);
    let all_h = forall|i: int| 0 <= i < t.len() ==> hira(#[trigger] t[i]);
    let all_k = forall|i: int| 0 <= i < t.len() ==> kata(#[trigger] t[i]);
    &&& (!b1 || !b2) ==> ((r is Some) == ((b1 && all_h) || (b2 && all_k)))
    &&& (!b1 || !b2) && r is Some ==> r->0.len() == 1 && r->0[0].w == t && r->0[0].p is None
    &&& b1 && b2 ==> (r is Some ==> spec_regex_valid(RE_JP@)) && (r matches Some(ps) ==> ps == plain_pieces(
        split_keep_spec(t, spec_regex_matches(RE_JP@, t)),
    ))
}

impl TextSplitter for JpSimpleTokenizer {
    open spec fn keeps_text(&self, text: Seq<char>, seg: Segment) -> bool {
        true
    }

    open spec fn splits_to(&self, text: Seq<char>, seg: Segment, r: Option<Seq<WordView>>) -> bool {
        jp_split(text, r)
    }

    fn split_text(&self, text: &str, seg: &Segment) -> (r: Option<Vec<Word>>) {
        let r = split_jp(text);
        proof {
            if r is Some {
                let t = text@;
                if !((exists|i: int| 0 <= i < t.len() && hira(#[trigger] t[i])) && (exists|i: int| 0 <= i < t.len() && kata(#[trigger] t[i]))) {
                    lemma_text_of_single(r->0@[0]);
                    assert(r->0@ =~= seq![r->0@[0]]);
                }
            }
        }
        r
    }
}

impl JpSimpleTokenizer {
    pub fn name(&self) -> (r: &'static str)
        ensures
            r@ == JP_SIMPLE_TOKENIZER@,
    {
        JP_SIMPLE_TOKENIZER
    }

    /// Split kana runs out of the words without a POS; the words still spell the text.
    pub fn split(&self, words: Vec<Word>, seg: &Segment) -> (r: Vec<Word>)
        requires
            seg.wf(),
        ensures
            text_of(r@) == text_of(words@),
            split_by(*self, *seg, words@, true, r@),
            text_of(r@) == text_of(words@) || text_of(r@).contains('\u{FFFD}'),
    {
        split_words(self, &words, seg, true)
    }
}

pub open spec fn zhuyin(c: char) -> bool {
    ('\u{31A0}' <= c && c <= '\u{31BA}') || ('\u{3105}' <= c && c <= '\u{312E}')
}

pub fn is_zhuyin(c: char) -> (r: bool)
    ensures
        r == zhuyin(c),
{
    ('\u{31A0}' <= c && c <= '\u{31BA}') || ('\u{3105}' <= c && c <= '\u{312E}')
}

/// Zhuyin (bopomofo) runs: a word with any zhuyin char is cut at the zhuyin runs.
pub fn split_zhuyin(text: &str) -> (r: Option<Vec<Word>>)
    ensures
        !(exists|i: int| 0 <= i < text@.len() && zhuyin(#[trigger] text@[i])) ==> r is None,
        r matches Some(ws) ==> text_of(ws@) == text@ && ws@.len() > 0,
        spec_regex_valid(RE_ZHUYIN@) && (exists|i: int| 0 <= i < text@.len() && zhuyin(#[trigger] text@[i])) ==> r is Some,
        r matches Some(ws) ==> views(ws@) == plain_pieces(split_keep_spec(text@, spec_regex_matches(RE_ZHUYIN@, text@))),
{
    let cs = chars_of(text);
    let mut found = false;
    let mut i: usize = 0;
    while i < cs.len()
        invariant
            i <= cs@.len(),
            cs@ == text@,
            found == (exists|j: int| 0 <= j < i && zhuyin(#[trigger] cs@[j])),
        decreases cs@.len() - i,
    {
        if is_zhuyin(cs[i]) {
            found = true;
        }
        i += 1;
    }
    if !found {
        return None;
    }
    if !regex_valid(RE_ZHUYIN) {
        return None;
    }
    let parts = split_keep_re(text, RE_ZHUYIN);
    let ret = nonempty_words(&parts);
    proof {
        let c = choose|j: int| 0 <= j < text@.len() && zhuyin(#[trigger] text@[j]);
        if ret@.len() == 0 {
            assert(text@.len() > 0);
            assert(text_of(ret@) == Seq::<char>::empty());
        }
    }
    if ret.len() == 0 {
        None
    } else {
        Some(ret)
    }
}

/// Splits zhuyin runs out of words without a POS.
pub struct ZhuyinTokenizer;

/// The zhuyin tokenizer's pieces: none without zhuyin; with it (when the pattern
/// compiles) the text cut at the zhuyin runs, untagged.
pub open spec fn zhuyin_split(text: Seq<char>, r: Option<Seq<WordView>>) -> bool {
    &&& !(exists|i: int| 0 <= i < text.len() && zhuyin(#[trigger] text[i])) ==> r is None
    &&& spec_regex_valid(RE_ZHUYIN@) && (exists|i: int| 0 <= i < text.len() && zhuyin(#[trigger] text[i])) ==> r is Some
    &&& r matches Some(ps) ==> ps.len() > 0 && ps == plain_pieces(split_keep_spec(text, spec_regex_matches(RE_ZHUYIN@, text)))
}

impl TextSplitter for ZhuyinTokenizer {
    open spec fn keeps_text(&self, text: Seq<char>, seg: Segment) -> bool {
        true
    }

    open spec fn splits_to(&self, text: Seq<char>, seg: Segment, r: Option<Seq<WordView>>) -> bool {
        zhuyin_split(text, r)
    }

    fn split_text(&self, text: &str, seg: &Segment) -> (r: Option<Vec<Word>>) {
        split_zhuyin(text)
    }
}

impl ZhuyinTokenizer {
    pub fn name(&self) -> (r: &'static str)
        ensures
            r@ == ZHUYIN_TOKENIZER@,
    {
        ZHUYIN_TOKENIZER
    }

    /// Split zhuyin runs out of the words without a POS; the words still spell the text.
    pub fn split(&self, words: Vec<Word>, seg: &Segment) -> (r: Vec<Word>)
        requires
            seg.wf(),
        ensures
            text_of(r@) == text_of(words@),
            split_by(*self, *seg, words@, true, r@),
            text_of(r@) == text_of(words@) || text_of(r@).contains('\u{FFFD}'),
    {
        split_words(self, &words, seg, true)
    }
}

} // verus!
