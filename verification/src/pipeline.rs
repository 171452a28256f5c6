//! Shared pieces of the tokenizers: module names, text materialization, hit interleaving.
use vstd::prelude::*;
use crate::strs::{chars_of, slice_of, str_eq, string_from_chars};
use crate::text::{
    all_bmp, char_len, char_slice, char_substr_from, decode_utf16_lossy, encode_utf16, u16_len,
    unit_slice, unit_tail, lemma_bmp_units, lemma_bmp_slice, lemma_encode_bmp, slice_chars,
    slice_utf16, utf16_units, is_bmp,
};
use crate::word::{text_of, lemma_text_of_push, Word};

verus! {

pub const URL_TOKENIZER: &'static str = "URLTokenizer";
pub const WILDCARD_TOKENIZER: &'static str = "WildcardTokenizer";
pub const PUNCTUATION_TOKENIZER: &'static str = "PunctuationTokenizer";
pub const FOREIGN_TOKENIZER: &'static str = "ForeignTokenizer";
pub const DICT_TOKENIZER: &'static str = "DictTokenizer";
pub const CHS_NAME_TOKENIZER: &'static str = "ChsNameTokenizer";
pub const JP_SIMPLE_TOKENIZER: &'static str = "JpSimpleTokenizer";
pub const ZHUYIN_TOKENIZER: &'static str = "ZhuyinTokenizer";
pub const EMAIL_OPTIMIZER: &'static str = "EmailOptimizer";
pub const CHS_NAME_OPTIMIZER: &'static str = "ChsNameOptimizer";
pub const DICT_OPTIMIZER: &'static str = "DictOptimizer";
pub const DATETIME_OPTIMIZER: &'static str = "DatetimeOptimizer";
pub const FOREIGN_OPTIMIZER: &'static str = "ForeignOptimizer";
pub const ZHT_SYNONYM_OPTIMIZER: &'static str = "ZhtSynonymOptimizer";
pub const ADJECTIVE_OPTIMIZER: &'static str = "AdjectiveOptimizer";

/// The default tokenizers, in order (the same with or without `all_mod`).
pub fn default_tokenizer_names(all_mod: bool) -> (r: Vec<&'static str>)
    ensures
        r@.len() == 8,
        r@[0]@ == URL_TOKENIZER@,
        r@[1]@ == WILDCARD_TOKENIZER@,
        r@[2]@ == PUNCTUATION_TOKENIZER@,
        r@[3]@ == FOREIGN_TOKENIZER@,
        r@[4]@ == DICT_TOKENIZER@,
        r@[5]@ == CHS_NAME_TOKENIZER@,
        r@[6]@ == JP_SIMPLE_TOKENIZER@,
        r@[7]@ == ZHUYIN_TOKENIZER@,
{
    let _ = all_mod;
    vec![
        URL_TOKENIZER,
        WILDCARD_TOKENIZER,
        PUNCTUATION_TOKENIZER,
        FOREIGN_TOKENIZER,
        DICT_TOKENIZER,
        CHS_NAME_TOKENIZER,
        JP_SIMPLE_TOKENIZER,
        ZHUYIN_TOKENIZER,
    ]
}

/// The default optimizers, in order; `all_mod` adds `ZhtSynonymOptimizer` before the last.
pub fn default_optimizer_names(all_mod: bool) -> (r: Vec<&'static str>)
    ensures
        r@.len() == (if all_mod {
            7int
        } else {
            6int
        }),
        r@[0]@ == EMAIL_OPTIMIZER@,
        r@[1]@ == CHS_NAME_OPTIMIZER@,
        r@[2]@ == DICT_OPTIMIZER@,
        r@[3]@ == DATETIME_OPTIMIZER@,
        r@[4]@ == FOREIGN_OPTIMIZER@,
        all_mod ==> r@[5]@ == ZHT_SYNONYM_OPTIMIZER@ && r@[6]@ == ADJECTIVE_OPTIMIZER@,
        !all_mod ==> r@[5]@ == ADJECTIVE_OPTIMIZER@,
{
    let mut v = vec![
        EMAIL_OPTIMIZER,
        CHS_NAME_OPTIMIZER,
        DICT_OPTIMIZER,
        DATETIME_OPTIMIZER,
        FOREIGN_OPTIMIZER,
        ADJECTIVE_OPTIMIZER,
    ];
    if all_mod {
        let at = v.len() - 1;
        v.insert(at, ZHT_SYNONYM_OPTIMIZER);
    }
    v
}

/// `name` is not among the disabled module names.
pub fn enabled(name: &str, disabled: &[String]) -> (r: bool)
    ensures
        r == forall|i: int| 0 <= i < disabled@.len() ==> #[trigger] disabled@[i]@ != name@,
{
    let mut i: usize = 0;
    while i < disabled.len()
        invariant
            i <= disabled@.len(),
            forall|j: int| 0 <= j < i ==> #[trigger] disabled@[j]@ != name@,
        decreases disabled@.len() - i,
    {
        if str_eq(disabled[i].as_str(), name) {
            return false;
        }
        i += 1;
    }
    true
}

/// A text with its chars and UTF-16 units at hand.
pub struct Materialized {
    pub chars: Vec<char>,
    pub units: Vec<u16>,
    pub bmp: bool,
}

/// The piece of `len` UTF-16 units at `cur`, when it lies inside the text.
pub open spec fn unit_piece(t: Seq<char>, cur: int, len: int) -> Option<Seq<char>> {
    if 0 <= cur && 0 <= len && cur + len <= u16_len(t) {
        Some(decode_utf16_lossy(encode_utf16(t).subrange(cur, cur + len)))
    } else {
        None
    }
}

pub open spec fn opt_string_view(o: Option<String>) -> Option<Seq<char>> {
    match o {
        Some(s) => Some(s@),
        None => None,
    }
}

impl Materialized {
    pub open spec fn text(&self) -> Seq<char> {
        self.chars@
    }

    pub open spec fn wf(&self) -> bool {
        &&& self.units@ == encode_utf16(self.chars@)
        &&& self.bmp == all_bmp(self.chars@)
    }

    pub fn of(s: &str) -> (r: Materialized)
        ensures
            r.wf(),
            r.text() == s@,
    {
        let bmp = is_bmp(s);
        Materialized { chars: chars_of(s), units: utf16_units(s), bmp }
    }

    /// Length of the text in UTF-16 units.
    pub fn len(&self) -> (r: usize)
        requires
            self.wf(),
        ensures
            r == u16_len(self.text()),
    {
        self.units.len()
    }

    /// `slice_chars` on BMP text, `slice_utf16` otherwise.
    pub fn piece(&self, cur: usize, len: usize) -> (r: Option<String>)
        requires
            self.wf(),
        ensures
            opt_string_view(r) == unit_piece(self.text(), cur as int, len as int),
    {
        if self.bmp {
            proof {
                lemma_encode_bmp(self.chars@);
            }
            let r = slice_chars(self.chars.as_slice(), cur, len);
            proof {
                if cur + len <= self.chars@.len() {
                    lemma_bmp_slice(self.chars@, cur as int, cur + len);
                }
            }
            r
        } else {
            slice_utf16(self.units.as_slice(), cur, len)
        }
    }
}

/// View of hit lists: start positions with their texts.
pub open spec fn hit_texts(words: Seq<String>) -> Seq<Seq<char>> {
    words.map_values(|s: String| s@)
}

/// Where the text after hit `k - 1` starts.
pub open spec fn hit_end(starts: Seq<usize>, words: Seq<Seq<char>>, k: int) -> int {
    if k <= 0 {
        0
    } else {
        starts[k - 1] + u16_len(words[k - 1])
    }
}

/// Pieces (text, tag) for the first `k` hits: a gap before a hit when there is one, then
/// the hit.
pub open spec fn interleave_body(
    text: Seq<char>,
    starts: Seq<usize>,
    words: Seq<Seq<char>>,
    tags: Seq<u32>,
    k: int,
) -> Seq<(Seq<char>, Option<u32>)>
    decreases k,
{
    if k <= 0 {
        Seq::empty()
    } else {
        let prev = interleave_body(text, starts, words, tags, k - 1);
        let last = hit_end(starts, words, k - 1);
        let c = starts[k - 1] as int;
        let with_gap = if c > last {
            prev.push((unit_slice(text, last, c - last), None::<u32>))
        } else {
            prev
        };
        with_gap.push((words[k - 1], Some(tags[k - 1])))
    }
}

/// All pieces: the hits with their gaps, then the rest of the text after the last hit.
pub open spec fn interleave_spec(
    text: Seq<char>,
    starts: Seq<usize>,
    words: Seq<Seq<char>>,
    tags: Seq<u32>,
) -> Seq<(Seq<char>, Option<u32>)> {
    let k = starts.len() as int;
    let body = interleave_body(text, starts, words, tags, k);
    let end = hit_end(starts, words, k);
    if k > 0 && end < u16_len(text) {
        body.push((unit_tail(text, end), None::<u32>))
    } else {
        body
    }
}

/// Only text and (optionally) POS set.
pub open spec fn plain_word(w: Word) -> bool {
    &&& w.f is None
    &&& w.c is None
    &&& w.s is None
    &&& w.ow is None
    &&& w.op is None
    &&& w.m is None
    &&& !w.auto_create
    &&& w.os is None
}

/// The words carry exactly the given (text, tag) pieces.
pub open spec fn words_are(ws: Seq<Word>, ps: Seq<(Seq<char>, Option<u32>)>) -> bool {
    &&& ws.len() == ps.len()
    &&& forall|i: int|
        0 <= i < ws.len() ==> (#[trigger] ws[i]).w@ == ps[i].0 && ws[i].p == ps[i].1 && plain_word(
            ws[i],
        )
}

/// Hits lie inside the text, in order, and each hit is the text at its position
/// (positions in chars, as on BMP text they are also UTF-16 units).
pub open spec fn hits_consistent(text: Seq<char>, starts: Seq<usize>, words: Seq<Seq<char>>) -> bool {
    &&& starts.len() == words.len()
    &&& forall|k: int|
        0 <= k < starts.len() ==> starts[k] + words[k].len() <= text.len() && #[trigger] words[k]
            == text.subrange(starts[k] as int, starts[k] + words[k].len())
    &&& forall|j: int, k: int|
        0 <= j < k < starts.len() ==> #[trigger] starts[j] + words[j].len() <= #[trigger] starts[k]
}

/// Text of pieces laid end to end.
pub open spec fn pieces_text(ps: Seq<(Seq<char>, Option<u32>)>) -> Seq<char>
    decreases ps.len(),
{
    if ps.len() == 0 {
        Seq::empty()
    } else {
        pieces_text(ps.drop_last()) + ps.last().0
    }
}

pub proof fn lemma_pieces_text_push(ps: Seq<(Seq<char>, Option<u32>)>, x: (Seq<char>, Option<u32>))
    ensures
        pieces_text(ps.push(x)) == pieces_text(ps) + x.0,
{
    assert(ps.push(x).drop_last() =~= ps);
}

/// Words carrying pieces have the pieces' text.
pub proof fn lemma_words_are_text(ws: Seq<Word>, ps: Seq<(Seq<char>, Option<u32>)>)
    requires
        words_are(ws, ps),
    ensures
        text_of(ws) == pieces_text(ps),
    decreases ws.len(),
{
    if ws.len() > 0 {
        let wt = ws.drop_last();
        let pt = ps.drop_last();
        assert(words_are(wt, pt)) by {
            assert forall|i: int| 0 <= i < wt.len() implies (#[trigger] wt[i]).w@ == pt[i].0
                && wt[i].p == pt[i].1 && plain_word(wt[i]) by {
                assert(wt[i] == ws[i]);
            }
        }
        lemma_words_are_text(wt, pt);
        assert(ws[ws.len() - 1].w@ == ps[ps.len() - 1].0);
    }
}

proof fn lemma_interleave_body_text(
    text: Seq<char>,
    starts: Seq<usize>,
    words: Seq<Seq<char>>,
    tags: Seq<u32>,
    k: int,
)
    requires
        all_bmp(text),
        hits_consistent(text, starts, words),
        0 <= k <= starts.len(),
    ensures
        pieces_text(interleave_body(text, starts, words, tags, k)) == text.subrange(
            0,
            hit_end(starts, words, k),
        ),
        0 <= hit_end(starts, words, k) <= text.len(),
    decreases k,
{
    lemma_bmp_units(text);
    if k > 0 {
        lemma_interleave_body_text(text, starts, words, tags, k - 1);
        let prev = interleave_body(text, starts, words, tags, k - 1);
        let last = hit_end(starts, words, k - 1);
        let c = starts[k - 1] as int;
        let w = words[k - 1];
        assert(w == text.subrange(c, c + w.len()));
        assert(all_bmp(w)) by {
            assert forall|i: int| 0 <= i < w.len() implies crate::text::is_bmp_char(#[trigger] w[i]) by {
                assert(w[i] == text[c + i]);
            }
        }
        lemma_bmp_units(w);
        if k >= 2 {
            assert(starts[k - 2] + words[k - 2].len() <= starts[k - 1]);
            assert(all_bmp(words[k - 2])) by {
                let w2 = words[k - 2];
                let c2 = starts[k - 2] as int;
                assert(w2 == text.subrange(c2, c2 + w2.len()));
                assert forall|i: int| 0 <= i < w2.len() implies crate::text::is_bmp_char(#[trigger] w2[i]) by {
                    assert(w2[i] == text[c2 + i]);
                }
            }
            lemma_bmp_units(words[k - 2]);
        }
        if c > last {
            let g = unit_slice(text, last, c - last);
            assert(g == text.subrange(last, c));
            lemma_pieces_text_push(prev, (g, None::<u32>));
            lemma_pieces_text_push(prev.push((g, None::<u32>)), (w, Some(tags[k - 1])));
            assert(text.subrange(0, last) + text.subrange(last, c) + w =~= text.subrange(0, c + w.len()));
        } else {
            lemma_pieces_text_push(prev, (w, Some(tags[k - 1])));
            assert(text.subrange(0, last) + w =~= text.subrange(0, c + w.len()));
        }
    }
}

/// On BMP text with consistent hits, the interleaved pieces give back the text.
pub proof fn lemma_interleave_text(
    text: Seq<char>,
    starts: Seq<usize>,
    words: Seq<Seq<char>>,
    tags: Seq<u32>,
)
    requires
        all_bmp(text),
        hits_consistent(text, starts, words),
        starts.len() > 0,
    ensures
        pieces_text(interleave_spec(text, starts, words, tags)) == text,
{
    let k = starts.len() as int;
    lemma_interleave_body_text(text, starts, words, tags, k);
    lemma_bmp_units(text);
    let body = interleave_body(text, starts, words, tags, k);
    let end = hit_end(starts, words, k);
    if end < u16_len(text) {
        lemma_pieces_text_push(body, (unit_tail(text, end), None::<u32>));
        assert(text.subrange(0, end) + text.subrange(end, text.len() as int) =~= text);
    } else {
        assert(text.subrange(0, end) =~= text);
    }
}

/// Where the text after hit `k - 1` starts, hits placed by char positions.
pub open spec fn char_hit_end(starts: Seq<usize>, words: Seq<Seq<char>>, k: int) -> int {
    if k <= 0 {
        0
    } else {
        starts[k - 1] + words[k - 1].len()
    }
}

/// Pieces (text, tag) for the first `k` hits placed by char positions: a gap before a
/// hit when there is one, then the hit.
pub open spec fn char_interleave_body(
    text: Seq<char>,
    starts: Seq<usize>,
    words: Seq<Seq<char>>,
    tags: Seq<u32>,
    k: int,
) -> Seq<(Seq<char>, Option<u32>)>
    decreases k,
{
    if k <= 0 {
        Seq::empty()
    } else {
        let prev = char_interleave_body(text, starts, words, tags, k - 1);
        let last = char_hit_end(starts, words, k - 1);
        let c = starts[k - 1] as int;
        let with_gap = if c > last {
            prev.push((text.subrange(last, c), None::<u32>))
        } else {
            prev
        };
        with_gap.push((words[k - 1], Some(tags[k - 1])))
    }
}

/// All pieces for hits placed by char positions: the hits with their gaps, then the rest
/// of the text after the last hit.
pub open spec fn char_interleave_spec(
    text: Seq<char>,
    starts: Seq<usize>,
    words: Seq<Seq<char>>,
    tags: Seq<u32>,
) -> Seq<(Seq<char>, Option<u32>)> {
    let k = starts.len() as int;
    let body = char_interleave_body(text, starts, words, tags, k);
    let end = char_hit_end(starts, words, k);
    if k > 0 && end < text.len() {
        body.push((text.subrange(end, text.len() as int), None::<u32>))
    } else {
        body
    }
}

proof fn lemma_char_interleave_body_text(
    text: Seq<char>,
    starts: Seq<usize>,
    words: Seq<Seq<char>>,
    tags: Seq<u32>,
    k: int,
)
    requires
        hits_consistent(text, starts, words),
        0 <= k <= starts.len(),
    ensures
        pieces_text(char_interleave_body(text, starts, words, tags, k)) == text.subrange(
            0,
            char_hit_end(starts, words, k),
        ),
        0 <= char_hit_end(starts, words, k) <= text.len(),
    decreases k,
{
    if k > 0 {
        lemma_char_interleave_body_text(text, starts, words, tags, k - 1);
        let prev = char_interleave_body(text, starts, words, tags, k - 1);
        let last = char_hit_end(starts, words, k - 1);
        let c = starts[k - 1] as int;
        let w = words[k - 1];
        assert(w == text.subrange(c, c + w.len()));
        if k >= 2 {
            assert(starts[k - 2] + words[k - 2].len() <= starts[k - 1]);
        }
        if c > last {
            let g = text.subrange(last, c);
            lemma_pieces_text_push(prev, (g, None::<u32>));
            lemma_pieces_text_push(prev.push((g, None::<u32>)), (w, Some(tags[k - 1])));
            assert(text.subrange(0, last) + text.subrange(last, c) + w =~= text.subrange(0, c + w.len()));
        } else {
            lemma_pieces_text_push(prev, (w, Some(tags[k - 1])));
            assert(text.subrange(0, last) + w =~= text.subrange(0, c + w.len()));
        }
    }
}

/// With consistent hits, the pieces placed by char positions give back the text, whatever
/// chars it holds.
pub proof fn lemma_char_interleave_text(
    text: Seq<char>,
    starts: Seq<usize>,
    words: Seq<Seq<char>>,
    tags: Seq<u32>,
)
    requires
        hits_consistent(text, starts, words),
        starts.len() > 0,
    ensures
        pieces_text(char_interleave_spec(text, starts, words, tags)) == text,
{
    let k = starts.len() as int;
    lemma_char_interleave_body_text(text, starts, words, tags, k);
    let body = char_interleave_body(text, starts, words, tags, k);
    let end = char_hit_end(starts, words, k);
    if end < text.len() {
        lemma_pieces_text_push(body, (text.subrange(end, text.len() as int), None::<u32>));
        assert(text.subrange(0, end) + text.subrange(end, text.len() as int) =~= text);
    } else {
        assert(text.subrange(0, end) =~= text);
    }
}

/// Build the words of `char_interleave_spec`: gaps untagged, hits tagged, cut at char
/// positions.
pub fn interleave_at_chars(text: &str, starts: &Vec<usize>, words: &Vec<String>, tags: &Vec<u32>) -> (r: Vec<Word>)
    requires
        hits_consistent(text@, starts@, hit_texts(words@)),
        tags@.len() == starts@.len(),
    ensures
        words_are(r@, char_interleave_spec(text@, starts@, hit_texts(words@), tags@)),
{
    let chars = chars_of(text);
    let n = chars.len();
    let ghost hw = hit_texts(words@);
    let mut out: Vec<Word> = Vec::new();
    let mut lastc: usize = 0;
    let mut k: usize = 0;
    while k < starts.len()
        invariant
            chars@ == text@,
            n == text@.len(),
            hw == hit_texts(words@),
            hits_consistent(text@, starts@, hw),
            starts@.len() == tags@.len(),
            k <= starts@.len(),
            lastc == char_hit_end(starts@, hw, k as int),
            lastc <= n,
            k < starts@.len() ==> lastc <= starts@[k as int],
            words_are(out@, char_interleave_body(text@, starts@, hw, tags@, k as int)),
        decreases starts@.len() - k,
    {
        let c = starts[k];
        let ghost prev = char_interleave_body(text@, starts@, hw, tags@, k as int);
        let ghost before = out@;
        proof {
            assert(hw[k as int] == words@[k as int]@);
        }
        let ghost gap: Seq<(Seq<char>, Option<u32>)> = if c > lastc {
            seq![(text@.subrange(lastc as int, c as int), None::<u32>)]
        } else {
            Seq::empty()
        };
        if c > lastc {
            let g = Word::from_string(string_from_chars(slice_of(&chars, lastc, c)));
            out.push(g);
        }
        let ghost mid = out@;
        let wlen = chars_of(words[k].as_str()).len();
        let hit = Word::from_string(words[k].clone()).with_p(tags[k]);
        out.push(hit);
        proof {
            let nxt = char_interleave_body(text@, starts@, hw, tags@, k + 1);
            assert(nxt =~= (prev + gap).push((hw[k as int], Some(tags@[k as int]))));
            assert(words_are(out@, nxt)) by {
                assert forall|i: int| 0 <= i < out@.len() implies (#[trigger] out@[i]).w@ == nxt[i].0
                    && out@[i].p == nxt[i].1 && plain_word(out@[i]) by {
                    if i < before.len() {
                        assert(out@[i] == mid[i]);
                        assert(mid[i] == before[i]);
                    } else if i < mid.len() {
                        assert(out@[i] == mid[i]);
                    }
                }
            }
            if k + 1 < starts@.len() {
                assert(starts@[k as int] + hw[k as int].len() <= starts@[k + 1]);
            }
        }
        lastc = c + wlen;
        k += 1;
    }
    if k > 0 && lastc < n {
        out.push(Word::from_string(string_from_chars(slice_of(&chars, lastc, n))));
        proof {
            let body = char_interleave_body(text@, starts@, hw, tags@, k as int);
            assert(text@.subrange(lastc as int, n as int) == chars@.subrange(lastc as int, n as int));
        }
    }
    out
}

/// Build the words of `interleave_spec`: gaps untagged, hits tagged.
pub fn interleave_hits(text: &str, starts: &Vec<usize>, words: &Vec<String>, tags: &Vec<u32>) -> (r: Vec<Word>)
    requires
        starts@.len() == words@.len(),
        starts@.len() == tags@.len(),
        forall|k: int|
            0 <= k < starts@.len() ==> #[trigger] starts@[k] + u16_len(words@[k]@) <= u16_len(text@),
    ensures
        words_are(r@, interleave_spec(text@, starts@, hit_texts(words@), tags@)),
{
    let n = char_len(text);
    let ghost hw = hit_texts(words@);
    let mut out: Vec<Word> = Vec::new();
    let mut lastc: usize = 0;
    let mut k: usize = 0;
    while k < starts.len()
        invariant
            n == u16_len(text@),
            hw == hit_texts(words@),
            starts@.len() == words@.len(),
            starts@.len() == tags@.len(),
            forall|j: int|
                0 <= j < starts@.len() ==> #[trigger] starts@[j] + u16_len(words@[j]@) <= u16_len(text@),
            k <= starts@.len(),
            lastc == hit_end(starts@, hw, k as int),
            words_are(out@, interleave_body(text@, starts@, hw, tags@, k as int)),
        decreases starts@.len() - k,
    {
        let c = starts[k];
        let ghost prev = interleave_body(text@, starts@, hw, tags@, k as int);
        let ghost before = out@;
        let ghost gap: Seq<(Seq<char>, Option<u32>)> = if c > lastc {
            seq![(unit_slice(text@, lastc as int, c - lastc), None::<u32>)]
        } else {
            Seq::empty()
        };
        if c > lastc {
            let g = Word::from_string(char_slice(text, lastc, c - lastc));
            out.push(g);
        }
        let ghost mid = out@;
        let wlen = char_len(words[k].as_str());
        let hit = Word::from_string(words[k].clone()).with_p(tags[k]);
        out.push(hit);
        proof {
            assert(hw[k as int] == words@[k as int]@);
            let nxt = interleave_body(text@, starts@, hw, tags@, k + 1);
            assert(nxt =~= (prev + gap).push((hw[k as int], Some(tags@[k as int]))));
            assert(words_are(out@, nxt)) by {
                assert forall|i: int| 0 <= i < out@.len() implies (#[trigger] out@[i]).w@ == nxt[i].0
                    && out@[i].p == nxt[i].1 && plain_word(out@[i]) by {
                    if i < before.len() {
                        assert(out@[i] == mid[i]);
                        assert(mid[i] == before[i]);
                    } else if i < mid.len() {
                        assert(out@[i] == mid[i]);
                    }
                }
            }
        }
        lastc = c + wlen;
        k += 1;
    }
    let ghost body = interleave_body(text@, starts@, hw, tags@, k as int);
    if k > 0 && lastc < n {
        out.push(Word::from_string(char_substr_from(text, lastc)));
    }
    out
}

} // verus!
