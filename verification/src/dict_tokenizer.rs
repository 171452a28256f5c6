//! The dictionary tokenizer: candidate words, chunks of consecutive candidates, the choice
//! of a chunk, and the rebuilt word list.
use vstd::prelude::*;
use crate::dict::TableDict;
use crate::optimizers::view_pos;
use crate::pipeline::{unit_piece, Materialized};
use crate::segment::{Segment, DEFAULT_MAX_CHUNK_COUNT_MIN};
use crate::strs::{char_to_string, str_eq};
use crate::postag::POSTAG;
use crate::tokenizers::{key_at, plain_view};
use crate::text::{
    all_bmp, char_at, char_len, char_slice, char_substr_from, decode_utf16_lossy, encode_utf16,
    is_bmp_char, unit_char_at, u16_len, unit_slice, unit_tail, leading_repeat_run, leading_run,
    lemma_bmp_units, lemma_bmp_slice, lemma_decode_len,
};
use crate::word::{clone_word, lemma_text_of_push, text_of, views, Word, WordView};

verus! {

/// A word placed at its position `c` in `orig`: not empty, inside the text, the text's
/// units from `c` on decode to it, and on BMP text it is the text found at that position.
#[verifier::opaque]
pub open spec fn placed(orig: Seq<char>, w: WordView) -> bool {
    &&& w.c is Some
    &&& u16_len(w.w) >= 1
    &&& w.c->0 + u16_len(w.w) <= u16_len(orig)
    &&& unit_piece(orig, w.c->0 as int, u16_len(w.w) as int) == Some(w.w)
    &&& all_bmp(orig) ==> w.c->0 + w.w.len() <= orig.len() && w.w == orig.subrange(
        w.c->0 as int,
        w.c->0 + w.w.len(),
    )
}

/// Candidates by position: one list per UTF-16 position of `orig` and one past its end;
/// every word of list `i` is placed at `i`.
pub open spec fn wordpos_wf(orig: Seq<char>, wp: Seq<Vec<Word>>) -> bool {
    &&& wp.len() == u16_len(orig) + 1
    &&& placed_by_pos(orig, wp)
}

/// Every word of list `i` is placed at `i`.
pub open spec fn placed_by_pos(orig: Seq<char>, wp: Seq<Vec<Word>>) -> bool {
    forall|i: int, j: int|
        0 <= i < wp.len() && 0 <= j < wp[i]@.len() ==> placed(orig, #[trigger] wp[i]@[j]@)
            && wp[i]@[j].c == Some(i as usize)
}

/// Adding a list of words placed at the next position keeps every word placed by position.
proof fn lemma_placed_push(orig: Seq<char>, wp: Seq<Vec<Word>>, bucket: Vec<Word>, pos: usize)
    requires
        placed_by_pos(orig, wp),
        wp.len() == pos,
        forall|b: int| 0 <= b < bucket@.len() ==> placed(orig, #[trigger] bucket@[b]@) && bucket@[b].c == Some(pos),
    ensures
        placed_by_pos(orig, wp.push(bucket)),
{
    let np = wp.push(bucket);
    assert forall|a: int, b: int| 0 <= a < np.len() && 0 <= b < np[a]@.len() implies placed(orig, #[trigger] np[a]@[b]@)
        && np[a]@[b].c == Some(a as usize) by {
        if a < wp.len() {
            assert(np[a] == wp[a]);
        } else {
            assert(np[a] == bucket);
            assert(0 <= b < bucket@.len());
            assert(placed(orig, bucket@[b]@));
            assert(bucket@[b].c == Some(pos));
        }
    }
}

/// Where a placed word ends, in UTF-16 units.
#[verifier::opaque]
pub open spec fn word_end(w: WordView) -> int {
    w.c->0 + u16_len(w.w)
}

/// A chunk from `pos`: words laid end to end, the first at `pos`.
pub open spec fn chain(orig: Seq<char>, ws: Seq<Word>, pos: int) -> bool {
    &&& ws.len() >= 1
    &&& ws[0]@.c is Some
    &&& ws[0]@.c->0 == pos
    &&& forall|i: int| 0 <= i < ws.len() ==> placed(orig, #[trigger] ws[i]@)
    &&& forall|i: int|
        1 <= i < ws.len() ==> (#[trigger] ws[i]@).c->0 == word_end(ws[i - 1]@)
}

/// Placed words in order, none overlapping the next.
pub open spec fn ordered_placed(orig: Seq<char>, ws: Seq<Word>) -> bool {
    &&& forall|i: int| 0 <= i < ws.len() ==> placed(orig, #[trigger] ws[i]@)
    &&& forall|i: int, j: int|
        #![trigger ws[i], ws[j]]
        0 <= i < j < ws.len() ==> word_end(ws[i]@) <= ws[j]@.c->0
}

/// A dictionary candidate: the entry's text at `c`, carrying the entry's weight.
pub open spec fn candidate(table: TableDict, text: Seq<char>, w: Word) -> bool {
    &&& w.c is Some
    &&& w.c->0 < u16_len(text)
    &&& unit_piece(text, w.c->0 as int, u16_len(w.w@) as int) == Some(w.w@)
    &&& table.table@.contains_key(w.w@)
    &&& w.f == Some(table.table@[w.w@].f)
    &&& w.p is None
    &&& w.m is None
}

/// A candidate is a placed word.
proof fn lemma_candidate_placed(table: TableDict, text: Seq<char>, w: Word)
    requires
        table.wf(),
        candidate(table, text, w),
    ensures
        placed(text, w@),
{
    reveal(placed);
    let c = w.c->0 as int;
    let l = u16_len(w.w@) as int;
    assert(table.table@.contains_key(w.w@));
    assert(w.w@.len() > 0);
    crate::text::lemma_encode_len_bound(w.w@);
    if all_bmp(text) {
        lemma_bmp_units(text);
        lemma_bmp_slice(text, c, c + l);
        crate::tokenizers::lemma_bmp_sub(text, c, c + l);
        lemma_bmp_units(w.w@);
    }
}

/// `a` comes before `b`: at an earlier position, or at the same one and shorter.
pub open spec fn match_before(a: Word, b: Word) -> bool {
    a.c->0 < b.c->0 || (a.c->0 == b.c->0 && u16_len(a.w@) < u16_len(b.w@))
}

/// The list holds a word at unit `p` that is `len` units long.
pub open spec fn listed(r: Seq<Word>, p: int, len: int) -> bool {
    exists|k: int| 0 <= k < r.len() && (#[trigger] r[k]).c == Some(p as usize) && u16_len(r[k].w@) == len
}

/// A dictionary candidate: the text `t` at unit `p` with weight `f`.
pub open spec fn cand_view(t: Seq<char>, p: int, f: u64) -> WordView {
    WordView {
        w: t,
        p: None,
        f: Some(f),
        c: Some(p as usize),
        s: None,
        ow: None,
        op: None,
        m: None,
        auto_create: false,
        os: None,
    }
}

/// The candidates at unit `p` for the lengths `ls`, in their order: the text of each length
/// there, when the table has it.
pub open spec fn cands_at(table: TableDict, text: Seq<char>, p: int, ls: Seq<usize>) -> Seq<WordView>
    decreases ls.len(),
{
    if ls.len() == 0 {
        Seq::empty()
    } else {
        let prev = cands_at(table, text, p, ls.drop_last());
        match unit_piece(text, p, ls.last() as int) {
            Some(w) => if table.table@.contains_key(w) {
                prev.push(cand_view(w, p, table.table@[w].f))
            } else {
                prev
            },
            None => prev,
        }
    }
}

/// The candidates at the units before `p`, position by position, shorter first.
pub open spec fn cands_upto(table: TableDict, text: Seq<char>, p: int) -> Seq<WordView>
    decreases p,
{
    if p <= 0 {
        Seq::empty()
    } else {
        cands_upto(table, text, p - 1) + cands_at(table, text, p - 1, table.lengths@)
    }
}

/// Every dictionary word found in `text`, position by position, lengths ascending: each
/// is a candidate, and every entry at every position is listed.
pub fn match_word(text: &str, table: &TableDict) -> (r: Vec<Word>)
    requires
        table.wf(),
    ensures
        forall|k: int| 0 <= k < r@.len() ==> candidate(*table, text@, #[trigger] r@[k]),
        forall|k: int| 0 <= k < r@.len() ==> placed(text@, #[trigger] r@[k]@),
        forall|j: int, k: int| 0 <= j < k < r@.len() ==> match_before(#[trigger] r@[j], #[trigger] r@[k]),
        forall|p: int, len: int|
            0 <= p < u16_len(text@) && #[trigger] key_at(*table, text@, p, len) ==> listed(r@, p, len),
        views(r@) == cands_upto(*table, text@, u16_len(text@) as int),
{
    let m = Materialized::of(text);
    let n = m.len();
    let mut ret: Vec<Word> = Vec::new();
    let mut cur: usize = 0;
    while cur < n
        invariant
            m.wf(),
            m.text() == text@,
            n == u16_len(text@),
            table.wf(),
            cur <= n,
            forall|k: int| 0 <= k < ret@.len() ==> candidate(*table, text@, #[trigger] ret@[k]),
            forall|k: int| 0 <= k < ret@.len() ==> (#[trigger] ret@[k]).c->0 < cur,
            forall|j: int, k: int| 0 <= j < k < ret@.len() ==> match_before(#[trigger] ret@[j], #[trigger] ret@[k]),
            forall|p: int, len: int| 0 <= p < cur && #[trigger] key_at(*table, text@, p, len) ==> listed(ret@, p, len),
            views(ret@) == cands_upto(*table, text@, cur as int),
        decreases n - cur,
    {
        let ghost at_start = views(ret@);
        let mut li: usize = 0;
        while li < table.lengths.len()
            invariant
                m.wf(),
                m.text() == text@,
                n == u16_len(text@),
                table.wf(),
                cur < n,
                li <= table.lengths@.len(),
                forall|k: int| 0 <= k < ret@.len() ==> candidate(*table, text@, #[trigger] ret@[k]),
                forall|k: int| 0 <= k < ret@.len() ==> (#[trigger] ret@[k]).c->0 <= cur,
                forall|k: int| 0 <= k < ret@.len() && (#[trigger] ret@[k]).c->0 == cur ==> exists|j: int|
                    0 <= j < li && table.lengths@[j] == u16_len(ret@[k].w@),
                forall|j: int, k: int| 0 <= j < k < ret@.len() ==> match_before(#[trigger] ret@[j], #[trigger] ret@[k]),
                forall|p: int, len: int| 0 <= p < cur && #[trigger] key_at(*table, text@, p, len) ==> listed(ret@, p, len),
                forall|j: int| 0 <= j < li && #[trigger] key_at(*table, text@, cur as int, table.lengths@[j] as int)
                    ==> listed(ret@, cur as int, table.lengths@[j] as int),
                at_start == cands_upto(*table, text@, cur as int),
                views(ret@) == at_start + cands_at(*table, text@, cur as int, table.lengths@.subrange(0, li as int)),
            decreases table.lengths@.len() - li,
        {
            let len = table.lengths[li];
            let ghost before = ret@;
            proof {
                let ls = table.lengths@.subrange(0, li + 1);
                assert(ls.drop_last() =~= table.lengths@.subrange(0, li as int));
                assert(ls.last() == len);
            }
            match m.piece(cur, len) {
                Some(w) => {
                    match table.get(w.as_str()) {
                        Some(e) => {
                            proof {
                                lemma_decode_len(encode_utf16(text@).subrange(cur as int, cur + len));
                            }
                            let x = Word::from_string(w).with_c(cur).with_f(e.f);
                            ret.push(x);
                            proof {
                                assert(x@ == cand_view(x.w@, cur as int, e.f));
                                assert(views(ret@) =~= views(before).push(x@));
                                let last = ret@.len() - 1;
                                assert(ret@[last] == x);
                                assert forall|k: int| 0 <= k < last implies match_before(#[trigger] ret@[k], ret@[last]) by {
                                    assert(ret@[k] == before[k]);
                                    if before[k].c->0 == cur {
                                        let j = choose|j: int| 0 <= j < li && table.lengths@[j] == u16_len(before[k].w@);
                                        assert(table.lengths@[j] < table.lengths@[li as int]);
                                    }
                                }
                                assert forall|p: int, l: int| 0 <= p < cur && #[trigger] key_at(*table, text@, p, l) implies listed(ret@, p, l) by {
                                    assert(listed(before, p, l));
                                    let k = choose|k: int| 0 <= k < before.len() && (#[trigger] before[k]).c == Some(p as usize) && u16_len(before[k].w@) == l;
                                    assert(ret@[k] == before[k]);
                                }
                                assert forall|j: int| 0 <= j < li + 1 && #[trigger] key_at(*table, text@, cur as int, table.lengths@[j] as int)
                                    implies listed(ret@, cur as int, table.lengths@[j] as int) by {
                                    if j < li {
                                        assert(listed(before, cur as int, table.lengths@[j] as int));
                                        let k = choose|k: int| 0 <= k < before.len() && (#[trigger] before[k]).c == Some(cur) && u16_len(before[k].w@) == table.lengths@[j];
                                        assert(ret@[k] == before[k]);
                                    } else {
                                        assert(ret@[last].c == Some(cur));
                                    }
                                }
                                assert forall|k: int| 0 <= k < ret@.len() && (#[trigger] ret@[k]).c->0 == cur implies exists|j: int|
                                    0 <= j < li + 1 && table.lengths@[j] == u16_len(ret@[k].w@) by {
                                    if k < last {
                                        assert(ret@[k] == before[k]);
                                        let j = choose|j: int| 0 <= j < li && table.lengths@[j] == u16_len(before[k].w@);
                                        assert(table.lengths@[j] == u16_len(ret@[k].w@));
                                    } else {
                                        assert(table.lengths@[li as int] == u16_len(ret@[k].w@));
                                    }
                                }
                            }
                        },
                        None => {},
                    }
                },
                None => {},
            }
            li += 1;
        }
        proof {
            assert(table.lengths@.subrange(0, li as int) =~= table.lengths@);
            assert(views(ret@) == cands_upto(*table, text@, cur + 1));
            assert forall|p: int, len: int| 0 <= p < cur + 1 && #[trigger] key_at(*table, text@, p, len) implies listed(ret@, p, len) by {
                if p == cur {
                    let j = crate::tokenizers::lemma_key_len(*table, text@, p, len);
                    assert(key_at(*table, text@, cur as int, table.lengths@[j] as int));
                }
            }
        }
        cur += 1;
    }
    proof {
        assert forall|k: int| 0 <= k < ret@.len() implies placed(text@, #[trigger] ret@[k]@) by {
            lemma_candidate_placed(*table, text@, ret@[k]);
        }
    }
    ret
}

/// The char at a unit position, as a placed one-char word.
proof fn lemma_char_word(text: Seq<char>, i: usize, ch: char, x: Word)
    requires
        unit_char_at(text, i as int) == Some(ch),
        x.w@ == seq![ch],
        x.c == Some(i),
    ensures
        placed(text, x@),
{
    reveal(placed);
    let u = encode_utf16(text);
    assert((((u[i as int] as u32) as char) as u32) == u[i as int] as u32);
    assert(ch as u32 == u[i as int] as u32);
    assert(crate::text::char_units(ch) =~= seq![(ch as u32) as u16]);
    assert(encode_utf16(seq![ch]) =~= encode_utf16(Seq::<char>::empty()) + crate::text::char_units(ch)) by {
        assert(seq![ch].drop_last() =~= Seq::<char>::empty());
    }
    let v = u.subrange(i as int, i + 1);
    assert(v[0] == u[i as int]);
    assert(v.skip(1) =~= Seq::<u16>::empty());
    assert(decode_utf16_lossy(Seq::<u16>::empty()) =~= Seq::<char>::empty());
    assert(decode_utf16_lossy(v) == seq![(v[0] as u32) as char] + decode_utf16_lossy(v.skip(1)));
    assert(decode_utf16_lossy(v) =~= seq![ch]);
    if all_bmp(text) {
        lemma_bmp_units(text);
        assert(seq![ch] =~= text.subrange(i as int, i + 1));
    }
}

/// The words of `ws` placed at `i`, in order.
pub open spec fn words_at(ws: Seq<WordView>, i: usize) -> Seq<WordView>
    decreases ws.len(),
{
    if ws.len() == 0 {
        Seq::empty()
    } else {
        let prev = words_at(ws.drop_last(), i);
        if ws.last().c == Some(i) {
            prev.push(ws.last())
        } else {
            prev
        }
    }
}

/// The single-char word at `i` (weight 0).
pub open spec fn char_word_view(ch: char, i: usize) -> WordView {
    WordView {
        w: seq![ch],
        p: None,
        f: Some(0),
        c: Some(i),
        s: None,
        ow: None,
        op: None,
        m: None,
        auto_create: false,
        os: None,
    }
}

/// What `get_pos_info` puts at position `i`: the words placed there, or, where there are
/// none and a char starts at `i`, that char.
pub open spec fn pos_info_at(ws: Seq<WordView>, text: Seq<char>, i: usize) -> Seq<WordView> {
    if words_at(ws, i).len() == 0 && i < u16_len(text) && unit_char_at(text, i as int) is Some {
        seq![char_word_view(unit_char_at(text, i as int)->0, i)]
    } else {
        words_at(ws, i)
    }
}

/// Candidates by position: the placed words at each position, in their order, or else the
/// single char found there (weight 0).
#[verifier::spinoff_prover]
#[verifier::rlimit(40)]
pub fn get_pos_info(words: &Vec<Word>, text: &str, n: usize) -> (r: Vec<Vec<Word>>)
    requires
        n == u16_len(text@),
        n < usize::MAX,
        forall|k: int| 0 <= k < words@.len() ==> placed(text@, #[trigger] words@[k]@),
    ensures
        wordpos_wf(text@, r@),
        forall|i: int| 0 <= i < n && unit_char_at(text@, i) is Some ==> (#[trigger] r@[i])@.len() > 0,
        forall|i: int| 0 <= i <= n ==> (#[trigger] r@[i])@.map_values(|w: Word| w@) == pos_info_at(views(words@), text@, i as usize),
{
    let mut wordpos: Vec<Vec<Word>> = Vec::new();
    let mut i: usize = 0;
    while i <= n
        invariant
            n == u16_len(text@),
            n < usize::MAX,
            i <= n + 1,
            wordpos@.len() == i,
            forall|k: int| 0 <= k < words@.len() ==> placed(text@, #[trigger] words@[k]@),
            placed_by_pos(text@, wordpos@),
            forall|a: int| 0 <= a < i && a < n && unit_char_at(text@, a) is Some ==> (#[trigger] wordpos@[a])@.len() > 0,
            forall|a: int| 0 <= a < i ==> (#[trigger] wordpos@[a])@.map_values(|w: Word| w@) == pos_info_at(views(words@), text@, a as usize),
        decreases n + 1 - i,
    {
        let mut bucket: Vec<Word> = Vec::new();
        let mut k: usize = 0;
        while k < words.len()
            invariant
                k <= words@.len(),
                forall|kk: int| 0 <= kk < words@.len() ==> placed(text@, #[trigger] words@[kk]@),
                forall|b: int| 0 <= b < bucket@.len() ==> placed(text@, #[trigger] bucket@[b]@) && bucket@[b].c == Some(i),
                bucket@.map_values(|w: Word| w@) == words_at(views(words@).take(k as int), i),
            decreases words@.len() - k,
        {
            proof {
                assert(views(words@).take(k + 1).drop_last() =~= views(words@).take(k as int));
                assert(views(words@).take(k + 1).last() == words@[k as int]@);
            }
            if words[k].c == Some(i) {
                let x = clone_word(&words[k]);
                proof {
                    assert(x.w@ == words@[k as int].w@ && x.c == words@[k as int].c);
                }
                let ghost bv = bucket@.map_values(|w: Word| w@);
                bucket.push(x);
                proof {
                    assert(bucket@.map_values(|w: Word| w@) =~= bv.push(x@));
                }
            }
            k += 1;
        }
        proof {
            assert(views(words@).take(words@.len() as int) =~= views(words@));
        }
        if bucket.len() == 0 && i < n {
            match char_at(text, i) {
                Some(ch) => {
                    let x = Word::from_string(char_to_string(ch)).with_c(i).with_f(0);
                    proof {
                        lemma_char_word(text@, i, ch, x);
                        assert(x@ == char_word_view(ch, i));
                    }
                    bucket.push(x);
                    proof {
                        assert(bucket@.map_values(|w: Word| w@) =~= seq![char_word_view(ch, i)]);
                        assert forall|b: int| 0 <= b < bucket@.len() implies placed(text@, #[trigger] bucket@[b]@)
                            && bucket@[b].c == Some(i) by {
                            assert(bucket@[b] == x);
                        }
                    }
                },
                None => {},
            }
        }
        let ghost before = wordpos@;
        proof {
            assert(before.len() == i);
            lemma_placed_push(text@, before, bucket, i);
        }
        wordpos.push(bucket);
        proof {
            assert forall|a: int| 0 <= a < i + 1 && a < n && unit_char_at(text@, a) is Some implies (#[trigger] wordpos@[a])@.len() > 0 by {
                if a < before.len() {
                    assert(wordpos@[a] == before[a]);
                }
            }
            assert forall|a: int| 0 <= a < i + 1 implies (#[trigger] wordpos@[a])@.map_values(|w: Word| w@) == pos_info_at(views(words@), text@, a as usize) by {
                if a < before.len() {
                    assert(wordpos@[a] == before[a]);
                } else {
                    assert(wordpos@[a] == bucket);
                }
            }
        }
        i += 1;
    }
    wordpos
}

/// A leading run found in a text lies inside it and has at least six units.
pub proof fn lemma_last_repeat_run(u: Seq<u16>, unit: int)
    ensures
        crate::text::last_repeat_run(u, unit) matches Some(p) ==> 6 <= p <= u.len(),
    decreases unit,
{
    if unit < 1 {
    } else if crate::text::unit_ok(u, unit) && crate::text::run_end(u, unit, unit) >= 6 * unit {
        assert(6 <= 6 * unit);
        if unit <= u.len() {
            crate::text::lemma_run_end_bound(u, unit, unit);
        } else {
            assert(crate::text::run_end(u, unit, unit) == unit);
        }
    } else {
        lemma_last_repeat_run(u, unit - 1);
    }
}

/// Length of a text's tail from unit `a`.
pub proof fn lemma_substr_len(s: Seq<char>, a: int)
    requires
        0 <= a <= u16_len(s),
    ensures
        u16_len(unit_tail(s, a)) == u16_len(s) - a,
{
    let u = encode_utf16(s);
    if a < u.len() {
        lemma_decode_len(u.subrange(a, u.len() as int));
    } else {
        assert(encode_utf16(Seq::<char>::empty()) =~= Seq::<u16>::empty());
    }
}

/// Length of a text's head of `l` units.
proof fn lemma_head_len(s: Seq<char>, l: int)
    requires
        0 < l <= u16_len(s),
    ensures
        u16_len(unit_slice(s, 0, l)) == l,
{
    let u = encode_utf16(s);
    lemma_decode_len(u.subrange(0, l));
}

/// The depth limit for the chunks below this call.
pub open spec fn chunk_limit(max_count: usize, min_count: usize, text_len: int, total_count: usize, max_chunk: Option<usize>) -> int {
    if total_count == 0 {
        if text_len < max_count {
            max_count + 1
        } else {
            max_count as int
        }
    } else {
        let given = match max_chunk {
            Some(m) => m as int,
            None => 0,
        };
        if given <= max_count {
            let base = match max_chunk {
                Some(m) => m as int,
                None => max_count as int,
            };
            let dec = if base >= 1 {
                base - 1
            } else {
                0
            };
            let a = if dec > min_count {
                dec
            } else {
                min_count as int
            };
            if a > DEFAULT_MAX_CHUNK_COUNT_MIN {
                a
            } else {
                DEFAULT_MAX_CHUNK_COUNT_MIN as int
            }
        } else {
            given
        }
    }
}

fn chunk_limit_exec(seg: &Segment, text_len: usize, total_count: usize, max_chunk: Option<usize>) -> (r: usize)
    requires
        seg.max_chunk_count < usize::MAX,
    ensures
        r == chunk_limit(seg.max_chunk_count, seg.min_chunk_count, text_len as int, total_count, max_chunk),
{
    if total_count == 0 {
        let mut m = seg.max_chunk_count;
        if text_len < m {
            m += 1;
        }
        m
    } else {
        let given = match max_chunk {
            Some(m) => m,
            None => 0,
        };
        if given <= seg.max_chunk_count {
            let base = match max_chunk {
                Some(m) => m,
                None => seg.max_chunk_count,
            };
            let dec = if base >= 1 {
                base - 1
            } else {
                0
            };
            let a = if dec > seg.min_chunk_count {
                dec
            } else {
                seg.min_chunk_count
            };
            if a > DEFAULT_MAX_CHUNK_COUNT_MIN {
                a
            } else {
                DEFAULT_MAX_CHUNK_COUNT_MIN
            }
        } else {
            given
        }
    }
}

/// The views of a list of chunks.
pub open spec fn chunk_views(cs: Seq<Vec<Word>>) -> Seq<Seq<WordView>> {
    cs.map_values(|c: Vec<Word>| views(c@))
}

/// The views of the candidates by position.
pub open spec fn pos_views(wp: Seq<Vec<Word>>) -> Seq<Seq<WordView>> {
    wp.map_values(|v: Vec<Word>| views(v@))
}

/// A repeated run taken as one word: its text at `pos`, weight 0.
pub open spec fn run_view(t: Seq<char>, pos: int) -> WordView {
    WordView {
        w: t,
        p: None,
        f: Some(0),
        c: Some(pos as usize),
        s: None,
        ow: None,
        op: None,
        m: None,
        auto_create: false,
        os: None,
    }
}

/// `w` put in front of each chunk.
pub open spec fn prepend_each(w: WordView, cs: Seq<Seq<WordView>>) -> Seq<Seq<WordView>> {
    cs.map_values(|c: Seq<WordView>| seq![w] + c)
}

/// From unit `j`, the first candidate at each position, laid end to end while there is one.
pub open spec fn greedy_tail(wp: Seq<Seq<WordView>>, j: int) -> Seq<WordView>
    decreases wp.len() - j,
{
    if 0 <= j < wp.len() && wp[j].len() > 0 && u16_len(wp[j][0].w) >= 1 {
        let next = j + u16_len(wp[j][0].w);
        seq![wp[j][0]] + if next < wp.len() {
            greedy_tail(wp, next)
        } else {
            Seq::empty()
        }
    } else {
        Seq::empty()
    }
}

/// All chunks from unit `pos` of the text, `text` being the rest of it from there, at depth
/// `total` under the limit `max_chunk` given by the caller: a leading run of six or more
/// copies is one word, alone or before every chunk after it; otherwise the chunks of each
/// candidate at `pos` in turn.
pub open spec fn chunks_from(
    wp: Seq<Seq<WordView>>,
    pos: int,
    text: Seq<char>,
    total: int,
    max_chunk: Option<usize>,
    maxc: usize,
    minc: usize,
) -> Seq<Seq<WordView>>
    decreases u16_len(text), 1int, 0int,
{
    let limit = chunk_limit(maxc, minc, u16_len(text) as int, total as usize, max_chunk);
    match leading_run(encode_utf16(text)) {
        Some(run) => {
            proof {
                lemma_last_repeat_run(encode_utf16(text), (encode_utf16(text).len() / 6) as int);
                lemma_substr_len(text, run);
            }
            let word = run_view(unit_slice(text, 0, run), pos);
            let rest = unit_tail(text, run);
            if rest.len() == 0 {
                seq![seq![word]]
            } else {
                prepend_each(word, chunks_from(wp, pos + run, rest, total, Some(limit as usize), maxc, minc))
            }
        },
        None => cand_chunks(wp, pos, text, total, limit, maxc, minc, wp[pos]),
    }
}

/// The chunks of the candidates `cands` at `pos`, in order: a candidate with nothing after
/// it alone; past the depth limit, continued by the first candidate at each following
/// position; else before every chunk from its end.
pub open spec fn cand_chunks(
    wp: Seq<Seq<WordView>>,
    pos: int,
    text: Seq<char>,
    total: int,
    limit: int,
    maxc: usize,
    minc: usize,
    cands: Seq<WordView>,
) -> Seq<Seq<WordView>>
    decreases u16_len(text), 0int, cands.len(),
{
    if cands.len() == 0 {
        Seq::empty()
    } else {
        let w = cands[0];
        let wl = u16_len(w.w) as int;
        let nextcur = pos + wl;
        let first = if !(nextcur < wp.len() && wp[nextcur].len() > 0) {
            seq![seq![w]]
        } else if total + 1 > limit {
            seq![seq![w] + greedy_tail(wp, nextcur)]
        } else if 1 <= wl <= u16_len(text) {
            proof {
                lemma_substr_len(text, wl);
            }
            prepend_each(w, chunks_from(wp, nextcur, unit_tail(text, wl), total + 1, Some(limit as usize), maxc, minc))
        } else {
            Seq::empty()
        };
        first + cand_chunks(wp, pos, text, total, limit, maxc, minc, cands.drop_first())
    }
}

/// `word` followed by a copy of the chunk `ws`.
fn prepend_one(word: &Word, ws: &Vec<Word>, Ghost(orig): Ghost<Seq<char>>) -> (v: Vec<Word>)
    requires
        placed(orig, word@),
        chain(orig, ws@, word_end(word@)),
    ensures
        chain(orig, v@, word.c->0 as int),
        views(v@) == seq![word@] + views(ws@),
{
    let ghost cs = ws@;
    let w0 = clone_word(word);
    let mut v: Vec<Word> = Vec::new();
    v.push(w0);
    let mut j: usize = 0;
    while j < ws.len()
        invariant
            ws@ == cs,
            chain(orig, cs, word_end(word@)),
            placed(orig, word@),
            1 <= j + 1 == v@.len(),
            j <= cs.len(),
            v@[0]@ == word@,
            forall|k: int| 1 <= k < v@.len() ==> #[trigger] v@[k]@ == cs[k - 1]@,
        decreases cs.len() - j,
    {
        let x = clone_word(&ws[j]);
        let ghost before = v@;
        v.push(x);
        proof {
            assert forall|k: int| 1 <= k < v@.len() implies #[trigger] v@[k]@ == cs[k - 1]@ by {
                if k < before.len() {
                    assert(v@[k] == before[k]);
                }
            }
        }
        j += 1;
    }
    proof {
        assert(j == cs.len());
        lemma_placed(orig, word@);
        assert(v@[0]@.c == word.c);
        assert forall|k: int| 0 <= k < v@.len() implies placed(orig, #[trigger] v@[k]@) by {
            if k >= 1 {
                assert(v@[k]@ == cs[k - 1]@);
                assert(placed(orig, cs[k - 1]@));
            }
        }
        assert forall|k: int| 1 <= k < v@.len() implies (#[trigger] v@[k]@).c->0 == word_end(v@[k - 1]@) by {
            assert(v@[k]@ == cs[k - 1]@);
            if k == 1 {
                assert(cs[0]@.c->0 == word_end(word@));
            } else {
                assert(v@[k - 1]@ == cs[k - 2]@);
                assert(cs[k - 1]@.c->0 == word_end(cs[k - 2]@));
            }
        }
        assert(views(v@) =~= seq![word@] + views(ws@));
    }
    v
}

/// Put `word` in front of each chunk.
fn prepend_all(word: &Word, chunks: Vec<Vec<Word>>, ret: &mut Vec<Vec<Word>>, Ghost(orig): Ghost<Seq<char>>)
    requires
        placed(orig, word@),
        forall|k: int|
            0 <= k < chunks@.len() ==> chain(orig, #[trigger] chunks@[k]@, word_end(word@)),
        forall|k: int| 0 <= k < old(ret)@.len() ==> chain(orig, #[trigger] old(ret)@[k]@, word.c->0 as int),
    ensures
        forall|k: int| 0 <= k < final(ret)@.len() ==> chain(orig, #[trigger] final(ret)@[k]@, word.c->0 as int),
        chunk_views(final(ret)@) == chunk_views(old(ret)@) + prepend_each(word@, chunk_views(chunks@)),
{
    let ghost start = ret@;
    let mut i: usize = 0;
    while i < chunks.len()
        invariant
            placed(orig, word@),
            forall|k: int|
                0 <= k < chunks@.len() ==> chain(orig, #[trigger] chunks@[k]@, word_end(word@)),
            forall|k: int| 0 <= k < ret@.len() ==> chain(orig, #[trigger] ret@[k]@, word.c->0 as int),
            i <= chunks@.len(),
            chunk_views(ret@) == chunk_views(start) + prepend_each(word@, chunk_views(chunks@).subrange(0, i as int)),
        decreases chunks@.len() - i,
    {
        let v = prepend_one(word, &chunks[i], Ghost(orig));
        let ghost before = ret@;
        ret.push(v);
        proof {
            assert forall|k: int| 0 <= k < ret@.len() implies chain(orig, #[trigger] ret@[k]@, word.c->0 as int) by {
                if k < before.len() {
                    assert(ret@[k] == before[k]);
                }
            }
            assert(chunk_views(ret@) =~= chunk_views(before).push(views(v@)));
            assert(chunk_views(chunks@)[i as int] == views(chunks@[i as int]@));
            assert(prepend_each(word@, chunk_views(chunks@).subrange(0, i + 1)) =~= prepend_each(
                word@,
                chunk_views(chunks@).subrange(0, i as int),
            ).push(seq![word@] + views(chunks@[i as int]@)));
        }
        i += 1;
    }
    proof {
        assert(chunk_views(chunks@).subrange(0, i as int) =~= chunk_views(chunks@));
    }
}

/// What a placed word satisfies.
proof fn lemma_placed(orig: Seq<char>, w: WordView)
    requires
        placed(orig, w),
    ensures
        w.c is Some,
        u16_len(w.w) >= 1,
        w.c->0 + u16_len(w.w) <= u16_len(orig),
        word_end(w) == w.c->0 + u16_len(w.w),
        all_bmp(orig) ==> w.c->0 + w.w.len() <= orig.len() && w.w == orig.subrange(
            w.c->0 as int,
            w.c->0 + w.w.len(),
        ),
{
    reveal(placed);
    reveal(word_end);
}

/// All chunks from `pos`: a leading repeated run is one word; otherwise each candidate at
/// `pos`, alone when nothing follows it, continued greedily past the depth limit, or
/// followed by every chunk from its end.
#[verifier::spinoff_prover]
#[verifier::rlimit(40)]
fn get_chunks(
    wordpos: &Vec<Vec<Word>>,
    pos: usize,
    text: &str,
    total_count: usize,
    max_chunk: Option<usize>,
    seg: &Segment,
    Ghost(orig): Ghost<Seq<char>>,
) -> (r: Vec<Vec<Word>>)
    requires
        wordpos_wf(orig, wordpos@),
        pos + u16_len(text@) == u16_len(orig),
        text@ == unit_tail(orig, pos as int),
        all_bmp(orig) ==> text@ == orig.subrange(pos as int, orig.len() as int),
        total_count <= pos,
        seg.max_chunk_count < usize::MAX,
    ensures
        forall|k: int| 0 <= k < r@.len() ==> chain(orig, #[trigger] r@[k]@, pos as int),
        chunk_views(r@) == chunks_from(
            pos_views(wordpos@),
            pos as int,
            text@,
            total_count as int,
            max_chunk,
            seg.max_chunk_count,
            seg.min_chunk_count,
        ),
    decreases u16_len(text@) + wordpos@.len() - pos,
{
    let ghost pv = pos_views(wordpos@);
    let ghost maxc = seg.max_chunk_count;
    let ghost minc = seg.min_chunk_count;
    let tl = char_len(text);
    let wpl = wordpos.len();
    let max_chunk_count = chunk_limit_exec(seg, tl, total_count, max_chunk);
    proof {
        if all_bmp(orig) {
            lemma_bmp_units(orig);
            crate::tokenizers::lemma_bmp_sub(orig, pos as int, orig.len() as int);
            lemma_bmp_units(text@);
        }
    }
    match leading_repeat_run(text) {
        Some(run) => {
            proof {
                lemma_last_repeat_run(encode_utf16(text@), (encode_utf16(text@).len() / 6) as int);
                lemma_head_len(text@, run as int);
                lemma_substr_len(text@, run as int);
            }
            let s1 = char_slice(text, 0, run);
            let s2 = char_substr_from(text, run);
            let word = Word::from_string(s1).with_c(pos).with_f(0);
            proof {
                crate::text::lemma_unit_tail_tail(orig, pos as int, run as int);
                assert(word.w@ == unit_slice(orig, pos as int, run as int));
                assert(unit_piece(orig, pos as int, run as int) == Some(word.w@));
                if all_bmp(orig) {
                    assert(word.w@ =~= orig.subrange(pos as int, pos + run));
                    crate::tokenizers::lemma_bmp_sub(orig, pos as int, pos + run);
                    lemma_bmp_units(word.w@);
                }
                assert(placed(orig, word@)) by {
                    reveal(placed);
                }
                assert(word_end(word@) == pos + run) by {
                    reveal(word_end);
                }
            }
            proof {
                assert(word@ == run_view(unit_slice(text@, 0, run as int), pos as int));
            }
            if s2.as_str().is_empty() {
                let mut one: Vec<Word> = Vec::new();
                one.push(word);
                let mut r: Vec<Vec<Word>> = Vec::new();
                r.push(one);
                proof {
                    assert(views(r@[0]@) =~= seq![word@]);
                    assert(chunk_views(r@) =~= seq![seq![word@]]);
                }
                return r;
            }
            proof {
                if all_bmp(orig) {
                    assert(s2@ =~= orig.subrange(pos + run, orig.len() as int));
                }
            }
            let chunks = get_chunks(wordpos, pos + run, s2.as_str(), total_count, Some(max_chunk_count), seg, Ghost(orig));
            let mut r: Vec<Vec<Word>> = Vec::new();
            prepend_all(&word, chunks, &mut r, Ghost(orig));
            proof {
                assert(chunk_views(Seq::<Vec<Word>>::empty()) =~= Seq::<Seq<WordView>>::empty());
                assert(Seq::<Seq<WordView>>::empty() + prepend_each(word@, chunk_views(chunks@)) =~= prepend_each(
                    word@,
                    chunk_views(chunks@),
                ));
            }
            return r;
        },
        None => {},
    }
    let total = total_count + 1;
    let mut ret: Vec<Vec<Word>> = Vec::new();
    let words = &wordpos[pos];
    let ghost limit = max_chunk_count as int;
    let ghost cands = pv[pos as int];
    proof {
        assert(cands == views(words@));
        assert(cands.subrange(0, cands.len() as int) =~= cands);
        assert(chunk_views(ret@) + cand_chunks(pv, pos as int, text@, total_count as int, limit, maxc, minc, cands) =~= cand_chunks(
            pv,
            pos as int,
            text@,
            total_count as int,
            limit,
            maxc,
            minc,
            cands,
        ));
    }
    let mut idx: usize = 0;
    while idx < words.len()
        invariant
            pv == pos_views(wordpos@),
            maxc == seg.max_chunk_count,
            minc == seg.min_chunk_count,
            limit == max_chunk_count as int,
            limit == chunk_limit(maxc, minc, u16_len(text@) as int, total_count, max_chunk),
            cands == views(words@),
            chunks_from(pv, pos as int, text@, total_count as int, max_chunk, maxc, minc) == chunk_views(ret@)
                + cand_chunks(pv, pos as int, text@, total_count as int, limit, maxc, minc, cands.subrange(idx as int, cands.len() as int)),
            wordpos_wf(orig, wordpos@),
            pos + u16_len(text@) == u16_len(orig),
            tl == u16_len(text@),
            text@ == unit_tail(orig, pos as int),
            all_bmp(orig) ==> text@ == orig.subrange(pos as int, orig.len() as int),
            all_bmp(orig) ==> all_bmp(text@),
            total == total_count + 1,
            total_count <= pos,
            wpl == wordpos@.len(),
            seg.max_chunk_count < usize::MAX,
            pos < wordpos@.len(),
            words == &wordpos@[pos as int],
            idx <= words@.len(),
            forall|k: int| 0 <= k < ret@.len() ==> chain(orig, #[trigger] ret@[k]@, pos as int),
        decreases words@.len() - idx,
    {
        let word = clone_word(&words[idx]);
        let ghost rest = cands.subrange(idx as int, cands.len() as int);
        let ghost before_ret = chunk_views(ret@);
        proof {
            assert(placed(orig, wordpos@[pos as int]@[idx as int]@));
            assert(word@ == words@[idx as int]@);
            lemma_placed(orig, word@);
            assert(rest[0] == word@);
            assert(rest.drop_first() =~= cands.subrange(idx + 1, cands.len() as int));
            assert(word.c == Some(pos));
        }
        let wl = char_len(word.w.as_str());
        let nextcur = pos + wl;
        let next_exists = nextcur < wordpos.len() && wordpos[nextcur].len() > 0;
        proof {
            if nextcur < wordpos@.len() {
                assert(pv[nextcur as int].len() == wordpos@[nextcur as int]@.len());
            }
        }
        if !next_exists {
            let mut one: Vec<Word> = Vec::new();
            one.push(word);
            ret.push(one);
            proof {
                assert(views(one@) =~= seq![word@]);
                assert(chunk_views(ret@) =~= before_ret + seq![seq![word@]]);
            }
        } else if total > max_chunk_count {
            let mut w1: Vec<Word> = Vec::new();
            w1.push(word);
            proof {
                assert(w1@.last() == word);
                assert(views(w1@) =~= seq![word@]);
                assert(views(w1@) + greedy_tail(pv, nextcur as int) =~= seq![word@] + greedy_tail(pv, nextcur as int));
            }
            let mut j: usize = nextcur;
            while j < wordpos.len() && wordpos[j].len() > 0
                invariant
                    wordpos_wf(orig, wordpos@),
                    chain(orig, w1@, pos as int),
                    j == word_end(w1@.last()@),
                    j <= u16_len(orig),
                    pv == pos_views(wordpos@),
                    views(w1@) + greedy_tail(pv, j as int) == seq![word@] + greedy_tail(pv, nextcur as int),
                decreases wordpos@.len() - j,
            {
                let w2 = clone_word(&wordpos[j][0]);
                proof {
                    assert(placed(orig, wordpos@[j as int]@[0]@));
                    assert(w2@ == wordpos@[j as int]@[0]@);
                    lemma_placed(orig, w2@);
                    assert(pv[j as int][0] == w2@);
                    let nx = j + u16_len(w2.w@);
                    assert(greedy_tail(pv, j as int) == seq![w2@] + greedy_tail(pv, nx));
                }
                let l2 = char_len(w2.w.as_str());
                let ghost before = w1@;
                w1.push(w2);
                proof {
                    assert(views(w1@) =~= views(before).push(w2@));
                    assert(views(w1@) + greedy_tail(pv, j + l2) =~= views(before) + (seq![w2@] + greedy_tail(pv, j + l2)));
                }
                proof {
                    assert forall|k: int| 0 <= k < w1@.len() implies placed(orig, #[trigger] w1@[k]@) by {
                        if k < before.len() {
                            assert(w1@[k] == before[k]);
                        }
                    }
                    assert forall|k: int| 1 <= k < w1@.len() implies (#[trigger] w1@[k]@).c->0 == word_end(w1@[k - 1]@) by {
                        if k < before.len() {
                            assert(w1@[k] == before[k] && w1@[k - 1] == before[k - 1]);
                        } else {
                            assert(w1@[k - 1] == before.last());
                        }
                    }
                }
                j = j + l2;
            }
            proof {
                assert(greedy_tail(pv, j as int) =~= Seq::<WordView>::empty());
                assert(views(w1@) =~= seq![word@] + greedy_tail(pv, nextcur as int));
            }
            ret.push(w1);
            proof {
                assert(chunk_views(ret@) =~= before_ret + seq![seq![word@] + greedy_tail(pv, nextcur as int)]);
            }
        } else {
            proof {
                lemma_substr_len(text@, wl as int);
                if all_bmp(orig) {
                    lemma_bmp_units(orig);
                    crate::tokenizers::lemma_bmp_sub(orig, pos as int, pos + word.w@.len());
                    lemma_bmp_units(word.w@);
                    lemma_bmp_units(text@);
                }
            }
            let t = char_substr_from(text, wl);
            proof {
                crate::text::lemma_unit_tail_tail(orig, pos as int, wl as int);
                if all_bmp(orig) {
                    assert(t@ =~= orig.subrange(nextcur as int, orig.len() as int));
                }
            }
            let chunks = get_chunks(wordpos, nextcur, t.as_str(), total, Some(max_chunk_count), seg, Ghost(orig));
            prepend_all(&word, chunks, &mut ret, Ghost(orig));
        }
        proof {
            let first = chunk_views(ret@).subrange(before_ret.len() as int, chunk_views(ret@).len() as int);
            assert(chunk_views(ret@) =~= before_ret + first);
            assert(cand_chunks(pv, pos as int, text@, total_count as int, limit, maxc, minc, rest) == first + cand_chunks(
                pv,
                pos as int,
                text@,
                total_count as int,
                limit,
                maxc,
                minc,
                rest.drop_first(),
            ));
            assert(before_ret + (first + cand_chunks(pv, pos as int, text@, total_count as int, limit, maxc, minc, rest.drop_first()))
                =~= chunk_views(ret@) + cand_chunks(pv, pos as int, text@, total_count as int, limit, maxc, minc, rest.drop_first()));
        }
        idx += 1;
    }
    proof {
        assert(cands.subrange(idx as int, cands.len() as int) =~= Seq::<WordView>::empty());
        assert(chunk_views(ret@) + Seq::<Seq<WordView>>::empty() =~= chunk_views(ret@));
    }
    ret
}

/// The words of a chunk lie in order, none overlapping the next.
proof fn lemma_chain_ordered(orig: Seq<char>, ws: Seq<Word>, pos: int)
    requires
        chain(orig, ws, pos),
    ensures
        ordered_placed(orig, ws),
{
    assert forall|i: int, j: int| 0 <= i < j < ws.len() implies word_end(ws[i]@) <= ws[j]@.c->0 by {
        lemma_chain_step(orig, ws, pos, i, j);
    }
}

proof fn lemma_chain_step(orig: Seq<char>, ws: Seq<Word>, pos: int, i: int, j: int)
    requires
        chain(orig, ws, pos),
        0 <= i < j < ws.len(),
    ensures
        word_end(ws[i]@) <= ws[j]@.c->0,
    decreases j - i,
{
    assert(ws[j]@.c->0 == word_end(ws[j - 1]@));
    if j - 1 > i {
        lemma_chain_step(orig, ws, pos, i, j - 1);
        assert(placed(orig, ws[j - 1]@));
        lemma_placed(orig, ws[j - 1]@);
    }
}

/// The words of a chunk the table knows, in order.
pub open spec fn known_of(table: TableDict, c: Seq<WordView>) -> Seq<WordView>
    decreases c.len(),
{
    if c.len() == 0 {
        Seq::empty()
    } else {
        let prev = known_of(table, c.drop_last());
        if table.table@.contains_key(c.last().w) {
            prev.push(c.last())
        } else {
            prev
        }
    }
}

/// The words of `ws` the dictionary knows, in order.
#[verifier::spinoff_prover]
fn retain_known(ws: &Vec<Word>, table: &TableDict, Ghost(orig): Ghost<Seq<char>>) -> (r: Vec<Word>)
    requires
        ordered_placed(orig, ws@),
    ensures
        ordered_placed(orig, r@),
        forall|k: int| 0 <= k < r@.len() ==> table.table@.contains_key(#[trigger] r@[k].w@),
        views(r@) == known_of(*table, views(ws@)),
{
    let mut out: Vec<Word> = Vec::new();
    let mut idx: usize = 0;
    while idx < ws.len()
        invariant
            ordered_placed(orig, ws@),
            idx <= ws@.len(),
            ordered_placed(orig, out@),
            forall|k: int| 0 <= k < out@.len() ==> table.table@.contains_key(#[trigger] out@[k].w@),
            idx < ws@.len() ==> forall|k: int| 0 <= k < out@.len() ==> word_end(#[trigger] out@[k]@) <= ws@[idx as int]@.c->0,
            views(out@) == known_of(*table, views(ws@).subrange(0, idx as int)),
        decreases ws@.len() - idx,
    {
        let ghost before = out@;
        proof {
            let pre = views(ws@).subrange(0, idx + 1);
            assert(pre.drop_last() =~= views(ws@).subrange(0, idx as int));
            assert(pre.last() == ws@[idx as int]@);
        }
        if table.contains(ws[idx].w.as_str()) {
            let x = clone_word(&ws[idx]);
            proof {
                assert(x@ == ws@[idx as int]@);
            }
            out.push(x);
            proof {
                assert(views(out@) =~= views(before).push(x@));
                assert forall|k: int| 0 <= k < out@.len() implies placed(orig, #[trigger] out@[k]@) by {
                    if k < before.len() {
                        assert(out@[k] == before[k]);
                    }
                }
                assert forall|a: int, b: int|
                    #![trigger out@[a], out@[b]]
                    0 <= a < b < out@.len() implies word_end(out@[a]@) <= out@[b]@.c->0 by {
                    assert(out@[a] == before[a]);
                    if b < before.len() {
                        assert(out@[b] == before[b]);
                    }
                }
                assert forall|k: int| 0 <= k < out@.len() implies table.table@.contains_key(#[trigger] out@[k].w@) by {
                    if k < before.len() {
                        assert(out@[k] == before[k]);
                    }
                }
            }
        }
        proof {
            if idx + 1 < ws@.len() {
                assert(word_end(ws@[idx as int]@) <= ws@[idx + 1]@.c->0);
                assert(placed(orig, ws@[idx as int]@));
                lemma_placed(orig, ws@[idx as int]@);
                assert forall|k: int| 0 <= k < out@.len() implies word_end(#[trigger] out@[k]@) <= ws@[idx + 1]@.c->0 by {
                    if k < before.len() {
                        assert(out@[k] == before[k]);
                    }
                }
            }
        }
        idx += 1;
    }
    proof {
        assert(views(ws@).subrange(0, idx as int) =~= views(ws@));
    }
    out
}

/// Chooses one of the candidate chunks of a dictionary split. The comparison is made on
/// the candidates' floating-point weights (kept as bit patterns in the words), so how it
/// chooses is left to the implementor, as `choice`: the pick is a function of the chunks,
/// the word before, the text and the segmenter. The index returned is checked before it
/// is used. Nothing here checks an implementation: that `pick` returns `choice` (that is,
/// picks the same on the same arguments) is believed of each.
pub trait ChunkScorer {
    /// The index this scorer picks for these chunks of `text`, after `preword`.
    spec fn choice(&self, chunks: &Vec<Vec<Word>>, preword: Option<&Word>, text: &str, seg: &Segment) -> usize;

    fn pick(&self, chunks: &Vec<Vec<Word>>, preword: Option<&Word>, text: &str, seg: &Segment) -> (r: usize)
        ensures
            r == self.choice(chunks, preword, text, seg),
    ;
}

/// `k` is what the scorer picks among chunks that look like `cs` (the chunks over the
/// candidates of `text`), after `preword`.
pub open spec fn scorer_picks<S: ChunkScorer>(
    scorer: S,
    cs: Seq<Seq<WordView>>,
    preword: Option<&Word>,
    text: Seq<char>,
    seg: Segment,
    k: int,
) -> bool {
    exists|chunks: Vec<Vec<Word>>, txt: &str|
        chunk_views(chunks@) == cs && txt@ == text && k == #[trigger] scorer.choice(&chunks, preword, txt, &seg)
}

/// Some of the tag bits are set.
pub open spec fn has_any(p: u32, flags: u32) -> bool {
    p & flags != 0
}

/// The tag a following word is taken with: its dictionary tag, else its own.
pub open spec fn next_pos(seg: Segment, n: WordView) -> u32 {
    if seg.table.table@.contains_key(n.w) {
        seg.table.table@[n.w].p
    } else {
        view_pos(n)
    }
}

/// The bonus (in quarter points) a chunk's word `w` with tag `wp` gets for the words
/// around it: what follows from the word before it (`pw`) and the word after it (`next`).
pub open spec fn pair_bonus_spec(seg: Segment, pw: WordView, w: WordView, wp: u32, next: Option<WordView>) -> int {
    let pp = view_pos(pw);
    let b1: int = if pw.w == "年"@ && (w.w == "历史"@ || w.w == "歷史"@ || w.w == "歴史"@) {
        2
    } else {
        0
    };
    let b2: int = if has_any(pp, POSTAG::A_M) && (has_any(wp, POSTAG::A_Q) || seg.lexicon.datetime.table@.contains(w.w)) {
        4
    } else {
        0
    };
    let b3: int = if has_any(wp, POSTAG::D_V) && has_any(pp, POSTAG::D_D) {
        4
    } else {
        0
    };
    let b4: int = if has_any(pp, POSTAG::A_NS | POSTAG::A_NT | POSTAG::D_A) && has_any(
        wp,
        POSTAG::D_N | POSTAG::A_NR | POSTAG::A_NS | POSTAG::A_NZ | POSTAG::A_NT,
    ) {
        4
    } else {
        0
    };
    let b5: int = if has_any(pp, POSTAG::D_F) && has_any(wp, POSTAG::A_M | POSTAG::D_MQ) {
        4
    } else {
        0
    };
    let b6: int = if (seg.lexicon.family_name_1.table@.contains(pw.w) || seg.lexicon.family_name_2.table@.contains(pw.w))
        && has_any(wp, POSTAG::D_N | POSTAG::A_NZ) {
        4
    } else {
        0
    };
    let b7: int = if has_any(pp, POSTAG::D_S | POSTAG::A_NS) && has_any(wp, POSTAG::D_F) {
        2
    } else {
        0
    };
    b1 + b2 + b3 + b4 + b5 + b6 + b7 + next_bonus_spec(seg, pw, w, wp, pp, next)
}

/// The part of the bonus that depends on the word after `w`.
pub open spec fn next_bonus_spec(seg: Segment, pw: WordView, w: WordView, wp: u32, pp: u32, next: Option<WordView>) -> int {
    match next {
        Some(n) => {
            let np = next_pos(seg, n);
            let (c1, ok1) = if (w.w == "的"@ || w.w == "之"@) && np != 0 && has_any(
                np,
                POSTAG::D_N | POSTAG::D_V | POSTAG::A_NR | POSTAG::A_NS | POSTAG::A_NZ | POSTAG::A_NT,
            ) {
                (6int, false)
            } else if pp != 0 && has_any(wp, POSTAG::D_C) {
                let p = pp & np;
                if pp == np {
                    (4int, false)
                } else if p != 0 {
                    (if has_any(p, POSTAG::D_N) {
                        4int
                    } else {
                        1int
                    }, false)
                } else {
                    (0int, true)
                }
            } else {
                (0int, true)
            };
            let (c2, ok2) = if ok1 && has_any(wp, POSTAG::D_R) && has_any(np, POSTAG::D_P) {
                (4int, false)
            } else {
                (0int, ok1)
            };
            let (c3, ok3) = if ok2 && np != 0 && has_any(wp, POSTAG::D_P) && has_any(np, POSTAG::A_NR) && u16_len(n.w) > 1 {
                if pw.w == "的"@ {
                    (8int, false)
                } else {
                    (4int, ok2)
                }
            } else {
                (0int, ok2)
            };
            let c4: int = if ok3 && has_any(wp, POSTAG::D_P) {
                if has_any(pp, POSTAG::D_N) && has_any(np, POSTAG::D_N | POSTAG::D_V) {
                    4
                } else if has_any(pp, POSTAG::D_R) && has_any(np, POSTAG::D_R) {
                    2
                } else {
                    0
                }
            } else {
                0
            };
            let c5: int = if n.w == "后"@ && has_any(wp, POSTAG::D_T) && has_any(pp, POSTAG::D_MQ | POSTAG::A_M) {
                4
            } else if (n.w == "后"@ || n.w == "後"@) && has_any(wp, POSTAG::D_F) {
                4
            } else if (w.w == "后"@ || w.w == "後"@) && has_any(pp, POSTAG::D_F) && has_any(np, POSTAG::D_N) {
                4
            } else {
                0
            };
            c1 + c2 + c3 + c4 + c5
        },
        None => if has_any(wp, POSTAG::D_F) && has_any(pp, POSTAG::D_N) {
            4
        } else {
            0
        },
    }
}

/// The integer part of a chunk's assessment: the bonus, in quarter points, that word `w`
/// (tagged `wp` by the dictionary) gets from the word before it and the word after it.
pub fn pair_bonus(seg: &Segment, pw: &Word, w: &Word, wp: u32, next: Option<&Word>) -> (r: u32)
    ensures
        r == pair_bonus_spec(*seg, pw@, w@, wp, match next {
            Some(n) => Some(n@),
            None => None,
        }),
{
    let pp = pw.pos();
    let mut d: u32 = 0;
    if str_eq(pw.w.as_str(), "年") && (str_eq(w.w.as_str(), "历史") || str_eq(w.w.as_str(), "歷史") || str_eq(
        w.w.as_str(),
        "歴史",
    )) {
        d = d + 2;
    }
    if pp & POSTAG::A_M != 0 && (wp & POSTAG::A_Q != 0 || seg.lexicon.datetime.contains(w.w.as_str())) {
        d = d + 4;
    }
    if wp & POSTAG::D_V != 0 && pp & POSTAG::D_D != 0 {
        d = d + 4;
    }
    if pp & (POSTAG::A_NS | POSTAG::A_NT | POSTAG::D_A) != 0 && wp & (POSTAG::D_N | POSTAG::A_NR | POSTAG::A_NS
        | POSTAG::A_NZ | POSTAG::A_NT) != 0 {
        d = d + 4;
    }
    if pp & POSTAG::D_F != 0 && wp & (POSTAG::A_M | POSTAG::D_MQ) != 0 {
        d = d + 4;
    }
    if seg.lexicon.is_family_name(pw.w.as_str()) && wp & (POSTAG::D_N | POSTAG::A_NZ) != 0 {
        d = d + 4;
    }
    if pp & (POSTAG::D_S | POSTAG::A_NS) != 0 && wp & POSTAG::D_F != 0 {
        d = d + 2;
    }
    d + next_bonus(seg, pw, w, wp, pp, next)
}

fn next_bonus(seg: &Segment, pw: &Word, w: &Word, wp: u32, pp: u32, next: Option<&Word>) -> (r: u32)
    ensures
        r == next_bonus_spec(*seg, pw@, w@, wp, pp, match next {
            Some(n) => Some(n@),
            None => None,
        }),
        r <= 24,
{
    match next {
        Some(n) => {
            let np = match seg.table.get(n.w.as_str()) {
                Some(e) => e.p,
                None => n.pos(),
            };
            let mut d: u32 = 0;
            let mut ok = true;
            if (str_eq(w.w.as_str(), "的") || str_eq(w.w.as_str(), "之")) && np != 0 && np & (POSTAG::D_N | POSTAG::D_V
                | POSTAG::A_NR | POSTAG::A_NS | POSTAG::A_NZ | POSTAG::A_NT) != 0 {
                d = 6;
                ok = false;
            } else if pp != 0 && wp & POSTAG::D_C != 0 {
                let p = pp & np;
                if pp == np {
                    d = 4;
                    ok = false;
                } else if p != 0 {
                    d = if p & POSTAG::D_N != 0 {
                        4
                    } else {
                        1
                    };
                    ok = false;
                }
            }
            if ok && wp & POSTAG::D_R != 0 && np & POSTAG::D_P != 0 {
                d = d + 4;
                ok = false;
            }
            if ok && np != 0 && wp & POSTAG::D_P != 0 && np & POSTAG::A_NR != 0 && char_len(n.w.as_str()) > 1 {
                d = d + 4;
                if str_eq(pw.w.as_str(), "的") {
                    d = d + 4;
                    ok = false;
                }
            }
            if ok && wp & POSTAG::D_P != 0 {
                if pp & POSTAG::D_N != 0 && np & (POSTAG::D_N | POSTAG::D_V) != 0 {
                    d = d + 4;
                } else if pp & POSTAG::D_R != 0 && np & POSTAG::D_R != 0 {
                    d = d + 2;
                }
            }
            if str_eq(n.w.as_str(), "后") && wp & POSTAG::D_T != 0 && pp & (POSTAG::D_MQ | POSTAG::A_M) != 0 {
                d = d + 4;
            } else if (str_eq(n.w.as_str(), "后") || str_eq(n.w.as_str(), "後")) && wp & POSTAG::D_F != 0 {
                d = d + 4;
            } else if (str_eq(w.w.as_str(), "后") || str_eq(w.w.as_str(), "後")) && pp & POSTAG::D_F != 0 && np
                & POSTAG::D_N != 0 {
                d = d + 4;
            }
            d
        },
        None => {
            if wp & POSTAG::D_F != 0 && pp & POSTAG::D_N != 0 {
                4
            } else {
                0
            }
        },
    }
}

/// Candidates by position for a text: the placed words at each position, or else the char
/// found there.
pub open spec fn pos_table(ws: Seq<WordView>, text: Seq<char>) -> Seq<Seq<WordView>> {
    Seq::new(u16_len(text) + 1, |i: int| pos_info_at(ws, text, i as usize))
}

/// The chunks a dictionary split chooses from: all chunks over the candidates of the text.
pub open spec fn split_chunks(ws: Seq<WordView>, text: Seq<char>, maxc: usize, minc: usize) -> Seq<Seq<WordView>> {
    chunks_from(pos_table(ws, text), 0, text, 0, None, maxc, minc)
}

/// Every chunk over the candidates `words` placed in `text` (single chars where a position
/// has none).
pub fn word_chunks(words: &Vec<Word>, text: &str, seg: &Segment) -> (r: Vec<Vec<Word>>)
    requires
        seg.max_chunk_count < usize::MAX,
        u16_len(text@) < usize::MAX,
        forall|k: int| 0 <= k < words@.len() ==> placed(text@, #[trigger] words@[k]@),
    ensures
        chunk_views(r@) == split_chunks(views(words@), text@, seg.max_chunk_count, seg.min_chunk_count),
        forall|k: int| 0 <= k < r@.len() ==> chain(text@, #[trigger] r@[k]@, 0),
{
    let n = char_len(text);
    let wordpos = get_pos_info(words, text, n);
    proof {
        assert(text@.subrange(0, text@.len() as int) =~= text@);
        assert forall|i: int| 0 <= i < wordpos@.len() implies #[trigger] pos_views(wordpos@)[i] == pos_table(views(words@), text@)[i] by {
            assert(views(wordpos@[i]@) =~= wordpos@[i]@.map_values(|w: Word| w@));
        }
        assert(pos_views(wordpos@) =~= pos_table(views(words@), text@));
    }
    proof {
        crate::text::lemma_decode_encode(text@);
        crate::text::lemma_encode_len_bound(text@);
        if text@.len() > 0 {
            assert(encode_utf16(text@).subrange(0, encode_utf16(text@).len() as int) =~= encode_utf16(text@));
        }
        assert(text@ == unit_tail(text@, 0));
    }
    get_chunks(&wordpos, 0, text, 0, None, seg, Ghost(text@))
}

/// The known words of the chunk at `top`, or of the first chunk when `top` is out of range.
pub fn chosen_known(chunks: &Vec<Vec<Word>>, top: usize, text: &str, table: &TableDict) -> (r: Vec<Word>)
    requires
        chunks@.len() > 0,
        forall|k: int| 0 <= k < chunks@.len() ==> chain(text@, #[trigger] chunks@[k]@, 0),
    ensures
        views(r@) == known_of(
            *table,
            chunk_views(chunks@)[if top < chunks@.len() {
                top as int
            } else {
                0
            }],
        ),
        ordered_placed(text@, r@),
        forall|k: int| 0 <= k < r@.len() ==> table.table@.contains_key(#[trigger] r@[k].w@),
{
    let k = if top < chunks.len() {
        top
    } else {
        0
    };
    proof {
        lemma_chain_ordered(text@, chunks@[k as int]@, 0);
    }
    retain_known(&chunks[k], table, Ghost(text@))
}

/// The candidates kept for one word when chunk `top` is picked: the known words of that
/// chunk of the candidates' chunks (of the first when `top` is out of range); nothing for an
/// empty text without candidates, a text too long to index, or no chunk at all.
pub open spec fn picked_known(
    table: TableDict,
    maxc: usize,
    minc: usize,
    ws: Seq<WordView>,
    text: Seq<char>,
    top: int,
) -> Seq<WordView> {
    let cs = split_chunks(ws, text, maxc, minc);
    if (ws.len() == 0 && text.len() == 0) || u16_len(text) == usize::MAX || cs.len() == 0 {
        Seq::empty()
    } else {
        known_of(
            table,
            cs[if 0 <= top < cs.len() {
                top
            } else {
                0
            }],
        )
    }
}

/// The candidates kept for one word when the chunk at index `top` is picked.
pub fn filter_word_picked(words: &Vec<Word>, text: &str, seg: &Segment, top: usize) -> (r: Vec<Word>)
    requires
        seg.wf(),
        seg.max_chunk_count < usize::MAX,
        forall|k: int| 0 <= k < words@.len() ==> placed(text@, #[trigger] words@[k]@),
    ensures
        views(r@) == picked_known(seg.table, seg.max_chunk_count, seg.min_chunk_count, views(words@), text@, top as int),
        ordered_placed(text@, r@),
        forall|k: int| 0 <= k < r@.len() ==> seg.table.table@.contains_key(#[trigger] r@[k].w@),
{
    if words.len() == 0 && text.is_empty() {
        return Vec::new();
    }
    let n = char_len(text);
    if n == usize::MAX {
        // No position list one past the end of such a text fits in memory.
        return Vec::new();
    }
    let chunks = word_chunks(words, text, seg);
    if chunks.len() == 0 {
        return Vec::new();
    }
    chosen_known(&chunks, top, text, &seg.table)
}

/// The candidates kept for one word: the chunks over its candidates, the one the scorer
/// picks (the first if its index is out of range), and of that the known words.
pub fn filter_word<S: ChunkScorer>(
    words: &Vec<Word>,
    preword: Option<&Word>,
    text: &str,
    seg: &Segment,
    scorer: &S,
) -> (r: Vec<Word>)
    requires
        seg.wf(),
        seg.max_chunk_count < usize::MAX,
        forall|k: int| 0 <= k < words@.len() ==> placed(text@, #[trigger] words@[k]@),
    ensures
        ordered_placed(text@, r@),
        forall|k: int| 0 <= k < r@.len() ==> seg.table.table@.contains_key(#[trigger] r@[k].w@),
        (words@.len() == 0 && text@.len() == 0) || u16_len(text@) == usize::MAX ==> r@.len() == 0,
        !((words@.len() == 0 && text@.len() == 0) || u16_len(text@) == usize::MAX) ==> ({
            let cs = split_chunks(views(words@), text@, seg.max_chunk_count, seg.min_chunk_count);
            &&& cs.len() == 0 ==> r@.len() == 0
            &&& cs.len() > 0 ==> exists|k: int|
                scorer_picks(*scorer, cs, preword, text@, *seg, k) && views(r@) == #[trigger] picked_known(
                    seg.table,
                    seg.max_chunk_count,
                    seg.min_chunk_count,
                    views(words@),
                    text@,
                    k,
                )
        }),
{
    if words.len() == 0 && text.is_empty() {
        proof {
            assert(picked_known(seg.table, seg.max_chunk_count, seg.min_chunk_count, views(words@), text@, 0) =~= Seq::<WordView>::empty());
        }
        return Vec::new();
    }
    let n = char_len(text);
    if n == usize::MAX {
        // No position list one past the end of such a text fits in memory.
        proof {
            assert(picked_known(seg.table, seg.max_chunk_count, seg.min_chunk_count, views(words@), text@, 0) =~= Seq::<WordView>::empty());
        }
        return Vec::new();
    }
    let chunks = word_chunks(words, text, seg);
    if chunks.len() == 0 {
        proof {
            assert(picked_known(seg.table, seg.max_chunk_count, seg.min_chunk_count, views(words@), text@, 0) =~= Seq::<WordView>::empty());
        }
        return Vec::new();
    }
    let top = scorer.pick(&chunks, preword, text, seg);
    let r = chosen_known(&chunks, top, text, &seg.table);
    proof {
        let cs = split_chunks(views(words@), text@, seg.max_chunk_count, seg.min_chunk_count);
        let k = if top < chunks@.len() {
            top as int
        } else {
            0
        };
        assert(views(r@) == known_of(seg.table, cs[k]));
        assert(views(r@) == picked_known(seg.table, seg.max_chunk_count, seg.min_chunk_count, views(words@), text@, top as int));
        assert(scorer_picks(*scorer, cs, preword, text@, *seg, top as int));
    }
    r
}

/// A chosen candidate as an output word: the dictionary's POS and native flag, the
/// candidate's weight (or the dictionary's); without an entry, the text and weight only.
pub open spec fn known_view(table: TableDict, bw: WordView) -> WordView {
    if table.table@.contains_key(bw.w) {
        let e = table.table@[bw.w];
        WordView {
            w: bw.w,
            p: Some(e.p),
            f: if bw.f is Some {
                bw.f
            } else {
                Some(e.f)
            },
            c: None,
            s: Some(e.s),
            ow: None,
            op: None,
            m: None,
            auto_create: false,
            os: None,
        }
    } else {
        WordView { w: bw.w, p: None, f: bw.f, c: None, s: None, ow: None, op: None, m: None, auto_create: false, os: None }
    }
}

/// A chosen candidate as an output word.
fn known_word(bw: &Word, table: &TableDict) -> (r: Word)
    ensures
        r.w@ == bw.w@,
        r@ == known_view(*table, bw@),
{
    let w = bw.w.clone();
    match table.get(w.as_str()) {
        Some(e) => {
            let f = match bw.f {
                Some(f) => Some(f),
                None => Some(e.f),
            };
            let mut x = Word::from_string(w);
            x.p = Some(e.p);
            x.f = f;
            x.s = Some(e.s);
            x
        },
        None => {
            let mut x = Word::from_string(w);
            x.f = bw.f;
            x
        },
    }
}

/// The words a split word is rebuilt into from unit `lastc` on: the text before each chosen
/// candidate as a plain word, the candidate as an output word, and the text after the last.
pub open spec fn rebuilt(text: Seq<char>, info: Seq<WordView>, table: TableDict, lastc: int) -> Seq<WordView>
    decreases info.len(),
{
    if info.len() == 0 {
        if lastc < u16_len(text) {
            seq![plain_view((unit_tail(text, lastc), None))]
        } else {
            Seq::empty()
        }
    } else {
        let bw = info[0];
        let c = match bw.c {
            Some(c) => c as int,
            None => 0,
        };
        let gap = if c > lastc {
            seq![plain_view((unit_slice(text, lastc, c - lastc), None))]
        } else {
            Seq::empty()
        };
        gap + seq![known_view(table, bw)] + rebuilt(text, info.drop_first(), table, c + u16_len(bw.w))
    }
}

/// No word holds U+FFFD, the char a lone surrogate decodes to.
pub open spec fn no_fffd_words(ws: Seq<Word>) -> bool {
    forall|k: int| 0 <= k < ws.len() ==> !(#[trigger] ws[k]).w@.contains('\u{FFFD}')
}

/// Words for one split word: the text between the chosen candidates as plain words, the
/// candidates as dictionary words. They spell the word on BMP text, and on any text when no
/// chosen word holds U+FFFD.
#[verifier::spinoff_prover]
#[verifier::rlimit(80)]
fn rebuild(text: &str, info: &Vec<Word>, table: &TableDict, out: &mut Vec<Word>)
    requires
        ordered_placed(text@, info@),
    ensures
        views(final(out)@) == views(old(out)@) + rebuilt(text@, views(info@), *table, 0),
        all_bmp(text@) ==> text_of(final(out)@) == text_of(old(out)@) + text@,
        no_fffd_words(info@) ==> text_of(final(out)@) == text_of(old(out)@) + text@,
        !no_fffd_words(info@) ==> text_of(final(out)@).contains('\u{FFFD}'),
        final(out)@.len() >= old(out)@.len(),
        final(out)@.subrange(0, old(out)@.len() as int) == old(out)@,
{
    let ghost before = out@;
    let ghost iv = views(info@);
    let ghost u = encode_utf16(text@);
    let ghost clean = no_fffd_words(info@);
    let n = char_len(text);
    let mut lastc: usize = 0;
    let mut idx: usize = 0;
    proof {
        if all_bmp(text@) {
            lemma_bmp_units(text@);
            assert(text@.subrange(0, 0) =~= Seq::<char>::empty());
            assert(text_of(before) + Seq::<char>::empty() =~= text_of(before));
        }
        assert(iv.subrange(0, iv.len() as int) =~= iv);
        if u.len() > 0 && crate::text::is_low_surrogate(u[0]) {
            crate::text::lemma_low_follows_high(text@, 0);
        }
        assert(decode_utf16_lossy(u.subrange(0, 0)) =~= Seq::<char>::empty()) by {
            assert(u.subrange(0, 0) =~= Seq::<u16>::empty());
        }
        assert(text_of(before) + Seq::<char>::empty() =~= text_of(before));
        assert(views(out@) + rebuilt(text@, iv, *table, 0) =~= views(before) + rebuilt(text@, iv, *table, 0));
    }
    while idx < info.len()
        invariant
            n == u16_len(text@),
            ordered_placed(text@, info@),
            iv == views(info@),
            idx <= info@.len(),
            lastc <= n,
            idx < info@.len() ==> lastc <= info@[idx as int]@.c->0,
            all_bmp(text@) ==> lastc <= text@.len() && text_of(out@) == text_of(before) + text@.subrange(0, lastc as int),
            u == encode_utf16(text@),
            clean == no_fffd_words(info@),
            out@.len() >= before.len(),
            out@.subrange(0, before.len() as int) == before,
            (exists|j: int| 0 <= j < idx && (#[trigger] info@[j]).w@.contains('\u{FFFD}')) ==> text_of(out@).contains('\u{FFFD}'),
            clean ==> crate::text::unit_boundary(text@, lastc as int) && text_of(out@) == text_of(before)
                + decode_utf16_lossy(u.subrange(0, lastc as int)),
            views(out@) + rebuilt(text@, iv.subrange(idx as int, iv.len() as int), *table, lastc as int) == views(before)
                + rebuilt(text@, iv, *table, 0),
        decreases info@.len() - idx,
    {
        let bw = &info[idx];
        let ghost rest = iv.subrange(idx as int, iv.len() as int);
        let ghost out0 = views(out@);
        proof {
            assert(placed(text@, info@[idx as int]@));
            lemma_placed(text@, bw@);
            assert(rest[0] == bw@);
            assert(rest.drop_first() =~= iv.subrange(idx + 1, iv.len() as int));
            if clean {
                reveal(placed);
                assert(!info@[idx as int].w@.contains('\u{FFFD}'));
                crate::text::lemma_piece_boundaries(text@, bw.c->0 as int, u16_len(bw.w@) as int);
            }
        }
        let c = match bw.c {
            Some(c) => c,
            None => 0,
        };
        let ghost mid_before = out@;
        if c > lastc {
            let g = Word::new(char_slice(text, lastc, c - lastc).as_str());
            proof {
                lemma_text_of_push(out@, g);
                if all_bmp(text@) {
                    lemma_bmp_units(text@);
                    assert(text@.subrange(0, lastc as int) + text@.subrange(lastc as int, c as int) =~= text@.subrange(0, c as int));
                }
                assert(g@ == plain_view((unit_slice(text@, lastc as int, c - lastc), None)));
                if clean {
                    reveal(placed);
                    crate::text::lemma_decode_join(text@, 0, lastc as int, c as int);
                    assert(g.w@ == decode_utf16_lossy(u.subrange(lastc as int, c as int)));
                }
            }
            out.push(g);
        }
        let ghost gap = views(out@).subrange(out0.len() as int, views(out@).len() as int);
        proof {
            assert(views(out@) =~= out0 + gap);
            if c > lastc {
                assert(gap =~= seq![plain_view((unit_slice(text@, lastc as int, c - lastc), None))]);
            } else {
                assert(gap =~= Seq::<WordView>::empty());
            }
        }
        let x = known_word(bw, table);
        let wl = char_len(bw.w.as_str());
        proof {
            lemma_text_of_push(out@, x);
            if all_bmp(text@) {
                lemma_bmp_units(text@);
                crate::tokenizers::lemma_bmp_sub(text@, c as int, c + bw.w@.len());
                lemma_bmp_units(bw.w@);
                assert(text@.subrange(0, c as int) + bw.w@ =~= text@.subrange(0, c + wl));
            }
            if clean {
                reveal(placed);
                crate::text::lemma_decode_join(text@, 0, c as int, c + wl);
                assert(bw.w@ == decode_utf16_lossy(u.subrange(c as int, c + wl)));
                if c <= lastc {
                    assert(c == lastc);
                }
            }
        }
        let ghost out1 = views(out@);
        let ghost wout = out@;
        out.push(x);
        proof {
            lemma_text_of_push(wout, x);
            crate::word::lemma_concat_contains(text_of(wout), x.w@, '\u{FFFD}');
            if c > lastc {
                lemma_text_of_push(mid_before, out@[mid_before.len() as int]);
                assert(wout =~= mid_before.push(out@[mid_before.len() as int]));
                crate::word::lemma_concat_contains(text_of(mid_before), wout.last().w@, '\u{FFFD}');
            } else {
                assert(wout == mid_before);
            }
            assert(out@.subrange(0, before.len() as int) =~= before) by {
                assert(wout.subrange(0, before.len() as int) == before);
            }
            if exists|j: int| 0 <= j < idx + 1 && (#[trigger] info@[j]).w@.contains('\u{FFFD}') {
                let j = choose|j: int| 0 <= j < idx + 1 && (#[trigger] info@[j]).w@.contains('\u{FFFD}');
                if j == idx {
                    assert(x.w@ == info@[idx as int].w@);
                }
            }
        }
        proof {
            if idx + 1 < info@.len() {
                assert(word_end(info@[idx as int]@) <= info@[idx + 1]@.c->0);
            }
            assert(views(out@) =~= out1.push(x@));
            assert(rebuilt(text@, rest, *table, lastc as int) == gap + seq![known_view(*table, bw@)] + rebuilt(
                text@,
                rest.drop_first(),
                *table,
                c + wl,
            ));
            assert(views(out@) + rebuilt(text@, rest.drop_first(), *table, c + wl) =~= out0 + (gap + seq![known_view(*table, bw@)]
                + rebuilt(text@, rest.drop_first(), *table, c + wl)));
        }
        lastc = c + wl;
        idx += 1;
    }
    let ghost out2 = views(out@);
    proof {
        assert(iv.subrange(idx as int, iv.len() as int) =~= Seq::<WordView>::empty());
    }
    proof {
        if !clean {
            let j = choose|j: int| 0 <= j < info@.len() && !!(#[trigger] info@[j]).w@.contains('\u{FFFD}');
            assert(info@[j].w@.contains('\u{FFFD}'));
        }
    }
    if lastc < n {
        let t = Word::new(char_substr_from(text, lastc).as_str());
        proof {
            lemma_text_of_push(out@, t);
            crate::word::lemma_concat_contains(text_of(out@), t.w@, '\u{FFFD}');
            assert(out@.push(t).subrange(0, before.len() as int) =~= out@.subrange(0, before.len() as int));
            if all_bmp(text@) {
                lemma_bmp_units(text@);
                assert(text@.subrange(0, lastc as int) + text@.subrange(lastc as int, text@.len() as int) =~= text@);
            }
            assert(t@ == plain_view((unit_tail(text@, lastc as int), None)));
            if clean {
                crate::text::lemma_decode_join(text@, 0, lastc as int, n as int);
                crate::text::lemma_decode_encode(text@);
                assert(u.subrange(0, n as int) =~= u);
            }
        }
        out.push(t);
        proof {
            assert(views(out@) =~= out2 + seq![t@]);
        }
    } else {
        proof {
            if all_bmp(text@) {
                lemma_bmp_units(text@);
                assert(text@.subrange(0, lastc as int) =~= text@);
            }
            if clean {
                crate::text::lemma_decode_encode(text@);
                assert(u.subrange(0, lastc as int) =~= u);
            }
            assert(out2 + Seq::<WordView>::empty() =~= out2);
        }
    }
}

/// What the dictionary split keeps of a text `t` when the scorer picks chunk `k`: the known
/// words of that chunk of its candidates; nothing for an empty text without candidates, a
/// text too long to index, or a pick out of range.
pub open spec fn dict_info(table: TableDict, maxc: usize, minc: usize, t: Seq<char>, k: int) -> Seq<WordView> {
    picked_known(table, maxc, minc, cands_upto(table, t, u16_len(t) as int), t, k)
}

/// The scorer is asked to pick for word `w`: the word has no POS, and its text has chunks.
pub open spec fn dict_consults(seg: Segment, w: WordView) -> bool {
    let t = w.w;
    let cands = cands_upto(seg.table, t, u16_len(t) as int);
    view_pos(w) == 0 && !((cands.len() == 0 && t.len() == 0) || u16_len(t) == usize::MAX) && split_chunks(
        cands,
        t,
        seg.max_chunk_count,
        seg.min_chunk_count,
    ).len() > 0
}

/// `k` is the pick for word `i` of `ws`: where the scorer is asked, what it picks among the
/// chunks of the word's text, after the word before it.
pub open spec fn dict_pick_ok<S: ChunkScorer>(seg: Segment, scorer: S, ws: Seq<Word>, i: int, k: int) -> bool {
    let t = ws[i].w@;
    let cs = split_chunks(cands_upto(seg.table, t, u16_len(t) as int), t, seg.max_chunk_count, seg.min_chunk_count);
    let pre = if i > 0 {
        Some(&ws[i - 1])
    } else {
        None
    };
    dict_consults(seg, ws[i]@) ==> scorer_picks(scorer, cs, pre, t, seg, k)
}

/// What the dictionary split makes of word `w` with pick `k`: a recognized word stays;
/// otherwise its text rebuilt around the kept words, or the word itself when none is kept.
pub open spec fn dict_piece(table: TableDict, maxc: usize, minc: usize, w: WordView, k: int) -> Seq<WordView> {
    if view_pos(w) > 0 {
        seq![w]
    } else {
        let info = dict_info(table, maxc, minc, w.w, k);
        if info.len() > 0 {
            rebuilt(w.w, info, table, 0)
        } else {
            seq![w]
        }
    }
}

/// The dictionary split of the words `ws` with the picks `ks`, word by word.
pub open spec fn dict_split(table: TableDict, maxc: usize, minc: usize, ws: Seq<WordView>, ks: Seq<int>) -> Seq<WordView>
    decreases ws.len(),
{
    if ws.len() == 0 {
        Seq::empty()
    } else {
        dict_split(table, maxc, minc, ws.drop_last(), ks.drop_last()) + dict_piece(table, maxc, minc, ws.last(), ks.last())
    }
}

/// `r` is the dictionary split of `ws` with the scorer's picks.
pub open spec fn dict_split_by<S: ChunkScorer>(seg: Segment, scorer: S, ws: Seq<Word>, r: Seq<Word>) -> bool {
    exists|ks: Seq<int>|
        {
            &&& ks.len() == ws.len()
            &&& forall|i: int| 0 <= i < ks.len() ==> dict_pick_ok(seg, scorer, ws, i, #[trigger] ks[i])
            &&& views(r) == dict_split(seg.table, seg.max_chunk_count, seg.min_chunk_count, views(ws), ks)
        }
}

/// Splits unrecognized words into dictionary words (maximum matching over chunks of
/// candidates).
pub struct DictTokenizer;

impl DictTokenizer {
    pub fn name(&self) -> (r: &'static str)
        ensures
            r@ == crate::pipeline::DICT_TOKENIZER@,
    {
        crate::pipeline::DICT_TOKENIZER
    }

    /// Split each unrecognized word at the dictionary words of the chunk the scorer picks;
    /// other words pass through. The words still spell the text when it is BMP or when no
    /// dictionary word holds U+FFFD.
    pub fn split<S: ChunkScorer>(&self, words: Vec<Word>, seg: &Segment, scorer: &S) -> (r: Vec<Word>)
        requires
            seg.wf(),
            seg.max_chunk_count < usize::MAX,
        ensures
            all_bmp(text_of(words@)) || seg.table.no_fffd_keys() ==> text_of(r@) == text_of(words@),
            dict_split_by(*seg, *scorer, words@, r@),
            text_of(r@) == text_of(words@) || text_of(r@).contains('\u{FFFD}'),
    {
        let ghost table = seg.table;
        let ghost maxc = seg.max_chunk_count;
        let ghost minc = seg.min_chunk_count;
        let ghost mut ks: Seq<int> = Seq::empty();
        let mut ret: Vec<Word> = Vec::new();
        let mut i: usize = 0;
        while i < words.len()
            invariant
                seg.wf(),
                seg.max_chunk_count < usize::MAX,
                table == seg.table,
                maxc == seg.max_chunk_count,
                minc == seg.min_chunk_count,
                ks.len() == i,
                forall|j: int| 0 <= j < ks.len() ==> dict_pick_ok(*seg, *scorer, words@, j, #[trigger] ks[j]),
                i <= words@.len(),
                all_bmp(text_of(words@)) || seg.table.no_fffd_keys() ==> text_of(ret@) == text_of(
                    words@.subrange(0, i as int),
                ),
                text_of(ret@) == text_of(words@.subrange(0, i as int)) || text_of(ret@).contains('\u{FFFD}'),
                views(ret@) == dict_split(table, maxc, minc, views(words@).subrange(0, i as int), ks),
            decreases words@.len() - i,
        {
            let word = &words[i];
            let ghost before = ret@;
            let ghost wv = word@;
            let ghost t = word.w@;
            let ghost mut k: int = 0;
            proof {
                assert(words@.subrange(0, i + 1) =~= words@.subrange(0, i as int).push(words@[i as int]));
                lemma_text_of_push(words@.subrange(0, i as int), words@[i as int]);
                if all_bmp(text_of(words@)) {
                    crate::tokenizers::lemma_bmp_word(words@, i as int);
                }
                let pre = views(words@).subrange(0, i + 1);
                assert(pre.drop_last() =~= views(words@).subrange(0, i as int));
                assert(pre.last() == wv);
                assert(views(words@)[i as int] == wv);
            }
            let mut done = false;
            if !word.is_recognized() {
                let pre = if i > 0 {
                    Some(&words[i - 1])
                } else {
                    None
                };
                let wt = word.w.as_str();
                let cands = match_word(wt, &seg.table);
                let info = filter_word(&cands, pre, wt, seg, scorer);
                proof {
                    let cs = split_chunks(views(cands@), t, maxc, minc);
                    let special = (cands@.len() == 0 && t.len() == 0) || u16_len(t) == usize::MAX;
                    if !special && cs.len() > 0 {
                        k = choose|k: int|
                            scorer_picks(*scorer, cs, pre, t, *seg, k) && views(info@) == #[trigger] picked_known(
                                table,
                                maxc,
                                minc,
                                views(cands@),
                                t,
                                k,
                            );
                        assert(pre == (if i > 0 {
                            Some(&words@[i - 1])
                        } else {
                            None
                        }));
                    }
                    assert(views(info@) == dict_info(table, maxc, minc, t, k));
                    let cs2 = split_chunks(cands_upto(seg.table, t, u16_len(t) as int), t, seg.max_chunk_count, seg.min_chunk_count);
                    let pre2 = if i > 0 {
                        Some(&words@[i - 1])
                    } else {
                        None
                    };
                    assert(cs2 == cs);
                    if dict_consults(*seg, words@[i as int]@) {
                        assert(!special && cs.len() > 0);
                        assert(pre2 == pre);
                        assert(scorer_picks(*scorer, cs2, pre2, t, *seg, k));
                    }
                    assert(dict_pick_ok(*seg, *scorer, words@, i as int, k));
                }
                proof {
                    if seg.table.no_fffd_keys() {
                        assert forall|j: int| 0 <= j < info@.len() implies !(#[trigger] info@[j]).w@.contains('\u{FFFD}') by {
                            assert(seg.table.table@.contains_key(info@[j].w@));
                        }
                    }
                }
                if info.len() > 0 {
                    rebuild(word.w.as_str(), &info, &seg.table, &mut ret);
                    done = true;
                    proof {
                        crate::word::lemma_text_of_split(ret@, before.len() as int);
                        let added = ret@.subrange(before.len() as int, ret@.len() as int);
                        crate::word::lemma_concat_contains(text_of(before), text_of(added), '\u{FFFD}');
                        crate::word::lemma_concat_contains(text_of(before), t, '\u{FFFD}');
                        if !no_fffd_words(info@) {
                            crate::word::lemma_concat_contains(text_of(before), text_of(added), '\u{FFFD}');
                        }
                    }
                }
            }
            if !done {
                let x = clone_word(word);
                proof {
                    lemma_text_of_push(before, x);
                }
                ret.push(x);
                proof {
                    crate::word::lemma_concat_contains(text_of(before), x.w@, '\u{FFFD}');
                    assert(views(ret@) =~= views(before) + seq![wv]);
                }
            }
            proof {
                if word.pos_of() > 0 {
                    assert(dict_pick_ok(*seg, *scorer, words@, i as int, k));
                }
                assert(views(ret@) == views(before) + dict_piece(table, maxc, minc, wv, k));
                let ks2 = ks.push(k);
                assert(ks2.drop_last() =~= ks);
                ks = ks2;
                assert forall|j: int| 0 <= j < ks.len() implies dict_pick_ok(*seg, *scorer, words@, j, #[trigger] ks[j]) by {
                    if j < i {
                        assert(ks[j] == ks2.drop_last()[j]);
                    }
                }
            }
            i += 1;
        }
        proof {
            assert(words@.subrange(0, words@.len() as int) =~= words@);
            assert(views(words@).subrange(0, words@.len() as int) =~= views(words@));
        }
        ret
    }
}

} // verus!
