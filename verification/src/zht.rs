//! Traditional-Chinese synonym optimizer: picks the traditional form of ambiguous
//! simplified characters from their neighbours.
use vstd::prelude::*;
use crate::optimizers::{merge_at, merge_words, range_end, spliced, view_pos};
use crate::pipeline::ZHT_SYNONYM_OPTIMIZER;
use crate::postag::POSTAG;
use crate::re::{
    concat_pieces, lemma_concat_push, regex_captures_all, regex_is_match, regex_replace_groups,
    regex_valid, RE_FA_SUFFIX, RE_HOU, RE_LI, RE_LI_SUFFIX, RE_SHEN, RE_YU_SUFFIX,
};
use crate::segment::Segment;
use crate::strs::{chars_of, concat_str, ends_with, has_prefix, has_suffix, starts_with, str_eq, string_from_chars, to_owned_string};
use crate::text::{char_len, u16_len};
use crate::word::{clone_word, text_of, views, Word, WordView};

verus! {

/// The text a word had before any replacement: `ow` when set, else `w`.
pub open spec fn source_of(w: Word) -> Seq<char> {
    match w.ow {
        Some(o) => o@,
        None => w.w@,
    }
}

/// The words' earlier texts laid end to end.
pub open spec fn source_text(ws: Seq<Word>) -> Seq<char> {
    concat_pieces(ws.map_values(|w: Word| source_of(w)))
}

/// No word has been replaced yet.
pub open spec fn unreplaced(ws: Seq<Word>) -> bool {
    forall|k: int| 0 <= k < ws.len() ==> (#[trigger] ws[k]).ow is None
}

proof fn lemma_concat_add(a: Seq<Seq<char>>, b: Seq<Seq<char>>)
    ensures
        concat_pieces(a + b) == concat_pieces(a) + concat_pieces(b),
    decreases b.len(),
{
    if b.len() == 0 {
        assert(a + b =~= a);
        assert(concat_pieces(a) + Seq::<char>::empty() =~= concat_pieces(a));
    } else {
        lemma_concat_add(a, b.drop_last());
        assert((a + b).drop_last() =~= a + b.drop_last());
        assert(concat_pieces(a) + concat_pieces(b.drop_last()) + b.last() =~= concat_pieces(a) + (
        concat_pieces(b.drop_last()) + b.last()));
    }
}

/// Without replacements the earlier text is the text.
proof fn lemma_source_plain(ws: Seq<Word>)
    requires
        unreplaced(ws),
    ensures
        source_text(ws) == text_of(ws),
    decreases ws.len(),
{
    if ws.len() > 0 {
        let d = ws.drop_last();
        assert(unreplaced(d)) by {
            assert forall|k: int| 0 <= k < d.len() implies (#[trigger] d[k]).ow is None by {
                assert(d[k] == ws[k]);
            }
        }
        lemma_source_plain(d);
        assert(ws.map_values(|w: Word| source_of(w)) =~= d.map_values(|w: Word| source_of(w)).push(
            source_of(ws.last()),
        ));
        lemma_concat_push(d.map_values(|w: Word| source_of(w)), source_of(ws.last()));
        assert(ws[ws.len() - 1].ow is None);
    }
}

/// Putting a word with the same earlier text in place keeps the earlier text.
proof fn lemma_source_update(ws: Seq<Word>, i: int, x: Word)
    requires
        0 <= i < ws.len(),
        source_of(x) == source_of(ws[i]),
    ensures
        source_text(ws.update(i, x)) == source_text(ws),
{
    assert(ws.update(i, x).map_values(|w: Word| source_of(w)) =~= ws.map_values(|w: Word| source_of(w)));
}

/// Merging two unreplaced words into one with their joined text keeps the earlier text.
proof fn lemma_source_merge(ws: Seq<Word>, i: int, x: Word)
    requires
        0 <= i,
        i + 2 <= ws.len(),
        ws[i].ow is None,
        ws[i + 1].ow is None,
        x.ow is None,
        x.w@ == ws[i].w@ + ws[i + 1].w@,
    ensures
        source_text(spliced(ws, i, i + 2, x)) == source_text(ws),
{
    let f = |w: Word| source_of(w);
    let a = ws.subrange(0, i);
    let c = ws.subrange(i + 2, ws.len() as int);
    assert(spliced(ws, i, i + 2, x).map_values(f) =~= a.map_values(f) + seq![x.w@] + c.map_values(f));
    assert(ws.map_values(f) =~= a.map_values(f) + seq![ws[i].w@, ws[i + 1].w@] + c.map_values(f));
    lemma_concat_add(a.map_values(f) + seq![x.w@], c.map_values(f));
    lemma_concat_add(a.map_values(f), seq![x.w@]);
    lemma_concat_add(a.map_values(f) + seq![ws[i].w@, ws[i + 1].w@], c.map_values(f));
    lemma_concat_add(a.map_values(f), seq![ws[i].w@, ws[i + 1].w@]);
    lemma_concat_push(Seq::<Seq<char>>::empty(), x.w@);
    assert(Seq::<Seq<char>>::empty().push(x.w@) =~= seq![x.w@]);
    assert(concat_pieces(Seq::<Seq<char>>::empty()) =~= Seq::<char>::empty());
    assert(concat_pieces(seq![x.w@]) =~= x.w@);
    lemma_concat_push(Seq::<Seq<char>>::empty(), ws[i].w@);
    assert(Seq::<Seq<char>>::empty().push(ws[i].w@) =~= seq![ws[i].w@]);
    lemma_concat_push(seq![ws[i].w@], ws[i + 1].w@);
    assert(seq![ws[i].w@].push(ws[i + 1].w@) =~= seq![ws[i].w@, ws[i + 1].w@]);
    assert(concat_pieces(seq![ws[i].w@, ws[i + 1].w@]) =~= ws[i].w@ + ws[i + 1].w@);
}

/// Closing brackets and quotes.
fn close_p(w: &str) -> (r: bool)
    ensures
        r == close_text(w@),
{
    str_eq(w, "】") || str_eq(w, "」") || str_eq(w, "》") || str_eq(w, "』") || str_eq(w, "］")
        || str_eq(w, "’") || str_eq(w, "”") || str_eq(w, "〉")
}

/// List separators.
fn sep_p(w: &str) -> (r: bool)
    ensures
        r == sep_text(w@),
{
    str_eq(w, "、") || str_eq(w, ",") || str_eq(w, "…")
}

/// The word `v` with its text replaced by `t`, the old text kept in `ow`.
pub open spec fn replaced_view(v: WordView, t: Seq<char>) -> WordView {
    WordView { w: t, ow: Some(v.w), ..v }
}

/// A neighbour as a view.
pub open spec fn opt_view(o: Option<Word>) -> Option<WordView> {
    match o {
        Some(x) => Some(x@),
        None => None,
    }
}

/// Closing brackets and quotes.
pub open spec fn close_text(t: Seq<char>) -> bool {
    t == "】"@ || t == "」"@ || t == "》"@ || t == "』"@ || t == "］"@ || t == "’"@ || t == "”"@ || t == "〉"@
}

/// List separators.
pub open spec fn sep_text(t: Seq<char>) -> bool {
    t == "、"@ || t == ","@ || t == "…"@
}

/// The neighbour's POS has one of the `mask` bits.
pub open spec fn nb_has_v(o: Option<WordView>, mask: u32) -> bool {
    o matches Some(x) && view_pos(x) & mask != 0
}

/// The neighbour has a set, non-zero POS with one of the `mask` bits.
pub open spec fn nb_tagged_v(o: Option<WordView>, mask: u32) -> bool {
    o matches Some(x) && x.p is Some && view_pos(x) != 0 && view_pos(x) & mask != 0
}

/// The neighbour's text is `t`.
pub open spec fn nb_is_v(o: Option<WordView>, t: Seq<char>) -> bool {
    o matches Some(x) && x.w == t
}

/// The neighbour's POS is unset or zero; `none` without a neighbour.
pub open spec fn nb_falsy_v(o: Option<WordView>, none: bool) -> bool {
    match o {
        Some(x) => view_pos(x) == 0,
        None => none,
    }
}

/// `nw`, or the synonym of `w`, then the synonym of that.
pub open spec fn syn_of(seg: Segment, w: Seq<char>, nw: Seq<char>) -> Seq<char> {
    let a = if seg.synonym.forward().contains_key(w) {
        seg.synonym.forward()[w]
    } else {
        nw
    };
    if seg.synonym.forward().contains_key(a) {
        seg.synonym.forward()[a]
    } else {
        a
    }
}

/// `里` becomes `裡` after a closing mark or a noun, place, direction, time or verb, unless
/// the word before ends in `的` or is `和`.
pub open spec fn li_hit(w0: Option<WordView>) -> bool {
    let keep = w0 matches Some(p) && (has_suffix(p.w, "的"@) || p.w == "和"@);
    !keep && ((w0 matches Some(p) && close_text(p.w)) || nb_has_v(
        w0,
        POSTAG::D_N | POSTAG::D_S | POSTAG::D_F | POSTAG::D_T | POSTAG::D_V,
    ))
}

/// `后` becomes `後` (unless after `和`) after a closing mark, `腰` or a tagged word of the
/// listed kinds, before a tagged verb, before a tagged adverb after an untagged word, or
/// before a separator after an untagged word or at the start.
pub open spec fn hou_hit(w0: Option<WordView>, w2: Option<WordView>) -> bool {
    !nb_is_v(w0, "和"@) && ((w0 matches Some(p) && close_text(p.w)) || nb_is_v(w0, "腰"@) || nb_tagged_v(
        w0,
        POSTAG::D_V | POSTAG::D_S | POSTAG::D_T | POSTAG::D_N | POSTAG::D_MQ | POSTAG::A_M | POSTAG::D_F | POSTAG::D_D
            | POSTAG::D_R,
    ) || (w2 matches Some(n) && n.p is Some && view_pos(n) & POSTAG::D_V != 0) || (w2 is Some && w0 is Some
        && nb_falsy_v(w0, false) && (w2 matches Some(n) && n.p is Some && view_pos(n) & POSTAG::D_D != 0)) || (w2
        is Some && nb_falsy_v(w0, true) && (w2 matches Some(n) && sep_text(n.w))))
}

/// `发`/`發` after a hair colour becomes `髮` (or its synonym), tagged a noun; `发` becomes
/// `發` before `的`, between pronouns, or before `那麼`/`那么`.
pub open spec fn fa_step(seg: Segment, cur: WordView, w0: Option<WordView>, w2: Option<WordView>) -> (bool, Option<u32>, WordView) {
    let hair = syn_of(seg, cur.w, "髮"@);
    if (w0 matches Some(prev) && seg.lexicon.color_hair.table@.contains(prev.w)) && hair != cur.w {
        (true, Some(POSTAG::D_N), replaced_view(cur, hair))
    } else if cur.w == "发"@ && (nb_is_v(w2, "的"@) || (nb_has_v(w0, POSTAG::D_R) && nb_has_v(w2, POSTAG::D_R))
        || nb_is_v(w2, "那麼"@) || nb_is_v(w2, "那么"@)) {
        (true, None, replaced_view(cur, "發"@))
    } else {
        (false, None, cur)
    }
}

/// The pairs of neighbour kinds around which `于` is the preposition `於`.
pub open spec fn yu_pair(a: u32, b: u32) -> bool {
    (a & (POSTAG::D_V | POSTAG::D_R | POSTAG::D_A | POSTAG::D_T | POSTAG::D_F) != 0 && b & (POSTAG::D_N | POSTAG::D_V
        | POSTAG::D_R | POSTAG::D_S | POSTAG::A_NX | POSTAG::D_F | POSTAG::D_W) != 0) || (a & POSTAG::D_N != 0 && b
        & POSTAG::D_N != 0) || (a & (POSTAG::D_V | POSTAG::D_N) != 0 && b & (POSTAG::D_F | POSTAG::D_T | POSTAG::A_NR
        | POSTAG::D_R | POSTAG::D_S | POSTAG::D_W) != 0) || (a & (POSTAG::A_NS | POSTAG::D_T | POSTAG::D_C) != 0 && b
        & (POSTAG::A_NS | POSTAG::D_T) != 0) || (a & POSTAG::D_D != 0 && b & POSTAG::D_N != 0) || (a & POSTAG::A_NR
        != 0 && b & (POSTAG::A_NS | POSTAG::A_NT | POSTAG::D_S | POSTAG::D_N | POSTAG::D_V) != 0) || (a & POSTAG::D_V
        != 0 && b & POSTAG::D_W != 0) || (a & POSTAG::D_D != 0 && b & POSTAG::D_V != 0) || (a & POSTAG::D_V != 0 && b
        & POSTAG::D_D != 0) || (a & POSTAG::D_N != 0 && b & POSTAG::D_V != 0) || (a & POSTAG::D_D != 0 && b
        & POSTAG::D_F != 0)
}

/// `于` is the preposition `於` at the start of a clause before a tagged word of the listed
/// kinds, between neighbours of a listed pair of kinds, between a verb and an adverb
/// followed by a verb, or before a time word.
pub open spec fn yu_hit(w0: Option<WordView>, w2: Option<WordView>, w3: Option<WordView>) -> bool {
    let start_ok = match w0 {
        Some(p) => view_pos(p) & POSTAG::D_W != 0,
        None => true,
    };
    let first = start_ok && nb_tagged_v(
        w2,
        POSTAG::D_N | POSTAG::D_V | POSTAG::D_R | POSTAG::D_D | POSTAG::D_T | POSTAG::A_NR | POSTAG::D_S | POSTAG::D_F,
    );
    let pair = match (w0, w2) {
        (Some(prev), Some(next)) => {
            let a = view_pos(prev);
            let b = view_pos(next);
            yu_pair(a, b) || (w3 matches Some(x) && a & POSTAG::D_V != 0 && b & POSTAG::D_D != 0 && view_pos(x)
                & POSTAG::D_V != 0)
        },
        _ => false,
    };
    first || pair || nb_has_v(w2, POSTAG::D_T)
}

/// Group 1 of the first match of `pattern` in `text`, when the pattern compiles and the
/// group took part.
pub open spec fn first_group_of(pattern: Seq<char>, text: Seq<char>) -> Option<Seq<char>> {
    let caps = crate::re::spec_regex_captures(pattern, text);
    if crate::re::spec_regex_valid(pattern) && caps.len() > 0 && caps[0].len() > 1 && caps[0][1] is Some {
        Some(crate::re::group_text(text, caps[0], Some(1usize)))
    } else {
        None
    }
}

/// `x里`/`里x` to `x裡`/`裡x` when the pattern compiles.
pub open spec fn li_text(s: Seq<char>) -> Seq<char> {
    if crate::re::spec_regex_valid(RE_LI@) {
        crate::re::replace_spec(s, crate::re::spec_regex_captures(RE_LI@, s), Some(1usize), "裡"@, Some(2usize), usize::MAX as int)
    } else {
        s
    }
}

/// `x后`/`后x` to `x後`/`後x` when the pattern compiles.
pub open spec fn hou_text(s: Seq<char>) -> Seq<char> {
    if crate::re::spec_regex_valid(RE_HOU@) {
        crate::re::replace_spec(s, crate::re::spec_regex_captures(RE_HOU@, s), Some(1usize), "後"@, Some(2usize), usize::MAX as int)
    } else {
        s
    }
}

/// `蔘x` to `參x` when the pattern compiles.
pub open spec fn shen_text(s: Seq<char>) -> Seq<char> {
    if crate::re::spec_regex_valid(RE_SHEN@) {
        crate::re::replace_spec(s, crate::re::spec_regex_captures(RE_SHEN@, s), None, "參"@, Some(1usize), usize::MAX as int)
    } else {
        s
    }
}

/// A replacement by `nw` when it differs from the word's text.
pub open spec fn replace_if_new(cur: WordView, nw: Seq<char>) -> (bool, Option<u32>, WordView) {
    if nw != cur.w {
        (true, None, replaced_view(cur, nw))
    } else {
        (false, None, cur)
    }
}

/// A longer word: a hair word `…发` takes `髮` after a hair colour (or its synonym), a
/// quantity `…发` takes `發`, and at the start of a clause a native `…髮` entry; a
/// quantity `…余` takes `餘`, a multi-part quantity `几…` takes `幾`; words tagged bad,
/// direction, place, or time and verb take the `里`/`后`/`蔘` forms (and their synonyms).
pub open spec fn long_step(seg: Segment, cur: WordView, w0: Option<WordView>) -> (bool, Option<u32>, WordView) {
    let w = cur.w;
    let pos = view_pos(cur);
    match first_group_of(RE_FA_SUFFIX@, w) {
        Some(c) => {
            let hair = c + "髮"@;
            if seg.lexicon.color_hair.table@.contains(c) {
                replace_if_new(cur, syn_of(seg, w, hair))
            } else if w == c + "发"@ && pos & POSTAG::D_MQ != 0 {
                (true, None, replaced_view(cur, c + "發"@))
            } else if w == c + "发"@ && (w0 is None || (w0 matches Some(p) && view_pos(p) == POSTAG::D_W))
                && seg.table.table@.contains_key(hair) && seg.table.table@[hair].s {
                (true, Some(seg.table.table@[hair].p), replaced_view(cur, hair))
            } else {
                (false, None, cur)
            }
        },
        None => {
            if pos & POSTAG::D_MQ != 0 && crate::re::spec_regex_valid(RE_YU_SUFFIX@) && crate::re::spec_regex_matches(
                RE_YU_SUFFIX@,
                w,
            ).len() > 0 {
                (
                    true,
                    None,
                    replaced_view(
                        cur,
                        crate::re::replace_spec(w, crate::re::spec_regex_captures(RE_YU_SUFFIX@, w), Some(1usize), "餘"@, None, 1),
                    ),
                )
            } else if pos & POSTAG::D_MQ != 0 && has_prefix(w, "几"@) && (cur.m matches Some(m) && m.len() > 1) {
                (true, None, replaced_view(cur, seq!['幾'] + w.subrange(1, w.len() as int)))
            } else if pos & POSTAG::BAD != 0 {
                replace_if_new(cur, syn_of(seg, w, shen_text(hou_text(li_text(w)))))
            } else if pos & POSTAG::D_F != 0 {
                replace_if_new(cur, syn_of(seg, w, hou_text(li_text(w))))
            } else if pos & POSTAG::D_S != 0 {
                let nw0 = if crate::re::spec_regex_valid(RE_LI_SUFFIX@) {
                    crate::re::replace_spec(w, crate::re::spec_regex_captures(RE_LI_SUFFIX@, w), Some(1usize), "裡"@, None, 1)
                } else {
                    w
                };
                replace_if_new(cur, syn_of(seg, w, nw0))
            } else if pos & POSTAG::D_T != 0 || pos & POSTAG::D_V != 0 {
                let nw = syn_of(seg, w, hou_text(w));
                if nw != w {
                    (true, None, replaced_view(WordView { op: if cur.op is None { cur.p } else { cur.op }, ..cur }, nw))
                } else {
                    (false, None, cur)
                }
            } else {
                (false, None, cur)
            }
        },
    }
}

/// After a replacement, the dictionary's entry for the new text sets the POS (or the
/// decided POS, remembering the entry's) and the native flag, first values kept.
pub open spec fn retag_view(cur: WordView, new_p: Option<u32>, table: crate::dict::TableDict) -> WordView {
    let changed = cur.ow matches Some(o) && o != cur.w;
    if !changed || !table.table@.contains_key(cur.w) {
        cur
    } else {
        let e = table.table@[cur.w];
        let a = match new_p {
            Some(np) => WordView { op: if cur.op is None { Some(e.p) } else { cur.op }, p: Some(np), ..cur },
            None => if e.p != view_pos(cur) {
                WordView { op: if cur.op is None { cur.p } else { cur.op }, p: Some(e.p), ..cur }
            } else {
                cur
            },
        };
        if a.s != Some(e.s) {
            WordView {
                os: if a.os is None {
                    Some(
                        match a.s {
                            Some(x) => x,
                            None => false,
                        },
                    )
                } else {
                    a.os
                },
                s: Some(e.s),
                ..a
            }
        } else {
            a
        }
    }
}

/// The decision for a one-char word.
pub open spec fn one_char_step(seg: Segment, cur: WordView, w0: Option<WordView>, w2: Option<WordView>, w3: Option<WordView>) -> (bool, Option<u32>, WordView) {
    if cur.w == "里"@ {
        let h = li_hit(w0);
        (h, None, if h { replaced_view(cur, "裡"@) } else { cur })
    } else if cur.w == "后"@ {
        let h = hou_hit(w0, w2);
        (h, None, if h { replaced_view(cur, "後"@) } else { cur })
    } else if cur.w == "发"@ || cur.w == "發"@ {
        fa_step(seg, cur, w0, w2)
    } else if cur.w == "于"@ {
        let h = yu_hit(w0, w2, w3);
        (
            h,
            if h { Some(POSTAG::D_P) } else { None },
            if h { WordView { p: Some(POSTAG::D_P), ..replaced_view(cur, "於"@) } } else { cur },
        )
    } else if cur.w == "么"@ {
        let h = match w2 {
            Some(n) => view_pos(n) & POSTAG::D_W != 0,
            None => true,
        };
        (h, None, if h { replaced_view(cur, "麼"@) } else { cur })
    } else {
        (false, None, cur)
    }
}

/// The word at `i` after its decision: one-char and longer words decide by their
/// neighbours (the word before already decided), and a replaced word is retagged.
pub open spec fn zht_word(seg: Segment, ws: Seq<WordView>, i: int) -> WordView {
    let cur = ws[i];
    let w0 = if i > 0 { Some(ws[i - 1]) } else { None };
    let w2 = if i + 1 < ws.len() { Some(ws[i + 1]) } else { None };
    let w3 = if i + 2 < ws.len() { Some(ws[i + 2]) } else { None };
    let l = u16_len(cur.w);
    let step = if l == 1 {
        one_char_step(seg, cur, w0, w2, w3)
    } else if l > 1 {
        long_step(seg, cur, w0)
    } else {
        (false, None, cur)
    };
    if step.0 {
        retag_view(step.2, step.1, seg.table)
    } else {
        step.2
    }
}

/// `余` before `力` and a punctuation mark merges with `力`.
pub open spec fn yu_li(ws: Seq<WordView>, i: int) -> bool {
    let cur = ws[i];
    let w2 = if i + 1 < ws.len() { Some(ws[i + 1]) } else { None };
    let w3 = if i + 2 < ws.len() { Some(ws[i + 2]) } else { None };
    &&& u16_len(cur.w) == 1
    &&& !(cur.w == "里"@ || cur.w == "后"@ || cur.w == "发"@ || cur.w == "發"@ || cur.w == "于"@ || cur.w == "么"@)
    &&& cur.w == "余"@
    &&& nb_is_v(w2, "力"@)
    &&& nb_has_v(w3, POSTAG::D_W)
    &&& i + 1 < ws.len()
}

/// The scan from word `i`: blacklisted words stay; `余力` merges (with the table's POS and
/// weight, else a default POS) and is decided again; other words are decided in turn.
pub open spec fn zht_scan(seg: Segment, ws: Seq<WordView>, i: int) -> Seq<WordView>
    decreases ws.len() - i,
{
    if !(0 <= i < ws.len()) {
        ws
    } else if seg.blacklist_synonym.table@.contains(ws[i].w) {
        zht_scan(seg, ws, i + 1)
    } else if yu_li(ws, i) {
        let nw = ws[i].w + ws[i + 1].w;
        let known = seg.table.table@.contains_key(nw);
        let p = if known { seg.table.table@[nw].p } else { 0x101000u32 };
        let f = if known { Some(seg.table.table@[nw].f) } else { None };
        zht_scan(seg, merge_at(seg.table, ws, i, i + 2, p, f), i)
    } else {
        zht_scan(seg, ws.update(i, zht_word(seg, ws, i)), i + 1)
    }
}

/// `nw`, or the synonym of `w`, then the synonym of that.
pub fn get_synonym(seg: &Segment, w: &str, nw: String) -> (r: String)
    ensures
        r@ == syn_of(*seg, w@, nw@),
{
    let mut nw = nw;
    match seg.synonym.get(w) {
        Some(s) => {
            nw = to_owned_string(s);
        },
        None => {},
    }
    match seg.synonym.get(nw.as_str()) {
        Some(s) => {
            nw = to_owned_string(s);
        },
        None => {},
    }
    nw
}

/// `x里` / `里x` to `x裡` / `裡x`.
pub fn replace_li(s: &str) -> (r: String)
    ensures
        r@ == li_text(s@),
{
    if !regex_valid(RE_LI) {
        return to_owned_string(s);
    }
    regex_replace_groups(RE_LI, s, Some(1), "裡", Some(2), usize::MAX)
}

/// `x后` / `后x` to `x後` / `後x`.
pub fn replace_hou(s: &str) -> (r: String)
    ensures
        r@ == hou_text(s@),
{
    if !regex_valid(RE_HOU) {
        return to_owned_string(s);
    }
    regex_replace_groups(RE_HOU, s, Some(1), "後", Some(2), usize::MAX)
}

/// `蔘x` to `參x`.
pub fn replace_shen(s: &str) -> (r: String)
    ensures
        r@ == shen_text(s@),
{
    if !regex_valid(RE_SHEN) {
        return to_owned_string(s);
    }
    regex_replace_groups(RE_SHEN, s, None, "參", Some(1), usize::MAX)
}

/// Replace the text of `cur` by `nw`, keeping the old text in `ow`.
fn replace_text(cur: &mut Word, nw: String)
    ensures
        final(cur)@ == replaced_view(old(cur)@, nw@),
        final(cur).w == nw,
        final(cur).ow == Some(old(cur).w),
        final(cur).p == old(cur).p,
        final(cur).m == old(cur).m,
{
    let mut nw = nw;
    std::mem::swap(&mut cur.w, &mut nw);
    cur.ow = Some(nw);
}

/// The neighbour's POS has one of the `mask` bits (false without a neighbour).
fn nb_has(w: &Option<Word>, mask: u32) -> (r: bool)
    ensures
        r == (w matches Some(x) && x.pos_of() & mask != 0),
        r == nb_has_v(opt_view(*w), mask),
{
    match w {
        Some(x) => x.pos() & mask != 0,
        None => false,
    }
}

/// The neighbour has a set, non-zero POS with one of the `mask` bits.
fn nb_tagged(w: &Option<Word>, mask: u32) -> (r: bool)
    ensures
        r == (w matches Some(x) && x.p is Some && x.pos_of() != 0 && x.pos_of() & mask != 0),
        r == nb_tagged_v(opt_view(*w), mask),
{
    match w {
        Some(x) => x.p.is_some() && x.pos() != 0 && x.pos() & mask != 0,
        None => false,
    }
}

/// The neighbour's text is `t`.
fn nb_is(w: &Option<Word>, t: &str) -> (r: bool)
    ensures
        r == (w matches Some(x) && x.w@ == t@),
        r == nb_is_v(opt_view(*w), t@),
{
    match w {
        Some(x) => str_eq(x.w.as_str(), t),
        None => false,
    }
}

/// The neighbour's POS is unset or zero (true without a neighbour when `none`).
fn nb_falsy(w: &Option<Word>, none: bool) -> (r: bool)
    ensures
        r == (match w {
            Some(x) => x.pos_of() == 0,
            None => none,
        }),
        r == nb_falsy_v(opt_view(*w), none),
{
    match w {
        Some(x) => x.pos_falsy(),
        None => none,
    }
}

/// Decides `里`: after `的`/`和` it stays; after a closing mark or a noun, place, direction,
/// time or verb it becomes `裡`.
fn zht_li(cur: &mut Word, w0: &Option<Word>) -> (ok: bool)
    ensures
        ok == li_hit(opt_view(*w0)),
        ok ==> final(cur)@ == replaced_view(old(cur)@, "裡"@),
        ok ==> final(cur).ow == Some(old(cur).w) && final(cur).p == old(cur).p,
        !ok ==> *final(cur) == *old(cur),
{
    let keep = match w0 {
        Some(p) => ends_with(p.w.as_str(), "的") || str_eq(p.w.as_str(), "和"),
        None => false,
    };
    if keep {
        return false;
    }
    let close = match w0 {
        Some(p) => close_p(p.w.as_str()),
        None => false,
    };
    if close || nb_has(w0, POSTAG::D_N | POSTAG::D_S | POSTAG::D_F | POSTAG::D_T | POSTAG::D_V) {
        replace_text(cur, to_owned_string("裡"));
        return true;
    }
    false
}

/// Decides `后`: after `和` it stays; it becomes `後` after a closing mark, `腰` or a tagged
/// word of the listed kinds, before a verb, before an adverb after an untagged word, or
/// before a separator.
fn zht_hou(cur: &mut Word, w0: &Option<Word>, w2: &Option<Word>) -> (ok: bool)
    ensures
        ok == hou_hit(opt_view(*w0), opt_view(*w2)),
        ok ==> final(cur)@ == replaced_view(old(cur)@, "後"@),
        ok ==> final(cur).ow == Some(old(cur).w) && final(cur).p == old(cur).p,
        !ok ==> *final(cur) == *old(cur),
{
    if nb_is(w0, "和") {
        return false;
    }
    let close = match w0 {
        Some(p) => close_p(p.w.as_str()),
        None => false,
    };
    let sep_next = match w2 {
        Some(n) => sep_p(n.w.as_str()),
        None => false,
    };
    let c = close || nb_is(w0, "腰") || nb_tagged(
        w0,
        POSTAG::D_V | POSTAG::D_S | POSTAG::D_T | POSTAG::D_N | POSTAG::D_MQ | POSTAG::A_M | POSTAG::D_F
            | POSTAG::D_D | POSTAG::D_R,
    ) || (match w2 {
        Some(n) => n.p.is_some() && n.pos() & POSTAG::D_V != 0,
        None => false,
    }) || (w2.is_some() && w0.is_some() && nb_falsy(w0, false) && (match w2 {
        Some(n) => n.p.is_some() && n.pos() & POSTAG::D_D != 0,
        None => false,
    })) || (w2.is_some() && nb_falsy(w0, true) && sep_next);
    if c {
        replace_text(cur, to_owned_string("後"));
        return true;
    }
    false
}

/// Decides `发`/`發`: after a hair colour it becomes `髮` (or its synonym); `发` becomes `發`
/// before `的`, between pronouns, or before `那麼`.
fn zht_fa(cur: &mut Word, w0: &Option<Word>, w2: &Option<Word>, seg: &Segment) -> (r: (bool, Option<u32>))
    ensures
        (r.0, r.1, final(cur)@) == fa_step(*seg, old(cur)@, opt_view(*w0), opt_view(*w2)),
        r.0 ==> final(cur).ow == Some(old(cur).w) && final(cur).p == old(cur).p,
        !r.0 ==> *final(cur) == *old(cur),
{
    match w0 {
        Some(prev) => {
            if seg.lexicon.color_hair.contains(prev.w.as_str()) {
                let w = to_owned_string(cur.w.as_str());
                let nw = get_synonym(seg, w.as_str(), to_owned_string("髮"));
                if !str_eq(nw.as_str(), w.as_str()) {
                    replace_text(cur, nw);
                    return (true, Some(POSTAG::D_N));
                }
            }
        },
        None => {},
    }
    if str_eq(cur.w.as_str(), "发") {
        let c = nb_is(w2, "的") || (nb_has(w0, POSTAG::D_R) && nb_has(w2, POSTAG::D_R)) || nb_is(w2, "那麼")
            || nb_is(w2, "那么");
        if c {
            replace_text(cur, to_owned_string("發"));
            return (true, None);
        }
    }
    (false, None)
}

/// Decides `于`: it becomes the preposition `於` at the start of a clause before a tagged
/// word of the listed kinds, between neighbours of the listed pairs of kinds, between a verb
/// and an adverb followed by a verb, or before a time word.
fn zht_yu(cur: &mut Word, w0: &Option<Word>, w2: &Option<Word>, w3: &Option<Word>) -> (ok: bool)
    ensures
        ok == yu_hit(opt_view(*w0), opt_view(*w2), opt_view(*w3)),
        ok ==> final(cur)@ == (WordView { p: Some(POSTAG::D_P), ..replaced_view(old(cur)@, "於"@) }),
        ok ==> final(cur).ow == Some(old(cur).w) && final(cur).p == Some(POSTAG::D_P),
        !ok ==> *final(cur) == *old(cur),
{
    let start_ok = match w0 {
        Some(p) => p.pos() & POSTAG::D_W != 0,
        None => true,
    };
    let mut hit = start_ok && nb_tagged(
        w2,
        POSTAG::D_N | POSTAG::D_V | POSTAG::D_R | POSTAG::D_D | POSTAG::D_T | POSTAG::A_NR | POSTAG::D_S
            | POSTAG::D_F,
    );
    if !hit {
        match (w0, w2) {
            (Some(prev), Some(next)) => {
                let a = prev.pos();
                let b = next.pos();
                let cond = (a & (POSTAG::D_V | POSTAG::D_R | POSTAG::D_A | POSTAG::D_T | POSTAG::D_F) != 0 && b & (
                POSTAG::D_N | POSTAG::D_V | POSTAG::D_R | POSTAG::D_S | POSTAG::A_NX | POSTAG::D_F | POSTAG::D_W) != 0)
                    || (a & POSTAG::D_N != 0 && b & POSTAG::D_N != 0) || (a & (POSTAG::D_V | POSTAG::D_N) != 0 && b & (
                POSTAG::D_F | POSTAG::D_T | POSTAG::A_NR | POSTAG::D_R | POSTAG::D_S | POSTAG::D_W) != 0) || (a & (
                POSTAG::A_NS | POSTAG::D_T | POSTAG::D_C) != 0 && b & (POSTAG::A_NS | POSTAG::D_T) != 0) || (a
                    & POSTAG::D_D != 0 && b & POSTAG::D_N != 0) || (a & POSTAG::A_NR != 0 && b & (POSTAG::A_NS
                    | POSTAG::A_NT | POSTAG::D_S | POSTAG::D_N | POSTAG::D_V) != 0) || (a & POSTAG::D_V != 0
                    && b & POSTAG::D_W != 0) || (a & POSTAG::D_D != 0 && b & POSTAG::D_V != 0) || (a
                    & POSTAG::D_V != 0 && b & POSTAG::D_D != 0) || (a & POSTAG::D_N != 0 && b & POSTAG::D_V
                    != 0) || (a & POSTAG::D_D != 0 && b & POSTAG::D_F != 0);
                if cond {
                    hit = true;
                } else {
                    match w3 {
                        Some(x) => {
                            if a & POSTAG::D_V != 0 && b & POSTAG::D_D != 0 && x.pos() & POSTAG::D_V != 0 {
                                hit = true;
                            }
                        },
                        None => {},
                    }
                }
            },
            _ => {},
        }
    }
    if !hit && nb_has(w2, POSTAG::D_T) {
        hit = true;
    }
    if hit {
        replace_text(cur, to_owned_string("於"));
        cur.p = Some(POSTAG::D_P);
    }
    hit
}

/// Group 1 of the first match of `pattern`, when it matches.
fn first_group(pattern: &str, text: &str) -> (r: Option<String>)
    requires
        crate::re::spec_regex_valid(pattern@),
    ensures
        ({
            let caps = crate::re::spec_regex_captures(pattern@, text@);
            &&& (r is Some) == (caps.len() > 0 && caps[0].len() > 1 && caps[0][1] is Some)
            &&& r matches Some(g) ==> g@ == crate::re::group_text(text@, caps[0], Some(1usize))
        }),
{
    let caps = regex_captures_all(pattern, text);
    let ghost cv = caps@.map_values(|v: Vec<Option<(usize, usize)>>| v@);
    if caps.len() == 0 {
        return None;
    }
    let m = &caps[0];
    proof {
        assert(cv[0] == m@);
    }
    if m.len() < 2 {
        return None;
    }
    match m[1] {
        Some((st, ln)) => {
            let cs = chars_of(text);
            let n = cs.len();
            proof {
                assert(cv[0][1] == Some((st, ln)));
                assert(crate::re::grp_end(cv[0], 1) <= crate::re::grp_end(cv[0], 0));
                assert(crate::re::match_spans(cv)[0] == cv[0][0]->0);
                assert(crate::re::grp_end(cv[0], 0) <= text@.len());
                assert(st + ln <= n);
            }
            let g = string_from_chars(crate::strs::slice_of(&cs, st, st + ln));
            Some(g)
        },
        None => None,
    }
}

/// `w` with its first char (a `几`) replaced by `幾`.
fn replace_first_ji(w: &str) -> (r: String)
    ensures
        w@.len() > 0 ==> r@ == seq!['幾'] + w@.subrange(1, w@.len() as int),
{
    let cs = chars_of(w);
    if cs.len() == 0 {
        return to_owned_string(w);
    }
    let mut out: Vec<char> = Vec::new();
    out.push('幾');
    let mut j: usize = 1;
    while j < cs.len()
        invariant
            1 <= j <= cs@.len(),
            out@ == seq!['幾'] + cs@.subrange(1, j as int),
        decreases cs@.len() - j,
    {
        out.push(cs[j]);
        assert(cs@.subrange(1, j + 1) =~= cs@.subrange(1, j as int).push(cs@[j as int]));
        j += 1;
    }
    string_from_chars(out.as_slice())
}

/// Decides a longer word: hair words `…发`, quantities `…余` and `几…`, and the
/// `里`/`后`/`蔘` forms inside words tagged bad, direction, place, time or verb.
fn zht_long(cur: &mut Word, w0: &Option<Word>, seg: &Segment) -> (r: (bool, Option<u32>))
    ensures
        (r.0, r.1, final(cur)@) == long_step(*seg, old(cur)@, opt_view(*w0)),
        r.0 ==> final(cur).ow == Some(old(cur).w) && final(cur).m == old(cur).m,
        !r.0 ==> *final(cur) == *old(cur),
{
    let w = to_owned_string(cur.w.as_str());
    let pos = cur.pos();
    let fa = if regex_valid(RE_FA_SUFFIX) {
        first_group(RE_FA_SUFFIX, w.as_str())
    } else {
        None
    };
    match fa {
        Some(c) => {
            if seg.lexicon.color_hair.contains(c.as_str()) {
                let nw = get_synonym(seg, w.as_str(), concat_str(c.as_str(), "髮"));
                if !str_eq(nw.as_str(), w.as_str()) {
                    replace_text(cur, nw);
                    return (true, None);
                }
                return (false, None);
            }
            let simp = concat_str(c.as_str(), "发");
            if str_eq(w.as_str(), simp.as_str()) && pos & POSTAG::D_MQ != 0 {
                replace_text(cur, concat_str(c.as_str(), "發"));
                return (true, None);
            }
            if str_eq(w.as_str(), simp.as_str()) && (w0.is_none() || (match w0 {
                Some(p) => p.pos() == POSTAG::D_W,
                None => false,
            })) {
                let nw = concat_str(c.as_str(), "髮");
                match seg.table.get(nw.as_str()) {
                    Some(e) => {
                        if e.s {
                            let np = e.p;
                            replace_text(cur, nw);
                            return (true, Some(np));
                        }
                    },
                    None => {},
                }
            }
            return (false, None);
        },
        None => {},
    }
    if pos & POSTAG::D_MQ != 0 && regex_valid(RE_YU_SUFFIX) && regex_is_match(RE_YU_SUFFIX, w.as_str()) {
        let nw = regex_replace_groups(RE_YU_SUFFIX, w.as_str(), Some(1), "餘", None, 1);
        replace_text(cur, nw);
        return (true, None);
    }
    let multi = match &cur.m {
        Some(m) => m.len() > 1,
        None => false,
    };
    proof {
        if cur.m is Some {
            crate::word::lemma_list_view(cur.m->0@);
        }
    }
    if pos & POSTAG::D_MQ != 0 && starts_with(w.as_str(), "几") && multi {
        proof {
            reveal_strlit("几");
            assert(w@.len() > 0);
        }
        let nw = replace_first_ji(w.as_str());
        replace_text(cur, nw);
        return (true, None);
    }
    if pos & POSTAG::BAD != 0 {
        let nw = replace_shen(replace_hou(replace_li(w.as_str()).as_str()).as_str());
        let nw = get_synonym(seg, w.as_str(), nw);
        if !str_eq(nw.as_str(), w.as_str()) {
            replace_text(cur, nw);
            return (true, None);
        }
        return (false, None);
    }
    if pos & POSTAG::D_F != 0 {
        let nw = replace_hou(replace_li(w.as_str()).as_str());
        let nw = get_synonym(seg, w.as_str(), nw);
        if !str_eq(nw.as_str(), w.as_str()) {
            replace_text(cur, nw);
            return (true, None);
        }
        return (false, None);
    }
    if pos & POSTAG::D_S != 0 {
        let nw = if regex_valid(RE_LI_SUFFIX) {
            regex_replace_groups(RE_LI_SUFFIX, w.as_str(), Some(1), "裡", None, 1)
        } else {
            to_owned_string(w.as_str())
        };
        let nw = get_synonym(seg, w.as_str(), nw);
        if !str_eq(nw.as_str(), w.as_str()) {
            replace_text(cur, nw);
            return (true, None);
        }
        return (false, None);
    }
    if pos & POSTAG::D_T != 0 || pos & POSTAG::D_V != 0 {
        let nw = replace_hou(w.as_str());
        let nw = get_synonym(seg, w.as_str(), nw);
        if !str_eq(nw.as_str(), w.as_str()) {
            if cur.op.is_none() {
                cur.op = cur.p;
            }
            replace_text(cur, nw);
            return (true, None);
        }
    }
    (false, None)
}

/// After a replacement: take the dictionary's POS (or the decided one, remembering the
/// entry's) and native flag for the new text.
fn retag(cur: &mut Word, new_p: Option<u32>, seg: &Segment)
    ensures
        final(cur)@ == retag_view(old(cur)@, new_p, seg.table),
        final(cur).w == old(cur).w,
        final(cur).ow == old(cur).ow,
        final(cur).m == old(cur).m,
{
    let changed = match &cur.ow {
        Some(o) => !str_eq(o.as_str(), cur.w.as_str()),
        None => false,
    };
    if !changed {
        return;
    }
    match seg.table.get(cur.w.as_str()) {
        Some(e) => {
            match new_p {
                Some(np) => {
                    if cur.op.is_none() {
                        cur.op = Some(e.p);
                    }
                    cur.p = Some(np);
                },
                None => {
                    if e.p != cur.pos() {
                        if cur.op.is_none() {
                            cur.op = cur.p;
                        }
                        cur.p = Some(e.p);
                    }
                },
            }
            if cur.s != Some(e.s) {
                if cur.os.is_none() {
                    cur.os = match cur.s {
                        Some(s) => Some(s),
                        None => Some(false),
                    };
                }
                cur.s = Some(e.s);
            }
        },
        None => {},
    }
}

/// The scan from word `j` keeps the words before `j`.
proof fn lemma_zht_prefix(seg: Segment, ws: Seq<WordView>, j: int)
    requires
        0 <= j,
    ensures
        zht_scan(seg, ws, j).len() >= (if j < ws.len() {
            j
        } else {
            ws.len() as int
        }),
        forall|k: int| 0 <= k < j && k < ws.len() ==> #[trigger] zht_scan(seg, ws, j)[k] == ws[k],
    decreases ws.len() - j,
{
    let r = zht_scan(seg, ws, j);
    if !(0 <= j < ws.len()) {
        assert(r == ws);
    } else if seg.blacklist_synonym.table@.contains(ws[j].w) {
        lemma_zht_prefix(seg, ws, j + 1);
    } else if yu_li(ws, j) {
        let nw = ws[j].w + ws[j + 1].w;
        let known = seg.table.table@.contains_key(nw);
        let p = if known { seg.table.table@[nw].p } else { 0x101000u32 };
        let f = if known { Some(seg.table.table@[nw].f) } else { None };
        let m = merge_at(seg.table, ws, j, j + 2, p, f);
        assert(r == zht_scan(seg, m, j));
        lemma_zht_prefix(seg, m, j);
        assert forall|k: int| 0 <= k < j && k < ws.len() implies #[trigger] r[k] == ws[k] by {
            assert(m[k] == ws[k]);
        }
    } else {
        let m = ws.update(j, zht_word(seg, ws, j));
        assert(r == zht_scan(seg, m, j + 1));
        lemma_zht_prefix(seg, m, j + 1);
        assert forall|k: int| 0 <= k < j && k < ws.len() implies #[trigger] r[k] == ws[k] by {
            assert(m[k] == ws[k]);
            assert(zht_scan(seg, m, j + 1)[k] == m[k]);
        }
    }
}

/// `后` after a word tagged (with a set, non-zero POS) as a verb, place, time, noun,
/// quantity, number, direction, adverb or pronoun, other than `和`, is the `後` of "after":
/// the result has `後` in its place, with `后` kept as its original text, and the words
/// before it unchanged.
pub proof fn law_hou_after_tagged(seg: Segment, ws: Seq<WordView>, i: int)
    requires
        0 < i < ws.len(),
        ws[i].w == "后"@,
        !seg.blacklist_synonym.table@.contains("后"@),
        ws[i - 1].w != "和"@,
        ws[i - 1].p is Some,
        view_pos(ws[i - 1]) != 0,
        view_pos(ws[i - 1]) & (POSTAG::D_V | POSTAG::D_S | POSTAG::D_T | POSTAG::D_N | POSTAG::D_MQ | POSTAG::A_M
            | POSTAG::D_F | POSTAG::D_D | POSTAG::D_R) != 0,
    ensures
        i < zht_scan(seg, ws, i).len(),
        zht_scan(seg, ws, i)[i].w == "後"@,
        zht_scan(seg, ws, i)[i].ow == Some("后"@),
        forall|k: int| 0 <= k < i ==> #[trigger] zht_scan(seg, ws, i)[k] == ws[k],
{
    reveal_strlit("后");
    reveal_strlit("和");
    reveal_strlit("里");
    reveal_strlit("余");
    reveal_strlit("腰");
    assert(crate::text::all_bmp(ws[i].w)) by {
        assert(ws[i].w[0] == '后');
    }
    crate::text::lemma_bmp_units(ws[i].w);
    assert(u16_len(ws[i].w) == 1);
    assert(!yu_li(ws, i));
    let x = zht_word(seg, ws, i);
    assert(hou_hit(Some(ws[i - 1]), if i + 1 < ws.len() { Some(ws[i + 1]) } else { None }));
    assert(x.w == "後"@);
    assert(x.ow == Some("后"@));
    let m = ws.update(i, x);
    assert(zht_scan(seg, ws, i) == zht_scan(seg, m, i + 1));
    lemma_zht_prefix(seg, m, i + 1);
    assert(zht_scan(seg, m, i + 1)[i] == m[i]);
    assert forall|k: int| 0 <= k < i implies #[trigger] zht_scan(seg, ws, i)[k] == ws[k] by {
        assert(zht_scan(seg, m, i + 1)[k] == m[k]);
    }
}

/// Replaces simplified characters that stand for several traditional ones by the right
/// traditional form, keeping each replaced word's old text in `ow`.
pub struct ZhtSynonymOptimizer;

impl ZhtSynonymOptimizer {
    pub fn name(&self) -> (r: &'static str)
        ensures
            r@ == ZHT_SYNONYM_OPTIMIZER@,
    {
        ZHT_SYNONYM_OPTIMIZER
    }

    /// Pick traditional forms word by word, as `zht_scan` decides. On words not replaced
    /// before, the old texts (`ow` where set, else `w`) still spell the text.
    pub fn do_optimize(&self, words: Vec<Word>, seg: &Segment) -> (r: Vec<Word>)
        requires
            seg.wf(),
        ensures
            r@.len() <= words@.len(),
            unreplaced(words@) ==> source_text(r@) == text_of(words@),
            views(r@) == zht_scan(*seg, views(words@), 0),
    {
        let mut words = words;
        let ghost orig = words@;
        proof {
            if unreplaced(orig) {
                lemma_source_plain(orig);
            }
        }
        let mut i: usize = 0;
        while i < words.len()
            invariant
                seg.wf(),
                words@.len() <= orig.len(),
                unreplaced(orig) ==> source_text(words@) == text_of(orig),
                unreplaced(orig) ==> forall|k: int| i <= k < words@.len() ==> (#[trigger] words@[k]).ow is None,
                zht_scan(*seg, views(orig), 0) == zht_scan(*seg, views(words@), i as int),
            decreases words@.len() - i,
        {
            let ghost vw = views(words@);
            proof {
                assert(vw[i as int] == words@[i as int]@);
            }
            if seg.blacklist_synonym.contains(words[i].w.as_str()) {
                i += 1;
                continue;
            }
            let w0: Option<Word> = if i > 0 {
                Some(clone_word(&words[i - 1]))
            } else {
                None
            };
            let w2: Option<Word> = if 1 < words.len() - i {
                Some(clone_word(&words[i + 1]))
            } else {
                None
            };
            let w3: Option<Word> = if 2 < words.len() - i {
                Some(clone_word(&words[i + 2]))
            } else {
                None
            };
            proof {
                if i > 0 {
                    assert(vw[i - 1] == words@[i - 1]@);
                }
                if i + 1 < words@.len() {
                    assert(vw[i + 1] == words@[i + 1]@);
                }
                if i + 2 < words@.len() {
                    assert(vw[i + 2] == words@[i + 2]@);
                }
                assert(opt_view(w0) == (if i > 0 { Some(vw[i - 1]) } else { None::<WordView> }));
                assert(opt_view(w2) == (if i + 1 < vw.len() { Some(vw[i + 1]) } else { None::<WordView> }));
                assert(opt_view(w3) == (if i + 2 < vw.len() { Some(vw[i + 2]) } else { None::<WordView> }));
            }
            let w1_len = char_len(words[i].w.as_str());
            let mut cur = clone_word(&words[i]);
            proof {
                assert(cur@ == words@[i as int]@);
            }
            let ghost before_cur = cur;
            let mut ok = false;
            let mut new_p: Option<u32> = None;
            if w1_len == 1 {
                let w = to_owned_string(cur.w.as_str());
                if str_eq(w.as_str(), "里") {
                    ok = zht_li(&mut cur, &w0);
                } else if str_eq(w.as_str(), "后") {
                    ok = zht_hou(&mut cur, &w0, &w2);
                } else if str_eq(w.as_str(), "发") || str_eq(w.as_str(), "發") {
                    let (a, b) = zht_fa(&mut cur, &w0, &w2, seg);
                    ok = a;
                    new_p = b;
                } else if str_eq(w.as_str(), "于") {
                    ok = zht_yu(&mut cur, &w0, &w2, &w3);
                    if ok {
                        new_p = Some(POSTAG::D_P);
                    }
                } else if str_eq(w.as_str(), "么") {
                    let next_w = match &w2 {
                        Some(n) => n.pos() & POSTAG::D_W != 0,
                        None => true,
                    };
                    if next_w {
                        replace_text(&mut cur, to_owned_string("麼"));
                        ok = true;
                    }
                } else if str_eq(w.as_str(), "余") {
                    let li = nb_is(&w2, "力");
                    let w3_w = nb_has(&w3, POSTAG::D_W);
                    if li && w3_w && 1 < words.len() - i {
                        let nw = crate::optimizers::join_words(&words, i, i + 2);
                        proof {
                            crate::optimizers::lemma_join_two(words@, i as int);
                        }
                        let (p, f) = match seg.table.get(nw.as_str()) {
                            Some(e) => (e.p, Some(e.f)),
                            None => (0x101000u32, None),
                        };
                        let ghost before = words@;
                        let ghost nws = nw@;
                        merge_words(&mut words, i, i + 2, nw, p, f, &seg.table);
                        proof {
                            assert(yu_li(vw, i as int));
                            assert(nws == vw[i as int].w + vw[i + 1].w);
                            if unreplaced(orig) {
                                assert(before[i as int].ow is None && before[i + 1].ow is None);
                                lemma_source_merge(before, i as int, words@[i as int]);
                                assert forall|k: int| i <= k < words@.len() implies (#[trigger] words@[k]).ow is None by {
                                    if k > i {
                                        assert(words@[k] == before[k + 1]);
                                    }
                                }
                            }
                        }
                        continue;
                    }
                }
            } else if w1_len > 1 {
                let (a, b) = zht_long(&mut cur, &w0, seg);
                ok = a;
                new_p = b;
            }
            if ok {
                retag(&mut cur, new_p, seg);
            }
            proof {
                assert(!yu_li(vw, i as int));
                assert(cur@ == zht_word(*seg, vw, i as int));
            }
            let ghost before = words@;
            proof {
                if unreplaced(orig) {
                    assert(before[i as int].ow is None);
                    assert(source_of(cur) == source_of(before[i as int]));
                    lemma_source_update(before, i as int, cur);
                }
            }
            words.set(i, cur);
            proof {
                assert(views(words@) =~= vw.update(i as int, cur@));
                if unreplaced(orig) {
                    assert forall|k: int| i + 1 <= k < words@.len() implies (#[trigger] words@[k]).ow is None by {
                        assert(words@[k] == before[k]);
                    }
                }
            }
            i += 1;
        }
        words
    }
}

} // verus!
