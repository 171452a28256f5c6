//! Running the segmenter: module lists, sections, the tokenizer and optimizer pipeline,
//! and the output filters.
use vstd::prelude::*;
use crate::dict_tokenizer::{dict_split_by, ChunkScorer, DictTokenizer};
use crate::optimizers::{
    adj_views, datetime_merged, dict_scan, email_scan, foreign_merged, name_scan, single_name_scan, view_pos, view_texts,
    AdjectiveOptimizer, ChsNameOptimizer, DatetimeOptimizer, DictOptimizer, EmailOptimizer,
    ForeignOptimizer,
};
use crate::options::{flag_of, or_opt, DoSegmentOptions};
use crate::pipeline::{
    enabled, ADJECTIVE_OPTIMIZER, CHS_NAME_OPTIMIZER, CHS_NAME_TOKENIZER, DATETIME_OPTIMIZER,
    DICT_OPTIMIZER, DICT_TOKENIZER, EMAIL_OPTIMIZER, FOREIGN_OPTIMIZER, FOREIGN_TOKENIZER,
    JP_SIMPLE_TOKENIZER, PUNCTUATION_TOKENIZER, URL_TOKENIZER, WILDCARD_TOKENIZER,
    ZHT_SYNONYM_OPTIMIZER, ZHUYIN_TOKENIZER,
};
use crate::postag::POSTAG;
use crate::re::{concat_pieces, lemma_concat_push, regex_valid, split_keep_re, RE_SECTION};
use crate::segment::{OptimizerKind, Segment, TokenizerKind};
use crate::strs::{chars_of, is_whitespace, is_ws};
use crate::text::{all_bmp, is_bmp_char, is_newline_only, newline_only};
use crate::tokenizers::{
    plain_view, split_by, ChsNameTokenizer, ForeignTokenizer, JpSimpleTokenizer, PunctuationTokenizer, UrlTokenizer,
    WildcardTokenizer, ZhuyinTokenizer,
};
use crate::word::{lemma_text_of_add, lemma_text_of_push, stringify_list, text_of, texts_of, views, part_texts, Word, WordView};
use crate::zht::{zht_scan, ZhtSynonymOptimizer};

verus! {

/// Module name of a tokenizer kind.
pub open spec fn tokenizer_name(k: TokenizerKind) -> Seq<char> {
    match k {
        TokenizerKind::Url => URL_TOKENIZER@,
        TokenizerKind::Wildcard => WILDCARD_TOKENIZER@,
        TokenizerKind::Punctuation => PUNCTUATION_TOKENIZER@,
        TokenizerKind::Foreign => FOREIGN_TOKENIZER@,
        TokenizerKind::Dict => DICT_TOKENIZER@,
        TokenizerKind::ChsName => CHS_NAME_TOKENIZER@,
        TokenizerKind::JpSimple => JP_SIMPLE_TOKENIZER@,
        TokenizerKind::Zhuyin => ZHUYIN_TOKENIZER@,
    }
}

/// Module name of an optimizer kind.
pub open spec fn optimizer_name(k: OptimizerKind) -> Seq<char> {
    match k {
        OptimizerKind::Email => EMAIL_OPTIMIZER@,
        OptimizerKind::ChsName => CHS_NAME_OPTIMIZER@,
        OptimizerKind::Dict => DICT_OPTIMIZER@,
        OptimizerKind::Datetime => DATETIME_OPTIMIZER@,
        OptimizerKind::Foreign => FOREIGN_OPTIMIZER@,
        OptimizerKind::ZhtSynonym => ZHT_SYNONYM_OPTIMIZER@,
        OptimizerKind::Adjective => ADJECTIVE_OPTIMIZER@,
    }
}

impl TokenizerKind {
    pub fn name(&self) -> (r: &'static str)
        ensures
            r@ == tokenizer_name(*self),
    {
        match self {
            TokenizerKind::Url => URL_TOKENIZER,
            TokenizerKind::Wildcard => WILDCARD_TOKENIZER,
            TokenizerKind::Punctuation => PUNCTUATION_TOKENIZER,
            TokenizerKind::Foreign => FOREIGN_TOKENIZER,
            TokenizerKind::Dict => DICT_TOKENIZER,
            TokenizerKind::ChsName => CHS_NAME_TOKENIZER,
            TokenizerKind::JpSimple => JP_SIMPLE_TOKENIZER,
            TokenizerKind::Zhuyin => ZHUYIN_TOKENIZER,
        }
    }
}

impl OptimizerKind {
    pub fn name(&self) -> (r: &'static str)
        ensures
            r@ == optimizer_name(*self),
    {
        match self {
            OptimizerKind::Email => EMAIL_OPTIMIZER,
            OptimizerKind::ChsName => CHS_NAME_OPTIMIZER,
            OptimizerKind::Dict => DICT_OPTIMIZER,
            OptimizerKind::Datetime => DATETIME_OPTIMIZER,
            OptimizerKind::Foreign => FOREIGN_OPTIMIZER,
            OptimizerKind::ZhtSynonym => ZHT_SYNONYM_OPTIMIZER,
            OptimizerKind::Adjective => ADJECTIVE_OPTIMIZER,
        }
    }
}

/// A module name is not disabled.
pub open spec fn name_enabled(name: Seq<char>, disabled: Seq<String>) -> bool {
    forall|i: int| 0 <= i < disabled.len() ==> #[trigger] disabled[i]@ != name
}

/// The built-in tokenizers, in pipeline order.
pub open spec fn builtin_tokenizer_kinds() -> Seq<TokenizerKind> {
    seq![
        TokenizerKind::Url,
        TokenizerKind::Wildcard,
        TokenizerKind::Punctuation,
        TokenizerKind::Foreign,
        TokenizerKind::Dict,
        TokenizerKind::ChsName,
        TokenizerKind::JpSimple,
        TokenizerKind::Zhuyin,
    ]
}

/// The built-in optimizers in pipeline order; the synonym one only with `all_mod`.
pub open spec fn builtin_optimizer_kinds(all_mod: bool) -> Seq<OptimizerKind> {
    if all_mod {
        seq![
            OptimizerKind::Email,
            OptimizerKind::ChsName,
            OptimizerKind::Dict,
            OptimizerKind::Datetime,
            OptimizerKind::Foreign,
            OptimizerKind::ZhtSynonym,
            OptimizerKind::Adjective,
        ]
    } else {
        seq![
            OptimizerKind::Email,
            OptimizerKind::ChsName,
            OptimizerKind::Dict,
            OptimizerKind::Datetime,
            OptimizerKind::Foreign,
            OptimizerKind::Adjective,
        ]
    }
}

/// The tokenizers of `ks` that are not disabled, in order.
pub open spec fn enabled_tokenizers(ks: Seq<TokenizerKind>, disabled: Seq<String>) -> Seq<TokenizerKind>
    decreases ks.len(),
{
    if ks.len() == 0 {
        Seq::empty()
    } else {
        let r = enabled_tokenizers(ks.drop_last(), disabled);
        if name_enabled(tokenizer_name(ks.last()), disabled) {
            r.push(ks.last())
        } else {
            r
        }
    }
}

/// The optimizers of `ks` that are not disabled, in order.
pub open spec fn enabled_optimizers(ks: Seq<OptimizerKind>, disabled: Seq<String>) -> Seq<OptimizerKind>
    decreases ks.len(),
{
    if ks.len() == 0 {
        Seq::empty()
    } else {
        let r = enabled_optimizers(ks.drop_last(), disabled);
        if name_enabled(optimizer_name(ks.last()), disabled) {
            r.push(ks.last())
        } else {
            r
        }
    }
}

fn tokenizers_enabled(ks: &Vec<TokenizerKind>, disabled: &Vec<String>) -> (r: Vec<TokenizerKind>)
    ensures
        r@ == enabled_tokenizers(ks@, disabled@),
{
    let mut out: Vec<TokenizerKind> = Vec::new();
    let mut i: usize = 0;
    while i < ks.len()
        invariant
            i <= ks@.len(),
            out@ == enabled_tokenizers(ks@.subrange(0, i as int), disabled@),
        decreases ks@.len() - i,
    {
        let k = ks[i];
        proof {
            assert(ks@.subrange(0, i + 1).drop_last() =~= ks@.subrange(0, i as int));
        }
        if enabled(k.name(), disabled.as_slice()) {
            out.push(k);
        }
        i += 1;
    }
    assert(ks@.subrange(0, ks@.len() as int) =~= ks@);
    out
}

fn optimizers_enabled(ks: &Vec<OptimizerKind>, disabled: &Vec<String>) -> (r: Vec<OptimizerKind>)
    ensures
        r@ == enabled_optimizers(ks@, disabled@),
{
    let mut out: Vec<OptimizerKind> = Vec::new();
    let mut i: usize = 0;
    while i < ks.len()
        invariant
            i <= ks@.len(),
            out@ == enabled_optimizers(ks@.subrange(0, i as int), disabled@),
        decreases ks@.len() - i,
    {
        let k = ks[i];
        proof {
            assert(ks@.subrange(0, i + 1).drop_last() =~= ks@.subrange(0, i as int));
        }
        if enabled(k.name(), disabled.as_slice()) {
            out.push(k);
        }
        i += 1;
    }
    assert(ks@.subrange(0, ks@.len() as int) =~= ks@);
    out
}

/// Split a text at line breaks and runs of blanks (leading, trailing, or of two or more),
/// keeping them; the sections lay end to end give back the text.
pub fn split_sections(text: &str) -> (r: Vec<String>)
    ensures
        concat_pieces(r@.map_values(|s: String| s@)) == text@,
        r@.map_values(|s: String| s@) == section_pieces(text@),
        crate::re::spec_regex_valid(RE_SECTION@) ==> r@.map_values(|s: String| s@) == crate::re::split_keep_spec(
            text@,
            crate::re::spec_regex_matches(RE_SECTION@, text@),
        ),
{
    if !regex_valid(RE_SECTION) {
        let mut v: Vec<String> = Vec::new();
        v.push(crate::strs::to_owned_string(text));
        proof {
            assert(v@.map_values(|s: String| s@) =~= seq![text@]);
            lemma_concat_push(Seq::<Seq<char>>::empty(), text@);
            assert(Seq::<Seq<char>>::empty().push(text@) =~= seq![text@]);
            assert(Seq::<char>::empty() + text@ =~= text@);
        }
        return v;
    }
    split_keep_re(text, RE_SECTION)
}

/// Pieces of a BMP text are BMP.
pub proof fn lemma_concat_bmp(ps: Seq<Seq<char>>, k: int)
    requires
        all_bmp(concat_pieces(ps)),
        0 <= k < ps.len(),
    ensures
        all_bmp(ps[k]),
    decreases ps.len(),
{
    let a = concat_pieces(ps.drop_last());
    let b = ps.last();
    assert(concat_pieces(ps) == a + b);
    if k == ps.len() - 1 {
        assert forall|i: int| 0 <= i < b.len() implies is_bmp_char(#[trigger] b[i]) by {
            assert((a + b)[a.len() + i] == b[i]);
        }
    } else {
        assert forall|i: int| 0 <= i < a.len() implies is_bmp_char(#[trigger] a[i]) by {
            assert((a + b)[i] == a[i]);
        }
        lemma_concat_bmp(ps.drop_last(), k);
        assert(ps.drop_last()[k] == ps[k]);
    }
}

/// Pieces that are the words' texts, one for one, spell the words' text.
pub proof fn lemma_pieces_text(ps: Seq<Seq<char>>, ws: Seq<Word>)
    requires
        ps.len() == ws.len(),
        forall|i: int| 0 <= i < ws.len() ==> #[trigger] ps[i] == ws[i].w@,
    ensures
        concat_pieces(ps) == text_of(ws),
    decreases ws.len(),
{
    if ws.len() > 0 {
        lemma_pieces_text(ps.drop_last(), ws.drop_last());
    }
}

/// The words of `ws` for which `keep` holds, in order.
pub open spec fn kept(ws: Seq<Word>, keep: spec_fn(Word) -> bool) -> Seq<Word>
    decreases ws.len(),
{
    if ws.len() == 0 {
        Seq::empty()
    } else {
        let r = kept(ws.drop_last(), keep);
        if keep(ws.last()) {
            r.push(ws.last())
        } else {
            r
        }
    }
}

/// Not punctuation.
pub open spec fn not_punct(w: Word) -> bool {
    w.pos_of() != POSTAG::D_W
}

/// Not only whitespace (an empty word counts as whitespace).
pub open spec fn not_space(w: Word) -> bool {
    !blank(w.w@)
}

/// Only whitespace (true of the empty text).
pub open spec fn blank(s: Seq<char>) -> bool {
    forall|i: int| 0 <= i < s.len() ==> is_ws(#[trigger] s[i])
}

fn all_space(s: &str) -> (r: bool)
    ensures
        r == (forall|i: int| 0 <= i < s@.len() ==> is_ws(#[trigger] s@[i])),
{
    let cs = chars_of(s);
    let mut i: usize = 0;
    while i < cs.len()
        invariant
            cs@ == s@,
            i <= cs@.len(),
            forall|j: int| 0 <= j < i ==> is_ws(#[trigger] cs@[j]),
        decreases cs@.len() - i,
    {
        if !is_whitespace(cs[i]) {
            return false;
        }
        i += 1;
    }
    true
}

impl Segment {
    /// Install the built-in modules that are named by default and not disabled.
    pub fn use_default_modules(&mut self)
        requires
            old(self).wf(),
        ensures
            final(self).wf(),
            final(self).tokenizers@ == enabled_tokenizers(builtin_tokenizer_kinds(), old(self).options.disable_modules@),
            final(self).optimizers@ == enabled_optimizers(
                builtin_optimizer_kinds(old(self).options.all_mod),
                old(self).options.disable_modules@,
            ),
            final(self).table == old(self).table,
            final(self).options == old(self).options,
    {
        let all_t = vec![
            TokenizerKind::Url,
            TokenizerKind::Wildcard,
            TokenizerKind::Punctuation,
            TokenizerKind::Foreign,
            TokenizerKind::Dict,
            TokenizerKind::ChsName,
            TokenizerKind::JpSimple,
            TokenizerKind::Zhuyin,
        ];
        let mut all_o = vec![
            OptimizerKind::Email,
            OptimizerKind::ChsName,
            OptimizerKind::Dict,
            OptimizerKind::Datetime,
            OptimizerKind::Foreign,
        ];
        if self.options.all_mod {
            all_o.push(OptimizerKind::ZhtSynonym);
        }
        all_o.push(OptimizerKind::Adjective);
        proof {
            assert(all_t@ =~= builtin_tokenizer_kinds());
            assert(all_o@ =~= builtin_optimizer_kinds(self.options.all_mod));
        }
        let t = tokenizers_enabled(&all_t, &self.options.disable_modules);
        let o = optimizers_enabled(&all_o, &self.options.disable_modules);
        self.tokenizers = t;
        self.optimizers = o;
    }

    /// Drop every synonym.
    pub fn clear_synonym_dict(&mut self)
        requires
            old(self).wf(),
        ensures
            final(self).wf(),
            final(self).synonym.forward() == Map::<Seq<char>, Seq<char>>::empty(),
            final(self).synonym.backward() == Map::<Seq<char>, Seq<Seq<char>>>::empty(),
            final(self).table == old(self).table,
    {
        self.synonym = crate::dict::SynonymDict::new();
    }

    /// Remove every blacklisted word from the main table.
    pub fn do_blacklist(&mut self)
        requires
            old(self).wf(),
        ensures
            final(self).wf(),
            final(self).table.table@ == old(self).table.table@.remove_keys(old(self).blacklist.table@),
            final(self).blacklist == old(self).blacklist,
    {
        let n = self.blacklist.items.len();
        let mut i: usize = 0;
        let ghost bl = self.blacklist.table@;
        while i < n
            invariant
                self.wf(),
                n == self.blacklist.items@.len(),
                bl == self.blacklist.table@,
                self.blacklist == old(self).blacklist,
                i <= n,
                self.table.table@ == old(self).table.table@.remove_keys(
                    Set::new(|k: Seq<char>| exists|j: int| 0 <= j < i && #[trigger] self.blacklist.items@[j]@ == k),
                ),
            decreases n - i,
        {
            let k = self.blacklist.items[i].clone();
            let ghost before = self.table.table@;
            self.table.remove(k.as_str());
            proof {
                assert(self.table.table@ =~= old(self).table.table@.remove_keys(
                    Set::new(|kk: Seq<char>| exists|j: int| 0 <= j < i + 1 && #[trigger] self.blacklist.items@[j]@ == kk),
                )) by {
                    assert(self.blacklist.items@[i as int]@ == k@);
                }
            }
            i += 1;
        }
        proof {
            assert(Set::new(|k: Seq<char>| exists|j: int| 0 <= j < n && #[trigger] self.blacklist.items@[j]@ == k) =~= bl);
        }
    }

    /// Append a tokenizer to the pipeline.
    pub fn use_tokenizer(&mut self, kind: TokenizerKind)
        requires
            old(self).wf(),
        ensures
            final(self).wf(),
            final(self).tokenizers@ == old(self).tokenizers@.push(kind),
            final(self).optimizers@ == old(self).optimizers@,
            final(self).table == old(self).table,
            final(self).inited,
    {
        self.tokenizers.push(kind);
        self.inited = true;
    }

    /// Append an optimizer to the pipeline.
    pub fn use_optimizer(&mut self, kind: OptimizerKind)
        requires
            old(self).wf(),
        ensures
            final(self).wf(),
            final(self).optimizers@ == old(self).optimizers@.push(kind),
            final(self).tokenizers@ == old(self).tokenizers@,
            final(self).table == old(self).table,
            final(self).inited,
    {
        self.optimizers.push(kind);
        self.inited = true;
    }

    /// Blacklist a word and drop it from the main table (an empty word does nothing).
    pub fn add_blacklist(&mut self, word: &str)
        requires
            old(self).wf(),
        ensures
            final(self).wf(),
            word@.len() == 0 ==> final(self).table.table@ == old(self).table.table@
                && final(self).blacklist.table@ == old(self).blacklist.table@,
            word@.len() > 0 ==> final(self).table.table@ == old(self).table.table@.remove(word@)
                && final(self).blacklist.table@ == old(self).blacklist.table@.insert(word@),
    {
        if !word.is_empty() {
            self.blacklist.add(crate::strs::to_owned_string(word));
            self.table.remove(word);
        }
    }

    /// Register synonyms of `canonical`; variants of a known canonical word become known
    /// words with its POS and weight.
    pub fn add_synonym(&mut self, canonical: &str, variants: &Vec<String>)
        requires
            old(self).wf(),
        ensures
            final(self).wf(),
            (final(self).synonym.forward(), final(self).synonym.backward()) == crate::dict::syn_add(
                old(self).synonym.forward(),
                old(self).synonym.backward(),
                canonical@,
                variants@.map_values(|s: String| s@),
                false,
            ),
            forall|k: Seq<char>| #[trigger] old(self).table.table@.contains_key(k) ==> final(self).table.table@.contains_key(k)
                && final(self).table.table@[k] == old(self).table.table@[k],
            old(self).table.table@.contains_key(canonical@) ==> forall|i: int|
                0 <= i < variants@.len() && variants@[i]@.len() > 0 ==> #[trigger] final(self).table.table@.contains_key(variants@[i]@),
            final(self).table.table@ == spread_table(old(self).table.table@, canonical@, variants@.map_values(|s: String| s@)),
            old(self).table.table@.contains_key(canonical@) ==> forall|i: int|
                0 <= i < variants@.len() && variants@[i]@.len() > 0 && !old(self).table.table@.contains_key(variants@[i]@)
                    ==> #[trigger] final(self).table.table@[variants@[i]@] == (crate::dict::DictEntry {
                    p: old(self).table.table@[canonical@].p,
                    f: old(self).table.table@[canonical@].f,
                    s: false,
                }),
    {
        self.synonym.add(canonical, variants.as_slice(), false);
        self.spread_entry(canonical, variants);
    }

    /// Give each variant the entry of `canonical` when the table knows it and not the variant.
    pub(crate) fn spread_entry(&mut self, canonical: &str, variants: &Vec<String>)
        requires
            old(self).wf(),
        ensures
            final(self).wf(),
            final(self).synonym == old(self).synonym,
            forall|k: Seq<char>| #[trigger] old(self).table.table@.contains_key(k) ==> final(self).table.table@.contains_key(k)
                && final(self).table.table@[k] == old(self).table.table@[k],
            old(self).table.table@.contains_key(canonical@) ==> forall|i: int|
                0 <= i < variants@.len() && variants@[i]@.len() > 0 ==> #[trigger] final(self).table.table@.contains_key(variants@[i]@),
            forall|k: Seq<char>| #[trigger] final(self).table.table@.contains_key(k) ==> old(self).table.table@.contains_key(k) || exists|i: int|
                0 <= i < variants@.len() && variants@[i]@ == k,
            final(self).table.table@ == spread_table(old(self).table.table@, canonical@, variants@.map_values(|s: String| s@)),
            old(self).table.table@.contains_key(canonical@) ==> forall|i: int|
                0 <= i < variants@.len() && variants@[i]@.len() > 0 && !old(self).table.table@.contains_key(variants@[i]@)
                    ==> #[trigger] final(self).table.table@[variants@[i]@] == (crate::dict::DictEntry {
                    p: old(self).table.table@[canonical@].p,
                    f: old(self).table.table@[canonical@].f,
                    s: false,
                }),
    {
        let ghost sv = variants@.map_values(|s: String| s@);
        let e = match self.table.get(canonical) {
            Some(e) => *e,
            None => {
                return;
            },
        };
        let ghost t0 = old(self).table.table@;
        proof {
            crate::dicts::lemma_add_variants(t0, canonical@, sv, e.p, e.f);
            assert forall|i: int| 0 <= i < variants@.len() implies #[trigger] sv[i] == variants@[i]@ && sv.contains(sv[i]) by {
                assert(sv[i] == variants@[i]@);
            }
        }
        let mut i: usize = 0;
        while i < variants.len()
            invariant
                self.wf(),
                self.synonym == old(self).synonym,
                t0 == old(self).table.table@,
                t0.contains_key(canonical@),
                e.p == t0[canonical@].p,
                e.f == t0[canonical@].f,
                sv == variants@.map_values(|s: String| s@),
                self.table.table@ == crate::dicts::add_variants_spec(t0, canonical@, sv.take(i as int), e.p, e.f),
                i <= variants@.len(),
                forall|k: Seq<char>| #[trigger] old(self).table.table@.contains_key(k) ==> self.table.table@.contains_key(k)
                    && self.table.table@[k] == old(self).table.table@[k],
                forall|j: int| 0 <= j < i && variants@[j]@.len() > 0 ==> #[trigger] self.table.table@.contains_key(variants@[j]@),
                forall|k: Seq<char>| #[trigger] self.table.table@.contains_key(k) ==> old(self).table.table@.contains_key(k) || exists|j: int|
                    0 <= j < variants@.len() && variants@[j]@ == k,
            decreases variants@.len() - i,
        {
            proof {
                assert(sv.take(i + 1).drop_last() =~= sv.take(i as int));
                assert(sv.take(i + 1).last() == variants@[i as int]@);
                crate::dicts::lemma_add_variants(t0, canonical@, sv.take(i as int), e.p, e.f);
            }
            let v = variants[i].as_str();
            if !self.table.contains(v) {
                self.table.add(crate::strs::to_owned_string(v), e.p, e.f, false);
            }
            i += 1;
        }
        proof {
            assert(sv.take(sv.len() as int) =~= sv);
            crate::dicts::lemma_add_variants(t0, canonical@, sv, e.p, e.f);
            assert forall|i: int|
                0 <= i < variants@.len() && variants@[i]@.len() > 0 && !old(self).table.table@.contains_key(variants@[i]@)
                    implies #[trigger] self.table.table@[variants@[i]@] == (crate::dict::DictEntry {
                    p: old(self).table.table@[canonical@].p,
                    f: old(self).table.table@[canonical@].f,
                    s: false,
                }) by {
                assert(sv[i] == variants@[i]@);
                assert(sv.contains(sv[i]));
            }
        }
    }
}

/// The entry table after spreading `c`'s entry: when the table knows `c`, each non-empty
/// variant it lacks gets `c`'s POS and weight as a non-native entry.
pub open spec fn spread_table(
    t: Map<Seq<char>, crate::dict::DictEntry>,
    c: Seq<char>,
    vs: Seq<Seq<char>>,
) -> Map<Seq<char>, crate::dict::DictEntry> {
    if t.contains_key(c) {
        crate::dicts::add_variants_spec(t, c, vs, t[c].p, t[c].f)
    } else {
        t
    }
}

/// The text a synonym conversion gives a word: its synonym, or for a created word not yet
/// converted, its parts with each part's synonym when any part has one.
pub open spec fn conv_text(seg: Segment, x: WordView) -> Option<Seq<char>> {
    let f = seg.synonym.forward();
    if f.contains_key(x.w) {
        Some(f[x.w])
    } else if x.auto_create && x.ow is None && x.m is Some && x.m->0.len() > 0 && exists|i: int|
        0 <= i < x.m->0.len() && f.contains_key(#[trigger] part_texts(x.m->0)[i]) {
        Some(parts_text(f, part_texts(x.m->0)))
    } else {
        None
    }
}

/// Parts laid end to end, each replaced by its synonym when it has one.
pub open spec fn parts_text(f: Map<Seq<char>, Seq<char>>, parts: Seq<Seq<char>>) -> Seq<char>
    decreases parts.len(),
{
    if parts.len() == 0 {
        Seq::empty()
    } else {
        let b = parts.last();
        parts_text(f, parts.drop_last()) + (if f.contains_key(b) {
            f[b]
        } else {
            b
        })
    }
}

/// POS of a converted word: the table's non-zero POS for the old text, else its own, with
/// the bad-word bit cleared.
pub open spec fn conv_pos(seg: Segment, x: WordView) -> u32 {
    let t = seg.table.table@;
    let p = if t.contains_key(x.w) && t[x.w].p != 0 {
        t[x.w].p
    } else {
        match x.p {
            Some(v) => v,
            None => 0,
        }
    };
    if p & POSTAG::BAD != 0 {
        p ^ POSTAG::BAD
    } else {
        p
    }
}

/// A word after one conversion: the converted text, the old text and POS kept as the
/// original ones, the new POS; unchanged when there is nothing to convert.
pub open spec fn conv_view(seg: Segment, x: WordView) -> WordView {
    match conv_text(seg, x) {
        Some(t) => WordView {
            w: t,
            p: Some(conv_pos(seg, x)),
            f: x.f,
            c: x.c,
            s: x.s,
            ow: Some(x.w),
            op: x.p,
            m: x.m,
            auto_create: x.auto_create,
            os: x.os,
        },
        None => x,
    }
}

/// One conversion round: every word converted once.
pub open spec fn conv_round(seg: Segment, ws: Seq<WordView>) -> Seq<WordView> {
    ws.map_values(|x: WordView| conv_view(seg, x))
}

/// No word of the list has anything to convert.
pub open spec fn no_conv(seg: Segment, ws: Seq<WordView>) -> bool {
    forall|k: int| 0 <= k < ws.len() ==> conv_text(seg, #[trigger] ws[k]) is None
}

/// Rounds until one converts nothing, at most `left + 1` of them.
pub open spec fn conv_rounds(seg: Segment, ws: Seq<WordView>, left: nat) -> Seq<WordView>
    decreases left,
{
    if no_conv(seg, ws) || left == 0 {
        conv_round(seg, ws)
    } else {
        conv_rounds(seg, conv_round(seg, ws), (left - 1) as nat)
    }
}

/// One word after one conversion round.
fn convert_one(seg: &Segment, item: Word) -> (r: (Word, bool))
    ensures
        r.1 == conv_text(*seg, item@) is Some,
        r.0@ == conv_view(*seg, item@),
        !r.1 ==> r.0 == item,
{
    let ghost f = seg.synonym.forward();
    proof {
        if item.m is Some {
            crate::word::lemma_list_view(item.m->0@);
        }
    }
    let mut nw: Option<String> = None;
    match seg.synonym.get(item.w.as_str()) {
        Some(s) => {
            nw = Some(crate::strs::to_owned_string(s));
        },
        None => {
            if item.auto_create && item.ow.is_none() {
                match &item.m {
                    Some(parts) => {
                        let ghost tv = texts_of(parts@);
                        proof {
                            crate::word::lemma_list_view(parts@);
                            assert(part_texts(views(parts@)) =~= tv);
                        }
                        if parts.len() > 0 {
                            let mut joined = String::new();
                            let mut hit = false;
                            let mut j: usize = 0;
                            while j < parts.len()
                                invariant
                                    f == seg.synonym.forward(),
                                    tv == texts_of(parts@),
                                    j <= parts@.len(),
                                    joined@ == parts_text(f, tv.subrange(0, j as int)),
                                    hit == exists|i: int| 0 <= i < j && f.contains_key(#[trigger] tv[i]),
                                decreases parts@.len() - j,
                            {
                                proof {
                                    assert(tv.subrange(0, j + 1).drop_last() =~= tv.subrange(0, j as int));
                                    assert(tv[j as int] == parts@[j as int].w@);
                                }
                                match seg.synonym.get(parts[j].w.as_str()) {
                                    Some(s) => {
                                        joined = crate::strs::concat_str(joined.as_str(), s);
                                        hit = true;
                                    },
                                    None => {
                                        joined = crate::strs::concat_str(joined.as_str(), parts[j].w.as_str());
                                    },
                                }
                                j += 1;
                            }
                            proof {
                                assert(tv.subrange(0, tv.len() as int) =~= tv);
                            }
                            if hit {
                                nw = Some(joined);
                            }
                        }
                    },
                    None => {},
                }
            }
        },
    }
    match nw {
        Some(text) => {
            let mut p = item.pos();
            match seg.table.get(item.w.as_str()) {
                Some(e) => {
                    if e.p != 0 {
                        p = e.p;
                    }
                },
                None => {},
            }
            if p & POSTAG::BAD != 0 {
                p = p ^ POSTAG::BAD;
            }
            let op = item.p;
            let ghost old_view = item@;
            let mut x = item;
            let mut text = text;
            std::mem::swap(&mut x.w, &mut text);
            x.ow = Some(text);
            x.op = op;
            x.p = Some(p);
            proof {
                assert(x@.m == old_view.m);
                assert(x@ == conv_view(*seg, old_view));
            }
            (x, true)
        },
        None => (item, false),
    }
}

/// One conversion round over all words; the number of words converted.
pub fn convert_round(words: Vec<Word>, seg: &Segment) -> (r: (Vec<Word>, usize))
    ensures
        views(r.0@) == conv_round(*seg, views(words@)),
        (r.1 == 0) == no_conv(*seg, views(words@)),
{
    let mut words = words;
    let ghost orig = words@;
    let mut out: Vec<Word> = Vec::new();
    let mut count: usize = 0;
    let n = words.len();
    let mut i: usize = 0;
    while i < n
        invariant
            n == orig.len(),
            i <= n,
            words@.len() + i == n,
            words@ == orig.subrange(i as int, n as int),
            out@.len() == i,
            count <= i,
            forall|k: int| 0 <= k < i ==> #[trigger] out@[k]@ == conv_view(*seg, orig[k]@),
            (count == 0) == (forall|k: int| 0 <= k < i ==> conv_text(*seg, #[trigger] orig[k]@) is None),
        decreases n - i,
    {
        let item = words.remove(0);
        proof {
            assert(item == orig[i as int]);
            assert(words@ =~= orig.subrange(i + 1, n as int));
        }
        let (x, changed) = convert_one(seg, item);
        if changed {
            count += 1;
        }
        out.push(x);
        proof {
            assert(out@[i as int] == x);
        }
        i += 1;
    }
    proof {
        assert(views(out@) =~= conv_round(*seg, views(orig)));
        if count == 0 {
            assert forall|k: int| 0 <= k < views(orig).len() implies conv_text(*seg, #[trigger] views(orig)[k]) is None by {
                assert(views(orig)[k] == orig[k]@);
            }
        } else {
            let k = choose|k: int| 0 <= k < n && !(conv_text(*seg, #[trigger] orig[k]@) is None);
            assert(views(orig)[k] == orig[k]@);
        }
    }
    (out, count)
}

/// Convert words to their synonyms, round after round, until a round converts nothing.
///
/// Every map built by `SynonymDict::add` is free of cycles, so a word converts in at most
/// one round more than the map has entries; the rounds stop there in any case.
pub fn convert_synonym(words: Vec<Word>, seg: &Segment) -> (r: Vec<Word>)
    ensures
        views(r@) == conv_rounds(*seg, views(words@), seg.synonym.table@.len()),
        r@.len() == words@.len(),
{
    let mut left = seg.synonym.table.len();
    let mut words = words;
    let ghost target = conv_rounds(*seg, views(words@), left as nat);
    let ghost n = words@.len();
    loop
        invariant_except_break
            conv_rounds(*seg, views(words@), left as nat) == target,
            words@.len() == n,
        ensures
            views(words@) == target,
            words@.len() == n,
        decreases left,
    {
        let (next, count) = convert_round(words, seg);
        proof {
            assert(views(next@).len() == next@.len());
        }
        words = next;
        if count == 0 || left == 0 {
            break;
        }
        left -= 1;
    }
    words
}

/// Words that are not punctuation, in order.
fn strip_punctuation(words: Vec<Word>) -> (r: Vec<Word>)
    ensures
        r@ == kept(words@, |w: Word| not_punct(w)),
{
    let mut out: Vec<Word> = Vec::new();
    let mut words = words;
    let ghost orig = words@;
    let n = words.len();
    let mut i: usize = 0;
    while i < n
        invariant
            n == orig.len(),
            i <= n,
            words@ == orig.subrange(i as int, n as int),
            out@ == kept(orig.subrange(0, i as int), |w: Word| not_punct(w)),
        decreases n - i,
    {
        let item = words.remove(0);
        proof {
            assert(item == orig[i as int]);
            assert(words@ =~= orig.subrange(i + 1, n as int));
            assert(orig.subrange(0, i + 1).drop_last() =~= orig.subrange(0, i as int));
        }
        if item.pos() != POSTAG::D_W {
            out.push(item);
        }
        i += 1;
    }
    assert(orig.subrange(0, n as int) =~= orig);
    out
}

/// Words that are not stopwords, in order.
fn strip_stopword(words: Vec<Word>, seg: &Segment) -> (r: Vec<Word>)
    ensures
        r@ == kept(words@, |w: Word| !seg.stopword.table@.contains(w.w@)),
{
    let mut out: Vec<Word> = Vec::new();
    let mut words = words;
    let ghost orig = words@;
    let n = words.len();
    let mut i: usize = 0;
    while i < n
        invariant
            n == orig.len(),
            i <= n,
            words@ == orig.subrange(i as int, n as int),
            out@ == kept(orig.subrange(0, i as int), |w: Word| !seg.stopword.table@.contains(w.w@)),
        decreases n - i,
    {
        let item = words.remove(0);
        proof {
            assert(item == orig[i as int]);
            assert(words@ =~= orig.subrange(i + 1, n as int));
            assert(orig.subrange(0, i + 1).drop_last() =~= orig.subrange(0, i as int));
        }
        if !seg.stopword.contains(item.w.as_str()) {
            out.push(item);
        }
        i += 1;
    }
    assert(orig.subrange(0, n as int) =~= orig);
    out
}

/// Words that are not all whitespace, in order.
fn strip_space(words: Vec<Word>) -> (r: Vec<Word>)
    ensures
        r@ == kept(words@, |w: Word| not_space(w)),
{
    let mut out: Vec<Word> = Vec::new();
    let mut words = words;
    let ghost orig = words@;
    let n = words.len();
    let mut i: usize = 0;
    while i < n
        invariant
            n == orig.len(),
            i <= n,
            words@ == orig.subrange(i as int, n as int),
            out@ == kept(orig.subrange(0, i as int), |w: Word| not_space(w)),
        decreases n - i,
    {
        let item = words.remove(0);
        proof {
            assert(item == orig[i as int]);
            assert(words@ =~= orig.subrange(i + 1, n as int));
            assert(orig.subrange(0, i + 1).drop_last() =~= orig.subrange(0, i as int));
        }
        if !all_space(item.w.as_str()) {
            out.push(item);
        }
        i += 1;
    }
    assert(orig.subrange(0, n as int) =~= orig);
    out
}

/// The modules a call disables: its own list, else the segmenter's call defaults, else the
/// segmenter's list.
pub open spec fn disabled_for(seg: Segment, options: DoSegmentOptions) -> Seq<String> {
    let o = seg.options.options_do_segment;
    if options.disable_modules@.len() == 0 {
        if o.disable_modules@.len() == 0 {
            seg.options.disable_modules@
        } else {
            o.disable_modules@
        }
    } else {
        options.disable_modules@
    }
}

/// A result one tokenizer may give on `ws` (the dictionary split up to the scorer's picks).
pub open spec fn tokenized<S: ChunkScorer>(seg: Segment, scorer: S, kind: TokenizerKind, ws: Seq<Word>, r: Seq<Word>) -> bool {
    match kind {
        TokenizerKind::Url => split_by(UrlTokenizer, seg, ws, false, r),
        TokenizerKind::Wildcard => split_by(WildcardTokenizer, seg, ws, false, r),
        TokenizerKind::Punctuation => split_by(PunctuationTokenizer, seg, ws, false, r),
        TokenizerKind::Foreign => split_by(ForeignTokenizer, seg, ws, false, r),
        TokenizerKind::Dict => dict_split_by(seg, scorer, ws, r),
        TokenizerKind::ChsName => split_by(ChsNameTokenizer, seg, ws, false, r),
        TokenizerKind::JpSimple => split_by(JpSimpleTokenizer, seg, ws, true, r),
        TokenizerKind::Zhuyin => split_by(ZhuyinTokenizer, seg, ws, true, r),
    }
}

/// What one optimizer makes of the words `ws`.
pub open spec fn optimized(seg: Segment, kind: OptimizerKind, ws: Seq<WordView>) -> Seq<WordView> {
    match kind {
        OptimizerKind::Email => email_scan(ws, 0, None, false),
        OptimizerKind::ChsName => single_name_scan(
            seg.lexicon,
            seg.table,
            seg.blacklist_optimizer.table@,
            name_scan(seg.lexicon, seg.table, seg.blacklist_optimizer.table@, ws, 0),
            0,
        ),
        OptimizerKind::Dict => dict_scan(seg.table, dict_scan(seg.table, ws, 0), 0),
        OptimizerKind::Datetime => datetime_merged(seg.lexicon, ws),
        OptimizerKind::Foreign => foreign_merged(seg.table, ws),
        OptimizerKind::ZhtSynonym => zht_scan(seg, ws, 0),
        OptimizerKind::Adjective => adj_views(seg.lexicon, ws),
    }
}

/// A result the tokenizers `toks`, in order, may give on `ws`.
pub open spec fn tokenized_all<S: ChunkScorer>(seg: Segment, scorer: S, toks: Seq<TokenizerKind>, ws: Seq<Word>, r: Seq<Word>) -> bool
    decreases toks.len(),
{
    if toks.len() == 0 {
        r == ws
    } else {
        exists|mid: Seq<Word>| tokenized_all(seg, scorer, toks.drop_last(), ws, mid) && #[trigger] tokenized(seg, scorer, toks.last(), mid, r)
    }
}

/// The words after the optimizers `opts`, in order.
pub open spec fn optimized_all(seg: Segment, opts: Seq<OptimizerKind>, ws: Seq<WordView>) -> Seq<WordView>
    decreases opts.len(),
{
    if opts.len() == 0 {
        ws
    } else {
        optimized(seg, opts.last(), optimized_all(seg, opts.drop_last(), ws))
    }
}

/// A result for one section: the section as one plain word, through the tokenizers, then
/// the optimizers.
pub open spec fn section_words<S: ChunkScorer>(seg: Segment, scorer: S, s: Seq<char>, toks: Seq<TokenizerKind>, opts: Seq<OptimizerKind>, r: Seq<WordView>) -> bool {
    exists|w0: Word, t: Seq<Word>|
        #![trigger tokenized_all(seg, scorer, toks, seq![w0], t)]
        w0@ == plain_view((s, None)) && tokenized_all(seg, scorer, toks, seq![w0], t) && r == optimized_all(seg, opts, views(t))
}

/// A result for one piece of the text: a line break as one plain word, nothing for an
/// empty piece, else a section result.
pub open spec fn piece_words<S: ChunkScorer>(seg: Segment, scorer: S, s: Seq<char>, toks: Seq<TokenizerKind>, opts: Seq<OptimizerKind>, r: Seq<WordView>) -> bool {
    if newline_only(s) {
        r == seq![plain_view((s, None))]
    } else if s.len() == 0 {
        r == Seq::<WordView>::empty()
    } else {
        section_words(seg, scorer, s, toks, opts, r)
    }
}

/// Results laid end to end.
pub open spec fn flatten_views(rs: Seq<Seq<WordView>>) -> Seq<WordView>
    decreases rs.len(),
{
    if rs.len() == 0 {
        Seq::empty()
    } else {
        flatten_views(rs.drop_last()) + rs.last()
    }
}

/// A result for the pieces: a result for each piece, one after another.
pub open spec fn segmented<S: ChunkScorer>(seg: Segment, scorer: S, pieces: Seq<Seq<char>>, toks: Seq<TokenizerKind>, opts: Seq<OptimizerKind>, r: Seq<WordView>) -> bool {
    exists|rs: Seq<Seq<WordView>>|
        #![trigger flatten_views(rs)]
        rs.len() == pieces.len() && (forall|i: int|
            0 <= i < rs.len() ==> piece_words(seg, scorer, pieces[i], toks, opts, #[trigger] rs[i])) && r == flatten_views(rs)
}

/// The views the predicate keeps, in order.
pub open spec fn kept_views(vs: Seq<WordView>, keep: spec_fn(WordView) -> bool) -> Seq<WordView>
    decreases vs.len(),
{
    if vs.len() == 0 {
        Seq::empty()
    } else {
        let r = kept_views(vs.drop_last(), keep);
        if keep(vs.last()) {
            r.push(vs.last())
        } else {
            r
        }
    }
}

/// Keeping words is keeping their views, for a predicate on what the view holds.
proof fn lemma_kept_views(ws: Seq<Word>, keep: spec_fn(Word) -> bool, vkeep: spec_fn(WordView) -> bool)
    requires
        forall|w: Word| #[trigger] keep(w) == vkeep(w@),
    ensures
        views(kept(ws, keep)) == kept_views(views(ws), vkeep),
    decreases ws.len(),
{
    if ws.len() > 0 {
        lemma_kept_views(ws.drop_last(), keep, vkeep);
        assert(views(ws).drop_last() =~= views(ws.drop_last()));
        assert(views(ws).last() == ws.last()@);
        assert(keep(ws.last()) == vkeep(ws.last()@));
        let r = kept(ws.drop_last(), keep);
        assert(views(r.push(ws.last())) =~= views(r).push(ws.last()@));
    }
}

/// Every kept view satisfies the predicate and is one of the views.
pub proof fn lemma_kept_views_hold(vs: Seq<WordView>, keep: spec_fn(WordView) -> bool)
    ensures
        forall|i: int|
            0 <= i < kept_views(vs, keep).len() ==> keep(#[trigger] kept_views(vs, keep)[i]) && vs.contains(
                kept_views(vs, keep)[i],
            ),
    decreases vs.len(),
{
    if vs.len() > 0 {
        let t = vs.drop_last();
        lemma_kept_views_hold(t, keep);
        let k = kept_views(vs, keep);
        assert forall|i: int| 0 <= i < k.len() implies keep(#[trigger] k[i]) && vs.contains(k[i]) by {
            if i < kept_views(t, keep).len() {
                assert(k[i] == kept_views(t, keep)[i]);
                let j = choose|j: int| 0 <= j < t.len() && t[j] == k[i];
                assert(vs[j] == k[i]);
            } else {
                assert(k[i] == vs.last());
                assert(vs[vs.len() - 1] == k[i]);
            }
        }
    }
}

/// A word after `k` conversion rounds.
pub open spec fn conv_iter(seg: Segment, x: WordView, k: nat) -> WordView
    decreases k,
{
    if k == 0 {
        x
    } else {
        conv_view(seg, conv_iter(seg, x, (k - 1) as nat))
    }
}

/// How many rounds `conv_rounds` makes.
pub open spec fn conv_count(seg: Segment, ws: Seq<WordView>, left: nat) -> nat
    decreases left,
{
    if no_conv(seg, ws) || left == 0 {
        1
    } else {
        1 + conv_count(seg, conv_round(seg, ws), (left - 1) as nat)
    }
}

proof fn lemma_conv_iter_shift(seg: Segment, x: WordView, k: nat)
    ensures
        conv_iter(seg, conv_view(seg, x), k) == conv_iter(seg, x, k + 1),
    decreases k,
{
    assert(conv_iter(seg, x, 0) == x);
    if k > 0 {
        lemma_conv_iter_shift(seg, x, (k - 1) as nat);
    }
}

proof fn lemma_conv_iter_stable(seg: Segment, x: WordView, k: nat)
    requires
        conv_text(seg, x) is None,
    ensures
        conv_iter(seg, x, k) == x,
    decreases k,
{
    if k > 0 {
        lemma_conv_iter_stable(seg, x, (k - 1) as nat);
    }
}

/// Every word goes through the same number of rounds.
pub proof fn lemma_conv_rounds_iter(seg: Segment, ws: Seq<WordView>, left: nat)
    ensures
        conv_rounds(seg, ws, left).len() == ws.len(),
        forall|i: int| 0 <= i < ws.len() ==> #[trigger] conv_rounds(seg, ws, left)[i] == conv_iter(
            seg,
            ws[i],
            conv_count(seg, ws, left),
        ),
    decreases left,
{
    if no_conv(seg, ws) || left == 0 {
        assert forall|i: int| 0 <= i < ws.len() implies #[trigger] conv_rounds(seg, ws, left)[i] == conv_iter(
            seg,
            ws[i],
            conv_count(seg, ws, left),
        ) by {
            assert(conv_iter(seg, ws[i], 0) == ws[i]);
        }
    } else {
        let r1 = conv_round(seg, ws);
        lemma_conv_rounds_iter(seg, r1, (left - 1) as nat);
        assert forall|i: int| 0 <= i < ws.len() implies #[trigger] conv_rounds(seg, ws, left)[i] == conv_iter(
            seg,
            ws[i],
            conv_count(seg, ws, left),
        ) by {
            assert(r1[i] == conv_view(seg, ws[i]));
            lemma_conv_iter_shift(seg, ws[i], conv_count(seg, r1, (left - 1) as nat));
        }
    }
}

/// A word of a sublist ends its rounds as it does in the whole list: the sublist stops no
/// later than the list unless its words are already stable.
pub proof fn lemma_conv_sub(seg: Segment, sub: Seq<WordView>, all: Seq<WordView>, left: nat, x: WordView)
    requires
        forall|y: WordView| #[trigger] sub.contains(y) ==> all.contains(y),
        sub.contains(x),
    ensures
        conv_iter(seg, x, conv_count(seg, sub, left)) == conv_iter(seg, x, conv_count(seg, all, left)),
    decreases left,
{
    if left == 0 {
    } else if no_conv(seg, all) {
        let j = choose|j: int| 0 <= j < all.len() && all[j] == x;
        assert(conv_text(seg, all[j]) is None);
        assert forall|i: int| 0 <= i < sub.len() implies conv_text(seg, #[trigger] sub[i]) is None by {
            assert(sub.contains(sub[i]));
            let k = choose|k: int| 0 <= k < all.len() && all[k] == sub[i];
            assert(conv_text(seg, all[k]) is None);
        }
    } else if no_conv(seg, sub) {
        let j = choose|j: int| 0 <= j < sub.len() && sub[j] == x;
        assert(conv_text(seg, sub[j]) is None);
        lemma_conv_iter_stable(seg, x, conv_count(seg, sub, left));
        lemma_conv_iter_stable(seg, x, conv_count(seg, all, left));
    } else {
        let rs = conv_round(seg, sub);
        let ra = conv_round(seg, all);
        assert forall|y: WordView| #[trigger] rs.contains(y) implies ra.contains(y) by {
            let i = choose|i: int| 0 <= i < rs.len() && rs[i] == y;
            assert(sub.contains(sub[i]));
            let k = choose|k: int| 0 <= k < all.len() && all[k] == sub[i];
            assert(ra[k] == y);
        }
        let j = choose|j: int| 0 <= j < sub.len() && sub[j] == x;
        assert(rs[j] == conv_view(seg, x));
        lemma_conv_sub(seg, rs, ra, (left - 1) as nat, conv_view(seg, x));
        lemma_conv_iter_shift(seg, x, conv_count(seg, rs, (left - 1) as nat));
        lemma_conv_iter_shift(seg, x, conv_count(seg, ra, (left - 1) as nat));
    }
}

/// `j` rounds then `d` more are `j + d` rounds.
proof fn lemma_conv_iter_add(seg: Segment, x: WordView, j: nat, d: nat)
    ensures
        conv_iter(seg, x, j + d) == conv_iter(seg, conv_iter(seg, x, j), d),
    decreases d,
{
    if d > 0 {
        lemma_conv_iter_add(seg, x, j, (d - 1) as nat);
        assert((j + d - 1) as nat == j + (d - 1) as nat);
    } else {
        assert(conv_iter(seg, conv_iter(seg, x, j), 0) == conv_iter(seg, x, j));
    }
}

/// A converted word follows only the variant → canonical map: after `k` rounds it is still
/// changing only if following the map from its text gets `k + 1` steps far.
proof fn lemma_conv_chain(seg: Segment, y: WordView, k: nat)
    requires
        y.ow is Some,
    ensures
        conv_text(seg, conv_iter(seg, y, k)) is Some ==> crate::dict::follow(seg.synonym.forward(), y.w, k + 1) is Some,
        conv_text(seg, conv_iter(seg, y, k)) is Some ==> crate::dict::follow(seg.synonym.forward(), y.w, k) == Some(
            conv_iter(seg, y, k).w,
        ),
        conv_iter(seg, y, k).ow is Some,
    decreases k,
{
    let f = seg.synonym.forward();
    if k == 0 {
        assert(conv_iter(seg, y, 0) == y);
    } else {
        lemma_conv_chain(seg, y, (k - 1) as nat);
        let p = conv_iter(seg, y, (k - 1) as nat);
        assert(conv_iter(seg, y, k) == conv_view(seg, p));
        if conv_text(seg, p) is None {
            assert(conv_view(seg, p) == p);
        }
    }
}

/// With sound synonym maps, every word is done converting after one round more than there
/// are variants.
proof fn lemma_conv_done(seg: Segment, x: WordView)
    requires
        crate::dict::syn_inv(seg.synonym.forward(), seg.synonym.backward()),
    ensures
        conv_text(seg, conv_iter(seg, x, seg.synonym.table@.len() + 1)) is None,
{
    let f = seg.synonym.forward();
    let n = seg.synonym.table@.len();
    assert(f.dom() =~= seg.synonym.table@.dom());
    if conv_text(seg, x) is None {
        lemma_conv_iter_stable(seg, x, n + 1);
    } else {
        let y = conv_view(seg, x);
        lemma_conv_iter_shift(seg, x, n);
        assert((n + 1) as nat == n + 1);
        lemma_conv_chain(seg, y, n);
        if conv_text(seg, conv_iter(seg, y, n)) is Some {
            crate::dict::lemma_follow_bound(f, seg.synonym.backward(), y.w, n + 1);
        }
    }
}

/// How far the capped rounds go: either every word is done, or the cap was reached.
proof fn lemma_conv_count_done(seg: Segment, ws: Seq<WordView>, left: nat, i: int)
    requires
        0 <= i < ws.len(),
    ensures
        conv_count(seg, ws, left) == left + 1 || conv_text(seg, conv_iter(seg, ws[i], conv_count(seg, ws, left))) is None,
        conv_count(seg, ws, left) <= left + 1,
    decreases left,
{
    if no_conv(seg, ws) {
        assert(conv_text(seg, ws[i]) is None);
        lemma_conv_iter_stable(seg, ws[i], 1);
    } else if left > 0 {
        let r1 = conv_round(seg, ws);
        lemma_conv_count_done(seg, r1, (left - 1) as nat, i);
        assert(r1[i] == conv_view(seg, ws[i]));
        lemma_conv_iter_shift(seg, ws[i], conv_count(seg, r1, (left - 1) as nat));
    }
}

/// With sound synonym maps (as every well-formed segmenter has them), the capped conversion
/// rounds go on until no word converts any more: the cap is never what stops them.
pub proof fn lemma_conv_rounds_done(seg: Segment, ws: Seq<WordView>)
    requires
        seg.synonym.wf(),
    ensures
        no_conv(seg, conv_rounds(seg, ws, seg.synonym.table@.len())),
{
    let n = seg.synonym.table@.len();
    lemma_conv_rounds_iter(seg, ws, n);
    let r = conv_rounds(seg, ws, n);
    assert forall|k: int| 0 <= k < r.len() implies conv_text(seg, #[trigger] r[k]) is None by {
        lemma_conv_count_done(seg, ws, n, k);
        if conv_count(seg, ws, n) == n + 1 {
            lemma_conv_done(seg, ws[k]);
        }
    }
}

/// What the filters guarantee, whatever the words before them: with punctuation stripping
/// no word is punctuation, or with synonym conversion (which may give a word the
/// punctuation tag) every word is the conversion of a word that was not; with stopword
/// stripping no word is a stopword; with blank stripping no word is blank; and every word
/// left is one of the words before, or with conversion one of the converted words before.
pub proof fn lemma_filtered_holds(seg: Segment, punct: bool, syn: bool, stop: bool, space: bool, vs: Seq<WordView>)
    ensures
        ({
            let r = filtered(seg, punct, syn, stop, space, vs);
            &&& punct && !syn ==> forall|i: int| 0 <= i < r.len() ==> view_pos(#[trigger] r[i]) != POSTAG::D_W
            &&& stop ==> forall|i: int| 0 <= i < r.len() ==> !seg.stopword.table@.contains(#[trigger] r[i].w)
            &&& space ==> forall|i: int| 0 <= i < r.len() ==> !blank(#[trigger] r[i].w)
            &&& !syn ==> forall|i: int| 0 <= i < r.len() ==> vs.contains(#[trigger] r[i])
            &&& syn ==> forall|i: int| 0 <= i < r.len() ==> filtered(seg, false, true, false, false, vs).contains(#[trigger] r[i])
            &&& punct && syn ==> forall|i: int|
                #![trigger r[i]]
                0 <= i < r.len() ==> exists|x: WordView|
                    #![trigger conv_iter(seg, x, conv_count(seg, vs, seg.synonym.table@.len()))]
                    vs.contains(x) && view_pos(x) != POSTAG::D_W && r[i] == conv_iter(
                        seg,
                        x,
                        conv_count(seg, vs, seg.synonym.table@.len()),
                    )
        }),
{
    let pk = |v: WordView| view_pos(v) != POSTAG::D_W;
    let sk = |v: WordView| !seg.stopword.table@.contains(v.w);
    let bk = |v: WordView| !blank(v.w);
    let a = if punct {
        kept_views(vs, pk)
    } else {
        vs
    };
    let b = if syn {
        conv_rounds(seg, a, seg.synonym.table@.len())
    } else {
        a
    };
    let c = if stop {
        kept_views(b, sk)
    } else {
        b
    };
    let d = if space {
        kept_views(c, bk)
    } else {
        c
    };
    assert(filtered(seg, punct, syn, stop, space, vs) == d);
    lemma_kept_views_hold(vs, pk);
    lemma_kept_views_hold(b, sk);
    lemma_kept_views_hold(c, bk);
    assert forall|i: int| 0 <= i < d.len() implies c.contains(#[trigger] d[i]) by {
        if !space {
            assert(c[i] == d[i]);
        }
    }
    assert forall|x: WordView| c.contains(x) implies b.contains(x) by {
        if !stop {
        }
    }
    assert forall|x: WordView| !syn && b.contains(x) implies vs.contains(x) && (punct ==> pk(x)) by {
        if punct {
            let j = choose|j: int| 0 <= j < a.len() && a[j] == x;
            assert(pk(a[j]) && vs.contains(a[j]));
        }
    }
    assert forall|x: WordView| stop && c.contains(x) implies sk(x) by {
        let j = choose|j: int| 0 <= j < c.len() && c[j] == x;
        assert(sk(c[j]));
    }
    if syn {
        let n = seg.synonym.table@.len();
        let full = conv_rounds(seg, vs, n);
        lemma_conv_rounds_iter(seg, vs, n);
        lemma_conv_rounds_iter(seg, a, n);
        assert forall|y: WordView| #[trigger] a.contains(y) implies vs.contains(y) && (punct ==> pk(y)) by {
            if punct {
                let j = choose|j: int| 0 <= j < a.len() && a[j] == y;
                assert(pk(a[j]) && vs.contains(a[j]));
            }
        }
        assert forall|y: WordView| b.contains(y) implies full.contains(y) && exists|x: WordView|
            #![trigger conv_iter(seg, x, conv_count(seg, vs, n))]
            vs.contains(x) && (punct ==> view_pos(x) != POSTAG::D_W) && y == conv_iter(seg, x, conv_count(seg, vs, n)) by {
            let i = choose|i: int| 0 <= i < b.len() && b[i] == y;
            let x = a[i];
            assert(a.contains(x));
            lemma_conv_sub(seg, a, vs, n, x);
            assert(b[i] == conv_iter(seg, a[i], conv_count(seg, a, n)));
            assert(vs.contains(x));
            let j = choose|j: int| 0 <= j < vs.len() && vs[j] == x;
            assert(full[j] == conv_iter(seg, vs[j], conv_count(seg, vs, n)));
            assert(full[j] == y);
            assert(punct ==> pk(x));
            assert(vs.contains(x) && (punct ==> view_pos(x) != POSTAG::D_W) && y == conv_iter(seg, x, conv_count(seg, vs, n)));
        }
        let r = filtered(seg, punct, syn, stop, space, vs);
        assert forall|i: int| 0 <= i < r.len() implies filtered(seg, false, true, false, false, vs).contains(#[trigger] r[i])
            && (punct ==> exists|x: WordView|
                #![trigger conv_iter(seg, x, conv_count(seg, vs, n))]
                vs.contains(x) && view_pos(x) != POSTAG::D_W && r[i] == conv_iter(seg, x, conv_count(seg, vs, n))) by {
            assert(c.contains(d[i]));
            assert(b.contains(d[i]));
        }
    }
}

/// The filters hold of every result `do_segment` may give (see `lemma_filtered_holds`):
/// there is a segmentation the modules may give such that the words left are, in order, a
/// part of it after the same synonym conversion and no filter, and with punctuation
/// stripping every word left comes from a word of it that was not punctuation.
pub proof fn lemma_segment_filters<S: ChunkScorer>(
    seg: Segment,
    scorer: S,
    text: Seq<char>,
    disabled: Seq<String>,
    punct: bool,
    syn: bool,
    stop: bool,
    space: bool,
    r: Seq<WordView>,
)
    requires
        segment_result(seg, scorer, text, disabled, punct, syn, stop, space, r),
    ensures
        punct && !syn ==> forall|i: int| 0 <= i < r.len() ==> view_pos(#[trigger] r[i]) != POSTAG::D_W,
        stop ==> forall|i: int| 0 <= i < r.len() ==> !seg.stopword.table@.contains(#[trigger] r[i].w),
        space ==> forall|i: int| 0 <= i < r.len() ==> !blank(#[trigger] r[i].w),
        !syn ==> exists|raw: Seq<WordView>|
            #![trigger segmented(seg, scorer, section_pieces(text), enabled_tokenizers(seg.tokenizers@, disabled), enabled_optimizers(seg.optimizers@, disabled), raw)]
            segmented(
                seg,
                scorer,
                section_pieces(text),
                enabled_tokenizers(seg.tokenizers@, disabled),
                enabled_optimizers(seg.optimizers@, disabled),
                raw,
            ) && forall|i: int| 0 <= i < r.len() ==> raw.contains(#[trigger] r[i]),
        exists|raw: Seq<WordView>|
            #![trigger segmented(seg, scorer, section_pieces(text), enabled_tokenizers(seg.tokenizers@, disabled), enabled_optimizers(seg.optimizers@, disabled), raw)]
            segmented(
                seg,
                scorer,
                section_pieces(text),
                enabled_tokenizers(seg.tokenizers@, disabled),
                enabled_optimizers(seg.optimizers@, disabled),
                raw,
            ) && (forall|i: int| 0 <= i < r.len() ==> filtered(seg, false, syn, false, false, raw).contains(#[trigger] r[i]))
                && is_subseq(r, filtered(seg, false, syn, false, false, raw))
                && (punct ==> forall|i: int|
                #![trigger r[i]]
                0 <= i < r.len() ==> exists|x: WordView|
                    #![trigger raw.contains(x)]
                    raw.contains(x) && view_pos(x) != POSTAG::D_W && r[i] == (if syn {
                        conv_iter(seg, x, conv_count(seg, raw, seg.synonym.table@.len()))
                    } else {
                        x
                    })),
{
    let raw = choose|raw: Seq<WordView>|
        segmented(
            seg,
            scorer,
            section_pieces(text),
            enabled_tokenizers(seg.tokenizers@, disabled),
            enabled_optimizers(seg.optimizers@, disabled),
            raw,
        ) && r == filtered(seg, punct, syn, stop, space, raw);
    lemma_filtered_holds(seg, punct, syn, stop, space, raw);
    lemma_filters_drop_words(seg, punct, syn, stop, space, raw);
    if !syn {
        assert(filtered(seg, false, syn, false, false, raw) == raw);
    }
    assert forall|i: int| 0 <= i < r.len() implies filtered(seg, false, syn, false, false, raw).contains(#[trigger] r[i]) by {
        if !syn {
            assert(raw.contains(r[i]));
        }
    }
    if punct {
        let n = seg.synonym.table@.len();
        assert forall|i: int| #![trigger r[i]] 0 <= i < r.len() implies exists|x: WordView|
            #![trigger raw.contains(x)]
            raw.contains(x) && view_pos(x) != POSTAG::D_W && r[i] == (if syn {
                conv_iter(seg, x, conv_count(seg, raw, n))
            } else {
                x
            }) by {
            if syn {
                let x = choose|x: WordView|
                    #![trigger conv_iter(seg, x, conv_count(seg, raw, n))]
                    raw.contains(x) && view_pos(x) != POSTAG::D_W && r[i] == conv_iter(seg, x, conv_count(seg, raw, n));
                assert(raw.contains(x));
            } else {
                assert(raw.contains(r[i]));
                assert(view_pos(r[i]) != POSTAG::D_W);
            }
        }
    }
}

/// `a` is `b` with some words left out: `a[k]` is `b[idx[k]]`, the indices rising.
pub open spec fn subseq_by(a: Seq<WordView>, b: Seq<WordView>, idx: Seq<int>) -> bool {
    &&& idx.len() == a.len()
    &&& forall|k: int| 0 <= k < idx.len() ==> 0 <= #[trigger] idx[k] < b.len() && a[k] == b[idx[k]]
    &&& forall|j: int, k: int| 0 <= j < k < idx.len() ==> #[trigger] idx[j] < #[trigger] idx[k]
}

/// `a` is `b` with some words left out, the others in order.
pub open spec fn is_subseq(a: Seq<WordView>, b: Seq<WordView>) -> bool {
    exists|idx: Seq<int>| subseq_by(a, b, idx)
}

proof fn lemma_subseq_refl(a: Seq<WordView>)
    ensures
        is_subseq(a, a),
{
    let idx = Seq::new(a.len(), |i: int| i);
    assert(subseq_by(a, a, idx));
}

proof fn lemma_subseq_trans(a: Seq<WordView>, b: Seq<WordView>, c: Seq<WordView>)
    requires
        is_subseq(a, b),
        is_subseq(b, c),
    ensures
        is_subseq(a, c),
{
    let i1 = choose|idx: Seq<int>| subseq_by(a, b, idx);
    let i2 = choose|idx: Seq<int>| subseq_by(b, c, idx);
    let idx = Seq::new(a.len(), |k: int| i2[i1[k]]);
    assert forall|k: int| 0 <= k < idx.len() implies 0 <= #[trigger] idx[k] < c.len() && a[k] == c[idx[k]] by {
        assert(0 <= i1[k] < b.len());
    }
    assert forall|j: int, k: int| 0 <= j < k < idx.len() implies #[trigger] idx[j] < #[trigger] idx[k] by {
        assert(i1[j] < i1[k]);
        assert(0 <= i1[k] < b.len());
    }
    assert(subseq_by(a, c, idx));
}

/// The words a predicate keeps are the list with some words left out.
proof fn lemma_kept_subseq(vs: Seq<WordView>, keep: spec_fn(WordView) -> bool)
    ensures
        is_subseq(kept_views(vs, keep), vs),
    decreases vs.len(),
{
    if vs.len() > 0 {
        let t = vs.drop_last();
        lemma_kept_subseq(t, keep);
        let r = kept_views(t, keep);
        let i1 = choose|idx: Seq<int>| subseq_by(r, t, idx);
        if keep(vs.last()) {
            let idx = i1.push(vs.len() - 1);
            assert forall|k: int| 0 <= k < idx.len() implies 0 <= #[trigger] idx[k] < vs.len() && r.push(vs.last())[k]
                == vs[idx[k]] by {
                if k < i1.len() {
                    assert(idx[k] == i1[k]);
                }
            }
            assert forall|j: int, k: int| 0 <= j < k < idx.len() implies #[trigger] idx[j] < #[trigger] idx[k] by {
                if k < i1.len() {
                    assert(i1[j] < i1[k]);
                } else {
                    assert(idx[j] == i1[j]);
                }
            }
            assert(subseq_by(r.push(vs.last()), vs, idx));
        } else {
            assert forall|k: int| 0 <= k < i1.len() implies 0 <= #[trigger] i1[k] < vs.len() && r[k] == vs[i1[k]] by {
                assert(t[i1[k]] == vs[i1[k]]);
            }
            assert(subseq_by(r, vs, i1));
        }
    } else {
        assert(subseq_by(kept_views(vs, keep), vs, Seq::<int>::empty()));
    }
}

/// Converting a list with words left out gives the converted list with the same words
/// left out: each word ends its rounds as it does in the whole list.
proof fn lemma_conv_subseq(seg: Segment, a: Seq<WordView>, b: Seq<WordView>, left: nat)
    requires
        is_subseq(a, b),
    ensures
        is_subseq(conv_rounds(seg, a, left), conv_rounds(seg, b, left)),
{
    let idx = choose|idx: Seq<int>| subseq_by(a, b, idx);
    lemma_conv_rounds_iter(seg, a, left);
    lemma_conv_rounds_iter(seg, b, left);
    assert forall|y: WordView| #[trigger] a.contains(y) implies b.contains(y) by {
        let k = choose|k: int| 0 <= k < a.len() && a[k] == y;
        assert(b[idx[k]] == y);
    }
    let ra = conv_rounds(seg, a, left);
    let rb = conv_rounds(seg, b, left);
    assert forall|k: int| 0 <= k < idx.len() implies 0 <= #[trigger] idx[k] < rb.len() && ra[k] == rb[idx[k]] by {
        assert(a.contains(a[k]));
        lemma_conv_sub(seg, a, b, left, a[k]);
        assert(ra[k] == conv_iter(seg, a[k], conv_count(seg, a, left)));
        assert(rb[idx[k]] == conv_iter(seg, b[idx[k]], conv_count(seg, b, left)));
    }
    assert(subseq_by(ra, rb, idx));
}

/// The filters only drop words: what they leave of `vs` is, in order, a part of `vs`
/// after the same synonym conversion and no filter.
pub proof fn lemma_filters_drop_words(seg: Segment, punct: bool, syn: bool, stop: bool, space: bool, vs: Seq<WordView>)
    ensures
        is_subseq(filtered(seg, punct, syn, stop, space, vs), filtered(seg, false, syn, false, false, vs)),
{
    let n = seg.synonym.table@.len();
    let a = if punct {
        kept_views(vs, |v: WordView| view_pos(v) != POSTAG::D_W)
    } else {
        vs
    };
    if punct {
        lemma_kept_subseq(vs, |v: WordView| view_pos(v) != POSTAG::D_W);
    } else {
        lemma_subseq_refl(vs);
    }
    let b = if syn {
        conv_rounds(seg, a, n)
    } else {
        a
    };
    let base = filtered(seg, false, syn, false, false, vs);
    if syn {
        lemma_conv_subseq(seg, a, vs, n);
        assert(base == conv_rounds(seg, vs, n));
    } else {
        assert(base == vs);
    }
    assert(is_subseq(b, base));
    let c = if stop {
        kept_views(b, |v: WordView| !seg.stopword.table@.contains(v.w))
    } else {
        b
    };
    if stop {
        lemma_kept_subseq(b, |v: WordView| !seg.stopword.table@.contains(v.w));
        lemma_subseq_trans(c, b, base);
    }
    assert(is_subseq(c, base));
    let d = if space {
        kept_views(c, |v: WordView| !blank(v.w))
    } else {
        c
    };
    if space {
        lemma_kept_subseq(c, |v: WordView| !blank(v.w));
        lemma_subseq_trans(d, c, base);
    }
    assert(is_subseq(d, base));
    assert(filtered(seg, punct, syn, stop, space, vs) == d);
}

/// The filters `do_segment` applies last: punctuation, synonym conversion, stopwords,
/// blank words, each when asked for.
pub open spec fn filtered(seg: Segment, punct: bool, syn: bool, stop: bool, space: bool, vs: Seq<WordView>) -> Seq<WordView> {
    let a = if punct {
        kept_views(vs, |v: WordView| view_pos(v) != POSTAG::D_W)
    } else {
        vs
    };
    let b = if syn {
        conv_rounds(seg, a, seg.synonym.table@.len())
    } else {
        a
    };
    let c = if stop {
        kept_views(b, |v: WordView| !seg.stopword.table@.contains(v.w))
    } else {
        b
    };
    if space {
        kept_views(c, |v: WordView| !blank(v.w))
    } else {
        c
    }
}

/// A result `do_segment` may give on `text` with the modules `disabled` and the filters
/// asked for: the sections through the enabled modules, then the filters.
pub open spec fn segment_result<S: ChunkScorer>(seg: Segment, scorer: S,
    text: Seq<char>,
    disabled: Seq<String>,
    punct: bool,
    syn: bool,
    stop: bool,
    space: bool,
    r: Seq<WordView>,
) -> bool {
    exists|raw: Seq<WordView>|
        #![trigger segmented(seg, scorer, section_pieces(text), enabled_tokenizers(seg.tokenizers@, disabled), enabled_optimizers(seg.optimizers@, disabled), raw)]
        segmented(
            seg,
            scorer,
            section_pieces(text),
            enabled_tokenizers(seg.tokenizers@, disabled),
            enabled_optimizers(seg.optimizers@, disabled),
            raw,
        ) && r == filtered(seg, punct, syn, stop, space, raw)
}

/// The pieces `split_sections` cuts a text into.
pub open spec fn section_pieces(text: Seq<char>) -> Seq<Seq<char>> {
    if crate::re::spec_regex_valid(RE_SECTION@) {
        crate::re::split_keep_spec(text, crate::re::spec_regex_matches(RE_SECTION@, text))
    } else {
        seq![text]
    }
}

/// The tokenizer's words spell its input whatever chars it holds: the punctuation,
/// dictionary and name tokenizers when no entry of their lists holds U+FFFD, the wildcard
/// tokenizer only without wildcard words (it finds positions in the lowercase text).
pub open spec fn keeps_any_text(seg: Segment, kind: TokenizerKind) -> bool {
    match kind {
        TokenizerKind::Punctuation => seg.lexicon.punctuation.no_fffd_keys(),
        TokenizerKind::Dict => seg.table.no_fffd_keys(),
        TokenizerKind::Wildcard => seg.wildcard.table@.len() == 0,
        TokenizerKind::ChsName => seg.lexicon.names_no_fffd(),
        _ => true,
    }
}

/// Every one of the tokenizers keeps any text.
pub open spec fn all_keep_text(seg: Segment, toks: Seq<TokenizerKind>) -> bool {
    forall|i: int| 0 <= i < toks.len() ==> keeps_any_text(seg, #[trigger] toks[i])
}

impl Segment {
    /// Run one tokenizer.
    pub fn run_tokenizer<S: ChunkScorer>(&self, kind: TokenizerKind, words: Vec<Word>, scorer: &S) -> (r: Vec<Word>)
        requires
            self.wf(),
            self.max_chunk_count < usize::MAX,
        ensures
            all_bmp(text_of(words@)) ==> text_of(r@) == text_of(words@),
            keeps_any_text(*self, kind) ==> text_of(r@) == text_of(words@),
            text_of(r@) == text_of(words@) || text_of(r@).contains('\u{FFFD}'),
            tokenized(*self, *scorer, kind, words@, r@),
    {
        match kind {
            TokenizerKind::Url => UrlTokenizer.split(words, self),
            TokenizerKind::Wildcard => WildcardTokenizer.split(words, self),
            TokenizerKind::Punctuation => PunctuationTokenizer.split(words, self),
            TokenizerKind::Foreign => ForeignTokenizer.split(words, self),
            TokenizerKind::Dict => DictTokenizer.split(words, self, scorer),
            TokenizerKind::ChsName => ChsNameTokenizer.split(words, self),
            TokenizerKind::JpSimple => JpSimpleTokenizer.split(words, self),
            TokenizerKind::Zhuyin => ZhuyinTokenizer.split(words, self),
        }
    }

    /// Run one optimizer.
    pub fn run_optimizer(&self, kind: OptimizerKind, words: Vec<Word>) -> (r: Vec<Word>)
        requires
            self.wf(),
        ensures
            kind != OptimizerKind::ZhtSynonym ==> text_of(r@) == text_of(words@),
            views(r@) == optimized(*self, kind, views(words@)),
    {
        match kind {
            OptimizerKind::Email => EmailOptimizer.do_optimize(words, self),
            OptimizerKind::ChsName => ChsNameOptimizer.do_optimize(words, self),
            OptimizerKind::Dict => DictOptimizer.do_optimize(words, self),
            OptimizerKind::Datetime => DatetimeOptimizer.do_optimize(words, self),
            OptimizerKind::Foreign => ForeignOptimizer.do_optimize(words, self),
            OptimizerKind::ZhtSynonym => ZhtSynonymOptimizer.do_optimize(words, self),
            OptimizerKind::Adjective => AdjectiveOptimizer.do_optimize(words, self),
        }
    }

    /// The words of one section: the section as one word, through every tokenizer, then
    /// every optimizer.
    fn segment_section<S: ChunkScorer>(
        &self,
        section: &str,
        toks: &Vec<TokenizerKind>,
        opts: &Vec<OptimizerKind>,
        scorer: &S,
    ) -> (r: Vec<Word>)
        requires
            self.wf(),
            self.max_chunk_count < usize::MAX,
        ensures
            (all_bmp(section@) || all_keep_text(*self, toks@)) && !opts@.contains(OptimizerKind::ZhtSynonym)
                ==> text_of(r@) == section@,
            !opts@.contains(OptimizerKind::ZhtSynonym) ==> text_of(r@) == section@ || text_of(r@).contains('\u{FFFD}'),
            section_words(*self, *scorer, section@, toks@, opts@, views(r@)),
    {
        let mut words: Vec<Word> = Vec::new();
        words.push(Word::new(section));
        let ghost w0 = words@[0];
        let ghost start = words@;
        proof {
            crate::word::lemma_text_of_single(words@[0]);
            assert(words@ =~= seq![words@[0]]);
            assert(w0@ == plain_view((section@, None)));
            assert(toks@.take(0) =~= Seq::<TokenizerKind>::empty());
        }
        let mut i: usize = 0;
        while i < toks.len()
            invariant
                self.wf(),
                self.max_chunk_count < usize::MAX,
                i <= toks@.len(),
                all_bmp(section@) || all_keep_text(*self, toks@) ==> text_of(words@) == section@,
                text_of(words@) == section@ || text_of(words@).contains('\u{FFFD}'),
                start == seq![w0],
                tokenized_all(*self, *scorer, toks@.take(i as int), start, words@),
            decreases toks@.len() - i,
        {
            let ghost mid = words@;
            words = self.run_tokenizer(toks[i], words, scorer);
            proof {
                if all_keep_text(*self, toks@) {
                    assert(keeps_any_text(*self, toks@[i as int]));
                }
                let tk = toks@.take(i + 1);
                assert(tk.drop_last() =~= toks@.take(i as int));
                assert(tk.last() == toks@[i as int]);
                assert(tokenized(*self, *scorer, tk.last(), mid, words@));
                assert(tokenized_all(*self, *scorer, tk, start, words@));
            }
            i += 1;
        }
        let ghost t = words@;
        proof {
            assert(toks@.take(toks@.len() as int) =~= toks@);
            assert(opts@.take(0) =~= Seq::<OptimizerKind>::empty());
        }
        let mut j: usize = 0;
        while j < opts.len()
            invariant
                self.wf(),
                j <= opts@.len(),
                (all_bmp(section@) || all_keep_text(*self, toks@)) && !opts@.contains(OptimizerKind::ZhtSynonym)
                    ==> text_of(words@) == section@,
                !opts@.contains(OptimizerKind::ZhtSynonym) ==> text_of(words@) == section@ || text_of(words@).contains(
                    '\u{FFFD}',
                ),
                views(words@) == optimized_all(*self, opts@.take(j as int), views(t)),
            decreases opts@.len() - j,
        {
            let k = opts[j];
            proof {
                if k == OptimizerKind::ZhtSynonym {
                    assert(opts@.contains(k));
                }
                let ok = opts@.take(j + 1);
                assert(ok.drop_last() =~= opts@.take(j as int));
                assert(ok.last() == k);
            }
            words = self.run_optimizer(k, words);
            j += 1;
        }
        proof {
            assert(opts@.take(opts@.len() as int) =~= opts@);
            assert(tokenized_all(*self, *scorer, toks@, seq![w0], t));
        }
        words
    }

    /// Segment `text`: sections (line breaks and blank runs kept as words), each through the
    /// enabled tokenizers and optimizers, then the filters the merged options ask for.
    ///
    /// With no filter asked for and the synonym optimizer not enabled, the words spell the
    /// text when it is BMP or every enabled tokenizer keeps any text (`keeps_any_text`); on
    /// any other text they spell it unless they hold U+FFFD (where a cut fell inside a
    /// surrogate pair).
    pub fn do_segment<S: ChunkScorer>(&self, text: &str, options: &DoSegmentOptions, scorer: &S) -> (r: Vec<Word>)
        requires
            self.wf(),
            self.max_chunk_count < usize::MAX,
        ensures
            ({
                let o = self.options.options_do_segment;
                let disabled = disabled_for(*self, *options);
                (all_bmp(text@) || all_keep_text(*self, enabled_tokenizers(self.tokenizers@, disabled)))
                    && !flag_of(or_opt(options.strip_punctuation, o.strip_punctuation))
                    && !flag_of(or_opt(options.convert_synonym, o.convert_synonym)) && !flag_of(
                    or_opt(options.strip_stopword, o.strip_stopword),
                ) && !flag_of(or_opt(options.strip_space, o.strip_space))
                    && !enabled_optimizers(self.optimizers@, disabled).contains(OptimizerKind::ZhtSynonym)
                    ==> text_of(r@) == text@
            }),
            ({
                let o = self.options.options_do_segment;
                let disabled = disabled_for(*self, *options);
                !flag_of(or_opt(options.strip_punctuation, o.strip_punctuation)) && !flag_of(
                    or_opt(options.convert_synonym, o.convert_synonym),
                ) && !flag_of(or_opt(options.strip_stopword, o.strip_stopword)) && !flag_of(
                    or_opt(options.strip_space, o.strip_space),
                ) && !enabled_optimizers(self.optimizers@, disabled).contains(OptimizerKind::ZhtSynonym)
                    ==> text_of(r@) == text@ || text_of(r@).contains('\u{FFFD}')
            }),
            ({
                let o = self.options.options_do_segment;
                segment_result(
                    *self,
                    *scorer,
                    text@,
                    disabled_for(*self, *options),
                    flag_of(or_opt(options.strip_punctuation, o.strip_punctuation)),
                    flag_of(or_opt(options.convert_synonym, o.convert_synonym)),
                    flag_of(or_opt(options.strip_stopword, o.strip_stopword)),
                    flag_of(or_opt(options.strip_space, o.strip_space)),
                    views(r@),
                )
            }),
    {
        let merged = self.options.options_do_segment.merge(options);
        let disabled = if merged.disable_modules.len() == 0 {
            crate::options::clone_strings(&self.options.disable_modules)
        } else {
            crate::options::clone_strings(&merged.disable_modules)
        };
        let toks = tokenizers_enabled(&self.tokenizers, &disabled);
        let opts = optimizers_enabled(&self.optimizers, &disabled);
        let sections = split_sections(text);
        let ghost pv = sections@.map_values(|s: String| s@);
        let ghost plain = (all_bmp(text@) || all_keep_text(*self, toks@)) && !opts@.contains(OptimizerKind::ZhtSynonym);
        let mut ret: Vec<Word> = Vec::new();
        let ghost mut rs: Seq<Seq<WordView>> = Seq::empty();
        proof {
            assert(views(ret@) =~= Seq::<WordView>::empty());
        }
        let mut k: usize = 0;
        while k < sections.len()
            invariant
                self.wf(),
                self.max_chunk_count < usize::MAX,
                k <= sections@.len(),
                pv == sections@.map_values(|s: String| s@),
                concat_pieces(pv) == text@,
                plain == ((all_bmp(text@) || all_keep_text(*self, toks@)) && !opts@.contains(OptimizerKind::ZhtSynonym)),
                plain ==> text_of(ret@) == concat_pieces(pv.subrange(0, k as int)),
                !opts@.contains(OptimizerKind::ZhtSynonym) ==> text_of(ret@) == concat_pieces(pv.subrange(0, k as int))
                    || text_of(ret@).contains('\u{FFFD}'),
                rs.len() == k,
                forall|i: int| 0 <= i < k ==> piece_words(*self, *scorer, pv[i], toks@, opts@, #[trigger] rs[i]),
                views(ret@) == flatten_views(rs),
            decreases sections@.len() - k,
        {
            let section = sections[k].as_str();
            proof {
                assert(pv[k as int] == section@);
                assert(pv.subrange(0, k + 1) =~= pv.subrange(0, k as int).push(pv[k as int]));
                lemma_concat_push(pv.subrange(0, k as int), pv[k as int]);
                if all_bmp(text@) {
                    lemma_concat_bmp(pv, k as int);
                }
            }
            let ghost before = ret@;
            let ghost mut b: Seq<WordView> = Seq::empty();
            if is_newline_only(section) {
                let x = Word::new(section);
                proof {
                    lemma_text_of_push(ret@, x);
                    crate::word::lemma_concat_contains(text_of(ret@), x.w@, '\u{FFFD}');
                }
                ret.push(x);
                proof {
                    b = seq![plain_view((section@, None))];
                    assert(x@ == plain_view((section@, None)));
                    assert(views(ret@) =~= views(before) + b);
                    assert(piece_words(*self, *scorer, section@, toks@, opts@, b));
                }
            } else if section.is_empty() {
                proof {
                    assert(concat_pieces(pv.subrange(0, k as int)) + section@ =~= concat_pieces(pv.subrange(0, k as int)));
                    assert(views(ret@) =~= views(before) + b);
                    assert(piece_words(*self, *scorer, section@, toks@, opts@, b));
                }
            } else {
                let mut ws = self.segment_section(section, &toks, &opts, scorer);
                proof {
                    b = views(ws@);
                    lemma_text_of_add(ret@, ws@);
                    crate::word::lemma_concat_contains(text_of(ret@), text_of(ws@), '\u{FFFD}');
                    crate::word::lemma_concat_contains(text_of(ret@), section@, '\u{FFFD}');
                }
                ret.append(&mut ws);
                proof {
                    assert(views(ret@) =~= views(before) + b);
                    assert(piece_words(*self, *scorer, section@, toks@, opts@, b));
                }
            }
            proof {
                let rs2 = rs.push(b);
                assert(rs2.drop_last() =~= rs);
                assert(flatten_views(rs2) == flatten_views(rs) + b);
                assert forall|i: int| 0 <= i < k + 1 implies piece_words(*self, *scorer, pv[i], toks@, opts@, #[trigger] rs2[i]) by {
                    if i < k {
                        assert(rs2[i] == rs[i]);
                    }
                }
                rs = rs2;
            }
            k += 1;
        }
        proof {
            assert(pv.subrange(0, pv.len() as int) =~= pv);
        }
        let ghost raw = views(ret@);
        let punct = merged.strip_punctuation_flag();
        let syn = merged.convert_synonym_flag();
        let stop = merged.strip_stopword_flag();
        let space = merged.strip_space_flag();
        if punct {
            let ghost b = ret@;
            ret = strip_punctuation(ret);
            proof {
                lemma_kept_views(b, |w: Word| not_punct(w), |v: WordView| view_pos(v) != POSTAG::D_W);
            }
        }
        let ghost va = views(ret@);
        if syn {
            ret = convert_synonym(ret, self);
        }
        let ghost vb = views(ret@);
        if stop {
            let ghost b = ret@;
            ret = strip_stopword(ret, self);
            proof {
                lemma_kept_views(
                    b,
                    |w: Word| !self.stopword.table@.contains(w.w@),
                    |v: WordView| !self.stopword.table@.contains(v.w),
                );
            }
        }
        let ghost vc = views(ret@);
        if space {
            let ghost b = ret@;
            ret = strip_space(ret);
            proof {
                lemma_kept_views(
                    b,
                    |w: Word| not_space(w),
                    |v: WordView| !blank(v.w),
                );
            }
        }
        proof {
            assert(views(ret@) == filtered(*self, punct, syn, stop, space, raw));
            assert(pv == section_pieces(text@));
            assert(raw == flatten_views(rs));
            assert(segmented(*self, *scorer, section_pieces(text@), toks@, opts@, raw));
            assert(disabled@ == disabled_for(*self, *options));
            assert(segment_result(*self, *scorer, text@, disabled@, punct, syn, stop, space, views(ret@)));
        }
        ret
    }

    /// The words' texts of `do_segment` with `simple` set.
    ///
    /// Under the condition of `do_segment`'s law, the texts spell the text.
    pub fn do_segment_simple<S: ChunkScorer>(&self, text: &str, options: &DoSegmentOptions, scorer: &S) -> (r: Vec<String>)
        requires
            self.wf(),
            self.max_chunk_count < usize::MAX,
        ensures
            ({
                let o = self.options.options_do_segment;
                let disabled = disabled_for(*self, *options);
                (all_bmp(text@) || all_keep_text(*self, enabled_tokenizers(self.tokenizers@, disabled)))
                    && !flag_of(or_opt(options.strip_punctuation, o.strip_punctuation))
                    && !flag_of(or_opt(options.convert_synonym, o.convert_synonym)) && !flag_of(
                    or_opt(options.strip_stopword, o.strip_stopword),
                ) && !flag_of(or_opt(options.strip_space, o.strip_space))
                    && !enabled_optimizers(self.optimizers@, disabled).contains(OptimizerKind::ZhtSynonym)
                    ==> concat_pieces(r@.map_values(|s: String| s@)) == text@
            }),
            ({
                let o = self.options.options_do_segment;
                let disabled = disabled_for(*self, *options);
                !flag_of(or_opt(options.strip_punctuation, o.strip_punctuation)) && !flag_of(
                    or_opt(options.convert_synonym, o.convert_synonym),
                ) && !flag_of(or_opt(options.strip_stopword, o.strip_stopword)) && !flag_of(
                    or_opt(options.strip_space, o.strip_space),
                ) && !enabled_optimizers(self.optimizers@, disabled).contains(OptimizerKind::ZhtSynonym)
                    ==> concat_pieces(r@.map_values(|s: String| s@)) == text@ || concat_pieces(
                    r@.map_values(|s: String| s@),
                ).contains('\u{FFFD}')
            }),
            ({
                let o = self.options.options_do_segment;
                exists|ws: Seq<WordView>|
                    #![trigger segment_result(
                        *self,
                        *scorer,
                        text@,
                        disabled_for(*self, *options),
                        flag_of(or_opt(options.strip_punctuation, o.strip_punctuation)),
                        flag_of(or_opt(options.convert_synonym, o.convert_synonym)),
                        flag_of(or_opt(options.strip_stopword, o.strip_stopword)),
                        flag_of(or_opt(options.strip_space, o.strip_space)),
                        ws,
                    )]
                    segment_result(
                        *self,
                        *scorer,
                        text@,
                        disabled_for(*self, *options),
                        flag_of(or_opt(options.strip_punctuation, o.strip_punctuation)),
                        flag_of(or_opt(options.convert_synonym, o.convert_synonym)),
                        flag_of(or_opt(options.strip_stopword, o.strip_stopword)),
                        flag_of(or_opt(options.strip_space, o.strip_space)),
                        ws,
                    ) && r@.map_values(|s: String| s@) == view_texts(ws)
            }),
    {
        let mut o = options.clone();
        o.simple = Some(true);
        let words = self.do_segment(text, &o, scorer);
        let r = stringify_list(words.as_slice());
        proof {
            lemma_pieces_text(r@.map_values(|s: String| s@), words@);
            assert(disabled_for(*self, o) == disabled_for(*self, *options));
            assert(r@.map_values(|s: String| s@) =~= view_texts(views(words@)));
        }
        r
    }
}

} // verus!
