//! The segmenter: dictionaries, word lists and module lists.
use vstd::prelude::*;
use crate::cjk::CjkTables;
use crate::dict::{SetDict, SynonymDict, TableDict};
use crate::options::{clone_strings, DoSegmentOptions, SegmentOptions};
use crate::strs::{chars_of, char_to_string, to_owned_string, trim};
use crate::word::Word;

verus! {

/// Default DictTokenizer chunk depth.
pub const DEFAULT_MAX_CHUNK_COUNT: usize = 40;

/// Lower bound of the DictTokenizer chunk depth.
pub const DEFAULT_MAX_CHUNK_COUNT_MIN: usize = 30;

/// Built-in punctuation / separator characters for PunctuationTokenizer.
pub const PUNCTUATION_CHARS: &'static str = " ,.;+-|/\\'\":?<>[]{}=!@#$%^&*()~`。，、＇：∶；?‘’“”〝〞ˆˇ﹕︰﹔﹖﹑·¨….¸;！´？！～—ˉ｜‖＂〃｀@﹫¡¿﹏﹋﹌︴々﹟#﹩$﹠&﹪%*﹡﹢﹦﹤‐￣¯―﹨ˆ˜﹍﹎+=<­＿_-\\ˇ~﹉﹊（）〈〉‹›﹛﹜『』〖〗［］《》〔〕{}「」【】︵︷︿︹︽_﹁﹃︻︶︸﹀︺︾ˉ﹂﹄︼＋－×÷﹢﹣±／＝≈≡≠∧∨∑∏∪∩∈⊙⌒⊥∥∠∽≌＜＞≤≥≮≯∧∨√﹙﹚[]﹛﹜∫∮∝∞⊙∏┌┬┐┏┳┓╒╤╕─│├┼┤┣╋┫╞╪╡━┃└┴┘┗┻┛╘╧╛┄┆┅┇╭─╮┏━┓╔╦╗┈┊│╳│┃┃╠╬╣┉┋╰─╯┗━┛╚╩╝╲╱┞┟┠┡┢┦┧┨┩┪╉╊┭┮┯┰┱┲┵┶┷┸╇╈┹┺┽┾┿╀╁╂╃╄╅╆○◇□△▽☆●◆■▲▼★♠♥♦♣☼☺◘♀√☻◙♂×▁▂▃▄▅▆▇█⊙◎۞卍卐╱╲▁▏↖↗↑←↔◤◥╲╱▔▕↙↘↓→↕◣◢∷▒░℡™．・　※⋯丶";

/// Date/time unit words.
pub const DATETIME_RAW: [&'static str; 16] = [
    "世纪", "年", "年份", "年度", "月", "月份", "月度", "日", "号", "时", "点", "点钟", "分",
    "分钟", "秒", "毫秒",
];

/// Hair colours.
pub const COLOR_HAIR_RAW: [&'static str; 32] = [
    "乌", "朱", "栗", "桃", "棕", "橘", "橙", "灰", "白", "碧", "紅", "紫", "綠", "红", "绯",
    "绿", "翠", "苍", "茜", "蓝", "藍", "褐", "赤", "金", "银", "青", "靛", "黃", "黄", "黑",
    "黒", "茶",
];

/// Further colour characters.
pub const COLOR_EXTRA: [&'static str; 21] = [
    "丹", "彤", "绛", "纁", "赭", "驼", "曙", "墨", "米", "缃", "藕", "玄", "皂", "黛", "黝",
    "素", "杏", "缟", "鹤", "皓", "华",
];

/// The texts of string literals.
pub open spec fn literal_views(items: Seq<&'static str>) -> Seq<Seq<char>> {
    items.map_values(|x: &'static str| x@)
}

/// The non-empty texts among `items`, as a set.
pub open spec fn word_set(items: Seq<Seq<char>>) -> Set<Seq<char>> {
    Set::new(|k: Seq<char>| k.len() > 0 && items.contains(k))
}

/// Word lists the modules consult: name characters, date/time units, colours and
/// punctuation.
pub struct Lexicon {
    pub family_name_1: SetDict,
    pub family_name_2: SetDict,
    pub double_name_1: SetDict,
    pub double_name_2: SetDict,
    pub single_name: SetDict,
    pub single_name_no_repeat: SetDict,
    pub datetime: SetDict,
    pub color_hair: SetDict,
    pub color_all: SetDict,
    /// One entry per punctuation char.
    pub punctuation: TableDict,
}

impl Lexicon {
    pub open spec fn wf(&self) -> bool {
        &&& self.family_name_1.wf()
        &&& self.family_name_2.wf()
        &&& self.double_name_1.wf()
        &&& self.double_name_2.wf()
        &&& self.single_name.wf()
        &&& self.single_name_no_repeat.wf()
        &&& self.datetime.wf()
        &&& self.color_hair.wf()
        &&& self.color_all.wf()
        &&& self.punctuation.wf()
    }

    /// Lists built from the raw word lists, expanded with `arr_cjk`; name lists empty.
    pub fn new(cjk: &CjkTables) -> (r: Lexicon)
        ensures
            r.wf(),
            r.family_name_1.table@ == Set::<Seq<char>>::empty(),
            r.family_name_2.table@ == Set::<Seq<char>>::empty(),
            r.double_name_1.table@ == Set::<Seq<char>>::empty(),
            r.double_name_2.table@ == Set::<Seq<char>>::empty(),
            r.single_name.table@ == Set::<Seq<char>>::empty(),
            r.single_name_no_repeat.table@ == Set::<Seq<char>>::empty(),
            r.datetime.table@ == word_set(cjk.arr_list(literal_views(DATETIME_RAW@))),
            r.color_hair.table@ == word_set(cjk.arr_list(literal_views(COLOR_HAIR_RAW@))),
            r.color_all.table@ == word_set(cjk.arr_list(literal_views(COLOR_HAIR_RAW@))).union(
                word_set(cjk.arr_list(literal_views(COLOR_EXTRA@))),
            ),
            forall|k: Seq<char>|
                #[trigger] r.punctuation.table@.contains_key(k) <==> exists|i: int|
                    0 <= i < PUNCTUATION_CHARS@.len() && k == seq![PUNCTUATION_CHARS@[i]],
    {
        let mut datetime = SetDict::new();
        add_variants(&mut datetime, cjk, &DATETIME_RAW);
        let mut color_hair = SetDict::new();
        add_variants(&mut color_hair, cjk, &COLOR_HAIR_RAW);
        let mut color_all = SetDict::new();
        add_variants(&mut color_all, cjk, &COLOR_HAIR_RAW);
        add_variants(&mut color_all, cjk, &COLOR_EXTRA);
        proof {
            assert(datetime.table@ =~= word_set(cjk.arr_list(literal_views(DATETIME_RAW@))));
            assert(color_hair.table@ =~= word_set(cjk.arr_list(literal_views(COLOR_HAIR_RAW@))));
            assert(color_all.table@ =~= word_set(cjk.arr_list(literal_views(COLOR_HAIR_RAW@))).union(
                word_set(cjk.arr_list(literal_views(COLOR_EXTRA@))),
            ));
        }
        let mut punctuation = TableDict::new();
        let cs = chars_of(PUNCTUATION_CHARS);
        let mut i: usize = 0;
        while i < cs.len()
            invariant
                i <= cs@.len(),
                cs@ == PUNCTUATION_CHARS@,
                punctuation.wf(),
                forall|k: Seq<char>|
                    #[trigger] punctuation.table@.contains_key(k) <==> exists|j: int| 0 <= j < i && k == seq![cs@[j]],
            decreases cs@.len() - i,
        {
            let w = char_to_string(cs[i]);
            let ghost before = punctuation.table@;
            punctuation.add(w, 0, 0, false);
            proof {
                assert forall|k: Seq<char>| #[trigger] punctuation.table@.contains_key(k) <==> exists|j: int|
                    0 <= j < i + 1 && k == seq![cs@[j]] by {
                    if k == seq![cs@[i as int]] {
                        assert(k == w@);
                    } else if before.contains_key(k) {
                        let j = choose|j: int| 0 <= j < i && k == seq![cs@[j]];
                    } else if exists|j: int| 0 <= j < i + 1 && k == seq![cs@[j]] {
                        let j = choose|j: int| 0 <= j < i + 1 && k == seq![cs@[j]];
                        assert(j < i);
                    }
                }
            }
            i += 1;
        }
        Lexicon {
            family_name_1: SetDict::new(),
            family_name_2: SetDict::new(),
            double_name_1: SetDict::new(),
            double_name_2: SetDict::new(),
            single_name: SetDict::new(),
            single_name_no_repeat: SetDict::new(),
            datetime,
            color_hair,
            color_all,
            punctuation,
        }
    }

    /// No name list holds a word with U+FFFD.
    pub open spec fn names_no_fffd(&self) -> bool {
        &&& self.family_name_1.no_fffd_words()
        &&& self.family_name_2.no_fffd_words()
        &&& self.double_name_1.no_fffd_words()
        &&& self.double_name_2.no_fffd_words()
        &&& self.single_name.no_fffd_words()
    }

    /// A family name (one or two characters).
    pub fn is_family_name(&self, w: &str) -> (r: bool)
        ensures
            r == (self.family_name_1.table@.contains(w@) || self.family_name_2.table@.contains(w@)),
    {
        self.family_name_1.contains(w) || self.family_name_2.contains(w)
    }
}

/// Owned copies of string literals.
pub fn strings_of(items: &[&str]) -> (r: Vec<String>)
    ensures
        r@.len() == items@.len(),
        forall|i: int| 0 <= i < items@.len() ==> #[trigger] r@[i]@ == items@[i]@,
{
    let mut out: Vec<String> = Vec::new();
    let mut i: usize = 0;
    while i < items.len()
        invariant
            i <= items@.len(),
            out@.len() == i,
            forall|j: int| 0 <= j < i ==> #[trigger] out@[j]@ == items@[j]@,
        decreases items@.len() - i,
    {
        out.push(to_owned_string(items[i]));
        i += 1;
    }
    out
}

/// Add the non-empty `arr_cjk` variants of the literals to a set.
fn add_variants(d: &mut SetDict, cjk: &CjkTables, raw: &[&'static str])
    requires
        old(d).wf(),
    ensures
        final(d).wf(),
        final(d).table@ == old(d).table@.union(word_set(cjk.arr_list(literal_views(raw@)))),
{
    let items = strings_of(raw);
    let list = cjk.arr_cjk(&items);
    let ghost base = d.table@;
    add_all(d, &list);
    proof {
        let iv = items@.map_values(|x: String| x@);
        assert(iv =~= literal_views(raw@));
        let full = cjk.arr_list(iv);
        let lv = list@.map_values(|x: String| x@);
        crate::cjk::lemma_dedup_first(full);
        assert forall|k: Seq<char>| d.table@.contains(k) <==> #[trigger] base.union(word_set(full)).contains(k) by {
            if d.table@.contains(k) && !base.contains(k) {
                let i = choose|i: int| 0 <= i < list@.len() && list@[i]@ == k;
                assert(lv[i] == k);
                assert(lv.contains(k));
            }
            if word_set(full).contains(k) && !base.contains(k) {
                assert(lv.contains(k));
                let i = choose|i: int| 0 <= i < lv.len() && lv[i] == k;
                assert(list@[i]@ == k);
            }
        }
        assert(d.table@ =~= base.union(word_set(full)));
    }
}

/// Add every string to a set.
pub fn add_all(d: &mut SetDict, items: &Vec<String>)
    requires
        old(d).wf(),
    ensures
        final(d).wf(),
        forall|i: int|
            0 <= i < items@.len() && items@[i]@.len() > 0 ==> #[trigger] final(d).table@.contains(
                items@[i]@,
            ),
        forall|k: Seq<char>|
            #[trigger] final(d).table@.contains(k) ==> old(d).table@.contains(k) || exists|i: int|
                0 <= i < items@.len() && items@[i]@ == k,
        forall|k: Seq<char>| old(d).table@.contains(k) ==> #[trigger] final(d).table@.contains(k),
{
    let mut i: usize = 0;
    while i < items.len()
        invariant
            i <= items@.len(),
            d.wf(),
            forall|j: int|
                0 <= j < i && items@[j]@.len() > 0 ==> #[trigger] d.table@.contains(items@[j]@),
            forall|k: Seq<char>|
                #[trigger] d.table@.contains(k) ==> old(d).table@.contains(k) || exists|j: int|
                    0 <= j < items@.len() && items@[j]@ == k,
            forall|k: Seq<char>| old(d).table@.contains(k) ==> #[trigger] d.table@.contains(k),
        decreases items@.len() - i,
    {
        d.add(items[i].clone());
        i += 1;
    }
}

/// Built-in tokenizers, in pipeline order.
#[derive(Clone, Copy, Debug, PartialEq, Eq)]
pub enum TokenizerKind {
    Url,
    Wildcard,
    Punctuation,
    Foreign,
    Dict,
    ChsName,
    JpSimple,
    Zhuyin,
}

/// Built-in optimizers, in pipeline order.
#[derive(Clone, Copy, Debug, PartialEq, Eq)]
pub enum OptimizerKind {
    Email,
    ChsName,
    Dict,
    Datetime,
    Foreign,
    ZhtSynonym,
    Adjective,
}

/// Chinese word segmenter.
pub struct Segment {
    pub options: SegmentOptions,
    pub table: TableDict,
    pub wildcard: TableDict,
    pub synonym: SynonymDict,
    pub stopword: SetDict,
    pub blacklist: SetDict,
    pub blacklist_optimizer: SetDict,
    pub blacklist_synonym: SetDict,
    pub tokenizers: Vec<TokenizerKind>,
    pub optimizers: Vec<OptimizerKind>,
    pub max_chunk_count: usize,
    pub min_chunk_count: usize,
    pub inited: bool,
    pub lexicon: Lexicon,
    pub cjk: CjkTables,
}

impl Segment {
    pub open spec fn wf(&self) -> bool {
        &&& self.table.wf()
        &&& self.wildcard.wf()
        &&& self.synonym.wf()
        &&& self.stopword.wf()
        &&& self.blacklist.wf()
        &&& self.blacklist_optimizer.wf()
        &&& self.blacklist_synonym.wf()
        &&& self.lexicon.wf()
        &&& self.cjk.wf()
        &&& self.min_chunk_count >= DEFAULT_MAX_CHUNK_COUNT_MIN
        &&& self.max_chunk_count >= DEFAULT_MAX_CHUNK_COUNT_MIN
    }

    /// A segmenter with empty dictionaries and no modules.
    pub fn new(options: SegmentOptions) -> (r: Segment)
        ensures
            r.wf(),
            r.max_chunk_count == (match options.max_chunk_count {
                Some(n) => if n > DEFAULT_MAX_CHUNK_COUNT_MIN {
                    n
                } else {
                    DEFAULT_MAX_CHUNK_COUNT
                },
                None => DEFAULT_MAX_CHUNK_COUNT,
            }),
            r.min_chunk_count == (match options.min_chunk_count {
                Some(n) => if n > DEFAULT_MAX_CHUNK_COUNT_MIN {
                    n
                } else {
                    DEFAULT_MAX_CHUNK_COUNT_MIN
                },
                None => DEFAULT_MAX_CHUNK_COUNT_MIN,
            }),
            r.options == options,
            r.tokenizers@.len() == 0,
            r.optimizers@.len() == 0,
            r.table.table@ == Map::<Seq<char>, crate::dict::DictEntry>::empty(),
            r.wildcard.table@ == Map::<Seq<char>, crate::dict::DictEntry>::empty(),
            r.synonym.forward() == Map::<Seq<char>, Seq<char>>::empty(),
            r.synonym.backward() == Map::<Seq<char>, Seq<Seq<char>>>::empty(),
            r.stopword.table@ == Set::<Seq<char>>::empty(),
            r.blacklist.table@ == Set::<Seq<char>>::empty(),
            r.blacklist_optimizer.table@ == Set::<Seq<char>>::empty(),
            r.blacklist_synonym.table@ == Set::<Seq<char>>::empty(),
            r.cjk.is_empty(),
            r.lexicon.family_name_1.table@ == Set::<Seq<char>>::empty(),
            r.lexicon.family_name_2.table@ == Set::<Seq<char>>::empty(),
            r.lexicon.double_name_1.table@ == Set::<Seq<char>>::empty(),
            r.lexicon.double_name_2.table@ == Set::<Seq<char>>::empty(),
            r.lexicon.single_name.table@ == Set::<Seq<char>>::empty(),
            r.lexicon.single_name_no_repeat.table@ == Set::<Seq<char>>::empty(),
            r.lexicon.datetime.table@ == word_set(literal_views(DATETIME_RAW@)),
            r.lexicon.color_hair.table@ == word_set(literal_views(COLOR_HAIR_RAW@)),
            r.lexicon.color_all.table@ == word_set(literal_views(COLOR_HAIR_RAW@)).union(
                word_set(literal_views(COLOR_EXTRA@)),
            ),
            forall|k: Seq<char>|
                #[trigger] r.lexicon.punctuation.table@.contains_key(k) <==> exists|i: int|
                    0 <= i < PUNCTUATION_CHARS@.len() && k == seq![PUNCTUATION_CHARS@[i]],
            !r.inited,
    {
        let max_chunk_count = match options.max_chunk_count {
            Some(n) => if n > DEFAULT_MAX_CHUNK_COUNT_MIN {
                n
            } else {
                DEFAULT_MAX_CHUNK_COUNT
            },
            None => DEFAULT_MAX_CHUNK_COUNT,
        };
        let min_chunk_count = match options.min_chunk_count {
            Some(n) => if n > DEFAULT_MAX_CHUNK_COUNT_MIN {
                n
            } else {
                DEFAULT_MAX_CHUNK_COUNT_MIN
            },
            None => DEFAULT_MAX_CHUNK_COUNT_MIN,
        };
        let cjk = CjkTables::new();
        let lexicon = Lexicon::new(&cjk);
        proof {
            cjk.lemma_arr_list_empty(literal_views(DATETIME_RAW@));
            cjk.lemma_arr_list_empty(literal_views(COLOR_HAIR_RAW@));
            cjk.lemma_arr_list_empty(literal_views(COLOR_EXTRA@));
            assert(word_set(cjk.arr_list(literal_views(DATETIME_RAW@))) =~= word_set(literal_views(DATETIME_RAW@)));
            assert(word_set(cjk.arr_list(literal_views(COLOR_HAIR_RAW@))) =~= word_set(literal_views(COLOR_HAIR_RAW@)));
            assert(word_set(cjk.arr_list(literal_views(COLOR_EXTRA@))) =~= word_set(literal_views(COLOR_EXTRA@)));
        }
        Segment {
            options,
            table: TableDict::new(),
            wildcard: TableDict::new(),
            synonym: SynonymDict::new(),
            stopword: SetDict::new(),
            blacklist: SetDict::new(),
            blacklist_optimizer: SetDict::new(),
            blacklist_synonym: SetDict::new(),
            tokenizers: Vec::new(),
            optimizers: Vec::new(),
            max_chunk_count,
            min_chunk_count,
            inited: false,
            lexicon,
            cjk,
        }
    }

    /// Install variant tables; the word lists built from them are rebuilt, name lists kept.
    pub fn set_cjk_tables(&mut self, cjk: CjkTables)
        requires
            old(self).wf(),
            cjk.wf(),
        ensures
            final(self).wf(),
            final(self).table.table@ == old(self).table.table@,
            final(self).tokenizers@ == old(self).tokenizers@,
            final(self).optimizers@ == old(self).optimizers@,
            final(self).cjk == cjk,
            final(self).lexicon.datetime.table@ == word_set(cjk.arr_list(literal_views(DATETIME_RAW@))),
            final(self).lexicon.color_hair.table@ == word_set(cjk.arr_list(literal_views(COLOR_HAIR_RAW@))),
            final(self).lexicon.color_all.table@ == word_set(cjk.arr_list(literal_views(COLOR_HAIR_RAW@))).union(
                word_set(cjk.arr_list(literal_views(COLOR_EXTRA@))),
            ),
            final(self).lexicon.family_name_1 == old(self).lexicon.family_name_1,
            final(self).lexicon.family_name_2 == old(self).lexicon.family_name_2,
            final(self).lexicon.double_name_1 == old(self).lexicon.double_name_1,
            final(self).lexicon.double_name_2 == old(self).lexicon.double_name_2,
            final(self).lexicon.single_name == old(self).lexicon.single_name,
            final(self).lexicon.single_name_no_repeat == old(self).lexicon.single_name_no_repeat,
            final(self).lexicon.punctuation == old(self).lexicon.punctuation,
            final(self).options == old(self).options,
            final(self).table == old(self).table,
            final(self).wildcard == old(self).wildcard,
            final(self).synonym == old(self).synonym,
            final(self).stopword == old(self).stopword,
            final(self).blacklist == old(self).blacklist,
            final(self).blacklist_optimizer == old(self).blacklist_optimizer,
            final(self).blacklist_synonym == old(self).blacklist_synonym,
            final(self).tokenizers == old(self).tokenizers,
            final(self).optimizers == old(self).optimizers,
            final(self).max_chunk_count == old(self).max_chunk_count,
            final(self).min_chunk_count == old(self).min_chunk_count,
            final(self).inited == old(self).inited,
    {
        let fresh = Lexicon::new(&cjk);
        self.lexicon.datetime = fresh.datetime;
        self.lexicon.color_hair = fresh.color_hair;
        self.lexicon.color_all = fresh.color_all;
        self.cjk = cjk;
    }
}

} // verus!
