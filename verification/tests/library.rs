use novel_segment::cjk::CjkTables;
use novel_segment::dict::SynonymDict;
use novel_segment::dict_tokenizer::{chosen_known, match_word, word_chunks, ChunkScorer, DictTokenizer};
use novel_segment::dicts::{split_ws, DictRow, Error, SetKind};
use novel_segment::loader::{
    blacklist_dict_root, clean_lines, is_dict_file_name, lines_of, parse_pos, resolve_named,
    segment_dict_root, split_dict_line, stopword_dict_root, synonym_dict_root, NamedDict,
};
use novel_segment::optimizers::{
    merge_how_many, ChsNameOptimizer, DatetimeOptimizer, DictOptimizer, EmailOptimizer, ForeignOptimizer,
};
use novel_segment::options::{DoSegmentOptions, SegmentOptions};
use novel_segment::postag::POSTAG;
use novel_segment::run::{convert_synonym, split_sections};
use novel_segment::segment::{OptimizerKind, Segment, TokenizerKind};
use novel_segment::service::{
    build_message, calculate_success, crlf_normalize, debug_each_segment, diff_positions, evaluate, index_of_all,
    index_of_not_failed, ExpectedItem, MatchResults,
};
use novel_segment::tokenizers::{
    split_jp, split_zhuyin, PunctuationTokenizer, UrlTokenizer, WildcardTokenizer,
};
use novel_segment::word::Word;
use novel_segment::zht::{replace_hou, replace_li, replace_shen, ZhtSynonymOptimizer};

/// Picks the first chunk.
struct FirstChunk;

impl ChunkScorer for FirstChunk {
    fn choice(&self, _chunks: &Vec<Vec<Word>>, _preword: Option<&Word>, _text: &str, _seg: &Segment) -> usize {
        0
    }

    fn pick(&self, chunks: &Vec<Vec<Word>>, preword: Option<&Word>, text: &str, seg: &Segment) -> usize {
        self.choice(chunks, preword, text, seg)
    }
}

/// Picks the chunk with the fewest words (the first among equals).
struct FewestWords;

impl ChunkScorer for FewestWords {
    fn choice(&self, chunks: &Vec<Vec<Word>>, _preword: Option<&Word>, _text: &str, _seg: &Segment) -> usize {
        let mut best = 0;
        for (i, c) in chunks.iter().enumerate() {
            if c.len() < chunks[best].len() {
                best = i;
            }
        }
        best
    }

    fn pick(&self, chunks: &Vec<Vec<Word>>, preword: Option<&Word>, text: &str, seg: &Segment) -> usize {
        self.choice(chunks, preword, text, seg)
    }
}

fn texts(ws: &[Word]) -> Vec<String> {
    ws.iter().map(|w| w.w.clone()).collect()
}

fn seg_with(words: &[(&str, u32)]) -> Segment {
    let mut seg = Segment::new(SegmentOptions::default());
    let rows: Vec<DictRow> = words
        .iter()
        .map(|(w, p)| DictRow { w: w.to_string(), p: *p, f: 0 })
        .collect();
    seg.add_dict_rows(&rows, false, false);
    seg
}

#[test]
fn synonym_skip_canonical_in_table2() {
    let mut d = SynonymDict::new();
    d.add("正", &["甲".to_string()], false);
    d.add("另", &["正".to_string()], false);
    assert_eq!(d.get("正"), None);
    assert_eq!(d.get("甲"), Some("正"));
}

#[test]
fn parse_hex_row() {
    let row = split_dict_line("一会|0x300000|33").unwrap();
    assert_eq!(row.w, "一会");
    assert_eq!(parse_pos(row.pos.as_deref().unwrap(), None), Some(0x300000));
    let f: f64 = row.weight.as_deref().unwrap().trim().parse().unwrap();
    assert_eq!(f, 33.0);
}

#[test]
fn convert_compound_parts() {
    let mut seg = Segment::new(SegmentOptions::default());
    seg.add_synonym("標準", &vec!["錯字".to_string()]);
    let mut item = Word::new("錯字甲");
    item.auto_create = true;
    item.m = Some(vec![Word::new("錯字"), Word::new("甲")]);
    let out = convert_synonym(vec![item], &seg);
    assert_eq!(out[0].w, "標準甲");
    assert_eq!(out[0].ow.as_deref(), Some("錯字甲"));
}

#[test]
fn split_keeps_newlines() {
    let parts = split_sections("a\nb");
    assert_eq!(parts, vec!["a", "\n", "b"]);
}

#[test]
fn split_multiline_single_space() {
    assert_eq!(split_sections("a \nb"), vec!["a", " ", "\n", "b"]);
    assert_eq!(split_sections("a\n b"), vec!["a", "\n", " ", "b"]);
}

#[test]
fn sections_spell_the_text() {
    let t = "  甲乙  丙\r\n丁 ";
    assert_eq!(split_sections(t).concat(), t);
}

#[test]
fn segment_keeps_text_with_default_modules() {
    let mut seg = seg_with(&[("中国", POSTAG::A_NS), ("两个", POSTAG::A_M), ("人民", POSTAG::D_N)]);
    seg.use_default_modules();
    let text = "两个中国人民，访问http://ucdok.com吧\n第二行 abc123";
    let words = seg.do_segment(text, &DoSegmentOptions::default(), &FirstChunk);
    assert_eq!(novel_segment::word::stringify(&words), text);
    assert!(texts(&words).contains(&"中国".to_string()));
    assert!(texts(&words).contains(&"http://ucdok.com".to_string()));
}

#[test]
fn dict_tokenizer_splits_known_words() {
    let seg = seg_with(&[("中国", POSTAG::A_NS), ("两个", POSTAG::A_M)]);
    let out = DictTokenizer.split(vec![Word::new("两个中国")], &seg, &FewestWords);
    assert_eq!(texts(&out), vec!["两个", "中国"]);
    assert_eq!(out[1].p, Some(POSTAG::A_NS));
    assert_eq!(out[1].s, Some(true));
}

#[test]
fn dict_tokenizer_keeps_text_between_words() {
    let seg = seg_with(&[("中国", POSTAG::A_NS)]);
    let out = DictTokenizer.split(vec![Word::new("甲中国乙")], &seg, &FirstChunk);
    assert_eq!(novel_segment::word::stringify(&out), "甲中国乙");
    assert_eq!(texts(&out), vec!["甲", "中国", "乙"]);
}

#[test]
fn scorer_index_out_of_range_takes_first_chunk() {
    struct Far;
    impl ChunkScorer for Far {
        fn choice(&self, _c: &Vec<Vec<Word>>, _p: Option<&Word>, _t: &str, _s: &Segment) -> usize {
            99
        }

        fn pick(&self, c: &Vec<Vec<Word>>, p: Option<&Word>, t: &str, s: &Segment) -> usize {
            self.choice(c, p, t, s)
        }
    }
    let seg = seg_with(&[("中国", POSTAG::A_NS)]);
    let a = DictTokenizer.split(vec![Word::new("中国人")], &seg, &Far);
    let b = DictTokenizer.split(vec![Word::new("中国人")], &seg, &FirstChunk);
    assert_eq!(texts(&a), texts(&b));
}

#[test]
fn url_tokenizer_tags_urls() {
    let seg = Segment::new(SegmentOptions::default());
    let out = UrlTokenizer.split(vec![Word::new("主页http://ucdok.com娃")], &seg);
    assert_eq!(texts(&out), vec!["主页", "http://ucdok.com", "娃"]);
    assert_eq!(out[1].p, Some(POSTAG::URL));
    assert_eq!(out[0].p, None);
}

#[test]
fn punctuation_tokenizer_tags_marks() {
    let seg = Segment::new(SegmentOptions::default());
    let out = PunctuationTokenizer.split(vec![Word::new("你好，世界！")], &seg);
    assert_eq!(texts(&out), vec!["你好", "，", "世界", "！"]);
    assert_eq!(out[1].p, Some(POSTAG::D_W));
}

#[test]
fn wildcard_matches_lowercase_form() {
    let mut seg = Segment::new(SegmentOptions::default());
    seg.add_dict_rows(&vec![DictRow { w: "abc".into(), p: POSTAG::A_NX, f: 0 }], true, false);
    let out = WildcardTokenizer.split(vec![Word::new("xABCy")], &seg);
    assert_eq!(texts(&out), vec!["x", "ABC", "y"]);
    assert_eq!(out[1].p, Some(POSTAG::A_NX));
}

#[test]
fn zhuyin_runs_are_cut() {
    let ws = split_zhuyin("注音ㄅㄆㄇ好").unwrap();
    assert_eq!(texts(&ws), vec!["注音", "ㄅㄆㄇ", "好"]);
    assert!(split_zhuyin("沒有").is_none());
}

#[test]
fn kana_words_of_one_script_stay_whole() {
    let ws = split_jp("ひらがな").unwrap();
    assert_eq!(texts(&ws), vec!["ひらがな"]);
    assert!(split_jp("漢字").is_none());
    // The pattern for mixed kana uses look-ahead, which the regex engine refuses.
    assert!(split_jp("ひらがなカタカナ").is_none());
}

#[test]
fn email_is_merged() {
    let seg = Segment::new(SegmentOptions::default());
    let words = vec![
        Word::new("寄到").with_p(POSTAG::D_V),
        Word::new("mail").with_p(POSTAG::A_NX),
        Word::new("@"),
        Word::new("host").with_p(POSTAG::A_NX),
        Word::new(".").with_p(POSTAG::D_W),
        Word::new("com").with_p(POSTAG::A_NX),
        Word::new("吧"),
        Word::new("呢"),
    ];
    let out = EmailOptimizer.do_optimize(words, &seg);
    assert_eq!(texts(&out), vec!["寄到", "mail@host.com", "吧", "呢"]);
    assert_eq!(out[1].p, Some(POSTAG::URL));
    let tail = vec![
        Word::new("mail").with_p(POSTAG::A_NX),
        Word::new("@"),
        Word::new("host").with_p(POSTAG::A_NX),
    ];
    let out = EmailOptimizer.do_optimize(tail, &seg);
    assert_eq!(texts(&out), vec!["mail@host"]);
}

#[test]
fn datetime_numbers_and_units_merge() {
    let seg = Segment::new(SegmentOptions::default());
    let words = vec![
        Word::new("2020").with_p(POSTAG::A_M),
        Word::new("年"),
        Word::new("5").with_p(POSTAG::A_M),
        Word::new("月"),
        Word::new("好"),
    ];
    let out = DatetimeOptimizer.do_optimize(words, &seg);
    assert_eq!(texts(&out), vec!["2020年5月", "好"]);
    assert_eq!(out[0].p, Some(POSTAG::D_T));
}

#[test]
fn dict_optimizer_merges_percent() {
    let seg = Segment::new(SegmentOptions::default());
    let words = vec![Word::new("50").with_p(POSTAG::A_M), Word::new("%"), Word::new("的")];
    let out = DictOptimizer.do_optimize(words, &seg);
    assert_eq!(texts(&out), vec!["50%", "的"]);
    assert_eq!(out[0].p, Some(POSTAG::A_M));
    assert!(out[0].auto_create);
}

#[test]
fn foreign_pairs_known_to_the_table_merge() {
    let seg = seg_with(&[("iPhone", POSTAG::A_NX)]);
    let words = vec![Word::new("iP").with_p(POSTAG::A_NX), Word::new("hone"), Word::new("很好")];
    let out = ForeignOptimizer.do_optimize(words, &seg);
    assert_eq!(texts(&out), vec!["iPhone", "很好"]);
    assert_eq!(out[0].p, Some(POSTAG::A_NX));
}

#[test]
fn how_many_takes_known_pos() {
    assert_eq!(merge_how_many(POSTAG::D_MQ, POSTAG::D_N, None), POSTAG::D_MQ | POSTAG::D_N);
    assert_eq!(
        merge_how_many(POSTAG::D_MQ, POSTAG::D_N | POSTAG::D_V | POSTAG::D_T, None),
        POSTAG::D_MQ | POSTAG::D_N | POSTAG::D_V | POSTAG::D_T
    );
    assert_eq!(merge_how_many(POSTAG::D_MQ, POSTAG::D_N, Some(POSTAG::A_Q)), POSTAG::A_Q | POSTAG::D_MQ);
}

#[test]
fn zht_li_after_noun_becomes_traditional() {
    let seg = Segment::new(SegmentOptions::default());
    let words = vec![Word::new("家").with_p(POSTAG::D_N), Word::new("里"), Word::new("好")];
    let out = ZhtSynonymOptimizer.do_optimize(words, &seg);
    assert_eq!(texts(&out), vec!["家", "裡", "好"]);
    assert_eq!(out[1].ow.as_deref(), Some("里"));
    let before: String = out.iter().map(|w| w.ow.clone().unwrap_or(w.w.clone())).collect();
    assert_eq!(before, "家里好");
}

#[test]
fn zht_yu_before_noun_becomes_preposition() {
    let seg = Segment::new(SegmentOptions::default());
    let words = vec![Word::new("于"), Word::new("台北").with_p(POSTAG::A_NS | POSTAG::D_N)];
    let out = ZhtSynonymOptimizer.do_optimize(words, &seg);
    assert_eq!(out[0].w, "於");
    assert_eq!(out[0].p, Some(POSTAG::D_P));
}

#[test]
fn regex_replacements() {
    assert_eq!(replace_li("这里面"), "这裡面");
    assert_eq!(replace_hou("然后"), "然後");
    assert_eq!(replace_shen("人蔘茶"), "人參茶");
}

#[test]
fn pos_numbers() {
    assert_eq!(parse_pos(" 0x10 ", None), Some(16));
    assert_eq!(parse_pos("0XfF", None), Some(255));
    assert_eq!(parse_pos("42", None), Some(42));
    assert_eq!(parse_pos("+7", None), Some(7));
    assert_eq!(parse_pos("4294967296", None), None);
    assert_eq!(parse_pos("3.5", Some(3)), Some(3));
    assert_eq!(parse_pos("0xZZ", Some(5)), None);
}

#[test]
fn dict_lines() {
    assert!(split_dict_line("  ").is_none());
    assert!(split_dict_line("// note").is_none());
    assert!(split_dict_line("# note").is_none());
    assert!(split_dict_line(" |1|2").is_none());
    let row = split_dict_line(" 詞 ").unwrap();
    assert_eq!(row.w, "詞");
    assert!(row.pos.is_none() && row.weight.is_none());
    assert_eq!(lines_of("a\r\nb\n\nc\n"), vec!["a", "b", "", "c"]);
    assert_eq!(clean_lines(" a \n// x\n#y\n\nb"), vec!["a", "b"]);
}

#[test]
fn named_dicts() {
    match resolve_named("phrases/*") {
        NamedDict::Dir(d) => assert_eq!(d, "phrases"),
        NamedDict::Files(_) => panic!("expected a directory"),
    }
    match resolve_named("*") {
        NamedDict::Dir(d) => assert_eq!(d, ""),
        NamedDict::Files(_) => panic!("expected a directory"),
    }
    match resolve_named("dict") {
        NamedDict::Files(fs) => assert_eq!(fs, vec!["dict", "dict.txt", "dict.utf8"]),
        NamedDict::Dir(_) => panic!("expected files"),
    }
    assert!(is_dict_file_name("dict.txt"));
    assert!(!is_dict_file_name("README.MD"));
    assert!(!is_dict_file_name("notes.md"));
}

#[test]
fn add_word_forms() {
    let mut seg = Segment::new(SegmentOptions::default());
    assert!(seg.add_word("詞|0x20|5", None, None, None, 5.0f64.to_bits()).is_ok());
    assert_eq!(seg.table.get("詞").map(|e| e.p), Some(0x20));
    assert!(seg.add_word("// 注", Some(3), None, None, 0).is_ok());
    assert_eq!(seg.table.get("// 注").map(|e| e.p), Some(3));
    match seg.add_word("   ", None, None, None, 0) {
        Err(Error::InvalidInput(s)) => assert_eq!(s, "   "),
        _ => panic!("expected an invalid-input error"),
    }
}

#[test]
fn error_messages() {
    assert_eq!(Error::Io("gone".into()).message(), "io error: gone");
    assert_eq!(
        Error::DictNotFound { name: "dict".into() }.message(),
        "cannot find dict file `dict`"
    );
    assert_eq!(
        Error::InvalidDictLine { path: "a.txt".into(), line: "x".into() }.message(),
        "invalid dict line in a.txt: x"
    );
    assert_eq!(Error::InvalidInput("?".into()).message(), "invalid input: ?");
}

#[test]
fn blacklist_removes_words() {
    let mut seg = seg_with(&[("中国", POSTAG::A_NS), ("人民", POSTAG::D_N)]);
    seg.add_set_text("中国\n", SetKind::Blacklist);
    seg.do_blacklist();
    assert!(!seg.table.contains("中国"));
    assert!(seg.table.contains("人民"));
    seg.add_blacklist("人民");
    assert!(!seg.table.contains("人民"));
}

#[test]
fn filters_apply() {
    let mut seg = seg_with(&[("中国", POSTAG::A_NS)]);
    seg.use_default_modules();
    let opts = DoSegmentOptions {
        strip_punctuation: Some(true),
        strip_space: Some(true),
        ..DoSegmentOptions::default()
    };
    let words = seg.do_segment("中国， 中国", &opts, &FirstChunk);
    assert_eq!(texts(&words), vec!["中国", "中国"]);
}

#[test]
fn disabled_modules_are_left_out() {
    let mut opts = SegmentOptions::default();
    opts.disable_modules = vec!["URLTokenizer".into(), "AdjectiveOptimizer".into()];
    opts.all_mod = true;
    let mut seg = Segment::new(opts);
    seg.use_default_modules();
    assert!(!seg.tokenizers.contains(&TokenizerKind::Url));
    assert_eq!(seg.tokenizers.len(), 7);
    assert!(seg.optimizers.contains(&OptimizerKind::ZhtSynonym));
    assert!(!seg.optimizers.contains(&OptimizerKind::Adjective));
}

#[test]
fn crlf_leaves_no_carriage_return() {
    let out = crlf_normalize("a\r\r\nb\rc\n");
    assert_eq!(out, "a\n\nb\nc\n");
    assert!(!out.contains('\r'));
    assert_eq!(crlf_normalize(&out), out);
}

#[test]
fn success_and_message() {
    let none = MatchResults {
        match_expected_full: None,
        match_expected_contains: None,
        match_expected_contains_not: None,
        match_expected_index_of: None,
        match_expected_index_of_not: None,
    };
    assert!(calculate_success(&none, false));
    assert!(!calculate_success(&none, true));
    assert_eq!(build_message(&none, true), "Text was changed during segmentation (no validation tests provided)");
    assert_eq!(build_message(&none, false), "Text was not changed during segmentation");
    let some = MatchResults {
        match_expected_full: Some(true),
        match_expected_contains: Some(false),
        ..none
    };
    assert!(!calculate_success(&some, false));
    assert_eq!(build_message(&some, false), "Full match: PASSED; Contains match: FAILED");
}

#[test]
fn index_checks() {
    let exp = vec![ExpectedItem::One("中国".into()), ExpectedItem::Any(vec!["人".into(), "民".into()])];
    assert_eq!(index_of_all("两个中国人民", &exp), (true, vec![]));
    let backwards = vec![ExpectedItem::One("人民".into()), ExpectedItem::One("中国".into())];
    assert_eq!(index_of_all("两个中国人民", &backwards), (false, vec!["中国".to_string()]));
    let not = vec![ExpectedItem::One("美国".into()), ExpectedItem::Any(vec!["x".into(), "人".into()])];
    assert_eq!(index_of_not_failed("两个中国人民", &not), vec!["x/人".to_string()]);
}

#[test]
fn diff_runs() {
    let d = diff_positions("abcdef", "abXdeY");
    assert_eq!(d.len(), 2);
    assert_eq!((d[0].start, d[0].end), (2, 3));
    assert_eq!((d[0].expected.as_str(), d[0].actual.as_str()), ("c", "X"));
    assert_eq!((d[1].start, d[1].end), (5, 6));
    let long = diff_positions(&"a".repeat(40), &"b".repeat(40));
    assert_eq!((long[0].start, long[0].end), (0, 33));
    assert_eq!(diff_positions("ab", "abc")[0].actual, "c");
}

#[test]
fn evaluation_of_a_run() {
    let words = vec![Word::new("两个"), Word::new("中国")];
    let full = Some("两个中国\r\n".to_string());
    let contains = Some(vec![ExpectedItem::One("中国".into())]);
    let ev = evaluate("两个中国", &words, &full, &contains, &None, &None, &None);
    assert!(ev.success);
    assert!(!ev.changed);
    assert_eq!(ev.output_text, "两个中国");
    assert_eq!(ev.message, "Full match: PASSED; Contains match: PASSED");
    let wrong = Some("两个美国".to_string());
    let ev = evaluate("两个中国", &words, &wrong, &None, &None, &None, &None);
    assert!(!ev.success);
    assert!(ev.diff.is_some());
}

#[test]
fn cjk_tables_from_opencc_text() {
    let mut t = CjkTables::new();
    t.add_opencc_pairs("# comment\n发\t發 髮\n", true);
    assert_eq!(t.convert_cn2tw("头发"), "头發");
    let vs = t.auto_char('发');
    assert!(vs.contains(&'髮'));
    t.add_opencc_aliases("台\t臺\n");
    assert!(t.auto_char('台').contains(&'臺'));
}

#[test]
fn synonym_rounds_follow_chains() {
    let mut seg = Segment::new(SegmentOptions::default());
    seg.add_synonym("丙", &vec!["乙".to_string()]);
    seg.add_synonym("乙", &vec!["甲".to_string()]);
    let out = convert_synonym(vec![Word::new("甲"), Word::new("丁")], &seg);
    assert_eq!(texts(&out), vec!["丙", "丁"]);
    assert_eq!(out[0].ow.as_deref(), Some("乙"));
    assert_eq!(out[1].ow, None);
}

#[test]
fn word_lists_fill_one_set() {
    let mut seg = Segment::new(SegmentOptions::default());
    seg.add_set_text("  的 \n// note\n#x\n\n了\n", SetKind::Stopword);
    assert!(seg.stopword.contains("的"));
    assert!(seg.stopword.contains("了"));
    assert!(!seg.stopword.contains("// note"));
    assert!(!seg.blacklist.contains("的"));
    seg.add_set_text("壞\n", SetKind::Blacklist);
    assert!(seg.blacklist.contains("壞"));
    assert!(!seg.stopword.contains("壞"));
}

#[test]
fn synonym_text_spreads_entries() {
    let mut seg = seg_with(&[("一併", POSTAG::D_D)]);
    seg.add_synonym_text("# c\n一併,一並, 一并\n單\n", true);
    assert_eq!(seg.synonym.get("一並"), Some("一併"));
    assert_eq!(seg.synonym.get("一并"), Some("一併"));
    assert_eq!(seg.synonym.get("單"), None);
    assert!(seg.table.contains("一並"));
    assert!(seg.table.contains("一并"));
    assert_eq!(seg.table.get("一并").map(|e| e.p), Some(POSTAG::D_D));
}

#[test]
fn whitespace_runs() {
    assert_eq!(split_ws("  發 髮\u{3000}x  "), vec!["發", "髮", "x"]);
    assert!(split_ws(" \t ").is_empty());
}

#[test]
fn alias_groups_and_stars() {
    let mut t = CjkTables::new();
    t.add_alias_group(&vec!['台', '臺', '檯']);
    assert!(t.auto_char('檯').contains(&'台'));
    assert!(t.auto_char('台').contains(&'檯'));
    assert_eq!(t.auto_char('臺'), vec!['台', '檯', '臺']);
    let mut t = CjkTables::new();
    t.add_alias_star('干', &vec!['乾', '幹']);
    assert_eq!(t.auto_char('干'), vec!['乾', '干', '幹']);
    assert_eq!(t.auto_char('乾'), vec!['乾']);
}

#[test]
fn text_list_products_and_fallback() {
    let mut t = CjkTables::new();
    t.add_alias_group(&vec!['a', 'b']);
    let vs = t.text_list("ac");
    assert_eq!(vs, vec!["ac", "bc"]);
    let word = "a".repeat(17);
    assert_eq!(t.text_list(&word), vec![word.clone()]);
    let word = "a".repeat(3);
    assert_eq!(t.text_list(&word).len(), 8);
    assert_eq!(t.text_list(""), vec![""]);
}

#[test]
fn simple_segments_spell_the_text() {
    let mut seg = seg_with(&[("中國", POSTAG::D_N), ("人", POSTAG::D_N)]);
    seg.use_default_modules();
    let parts = seg.do_segment_simple("中國人，好", &DoSegmentOptions::default(), &FirstChunk);
    assert_eq!(parts.concat(), "中國人，好");
    assert_eq!(parts[0], "中國");
}

#[test]
fn piecewise_segmentation_cuts_at_punctuation() {
    let mut seg = seg_with(&[("中國", POSTAG::D_N)]);
    seg.use_default_modules();
    let ws = debug_each_segment(&seg, "中國，中國\n", &FirstChunk).unwrap();
    assert_eq!(texts(&ws), vec!["中國", "，", "中國", "\n"]);
}

#[test]
fn pipeline_modules_are_appended() {
    let mut seg = Segment::new(SegmentOptions::default());
    seg.use_tokenizer(TokenizerKind::Punctuation);
    seg.use_optimizer(OptimizerKind::Email);
    assert_eq!(seg.tokenizers, vec![TokenizerKind::Punctuation]);
    assert_eq!(seg.optimizers, vec![OptimizerKind::Email]);
    assert!(seg.inited);
}

#[test]
fn dictionary_roots() {
    assert_eq!(segment_dict_root("dict"), "dict/segment");
    assert_eq!(synonym_dict_root("/d"), "/d/synonym");
    assert_eq!(stopword_dict_root("d"), "d/stopword");
    assert_eq!(blacklist_dict_root("d"), "d/blacklist");
}

#[test]
fn chunks_list_every_path_through_the_candidates() {
    let seg = seg_with(&[("中", 0), ("国", 0), ("中国", POSTAG::A_NS), ("人", 0), ("国人", 0)]);
    let cands = match_word("中国人", &seg.table);
    let found: Vec<(String, Option<usize>)> = cands.iter().map(|w| (w.w.clone(), w.c)).collect();
    assert_eq!(
        found,
        vec![
            ("中".to_string(), Some(0)),
            ("中国".to_string(), Some(0)),
            ("国".to_string(), Some(1)),
            ("国人".to_string(), Some(1)),
            ("人".to_string(), Some(2)),
        ]
    );
    let chunks = word_chunks(&cands, "中国人", &seg);
    let shown: Vec<Vec<String>> = chunks.iter().map(|c| texts(c)).collect();
    assert_eq!(shown, vec![vec!["中", "国", "人"], vec!["中", "国人"], vec!["中国", "人"]]);
}

#[test]
fn chosen_chunk_keeps_only_known_words() {
    let seg = seg_with(&[("中国", POSTAG::A_NS)]);
    let cands = match_word("中国人", &seg.table);
    let chunks = word_chunks(&cands, "中国人", &seg);
    assert_eq!(chunks.len(), 1);
    assert_eq!(texts(&chunks[0]), vec!["中国", "人"]);
    assert_eq!(texts(&chosen_known(&chunks, 0, "中国人", &seg.table)), vec!["中国"]);
    assert_eq!(texts(&chosen_known(&chunks, 7, "中国人", &seg.table)), vec!["中国"]);
}

#[test]
fn family_and_double_given_name_merge() {
    let mut seg = Segment::new(SegmentOptions::default());
    seg.lexicon.family_name_1.add("王".to_string());
    seg.lexicon.double_name_1.add("小".to_string());
    seg.lexicon.double_name_2.add("明".to_string());
    let words = vec![Word::new("王"), Word::new("小"), Word::new("明"), Word::new("来").with_p(POSTAG::D_V)];
    let out = ChsNameOptimizer.do_optimize(words, &seg);
    assert_eq!(texts(&out), vec!["王小明", "来"]);
    assert_eq!(out[0].p, Some(POSTAG::A_NR));
    assert!(out[0].auto_create);
    assert_eq!(out[0].m.as_ref().map(|m| texts(m)), Some(vec!["王".to_string(), "小".to_string(), "明".to_string()]));
}

#[test]
fn old_and_little_merge_with_family_names() {
    let mut seg = Segment::new(SegmentOptions::default());
    seg.lexicon.family_name_1.add("王".to_string());
    let out = ChsNameOptimizer.do_optimize(vec![Word::new("老"), Word::new("王")], &seg);
    assert_eq!(texts(&out), vec!["老王"]);
    assert_eq!(out[0].p, Some(POSTAG::A_NR));
    seg.blacklist_optimizer.add("老王".to_string());
    let kept = ChsNameOptimizer.do_optimize(vec![Word::new("老"), Word::new("王")], &seg);
    assert_eq!(texts(&kept), vec!["老", "王"]);
}

#[test]
fn dict_optimizer_merges_adjectives_quantities_and_directions() {
    let seg = Segment::new(SegmentOptions::default());
    let out = DictOptimizer.do_optimize(vec![Word::new("好").with_p(POSTAG::D_A), Word::new("的").with_p(POSTAG::D_U)], &seg);
    assert_eq!(texts(&out), vec!["好的"]);
    assert_eq!(out[0].p, Some(POSTAG::D_A));
    let out = DictOptimizer.do_optimize(vec![Word::new("3").with_p(POSTAG::A_M), Word::new("个").with_p(POSTAG::A_Q)], &seg);
    assert_eq!(texts(&out), vec!["3个"]);
    assert_eq!(out[0].p, Some(merge_how_many(POSTAG::D_MQ, POSTAG::A_Q, None)));
    let out = DictOptimizer.do_optimize(vec![Word::new("东"), Word::new("南"), Word::new("风")], &seg);
    assert_eq!(texts(&out), vec!["东南", "风"]);
    assert_eq!(out[0].p, Some(POSTAG::D_F));
    let out = DictOptimizer.do_optimize(
        vec![
            Word::new("3点").with_p(POSTAG::D_MQ),
            Word::new("1").with_p(POSTAG::A_M),
            Word::new("5").with_p(POSTAG::A_M),
            Word::new("分"),
        ],
        &seg,
    );
    assert_eq!(texts(&out), vec!["3点15", "分"]);
    assert_eq!(out[0].p, Some(POSTAG::D_MQ));
}

#[test]
fn zht_hou_after_he_stays_and_before_separator_changes() {
    let seg = Segment::new(SegmentOptions::default());
    let kept = ZhtSynonymOptimizer.do_optimize(vec![Word::new("和"), Word::new("后")], &seg);
    assert_eq!(texts(&kept), vec!["和", "后"]);
    assert_eq!(kept[1].ow, None);
    let out = ZhtSynonymOptimizer.do_optimize(vec![Word::new("后"), Word::new("、")], &seg);
    assert_eq!(texts(&out), vec!["後", "、"]);
    assert_eq!(out[0].ow.as_deref(), Some("后"));
}

#[test]
fn zht_yu_li_merges_before_punctuation() {
    let seg = Segment::new(SegmentOptions::default());
    let words = vec![Word::new("余"), Word::new("力"), Word::new("。").with_p(POSTAG::D_W)];
    let out = ZhtSynonymOptimizer.do_optimize(words, &seg);
    assert_eq!(texts(&out), vec!["余力", "。"]);
    assert_eq!(out[0].p, Some(POSTAG::D_N | POSTAG::D_V));
    assert!(out[0].auto_create);
}

#[test]
fn variant_lists_come_sorted_without_repeats() {
    let mut t = CjkTables::new();
    t.add_alias_group(&vec!['z', 'a', 'm']);
    t.add_alias_group(&vec!['y', 'b']);
    let vs = t.expand_cjk_variants("zb");
    let mut sorted = vs.clone();
    sorted.sort();
    sorted.dedup();
    assert_eq!(vs, sorted);
    assert_eq!(vs, vec!["ab", "ay", "mb", "my", "zb", "zy"]);
    let list = t.expand_cjk_list(&vec!["zb".to_string(), "ab".to_string(), "q".to_string()]);
    assert_eq!(list, vec!["ab", "ay", "mb", "my", "zb", "zy", "q"]);
}

#[test]
fn dict_tokenizer_keeps_text_outside_bmp() {
    let seg = seg_with(&[("中国", POSTAG::A_NS)]);
    let out = DictTokenizer.split(vec![Word::new("😀中国😀乙")], &seg, &FirstChunk);
    assert_eq!(novel_segment::word::stringify(&out), "😀中国😀乙");
    let out = DictTokenizer.split(vec![Word::new("中国😀乙")], &seg, &FirstChunk);
    assert_eq!(texts(&out), vec!["中国", "😀乙"]);
    assert_eq!(out[0].p, Some(POSTAG::A_NS));
}

#[test]
fn punctuation_tokenizer_keeps_text_outside_bmp() {
    let seg = Segment::new(SegmentOptions::default());
    let out = PunctuationTokenizer.split(vec![Word::new("😀，𠀀！")], &seg);
    assert_eq!(texts(&out), vec!["😀", "，", "𠀀", "！"]);
}

#[test]
fn filter_word_with_given_pick() {
    let seg = seg_with(&[("中国", POSTAG::A_NS), ("中", POSTAG::A_NS)]);
    let cands = match_word("中国", &seg.table);
    let a = novel_segment::dict_tokenizer::filter_word_picked(&cands, "中国", &seg, 0);
    let b = novel_segment::dict_tokenizer::filter_word_picked(&cands, "中国", &seg, 99);
    assert_eq!(texts(&a), texts(&b));
    assert!(!a.is_empty());
}

#[test]
fn segment_keeps_text_outside_bmp() {
    let mut seg = seg_with(&[("中国", POSTAG::A_NS), ("人民", POSTAG::D_N)]);
    seg.use_default_modules();
    let text = "😀中国人民，𠀀访问http://a.b😀\n第二行 abc123🎉";
    let words = seg.do_segment(text, &DoSegmentOptions::default(), &FirstChunk);
    assert_eq!(novel_segment::word::stringify(&words), text);
    assert!(texts(&words).contains(&"中国".to_string()));
}
