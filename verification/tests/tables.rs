use novel_segment::dict_tokenizer::pair_bonus;
use novel_segment::cjk::CjkTables;
use novel_segment::dict::{SynonymDict, TableDict};
use novel_segment::dicts::DictRow;
use novel_segment::postag::POSTAG;
use novel_segment::re::{regex_replace_groups, replace_captures};
use novel_segment::segment::Segment;
use novel_segment::options::SegmentOptions;
use novel_segment::cli::{flag_value, merge_opt};
use novel_segment::service::{is_blank, NO_TEXT_MESSAGE};
use novel_segment::strs::str_eq;
use novel_segment::text::{char_slice, char_substr_from, leading_repeat_run};
use novel_segment::tokenizers::UrlTokenizer;
use novel_segment::word::Word;

fn texts(ws: &[Word]) -> Vec<String> {
    ws.iter().map(|w| w.w.clone()).collect()
}

#[test]
fn repeat_run_takes_longest_unit() {
    assert_eq!(leading_repeat_run("aaaaaaaaaaaaa"), Some(12));
    assert_eq!(leading_repeat_run("aaaaaa"), Some(6));
    assert_eq!(leading_repeat_run("aaaaa"), None);
    assert_eq!(leading_repeat_run("abababababab!"), Some(12));
    assert_eq!(leading_repeat_run("a\na\na\na\na\na\n"), None);
    assert_eq!(leading_repeat_run("a\u{2028}a\u{2028}a\u{2028}a\u{2028}a\u{2028}a\u{2028}"), None);
    assert_eq!(leading_repeat_run("ab\rab\rab\rab\rab\rab\r"), None);
}

#[test]
fn bare_word_takes_given_pos_and_weight() {
    let mut seg = Segment::new(SegmentOptions::default());
    let weight = 100.0f64.to_bits();
    assert!(seg.add_word("專有名詞", Some(POSTAG::D_N), Some(weight), None, 0).is_ok());
    let e = seg.table.get("專有名詞").expect("entry");
    assert_eq!(e.p, POSTAG::D_N);
    assert_eq!(e.f, weight);
    assert!(e.s);
}

#[test]
fn url_split_keeps_text_outside_bmp() {
    let seg = Segment::new(SegmentOptions::default());
    let out = UrlTokenizer.split(vec![Word::new("😀http://a.b")], &seg);
    assert_eq!(texts(&out), vec!["😀", "http://a.b"]);
    assert_eq!(out[1].p, Some(POSTAG::URL));
    let out = UrlTokenizer.split(vec![Word::new("😀看http://a.b😀尾")], &seg);
    assert_eq!(out.iter().map(|w| w.w.as_str()).collect::<String>(), "😀看http://a.b😀尾");
}

#[test]
fn blank_text_is_refused() {
    assert!(is_blank(""));
    assert!(is_blank(" \t\n\u{3000}"));
    assert!(!is_blank(" 字 "));
    assert_eq!(NO_TEXT_MESSAGE, "No text provided for segmentation");
}

#[test]
fn replace_with_given_captures() {
    // "a1b22": matches "1" at 1 and "22" at 3, group 1 is the digits.
    let caps = vec![vec![Some((1, 1)), Some((1, 1))], vec![Some((3, 2)), Some((3, 2))]];
    assert_eq!(replace_captures("a1b22", &caps, Some(1), "-", None, 10), "a1-b22-");
    assert_eq!(replace_captures("a1b22", &caps, None, "#", None, 1), "a#b22");
    assert_eq!(regex_replace_groups("[0-9]+", "a1b22", None, "#", None, 10), "a#b#");
}

#[test]
fn str_eq_compares_chars() {
    assert!(str_eq("字", "字"));
    assert!(!str_eq("字", "字字"));
    assert!(!str_eq("ab", "ac"));
}

#[test]
fn slice_then_rest_spells_text() {
    for s in ["abc", "字😀b", "😀😀"] {
        let n = s.encode_utf16().count();
        for k in 0..=n + 1 {
            let units: Vec<u16> = s.encode_utf16().collect();
            let inside_pair = k < n && (0xDC00..=0xDFFF).contains(&units[k]);
            if !inside_pair {
                assert_eq!(format!("{}{}", char_slice(s, 0, k), char_substr_from(s, k)), s);
            }
        }
    }
}

#[test]
fn alias_json_adds_groups() {
    let mut t = CjkTables::new();
    t.add_alias_json(r#"{"table_plus": {"里": ["裡", "裏"]}, "table_tw": {"台": "臺"}, "table_cn": {"发": ["發", "髮"]}}"#);
    let mut v = t.auto_char('里');
    v.sort();
    assert_eq!(v, vec!['裏', '裡', '里']);
    let mut v = t.auto_char('臺');
    v.sort();
    assert_eq!(v, vec!['台', '臺']);
    let mut v = t.auto_char('发');
    v.sort();
    assert_eq!(v, vec!['发', '發', '髮']);
}

#[test]
fn alias_json_ignores_bad_text() {
    let mut t = CjkTables::new();
    t.add_alias_json("{ not json");
    assert_eq!(t.auto_char('里'), vec!['里']);
}

#[test]
fn jp_json_maps_rows() {
    let mut t = CjkTables::new();
    t.add_jp_json(r#"[["国", "國", "国"], ["", "x", "y"]]"#);
    let v = t.auto_char('国');
    assert!(v.contains(&'國'));
    let mut u = CjkTables::new();
    u.add_jp_json(r#"[["国", "國"]]"#);
    assert_eq!(u.auto_char('国'), vec!['国']);
}

#[test]
fn synonym_add_keeps_lookups_finite() {
    let mut d = SynonymDict::new();
    d.add("甲", &["乙".to_string()], false);
    d.add("乙", &["甲".to_string()], false);
    assert_eq!(d.get("乙"), Some("甲"));
    assert_eq!(d.get("甲"), None);
}

#[test]
fn wildcard_rows_are_lowercased_with_their_entries() {
    let mut seg = Segment::new(SegmentOptions::default());
    let rows = vec![
        DictRow { w: "ABC".into(), p: POSTAG::A_NX, f: 7 },
        DictRow { w: "Xy".into(), p: POSTAG::D_N, f: 1 },
        DictRow { w: "abc".into(), p: POSTAG::D_V, f: 9 },
    ];
    seg.add_dict_rows(&rows, true, true);
    let e = seg.wildcard.get("abc").expect("entry");
    assert_eq!((e.p, e.f, e.s), (POSTAG::D_V, 9, true));
    let e = seg.wildcard.get("xy").expect("entry");
    assert_eq!((e.p, e.f, e.s), (POSTAG::D_N, 1, true));
    assert!(seg.wildcard.get("ABC").is_none());
    assert!(seg.table.get("abc").is_none());
}

#[test]
fn dict_rows_keep_pos_and_weight() {
    let mut seg = Segment::new(SegmentOptions::default());
    let rows = vec![
        DictRow { w: "中国".into(), p: POSTAG::A_NS, f: 3 },
        DictRow { w: "中国".into(), p: POSTAG::D_N, f: 5 },
    ];
    seg.add_dict_rows(&rows, false, false);
    let e = seg.table.get("中国").expect("entry");
    assert_eq!((e.p, e.f, e.s), (POSTAG::D_N, 5, true));
}

#[test]
fn cjk_variants_are_added_as_non_native() {
    let mut cjk = CjkTables::new();
    cjk.add_alias_json(r#"{"table_plus": {"里": ["裡"]}}"#);
    let mut t = TableDict::new();
    t.add_with_cjk("里程", POSTAG::D_N, 4, true, &cjk);
    let e = t.get("里程").expect("word");
    assert_eq!((e.p, e.f, e.s), (POSTAG::D_N, 4, true));
    let e = t.get("裡程").expect("variant");
    assert_eq!((e.p, e.f, e.s), (POSTAG::D_N, 4, false));
    let mut u = TableDict::new();
    u.add_with_cjk("里程", POSTAG::D_N, 4, false, &cjk);
    assert!(u.get("裡程").is_none());
}

#[test]
fn synonym_variants_take_the_canonical_entry() {
    let mut seg = Segment::new(SegmentOptions::default());
    seg.add_dict_rows(&vec![DictRow { w: "標準".into(), p: POSTAG::D_N, f: 2 }], false, false);
    seg.add_synonym("標準", &vec!["錯字".to_string()]);
    let e = seg.table.get("錯字").expect("variant");
    assert_eq!((e.p, e.f, e.s), (POSTAG::D_N, 2, false));
    seg.add_synonym_text("標準,別字\n", false);
    let e = seg.table.get("別字").expect("variant");
    assert_eq!((e.p, e.f, e.s), (POSTAG::D_N, 2, false));
}

#[test]
fn pair_bonus_counts_quarters() {
    let seg = Segment::new(SegmentOptions::default());
    let three = Word::new("三").with_p(POSTAG::A_M);
    let ge = Word::new("个");
    assert_eq!(pair_bonus(&seg, &three, &ge, POSTAG::A_Q, None), 4);
    let year = Word::new("年");
    let hist = Word::new("历史");
    assert_eq!(pair_bonus(&seg, &year, &hist, 0, None), 2);
    let n = Word::new("书").with_p(POSTAG::D_N);
    let de = Word::new("的");
    let next = Word::new("人").with_p(POSTAG::D_N);
    assert_eq!(pair_bonus(&seg, &n, &de, 0, Some(&next)), 6);
    assert_eq!(pair_bonus(&seg, &n, &Word::new("上"), POSTAG::D_F, None), 4);
}

#[test]
fn merge_opt_joins_lists() {
    assert_eq!(merge_opt(Some(vec![1, 2]), Some(vec![3])), Some(vec![1, 2, 3]));
    assert_eq!(merge_opt(None, Some(vec![3])), Some(vec![3]));
    assert_eq!(merge_opt(Some(vec![1]), None), Some(vec![1]));
    assert_eq!(merge_opt::<u8>(None, None), None);
}

#[test]
fn flag_value_takes_next_argument() {
    let args: Vec<String> = ["--bind", "0.0.0.0:1", "--port", "8", "--bind", "x"]
        .iter()
        .map(|s| s.to_string())
        .collect();
    assert_eq!(flag_value(&args, "--bind"), Some("0.0.0.0:1".to_string()));
    assert_eq!(flag_value(&args, "--port"), Some("8".to_string()));
    assert_eq!(flag_value(&args[..5], "--nope"), None);
    assert_eq!(flag_value(&args[..5], "--bind"), Some("0.0.0.0:1".to_string()));
    let tail: Vec<String> = vec!["--port".to_string()];
    assert_eq!(flag_value(&tail, "--port"), None);
}
