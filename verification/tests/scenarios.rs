use novel_segment::cjk::CjkTables;
use novel_segment::loader::parse_synonym_line;
use novel_segment::service::{normalize_text, ordered_contains, ExpectedItem};
use novel_segment::text::{
    char_at, char_len, char_slice, char_substr_from, is_bmp, leading_repeat_run, slice_chars,
    slice_utf16,
};
use novel_segment::tokenizers::match_url;

/// Variant tables with the rows these checks rely on.
fn tables() -> CjkTables {
    let mut t = CjkTables::new();
    t.set_cn2tw('马', '馬');
    t.set_tw2cn('馬', '马');
    t.add_alias_group(&vec!['马', '馬']);
    t.set_cn2tw('于', '於');
    t.set_tw2cn('於', '于');
    t.add_alias_group(&vec!['于', '於']);
    t.set_cn2tw('欧', '歐');
    t.set_cn2tw('阳', '陽');
    t.add_alias_group(&vec!['藉', '借']);
    t.set_cn2tw('国', '國');
    t
}

#[test]
fn expand_includes_original() {
    let t = tables();
    let vs = t.expand_cjk_variants("中国");
    assert!(vs.iter().any(|s| s == "中国"));
}

#[test]
fn text_list_sima() {
    let t = tables();
    let vs = t.text_list("司马");
    assert!(vs.iter().any(|s| s == "司馬"), "{vs:?}");
    assert!(vs.iter().any(|s| s == "司马"), "{vs:?}");
}

#[test]
fn expand_jiyu_simplified() {
    let t = tables();
    let vs = t.expand_cjk_variants("基於");
    assert!(vs.iter().any(|s| s == "基于"), "{vs:?}");
}

#[test]
fn auto_jie_includes_borrow() {
    let t = tables();
    let vs = t.auto_char('藉');
    assert!(vs.contains(&'借'), "{vs:?}");
    let list = t.text_list("藉口");
    assert!(list.iter().any(|s| s == "借口"), "{list:?}");
}

#[test]
fn arr_cjk_ouyang() {
    let t = tables();
    let vs = t.arr_cjk(&vec!["欧阳".to_string()]);
    assert!(vs.iter().any(|s| s == "歐陽" || s == "欧阳"), "{vs:?}");
}

#[test]
fn parse_synonym() {
    let (c, vs) = parse_synonym_line("一併,一並,一并").unwrap();
    assert_eq!(c, "一併");
    assert_eq!(vs, vec!["一並", "一并"]);
}

#[test]
fn normalize_crlf() {
    assert_eq!(normalize_text("  a\r\nb  "), "a\nb");
}

#[test]
fn ordered_contains_any() {
    let got: Vec<String> = vec!["兩個".into(), "中國".into()];
    let exp = vec![ExpectedItem::Any(vec!["兩個".into(), "两个".into()])];
    assert!(ordered_contains(&got, &exp).0);
}

#[test]
fn utf16_len_emoji() {
    assert_eq!(char_len("😀"), 2);
    assert_eq!(char_len("中"), 1);
}

#[test]
fn bmp_slice_matches_utf16() {
    let s = "里面开发abc";
    assert_eq!(char_slice(s, 0, 2), "里面");
    assert_eq!(char_slice(s, 2, 2), "开发");
    assert_eq!(char_substr_from(s, 4), "abc");
    assert_eq!(char_at(s, 0), Some('里'));
    let chars: Vec<char> = s.chars().collect();
    assert_eq!(slice_chars(&chars, 0, 2).as_deref(), Some("里面"));
}

#[test]
fn ascii_fast_path() {
    let s = "http://example.com/path";
    assert_eq!(char_len(s), s.len());
    assert_eq!(char_slice(s, 0, 7), "http://");
    assert_eq!(char_at(s, 4), Some(':'));
}

#[test]
fn is_bmp_detects_non_bmp() {
    assert!(is_bmp(""));
    assert!(is_bmp("里面abc"));
    assert!(!is_bmp("😀"));
}

#[test]
fn non_bmp_slice_uses_utf16_units() {
    let s = "😀a";
    assert_eq!(char_len(s), 3);
    assert_eq!(char_slice(s, 0, 2), "😀");
    assert_eq!(char_slice(s, 2, 1), "a");
    assert_eq!(char_substr_from(s, 2), "a");
    assert_eq!(
        slice_utf16(&s.encode_utf16().collect::<Vec<_>>(), 0, 2).as_deref(),
        Some("😀")
    );
}

#[test]
fn repeat_run() {
    let s = "啊啊啊啊啊啊啊啊x";
    assert_eq!(leading_repeat_run(s), Some(8));
}

/// The URL hits as (start, text) pairs.
fn url_hits(text: &str) -> Vec<(usize, String)> {
    let (starts, words) = match_url(text);
    starts.into_iter().zip(words).collect()
}

#[test]
fn url_requires_remaining_longer_than_shortest_protocol() {
    assert!(url_hits("ftp://").is_empty());
    assert!(url_hits("xftp://").is_empty());
    assert!(url_hits("见ftp://").is_empty());
    assert_eq!(url_hits("ftp://x"), vec![(0, "ftp://x".into())]);
    assert_eq!(url_hits("http://"), vec![(0, "http://".into())]);
    assert_eq!(url_hits("见ftp://x"), vec![(1, "ftp://x".into())]);
    assert_eq!(
        url_hits("主页http://ucdok.com娃"),
        vec![(2, "http://ucdok.com".into())]
    );
}
