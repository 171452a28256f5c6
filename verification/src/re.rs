//! Regular-expression matching through the `regex` crate, and splitting text at matches.
use vstd::prelude::*;
use crate::strs::{chars_of, slice_of, string_from_chars};

verus! {

pub const RE_SECTION: &'static str = "(?m)([\\r\\n]+|^[　\\s]+|[　\\s]+$|[　\\s]{2,})";
pub const RE_SPLIT_1: &'static str = "([\\u{4E00}-\\u{9FFF}]+|[\\d０-９]+(?:,[\\d０-９]+)?(?:\\.[\\d０-９]+)?|[A-Za-z0-9_０-９Ａ-Ｚａ-ｚ\\u{0100}-\\u{017F}\\u{00A1}-\\u{00FF}]+|[\\u{0600}-\\u{06FF}\\u{0750}-\\u{077F}]+|[\\u{0400}-\\u{04FF}]+|[\\u{0370}-\\u{03FF}]+)";
pub const RE_SPLIT_2: &'static str = "([\\d０-９]+(?:,[\\d０-９]+)?(?:\\.[\\d０-９]+)?|[A-Za-z0-9_０-９Ａ-Ｚａ-ｚ\\u{0100}-\\u{017F}\\u{00A1}-\\u{00FF}]+|[\\u{0600}-\\u{06FF}\\u{0750}-\\u{077F}]+|[\\u{0400}-\\u{04FF}]+|[\\u{0370}-\\u{03FF}]+)";
pub const RE_SPLIT_NUM: &'static str = "([\\d+０-９]+)";
pub const RE_JP: &'static str = "((?:[^ァ-ヴーｱ-ﾝﾞｰ]+)?[ぁ-ん]+(?=[ァ-ヴーｱ-ﾝﾞｰ])|(?:[^ぁ-ん]+)?[ァ-ヴーｱ-ﾝﾞｰ]+(?=[ぁ-ん]))";
pub const RE_ZHUYIN: &'static str = "([\\u{31A0}-\\u{31BA}\\u{3105}-\\u{312E}]+)";
pub const RE_HOW_MANY: &'static str = "^(?:[數数幾几][百千萬十億兆万亿]|毎)$";
pub const RE_JI: &'static str = "^[數数幾几第]$";
pub const RE_DIR: &'static str = "^[東西南北东]+$";
pub const RE_INT_DIGITS: &'static str = "^[\\d０-９]+$";
pub const RE_DECIMAL: &'static str = "^(?:(?:[\\d０-９]+)?(?:\\.[\\d０-９]+)|(?:[\\d０-９]+))$";
pub const RE_LI: &'static str = "(.)里|里(.)";
pub const RE_HOU: &'static str = "(.)后|后(.)";
pub const RE_SHEN: &'static str = "蔘(.)";
pub const RE_FA_SUFFIX: &'static str = "^(.+)[发發]$";
pub const RE_YU_SUFFIX: &'static str = "^(.+)余$";
pub const RE_LI_SUFFIX: &'static str = "(.)里$";
pub const RE_DEBUG_SPLIT: &'static str = "([\\n\\p{Punctuation}])";

/// Name for whether `regex::Regex::new(pattern)` succeeds.
pub uninterp spec fn spec_regex_valid(pattern: Seq<char>) -> bool;

/// Name for the matches `regex::Regex::find_iter` reports for `pattern` in `text`, each as
/// (start, length) counted in chars.
pub uninterp spec fn spec_regex_matches(pattern: Seq<char>, text: Seq<char>) -> Seq<(usize, usize)>;

/// Matches lie inside the text, in order, without overlap.
pub open spec fn spans_ordered(spans: Seq<(usize, usize)>, n: int) -> bool {
    &&& forall|i: int| 0 <= i < spans.len() ==> #[trigger] spans[i].0 + spans[i].1 <= n
    &&& forall|i: int, j: int|
        0 <= i < j < spans.len() ==> #[trigger] spans[i].0 + spans[i].1 <= #[trigger] spans[j].0
}

/// `regex::Regex::new(pattern).is_ok()`: whether the pattern compiles.
#[verifier::external_body]
pub(crate) fn regex_valid(pattern: &str) -> (r: bool)
    ensures
        r == spec_regex_valid(pattern@),
{
    regex::Regex::new(pattern).is_ok()
}

/// `regex::Regex::find_iter`: the successive non-overlapping leftmost-first matches of a
/// pattern that compiles, each converted from byte offsets to (char start, char length).
/// The contract names the matches and states what the crate documents of them: they lie in
/// the text, in order, without overlap.
#[verifier::external_body]
pub(crate) fn regex_find_all(pattern: &str, text: &str) -> (r: Vec<(usize, usize)>)
    requires
        spec_regex_valid(pattern@),
    ensures
        r@ == spec_regex_matches(pattern@, text@),
        spans_ordered(r@, text@.len() as int),
{
    let re = regex::Regex::new(pattern).unwrap();
    re.find_iter(text).map(|m| (text[..m.start()].chars().count(), m.as_str().chars().count())).collect()
}

/// Pieces of `text` cut at `spans`: the gap before each span (when non-empty), the span
/// itself, and what follows the last span (when non-empty); just `[text]` when nothing
/// was produced.
pub open spec fn split_keep_spec(text: Seq<char>, spans: Seq<(usize, usize)>) -> Seq<Seq<char>> {
    let body = split_keep_body(text, spans, spans.len() as int);
    let last = last_end(spans, spans.len() as int);
    let all = if last < text.len() {
        body.push(text.subrange(last, text.len() as int))
    } else {
        body
    };
    if all.len() == 0 {
        seq![text]
    } else {
        all
    }
}

/// End of the `k`-th span's predecessor chain: where the text after span `k - 1` starts.
pub open spec fn last_end(spans: Seq<(usize, usize)>, k: int) -> int {
    if k <= 0 {
        0
    } else {
        spans[k - 1].0 + spans[k - 1].1
    }
}

/// Pieces produced for the first `k` spans.
pub open spec fn split_keep_body(text: Seq<char>, spans: Seq<(usize, usize)>, k: int) -> Seq<
    Seq<char>,
>
    decreases k,
{
    if k <= 0 {
        Seq::empty()
    } else {
        let prev = split_keep_body(text, spans, k - 1);
        let start = last_end(spans, k - 1);
        let s = spans[k - 1];
        let with_gap = if s.0 > start {
            prev.push(text.subrange(start, s.0 as int))
        } else {
            prev
        };
        with_gap.push(text.subrange(s.0 as int, s.0 + s.1))
    }
}

/// Concatenation of pieces.
pub open spec fn concat_pieces(ps: Seq<Seq<char>>) -> Seq<char>
    decreases ps.len(),
{
    if ps.len() == 0 {
        Seq::empty()
    } else {
        concat_pieces(ps.drop_last()) + ps.last()
    }
}

pub proof fn lemma_concat_push(ps: Seq<Seq<char>>, x: Seq<char>)
    ensures
        concat_pieces(ps.push(x)) == concat_pieces(ps) + x,
{
    assert(ps.push(x).drop_last() =~= ps);
}

proof fn lemma_split_keep_body(text: Seq<char>, spans: Seq<(usize, usize)>, k: int)
    requires
        spans_ordered(spans, text.len() as int),
        0 <= k <= spans.len(),
    ensures
        concat_pieces(split_keep_body(text, spans, k)) == text.subrange(0, last_end(spans, k)),
        0 <= last_end(spans, k) <= text.len(),
    decreases k,
{
    if k > 0 {
        lemma_split_keep_body(text, spans, k - 1);
        let prev = split_keep_body(text, spans, k - 1);
        let start = last_end(spans, k - 1);
        let s = spans[k - 1];
        if k >= 2 {
            assert(spans[k - 2].0 + spans[k - 2].1 <= spans[k - 1].0);
        }
        assert(s.0 + s.1 <= text.len());
        if s.0 > start {
            lemma_concat_push(prev, text.subrange(start, s.0 as int));
            lemma_concat_push(prev.push(text.subrange(start, s.0 as int)), text.subrange(s.0 as int, s.0 + s.1));
            assert(text.subrange(0, start) + text.subrange(start, s.0 as int) + text.subrange(
                s.0 as int,
                s.0 + s.1,
            ) =~= text.subrange(0, s.0 + s.1));
        } else {
            lemma_concat_push(prev, text.subrange(s.0 as int, s.0 + s.1));
            assert(text.subrange(0, start) + text.subrange(s.0 as int, s.0 + s.1) =~= text.subrange(
                0,
                s.0 + s.1,
            ));
        }
    }
}

/// The pieces of `split_keep_spec` lay end to end give back the text.
pub proof fn lemma_split_keep(text: Seq<char>, spans: Seq<(usize, usize)>)
    requires
        spans_ordered(spans, text.len() as int),
    ensures
        concat_pieces(split_keep_spec(text, spans)) == text,
{
    let k = spans.len() as int;
    lemma_split_keep_body(text, spans, k);
    let body = split_keep_body(text, spans, k);
    let last = last_end(spans, k);
    if last < text.len() {
        lemma_concat_push(body, text.subrange(last, text.len() as int));
        assert(text.subrange(0, last) + text.subrange(last, text.len() as int) =~= text);
    } else {
        assert(text.subrange(0, last) =~= text);
    }
    let all = if last < text.len() {
        body.push(text.subrange(last, text.len() as int))
    } else {
        body
    };
    if all.len() == 0 {
        assert(seq![text].drop_last() =~= Seq::<Seq<char>>::empty());
        assert(Seq::<char>::empty() + text =~= text);
    }
}

/// Split `text` at `spans`, keeping the spans (the `split_keep` helpers of the segmenter).
pub fn split_at_spans(text: &str, spans: &Vec<(usize, usize)>) -> (r: Vec<String>)
    requires
        spans_ordered(spans@, text@.len() as int),
    ensures
        r@.map_values(|s: String| s@) == split_keep_spec(text@, spans@),
        concat_pieces(r@.map_values(|s: String| s@)) == text@,
{
    let cs = chars_of(text);
    let mut out: Vec<String> = Vec::new();
    let mut last: usize = 0;
    let mut k: usize = 0;
    while k < spans.len()
        invariant
            cs@ == text@,
            spans_ordered(spans@, text@.len() as int),
            k <= spans@.len(),
            last == last_end(spans@, k as int),
            out@.map_values(|s: String| s@) == split_keep_body(text@, spans@, k as int),
        decreases spans@.len() - k,
    {
        let (st, ln) = spans[k];
        proof {
            if k >= 1 {
                assert(spans@[k - 1].0 + spans@[k - 1].1 <= spans@[k as int].0);
            }
            assert(st + ln <= text@.len());
            assert(cs@.len() == cs.len());
        }
        let ghost prev = out@.map_values(|s: String| s@);
        if st > last {
            out.push(string_from_chars(slice_of(&cs, last, st)));
        }
        out.push(string_from_chars(slice_of(&cs, st, st + ln)));
        assert(out@.map_values(|s: String| s@) =~= split_keep_body(text@, spans@, k + 1));
        last = st + ln;
        k += 1;
    }
    proof {
        lemma_split_keep_body(text@, spans@, k as int);
    }
    if last < cs.len() {
        out.push(string_from_chars(slice_of(&cs, last, cs.len())));
    }
    if out.len() == 0 {
        out.push(text.to_owned());
    }
    assert(out@.map_values(|s: String| s@) =~= split_keep_spec(text@, spans@));
    proof {
        lemma_split_keep(text@, spans@);
    }
    out
}

/// Whether `pattern` (which must compile) matches anywhere in `text` (`Regex::is_match`).
pub fn regex_is_match(pattern: &str, text: &str) -> (r: bool)
    requires
        spec_regex_valid(pattern@),
    ensures
        r == (spec_regex_matches(pattern@, text@).len() > 0),
{
    regex_find_all(pattern, text).len() > 0
}

/// Split `text` at the matches of `pattern`, keeping the matches.
pub fn split_keep_re(text: &str, pattern: &str) -> (r: Vec<String>)
    requires
        spec_regex_valid(pattern@),
    ensures
        r@.map_values(|s: String| s@) == split_keep_spec(
            text@,
            spec_regex_matches(pattern@, text@),
        ),
        concat_pieces(r@.map_values(|s: String| s@)) == text@,
{
    let spans = regex_find_all(pattern, text);
    split_at_spans(text, &spans)
}

/// Name for the capture groups `regex::Regex::captures_iter` reports for `pattern` in
/// `text`: per match, per group, the group's (start, length) in chars when it took part.
pub uninterp spec fn spec_regex_captures(pattern: Seq<char>, text: Seq<char>) -> Seq<Seq<Option<(usize, usize)>>>;

/// Start of group `g` of a match.
pub open spec fn grp_start(m: Seq<Option<(usize, usize)>>, g: int) -> int {
    let x = m[g]->0;
    x.0 as int
}

/// End of group `g` of a match.
pub open spec fn grp_end(m: Seq<Option<(usize, usize)>>, g: int) -> int {
    let x = m[g]->0;
    x.0 + x.1
}

/// The whole-match span of each match.
pub open spec fn match_spans(caps: Seq<Seq<Option<(usize, usize)>>>) -> Seq<(usize, usize)> {
    caps.map_values(|m: Seq<Option<(usize, usize)>>| m[0]->0)
}

/// Every match has its whole-match group; matches lie in the text, in order, without
/// overlap; each group lies inside its match.
pub open spec fn captures_ok(caps: Seq<Seq<Option<(usize, usize)>>>, n: int) -> bool {
    &&& forall|i: int| 0 <= i < caps.len() ==> (#[trigger] caps[i]).len() >= 1 && caps[i][0] is Some
    &&& spans_ordered(match_spans(caps), n)
    &&& forall|i: int, g: int|
        0 <= i < caps.len() && 0 <= g < caps[i].len() && (#[trigger] caps[i][g]) is Some ==> grp_start(caps[i], 0)
            <= grp_start(caps[i], g) && grp_end(caps[i], g) <= grp_end(caps[i], 0)
}

/// `regex::Regex::captures_iter`: for each successive non-overlapping match of a pattern
/// that compiles, every group as (char start, char length) when it took part. The contract
/// names the result and states what the crate documents of it: the whole match is group 0,
/// matches are in order without overlap, and groups lie inside their match.
#[verifier::external_body]
pub(crate) fn regex_captures_all(pattern: &str, text: &str) -> (r: Vec<Vec<Option<(usize, usize)>>>)
    requires
        spec_regex_valid(pattern@),
    ensures
        r@.map_values(|v: Vec<Option<(usize, usize)>>| v@) == spec_regex_captures(pattern@, text@),
        captures_ok(r@.map_values(|v: Vec<Option<(usize, usize)>>| v@), text@.len() as int),
{
    let re = regex::Regex::new(pattern).unwrap();
    re.captures_iter(text).map(|c| c.iter().map(|m| m.map(|m| (text[..m.start()].chars().count(), m.as_str().chars().count()))).collect()).collect()
}

/// Text of group `g` of a match; empty when not asked for or when it did not take part.
pub open spec fn group_text(text: Seq<char>, m: Seq<Option<(usize, usize)>>, g: Option<usize>) -> Seq<char> {
    match g {
        Some(k) => if k < m.len() && m[k as int] is Some {
            text.subrange(grp_start(m, k as int), grp_end(m, k as int))
        } else {
            Seq::empty()
        },
        None => Seq::empty(),
    }
}

/// What a match is replaced by: group `a`, then `lit`, then group `b`.
pub open spec fn replacement(text: Seq<char>, m: Seq<Option<(usize, usize)>>, a: Option<usize>, lit: Seq<char>, b: Option<usize>) -> Seq<char> {
    group_text(text, m, a) + lit + group_text(text, m, b)
}

/// End of the whole match `k - 1` (0 before the first).
pub open spec fn cap_end(caps: Seq<Seq<Option<(usize, usize)>>>, k: int) -> int {
    if k <= 0 {
        0
    } else {
        grp_end(caps[k - 1], 0)
    }
}

/// Output for the first `k` matches: the text before each match, then its replacement.
pub open spec fn replace_body(
    text: Seq<char>,
    caps: Seq<Seq<Option<(usize, usize)>>>,
    a: Option<usize>,
    lit: Seq<char>,
    b: Option<usize>,
    k: int,
) -> Seq<char>
    decreases k,
{
    if k <= 0 {
        Seq::empty()
    } else {
        replace_body(text, caps, a, lit, b, k - 1) + text.subrange(cap_end(caps, k - 1), grp_start(caps[k - 1], 0))
            + replacement(text, caps[k - 1], a, lit, b)
    }
}

/// The text with its first `limit` matches replaced.
pub open spec fn replace_spec(
    text: Seq<char>,
    caps: Seq<Seq<Option<(usize, usize)>>>,
    a: Option<usize>,
    lit: Seq<char>,
    b: Option<usize>,
    limit: int,
) -> Seq<char> {
    let k = if limit < caps.len() {
        limit
    } else {
        caps.len() as int
    };
    replace_body(text, caps, a, lit, b, k) + text.subrange(cap_end(caps, k), text.len() as int)
}

/// Chars of group `g` of match `m`, appended to `out`.
fn push_group(out: &mut Vec<char>, cs: &Vec<char>, m: &Vec<Option<(usize, usize)>>, g: Option<usize>)
    requires
        forall|k: int| 0 <= k < m@.len() && (#[trigger] m@[k]) is Some ==> grp_end(m@, k) <= cs@.len(),
    ensures
        final(out)@ == old(out)@ + group_text(cs@, m@, g),
{
    match g {
        Some(k) => {
            if k < m.len() {
                match m[k] {
                    Some((st, ln)) => {
                        let n = cs.len();
                        assert(grp_end(m@, k as int) == st + ln);
                        let end = st + ln;
                        let ghost start = out@;
                        let mut j = st;
                        while j < end
                            invariant
                                end == st + ln,
                                st + ln <= cs@.len(),
                                st <= j <= st + ln,
                                out@ == start + cs@.subrange(st as int, j as int),
                            decreases st + ln - j,
                        {
                            out.push(cs[j]);
                            assert(cs@.subrange(st as int, j + 1) =~= cs@.subrange(st as int, j as int).push(cs@[j as int]));
                            j += 1;
                        }
                    },
                    None => {
                        assert(out@ + Seq::<char>::empty() =~= out@);
                    },
                }
            } else {
                assert(out@ + Seq::<char>::empty() =~= out@);
            }
        },
        None => {
            assert(out@ + Seq::<char>::empty() =~= out@);
        },
    }
}

/// Append `cs[a..b]` to `out`.
fn push_range(out: &mut Vec<char>, cs: &Vec<char>, a: usize, b: usize)
    requires
        a <= b <= cs@.len(),
    ensures
        final(out)@ == old(out)@ + cs@.subrange(a as int, b as int),
{
    let ghost start = out@;
    let mut j = a;
    while j < b
        invariant
            a <= j <= b <= cs@.len(),
            out@ == start + cs@.subrange(a as int, j as int),
        decreases b - j,
    {
        out.push(cs[j]);
        assert(cs@.subrange(a as int, j + 1) =~= cs@.subrange(a as int, j as int).push(cs@[j as int]));
        j += 1;
    }
}

/// The views of capture lists.
pub open spec fn caps_view(caps: Seq<Vec<Option<(usize, usize)>>>) -> Seq<Seq<Option<(usize, usize)>>> {
    caps.map_values(|v: Vec<Option<(usize, usize)>>| v@)
}

/// Replace the first `limit` matches of `pattern` (which must compile) in `text` by group
/// `a`, `lit`, group `b` (`Regex::replace_all`, or `Regex::replace` with a limit of one).
pub fn regex_replace_groups(pattern: &str, text: &str, a: Option<usize>, lit: &str, b: Option<usize>, limit: usize) -> (r: String)
    requires
        spec_regex_valid(pattern@),
    ensures
        r@ == replace_spec(text@, spec_regex_captures(pattern@, text@), a, lit@, b, limit as int),
{
    let caps = regex_captures_all(pattern, text);
    replace_captures(text, &caps, a, lit, b, limit)
}

/// Given the capture groups of the matches in `text`, replace the first `limit` matches by
/// group `a`, `lit`, group `b`; the text between and after the matches is kept.
pub fn replace_captures(
    text: &str,
    caps: &Vec<Vec<Option<(usize, usize)>>>,
    a: Option<usize>,
    lit: &str,
    b: Option<usize>,
    limit: usize,
) -> (r: String)
    requires
        captures_ok(caps_view(caps@), text@.len() as int),
    ensures
        r@ == replace_spec(text@, caps_view(caps@), a, lit@, b, limit as int),
{
    let ghost cv = caps_view(caps@);
    let cs = chars_of(text);
    let ncs = cs.len();
    let ls = chars_of(lit);
    let mut out: Vec<char> = Vec::new();
    let mut last: usize = 0;
    let mut k: usize = 0;
    let lim = if limit < caps.len() {
        limit
    } else {
        caps.len()
    };
    proof {
        assert(caps@.len() == cv.len());
    }
    while k < lim
        invariant
            cs@ == text@,
            ncs == cs@.len(),
            ls@ == lit@,
            caps@.map_values(|v: Vec<Option<(usize, usize)>>| v@) == cv,
            captures_ok(cv, text@.len() as int),
            lim <= caps@.len(),
            k <= lim,
            last == cap_end(cv, k as int),
            last <= cs@.len(),
            out@ == replace_body(text@, cv, a, lit@, b, k as int),
        decreases lim - k,
    {
        let m = &caps[k];
        proof {
            assert(cv[k as int] == m@);
            assert(cv[k as int].len() >= 1 && cv[k as int][0] is Some);
            assert(match_spans(cv)[k as int] == cv[k as int][0]->0);
            if k > 0 {
                assert(match_spans(cv)[k - 1] == cv[k - 1][0]->0);
            }
            assert forall|g: int| 0 <= g < m@.len() && (#[trigger] m@[g]) is Some implies grp_end(m@, g) <= cs@.len() by {
                assert(cv[k as int][g] == m@[g]);
            }
        }
        let (st, ln) = match m[0] {
            Some(x) => x,
            None => (last, 0),
        };
        proof {
            assert(m@[0] == Some((st, ln)));
            assert(grp_end(m@, 0) == st + ln);
            assert(match_spans(cv)[k as int] == (st, ln));
            assert(st + ln <= text@.len());
            assert(cs@.len() <= usize::MAX);
            if k > 0 {
                assert(match_spans(cv)[k - 1].0 + match_spans(cv)[k - 1].1 <= match_spans(cv)[k as int].0);
            }
        }
        push_range(&mut out, &cs, last, st);
        push_group(&mut out, &cs, m, a);
        let mut j: usize = 0;
        let ghost mid = out@;
        while j < ls.len()
            invariant
                j <= ls@.len(),
                out@ == mid + ls@.subrange(0, j as int),
            decreases ls@.len() - j,
        {
            out.push(ls[j]);
            assert(ls@.subrange(0, j + 1) =~= ls@.subrange(0, j as int).push(ls@[j as int]));
            j += 1;
        }
        push_group(&mut out, &cs, m, b);
        proof {
            assert(ls@.subrange(0, ls@.len() as int) =~= ls@);
            assert(out@ =~= replace_body(text@, cv, a, lit@, b, k + 1));
        }
        last = st + ln;
        k += 1;
    }
    push_range(&mut out, &cs, last, cs.len());
    string_from_chars(out.as_slice())
}

} // verus!
