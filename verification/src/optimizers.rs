//! Built-in optimizers: merging neighbouring words and retagging them.
use vstd::prelude::*;
use crate::dict::TableDict;
use crate::pipeline::{
    ADJECTIVE_OPTIMIZER, CHS_NAME_OPTIMIZER, DATETIME_OPTIMIZER, DICT_OPTIMIZER, EMAIL_OPTIMIZER,
    FOREIGN_OPTIMIZER,
};
use crate::postag::POSTAG;
use crate::re::{
    regex_is_match, regex_valid, RE_DECIMAL, RE_DIR, RE_HOW_MANY, RE_INT_DIGITS, RE_JI,
};
use crate::segment::{Lexicon, Segment};
use crate::strs::{chars_of, concat_str, ends_with, has_prefix, has_suffix, starts_with, str_eq, to_owned_string};
use crate::text::{char_len, u16_len};
use crate::word::{clone_word, clone_words, lemma_text_of_add, lemma_text_of_push, text_of, texts_of, views, Word, WordView};

verus! {

/// End of the range `i .. i + len` cut to a list of `n` words.
pub open spec fn range_end(i: int, len: int, n: int) -> int {
    if i + len < n {
        i + len
    } else {
        n
    }
}

/// The list with words `i .. end` replaced by `nw`.
pub open spec fn spliced(ws: Seq<Word>, i: int, end: int, nw: Word) -> Seq<Word> {
    ws.subrange(0, i) + seq![nw] + ws.subrange(end, ws.len() as int)
}

/// Replacing a range by a word with the range's text keeps the text.
pub proof fn lemma_splice_text(ws: Seq<Word>, i: int, end: int, nw: Word)
    requires
        0 <= i <= end <= ws.len(),
        nw.w@ == text_of(ws.subrange(i, end)),
    ensures
        text_of(spliced(ws, i, end, nw)) == text_of(ws),
{
    let a = ws.subrange(0, i);
    let b = ws.subrange(i, end);
    let c = ws.subrange(end, ws.len() as int);
    lemma_text_of_add(a + seq![nw], c);
    lemma_text_of_push(a, nw);
    assert(a + seq![nw] =~= a.push(nw));
    lemma_text_of_add(a, b);
    lemma_text_of_add(a + b, c);
    assert(a + b + c =~= ws);
    assert(text_of(a) + nw.w@ + text_of(c) =~= text_of(a) + text_of(b) + text_of(c));
}

/// Text of words `a .. b` joined.
pub fn join_words(words: &Vec<Word>, a: usize, b: usize) -> (r: String)
    requires
        a <= b <= words@.len(),
    ensures
        r@ == text_of(words@.subrange(a as int, b as int)),
{
    let mut s = String::new();
    let mut k = a;
    while k < b
        invariant
            a <= k <= b <= words@.len(),
            s@ == text_of(words@.subrange(a as int, k as int)),
        decreases b - k,
    {
        proof {
            assert(words@.subrange(a as int, k + 1) =~= words@.subrange(a as int, k as int).push(words@[k as int]));
            lemma_text_of_push(words@.subrange(a as int, k as int), words@[k as int]);
        }
        s = concat_str(s.as_str(), words[k].w.as_str());
        k += 1;
    }
    s
}

/// Replace words `i .. i + len` (cut to the list) by `nw`.
pub fn splice_token(words: &mut Vec<Word>, i: usize, len: usize, nw: Word)
    requires
        i <= old(words)@.len(),
    ensures
        final(words)@ == spliced(old(words)@, i as int, range_end(i as int, len as int, old(words)@.len() as int), nw),
{
    let n = words.len();
    let end = if len < n - i {
        i + len
    } else {
        n
    };
    let ghost orig = words@;
    let mut k = i;
    while k < end
        invariant
            i <= k <= end <= n,
            n == orig.len(),
            words@ == orig.subrange(0, i as int) + orig.subrange(k as int, n as int),
        decreases end - k,
    {
        words.remove(i);
        assert(words@ =~= orig.subrange(0, i as int) + orig.subrange(k + 1, n as int));
        k += 1;
    }
    words.insert(i, nw);
    assert(words@ =~= spliced(orig, i as int, end as int, nw));
}

/// The word `splice_created` puts in: `nw` marked created when the table lacks it, with
/// the replaced words `i .. end` as its parts when it has none.
pub open spec fn created_view(nw: WordView, ws: Seq<Word>, i: int, end: int, known: bool) -> WordView {
    WordView {
        auto_create: nw.auto_create || !known,
        m: if nw.m is None && i < end {
            Some(views(ws.subrange(i, end)))
        } else {
            nw.m
        },
        ..nw
    }
}

/// Replace words `i .. i + len` (cut to the list) by `nw`, marking it created when the
/// dictionary lacks it and keeping the replaced words as its parts.
pub fn splice_created(words: &mut Vec<Word>, i: usize, len: usize, nw: Word, table: &TableDict)
    requires
        i <= old(words)@.len(),
    ensures
        final(words)@ == spliced(
            old(words)@,
            i as int,
            range_end(i as int, len as int, old(words)@.len() as int),
            final(words)@[i as int],
        ),
        final(words)@[i as int].w == nw.w,
        final(words)@[i as int].p == nw.p,
        final(words)@[i as int].f == nw.f,
        final(words)@[i as int].ow == nw.ow,
        final(words)@[i as int].auto_create == (nw.auto_create || !table.table@.contains_key(nw.w@)),
        final(words)@[i as int]@ == created_view(
            nw@,
            old(words)@,
            i as int,
            range_end(i as int, len as int, old(words)@.len() as int),
            table.table@.contains_key(nw.w@),
        ),
{
    let mut nw = nw;
    if !table.contains(nw.w.as_str()) {
        nw.auto_create = true;
    }
    let n = words.len();
    let end = if len < n - i {
        i + len
    } else {
        n
    };
    if nw.m.is_none() && i < end {
        let parts = clone_words(words, i, end);
        proof {
            crate::word::lemma_list_view(parts@);
        }
        nw.m = Some(parts);
    }
    let ghost nw2 = nw;
    splice_token(words, i, len, nw);
    assert(words@[i as int] == nw2);
}

/// Splicing a word that has the replaced words' text keeps the text.
proof fn lemma_spliced_keeps(old_ws: Seq<Word>, new_ws: Seq<Word>, i: int, end: int)
    requires
        0 <= i <= end <= old_ws.len(),
        new_ws == spliced(old_ws, i, end, new_ws[i]),
        new_ws[i].w@ == text_of(old_ws.subrange(i, end)),
    ensures
        text_of(new_ws) == text_of(old_ws),
{
    lemma_splice_text(old_ws, i, end, new_ws[i]);
}

/// Chars that may appear in an e-mail address.
pub open spec fn email_char(c: char) -> bool {
    ('a' <= c && c <= 'z') || ('A' <= c && c <= 'Z') || ('0' <= c && c <= '9') || c == '!' || c
        == '#' || c == '$' || c == '%' || c == '&' || c == '\'' || c == '*' || c == '+' || c == '-'
        || c == '/' || c == '=' || c == '?' || c == '^' || c == '_' || c == '`' || c == '{' || c
        == '|' || c == '}' || c == '~' || c == '.' || c == '@' || c == '"'
}

/// The characters an e-mail address is made of are exactly the ASCII letters and digits and
/// `!#$%&'*+-/=?^_`{|}~.@"`: a hyphen or a dot inside a host name keeps the address going.
pub proof fn law_email_chars()
    ensures
        forall|c: char|
            #[trigger] email_char(c) <==> (('a' <= c && c <= 'z') || ('A' <= c && c <= 'Z') || ('0' <= c && c <= '9')
                || c == '!' || c == '#' || c == '$' || c == '%' || c == '&' || c == '\'' || c == '*' || c == '+'
                || c == '-' || c == '/' || c == '=' || c == '?' || c == '^' || c == '_' || c == '`' || c == '{'
                || c == '|' || c == '}' || c == '~' || c == '.' || c == '@' || c == '"'),
{
}

fn is_email_char(c: char) -> (r: bool)
    ensures
        r == email_char(c),
{
    ('a' <= c && c <= 'z') || ('A' <= c && c <= 'Z') || ('0' <= c && c <= '9') || c == '!' || c
        == '#' || c == '$' || c == '%' || c == '&' || c == '\'' || c == '*' || c == '+' || c == '-'
        || c == '/' || c == '=' || c == '?' || c == '^' || c == '_' || c == '`' || c == '{' || c
        == '|' || c == '}' || c == '~' || c == '.' || c == '@' || c == '"'
}

/// The first char of a word is an e-mail char.
fn starts_email(w: &str) -> (r: bool)
    ensures
        r == (w@.len() > 0 && email_char(w@[0])),
{
    let cs = chars_of(w);
    cs.len() > 0 && is_email_char(cs[0])
}

/// An ASCII word: foreign letters, or a number starting with an ASCII char.
/// A word that may begin or continue an address: Latin (`A_NX`), or a number whose first
/// char is ASCII.
pub open spec fn ascii_view(w: WordView) -> bool {
    view_pos(w) == POSTAG::A_NX || (view_pos(w) == POSTAG::A_M && w.w.len() > 0 && (w.w[0] as u32) < 128)
}

/// A word may continue an address: its first char is an address char.
pub open spec fn email_view(w: WordView) -> bool {
    w.w.len() > 0 && email_char(w.w[0])
}

/// An address: its text, tagged `URL`.
pub open spec fn mail_view(t: Seq<char>) -> WordView {
    WordView {
        w: t,
        p: Some(POSTAG::URL),
        f: None,
        c: None,
        s: None,
        ow: None,
        op: None,
        m: None,
        auto_create: false,
        os: None,
    }
}

/// After the scan: an address still open when the list ends is merged when its `@` was
/// seen and the last word is Latin or a single address char tagged as a number.
pub open spec fn email_tail(ws: Seq<WordView>, start: Option<int>, has_at: bool) -> Seq<WordView> {
    match start {
        Some(st) => {
            let lw = ws.last();
            if has_at && ws.len() > 0 && 0 <= st <= ws.len() && (view_pos(lw) == POSTAG::A_NX || (view_pos(lw)
                == POSTAG::A_M && lw.w.len() == 1 && email_char(lw.w[0]))) {
                ws.subrange(0, st) + seq![mail_view(view_text(ws.subrange(st, ws.len() as int)))]
            } else {
                ws
            }
        },
        None => ws,
    }
}

/// The address scan from word `i`: an address starts at a Latin or ASCII-number word,
/// takes one `@`, continues over address words, and is merged into one `URL` word at the
/// first word after the `@` part that can not continue it; a word that can not continue
/// an address otherwise ends it.
pub open spec fn email_scan(ws: Seq<WordView>, i: int, start: Option<int>, has_at: bool) -> Seq<WordView>
    decreases ws.len() - i, if has_at {
        1int
    } else {
        0int
    },
{
    if !(0 <= i && i + 1 < ws.len()) {
        email_tail(ws, start, has_at)
    } else {
        let w = ws[i];
        let ascii = ascii_view(w);
        if start is None && ascii {
            email_scan(ws, i + 1, Some(i), has_at)
        } else if !has_at && w.w == "@"@ {
            email_scan(ws, i + 1, start, true)
        } else if has_at && i > 0 && ws[i - 1].w != "@"@ && !ascii && !email_view(w) && start is Some && 0 <= start->0 < i {
            let st = start->0;
            email_scan(
                ws.subrange(0, st) + seq![mail_view(view_text(ws.subrange(st, i)))] + ws.subrange(i, ws.len() as int),
                st + 1,
                None,
                false,
            )
        } else if start is Some && (ascii || email_view(w)) {
            email_scan(ws, i + 1, start, has_at)
        } else {
            email_scan(ws, i + 1, None, false)
        }
    }
}

/// An open address goes on over a word that starts with an address char (`-` and `.` of a
/// host name among them): the scan at that word is the scan at the next one, the address
/// still open.
pub proof fn law_email_continues(ws: Seq<WordView>, i: int, st: int, has_at: bool)
    requires
        0 <= st < i,
        i + 1 < ws.len(),
        ws[i].w.len() > 0,
        ws[i].w != "@"@,
        ({
            let c = ws[i].w[0];
            ('a' <= c && c <= 'z') || ('A' <= c && c <= 'Z') || ('0' <= c && c <= '9') || c == '-' || c == '.'
                || c == '_' || c == '+' || c == '%' || c == '=' || c == '~' || c == '\'' || c == '!' || c == '#'
        }),
    ensures
        email_scan(ws, i, Some(st), has_at) == email_scan(ws, i + 1, Some(st), has_at),
{
}

/// `Some(s)` as an integer.
pub open spec fn opt_int(o: Option<usize>) -> Option<int> {
    match o {
        Some(s) => Some(s as int),
        None => None,
    }
}

fn ascii_word(w: &Word) -> (r: bool)
    ensures
        r == (w.pos_of() == POSTAG::A_NX || (w.pos_of() == POSTAG::A_M && w.w@.len() > 0 && (w.w@[0] as u32) < 128)),
{
    if w.pos() == POSTAG::A_NX {
        return true;
    }
    if w.pos() != POSTAG::A_M {
        return false;
    }
    let cs = chars_of(w.w.as_str());
    cs.len() > 0 && crate::text::char_code(cs[0]) < 128
}

/// Merges the words of an e-mail address (ASCII words around an `@`) into one `URL` word.
pub struct EmailOptimizer;

impl EmailOptimizer {
    pub fn name(&self) -> (r: &'static str)
        ensures
            r@ == EMAIL_OPTIMIZER@,
    {
        EMAIL_OPTIMIZER
    }

    /// Merge e-mail addresses; the words still spell the text.
    pub fn do_optimize(&self, words: Vec<Word>, seg: &Segment) -> (r: Vec<Word>)
        ensures
            text_of(r@) == text_of(words@),
            views(r@) == email_scan(views(words@), 0, None, false),
    {
        let mut words = words;
        let ghost orig = words@;
        let mut i: usize = 0;
        let mut addr_start: Option<usize> = None;
        let mut has_at = false;
        while i < words.len() && 1 < words.len() - i
            invariant
                text_of(words@) == text_of(orig),
                i <= words@.len(),
                addr_start matches Some(s) ==> s < i,
                email_scan(views(orig), 0, None, false) == email_scan(views(words@), i as int, opt_int(addr_start), has_at),
            decreases words@.len() - i, (if has_at { 1int } else { 0int }),
        {
            let ghost vw = views(words@);
            proof {
                assert(vw[i as int] == words@[i as int]@);
                if i > 0 {
                    assert(vw[i - 1] == words@[i - 1]@);
                }
            }
            let is_ascii = ascii_word(&words[i]);
            if addr_start.is_none() && is_ascii {
                addr_start = Some(i);
                i += 1;
                continue;
            }
            if !has_at && str_eq(words[i].w.as_str(), "@") {
                has_at = true;
                i += 1;
                continue;
            }
            let in_email = starts_email(words[i].w.as_str());
            if has_at && i > 0 && !str_eq(words[i - 1].w.as_str(), "@") && !is_ascii && !in_email {
                match addr_start {
                    Some(start) => {
                        let mail = join_words(&words, start, i);
                        let ghost before = words@;
                        let merged = Word::from_string(mail).with_p(POSTAG::URL);
                        proof {
                            lemma_views_text(before.subrange(start as int, i as int));
                            assert(views(before.subrange(start as int, i as int)) =~= vw.subrange(start as int, i as int));
                            assert(merged@ == mail_view(view_text(vw.subrange(start as int, i as int))));
                        }
                        splice_token(&mut words, start, i - start, merged);
                        proof {
                            lemma_spliced_keeps(before, words@, start as int, i as int);
                            assert(views(words@) =~= vw.subrange(0, start as int) + seq![merged@] + vw.subrange(i as int, vw.len() as int));
                        }
                        i = start + 1;
                        addr_start = None;
                        has_at = false;
                        continue;
                    },
                    None => {},
                }
            }
            if addr_start.is_some() && (is_ascii || in_email) {
                i += 1;
                continue;
            }
            addr_start = None;
            has_at = false;
            i += 1;
        }
        let ghost vw = views(words@);
        match addr_start {
            Some(start) => {
                if has_at && words.len() > 0 {
                    let last = words.len() - 1;
                    let lw = &words[last];
                    proof {
                        assert(vw.last() == words@[last as int]@);
                    }
                    let is_ascii = lw.pos() == POSTAG::A_NX || (lw.pos() == POSTAG::A_M && char_count_is_one(lw.w.as_str()) && starts_email(lw.w.as_str()));
                    if is_ascii && start <= words.len() {
                        let n = words.len();
                        let mail = join_words(&words, start, n);
                        let ghost before = words@;
                        let merged = Word::from_string(mail).with_p(POSTAG::URL);
                        proof {
                            lemma_views_text(before.subrange(start as int, n as int));
                            assert(views(before.subrange(start as int, n as int)) =~= vw.subrange(start as int, n as int));
                        }
                        splice_token(&mut words, start, n - start, merged);
                        proof {
                            lemma_spliced_keeps(before, words@, start as int, n as int);
                            assert(views(words@) =~= vw.subrange(0, start as int) + seq![merged@]);
                        }
                    }
                }
            },
            None => {},
        }
        words
    }
}


/// The word has exactly one char.
fn char_count_is_one(w: &str) -> (r: bool)
    ensures
        r == (w@.len() == 1),
{
    chars_of(w).len() == 1
}

/// Merges a foreign word with the next word when the dictionary knows the pair.
pub struct ForeignOptimizer;

impl ForeignOptimizer {
    pub fn name(&self) -> (r: &'static str)
        ensures
            r@ == FOREIGN_OPTIMIZER@,
    {
        FOREIGN_OPTIMIZER
    }

    /// Merge known foreign pairs; the words still spell the text.
    pub fn do_optimize(&self, words: Vec<Word>, seg: &Segment) -> (r: Vec<Word>)
        ensures
            text_of(r@) == text_of(words@),
            views(r@) == foreign_merged(seg.table, views(words@)),
    {
        let mut words = words;
        let ghost orig = words@;
        let mut i: usize = 0;
        proof {
            assert(views(words@).subrange(0, 0) + views(words@).subrange(0, words@.len() as int) =~= views(orig));
        }
        while i < words.len() && 1 < words.len() - i
            invariant
                text_of(words@) == text_of(orig),
                i <= words@.len(),
                foreign_merged(seg.table, views(orig)) == views(words@).subrange(0, i as int) + foreign_merged(
                    seg.table,
                    views(words@).subrange(i as int, words@.len() as int),
                ),
            decreases words@.len() - i,
        {
            let ghost vw = views(words@);
            let ghost rest = vw.subrange(i as int, vw.len() as int);
            proof {
                assert(rest[0] == words@[i as int]@);
                assert(rest[1] == words@[i + 1]@);
                assert(rest.drop_first() =~= vw.subrange(i + 1, vw.len() as int));
                assert(vw.subrange(0, i + 1) =~= vw.subrange(0, i as int) + seq![rest[0]]);
            }
            if words[i].pos() != POSTAG::A_NX {
                i += 1;
                continue;
            }
            let nw = join_words(&words, i, i + 2);
            proof {
                lemma_text_of_two(words@.subrange(i as int, i + 2));
                assert(nw@ == rest[0].w + rest[1].w);
            }
            match seg.table.get(nw.as_str()) {
                Some(e) => {
                    let p = e.p;
                    let f = e.f;
                    let ghost before = words@;
                    splice_created(&mut words, i, 2, Word::from_string(nw).with_p(p).with_f(f), &seg.table);
                    proof {
                        lemma_spliced_keeps(before, words@, i as int, i + 2);
                        let m = pair_merged(seg.table, rest[0], rest[1]);
                        assert(before.subrange(i as int, i + 2) =~= seq![before[i as int], before[i + 1]]);
                        assert(views(before.subrange(i as int, i + 2)) =~= seq![rest[0], rest[1]]);
                        assert(words@[i as int]@ == m);
                        let rest2 = views(words@).subrange(i as int, words@.len() as int);
                        assert(rest2 =~= seq![m] + rest.subrange(2, rest.len() as int));
                        assert(views(words@).subrange(0, i as int) =~= vw.subrange(0, i as int));
                    }
                    continue;
                },
                None => {},
            }
            i += 1;
        }
        proof {
            let vw = views(words@);
            assert(vw.subrange(0, i as int) + vw.subrange(i as int, vw.len() as int) =~= vw);
        }
        words
    }
}

/// Two foreign words merged into the table's word they spell.
pub open spec fn pair_merged(table: TableDict, a: WordView, b: WordView) -> WordView {
    let nw = a.w + b.w;
    WordView {
        w: nw,
        p: Some(table.table@[nw].p),
        f: Some(table.table@[nw].f),
        c: None,
        s: None,
        ow: None,
        op: None,
        m: Some(seq![a, b]),
        auto_create: false,
        os: None,
    }
}

/// Left to right, a Latin word (`A_NX`) merges with the word after it while the two
/// spell a table word; the merged word may merge again.
pub open spec fn foreign_merged(table: TableDict, ws: Seq<WordView>) -> Seq<WordView>
    decreases ws.len(),
{
    if ws.len() < 2 {
        ws
    } else if view_pos(ws[0]) != POSTAG::A_NX || !table.table@.contains_key(ws[0].w + ws[1].w) {
        seq![ws[0]] + foreign_merged(table, ws.drop_first())
    } else {
        foreign_merged(table, seq![pair_merged(table, ws[0], ws[1])] + ws.subrange(2, ws.len() as int))
    }
}

/// The text of two words.
proof fn lemma_text_of_two(ws: Seq<Word>)
    requires
        ws.len() == 2,
    ensures
        text_of(ws) == ws[0].w@ + ws[1].w@,
{
    assert(ws.drop_last() =~= seq![ws[0]]);
    crate::word::lemma_text_of_single(ws[0]);
}

/// How many words at the start form (number, date/time unit) pairs.
pub open spec fn dt_run(lex: Lexicon, ws: Seq<WordView>) -> int
    decreases ws.len(),
{
    if ws.len() >= 2 && view_pos(ws[0]) & POSTAG::A_M != 0 && lex.datetime.table@.contains(ws[1].w) {
        2 + dt_run(lex, ws.subrange(2, ws.len() as int))
    } else {
        0
    }
}

/// The text of word views laid end to end.
pub open spec fn view_text(vs: Seq<WordView>) -> Seq<char>
    decreases vs.len(),
{
    if vs.len() == 0 {
        Seq::empty()
    } else {
        view_text(vs.drop_last()) + vs.last().w
    }
}

/// The words' views spell the words' text.
pub proof fn lemma_views_text(ws: Seq<Word>)
    ensures
        view_text(views(ws)) == text_of(ws),
    decreases ws.len(),
{
    if ws.len() > 0 {
        lemma_views_text(ws.drop_last());
        assert(views(ws).drop_last() =~= views(ws.drop_last()));
    }
}

/// A merged date/time word.
pub open spec fn plain_view_dt(w: Seq<char>) -> WordView {
    WordView {
        w,
        p: Some(POSTAG::D_T),
        f: None,
        c: None,
        s: None,
        ow: None,
        op: None,
        m: None,
        auto_create: false,
        os: None,
    }
}

/// Left to right, each run of (number, date/time unit) pairs becomes one `D_T` word.
pub open spec fn datetime_merged(lex: Lexicon, ws: Seq<WordView>) -> Seq<WordView>
    decreases ws.len(),
{
    if ws.len() < 2 {
        ws
    } else {
        let k = dt_run(lex, ws);
        if k >= 2 && k <= ws.len() {
            seq![plain_view_dt(view_text(ws.subrange(0, k)))] + datetime_merged(lex, ws.subrange(k, ws.len() as int))
        } else {
            seq![ws[0]] + datetime_merged(lex, ws.drop_first())
        }
    }
}

/// Words `j` and `j + 1` are a number and a date/time unit.
pub open spec fn dt_pair(lex: Lexicon, ws: Seq<WordView>, j: int) -> bool {
    0 <= j && j + 1 < ws.len() && view_pos(ws[j]) & POSTAG::A_M != 0 && lex.datetime.table@.contains(ws[j + 1].w)
}

proof fn lemma_dt_run_eq(lex: Lexicon, ws: Seq<WordView>, k: int)
    requires
        0 <= k <= ws.len(),
        k % 2 == 0,
        forall|j: int| 0 <= j < k && j % 2 == 0 ==> #[trigger] dt_pair(lex, ws, j),
        !dt_pair(lex, ws, k),
    ensures
        dt_run(lex, ws) == k,
    decreases k,
{
    if k == 0 {
        assert(!dt_pair(lex, ws, 0));
    } else {
        assert(dt_pair(lex, ws, 0));
        let t = ws.subrange(2, ws.len() as int);
        assert forall|j: int| 0 <= j < k - 2 && j % 2 == 0 implies #[trigger] dt_pair(lex, t, j) by {
            assert(dt_pair(lex, ws, j + 2));
            assert(t[j] == ws[j + 2] && t[j + 1] == ws[j + 3]);
        }
        if dt_pair(lex, t, k - 2) {
            assert(t[k - 2] == ws[k] && t[k - 1] == ws[k + 1]);
            assert(dt_pair(lex, ws, k));
        }
        lemma_dt_run_eq(lex, t, k - 2);
    }
}

/// A run of date pairs merges whole: when words `0 .. k` are (number, date/time unit)
/// pairs and no such pair follows, the first word of the result is one `D_T` word with
/// their text, and the rest is the result for the words after the run. In particular `n`
/// pairs in a row, and nothing else, give one word, for every `n`.
pub proof fn law_datetime_run(lex: Lexicon, ws: Seq<WordView>, k: int)
    requires
        2 <= k <= ws.len(),
        k % 2 == 0,
        forall|j: int| 0 <= j < k && j % 2 == 0 ==> #[trigger] dt_pair(lex, ws, j),
        !dt_pair(lex, ws, k),
    ensures
        datetime_merged(lex, ws).len() >= 1,
        datetime_merged(lex, ws)[0].w == view_text(ws.subrange(0, k)),
        view_pos(datetime_merged(lex, ws)[0]) == POSTAG::D_T,
        datetime_merged(lex, ws).subrange(1, datetime_merged(lex, ws).len() as int) == datetime_merged(
            lex,
            ws.subrange(k, ws.len() as int),
        ),
        k == ws.len() ==> datetime_merged(lex, ws).len() == 1,
{
    lemma_dt_run_eq(lex, ws, k);
    let r = datetime_merged(lex, ws);
    let rest = datetime_merged(lex, ws.subrange(k, ws.len() as int));
    assert(r == seq![plain_view_dt(view_text(ws.subrange(0, k)))] + rest);
    assert(r.subrange(1, r.len() as int) =~= rest);
    if k == ws.len() {
        assert(ws.subrange(k, ws.len() as int).len() == 0);
    }
}

/// Merges numbers followed by date/time units (repeatedly) into one `D_T` word.
pub struct DatetimeOptimizer;

impl DatetimeOptimizer {
    pub fn name(&self) -> (r: &'static str)
        ensures
            r@ == DATETIME_OPTIMIZER@,
    {
        DATETIME_OPTIMIZER
    }

    /// Merge dates and times; the words still spell the text.
    pub fn do_optimize(&self, words: Vec<Word>, seg: &Segment) -> (r: Vec<Word>)
        ensures
            text_of(r@) == text_of(words@),
            views(r@) == datetime_merged(seg.lexicon, views(words@)),
    {
        let mut words = words;
        let ghost orig = words@;
        let mut i: usize = 0;
        proof {
            assert(views(words@).subrange(0, 0) + views(words@).subrange(0, words@.len() as int) =~= views(orig));
        }
        while i < words.len() && 1 < words.len() - i
            invariant
                text_of(words@) == text_of(orig),
                i <= words@.len(),
                datetime_merged(seg.lexicon, views(orig)) == views(words@).subrange(0, i as int) + datetime_merged(
                    seg.lexicon,
                    views(words@).subrange(i as int, words@.len() as int),
                ),
            decreases words@.len() - i,
        {
            let ghost vw = views(words@);
            let ghost rest = vw.subrange(i as int, vw.len() as int);
            proof {
                assert(rest[0] == words@[i as int]@);
                assert(rest[1] == words@[i + 1]@);
                assert(rest.drop_first() =~= vw.subrange(i + 1, vw.len() as int));
                assert(vw.subrange(0, i + 1) =~= vw.subrange(0, i as int) + seq![rest[0]]);
            }
            if words[i].pos() & POSTAG::A_M != 0 && seg.lexicon.datetime.contains(words[i + 1].w.as_str()) {
                let mut len: usize = 2;
                proof {
                    assert(rest.subrange(2, rest.len() as int) == rest.subrange(len as int, rest.len() as int));
                }
                while len < words.len() - i - 1 && words[i + len].pos() & POSTAG::A_M != 0
                    && seg.lexicon.datetime.contains(words[i + len + 1].w.as_str())
                    invariant
                        i + len <= words@.len(),
                        i + 1 < words@.len(),
                        len >= 2,
                        vw == views(words@),
                        rest == vw.subrange(i as int, vw.len() as int),
                        dt_run(seg.lexicon, rest) == len + dt_run(seg.lexicon, rest.subrange(len as int, rest.len() as int)),
                    decreases words@.len() - len,
                {
                    proof {
                        let t = rest.subrange(len as int, rest.len() as int);
                        assert(t[0] == words@[i + len]@);
                        assert(t[1] == words@[i + len + 1]@);
                        assert(t.subrange(2, t.len() as int) =~= rest.subrange(len + 2, rest.len() as int));
                    }
                    len += 2;
                }
                proof {
                    let t = rest.subrange(len as int, rest.len() as int);
                    if t.len() >= 2 {
                        assert(t[0] == words@[i + len]@);
                        assert(t[1] == words@[i + len + 1]@);
                    }
                    assert(dt_run(seg.lexicon, t) == 0);
                }
                let nw = join_words(&words, i, i + len);
                let ghost before = words@;
                let merged = Word::from_string(nw).with_p(POSTAG::D_T);
                proof {
                    lemma_views_text(before.subrange(i as int, i + len));
                    assert(views(before.subrange(i as int, i + len)) =~= rest.subrange(0, len as int));
                    assert(merged@ == plain_view_dt(view_text(rest.subrange(0, len as int))));
                }
                splice_token(&mut words, i, len, merged);
                proof {
                    lemma_spliced_keeps(before, words@, i as int, i + len);
                    let m = merged@;
                    let rest2 = views(words@).subrange(i as int, words@.len() as int);
                    assert(rest2 =~= seq![m] + rest.subrange(len as int, rest.len() as int));
                    assert(views(words@).subrange(0, i as int) =~= vw.subrange(0, i as int));
                    assert(POSTAG::D_T & POSTAG::A_M == 0) by (bit_vector);
                    assert(view_pos(m) == POSTAG::D_T);
                    assert(dt_run(seg.lexicon, rest2) == 0);
                    assert(rest2.drop_first() =~= rest.subrange(len as int, rest.len() as int));
                    let tail = rest.subrange(len as int, rest.len() as int);
                    assert(dt_run(seg.lexicon, rest) == len as int);
                    assert(m == plain_view_dt(view_text(rest.subrange(0, len as int))));
                    assert(datetime_merged(seg.lexicon, rest) == seq![m] + datetime_merged(seg.lexicon, tail));
                    if rest2.len() >= 2 {
                        assert(datetime_merged(seg.lexicon, rest2) == seq![rest2[0]] + datetime_merged(seg.lexicon, rest2.drop_first()));
                    } else {
                        assert(tail.len() == 0);
                        assert(datetime_merged(seg.lexicon, tail) == tail);
                        assert(seq![m] + tail =~= rest2);
                    }
                    assert(datetime_merged(seg.lexicon, rest2) == seq![m] + datetime_merged(seg.lexicon, tail));
                }
                continue;
            }
            i += 1;
        }
        proof {
            let vw = views(words@);
            assert(vw.subrange(0, i as int) + vw.subrange(i as int, vw.len() as int) =~= vw);
        }
        words
    }
}

/// Nominal POS values.
pub open spec fn nominal(pos: u32) -> bool {
    pos == POSTAG::D_N || pos == POSTAG::A_NT || pos == POSTAG::A_NX || pos == POSTAG::A_NZ || pos
        == POSTAG::A_NR || pos == POSTAG::A_NS || pos == POSTAG::URL
}

pub fn is_nominal(pos: u32) -> (r: bool)
    ensures
        r == nominal(pos),
{
    pos == POSTAG::D_N || pos == POSTAG::A_NT || pos == POSTAG::A_NX || pos == POSTAG::A_NZ || pos
        == POSTAG::A_NR || pos == POSTAG::A_NS || pos == POSTAG::URL
}

/// The POS of a word view (0 when unset).
pub open spec fn view_pos(x: WordView) -> u32 {
    match x.p {
        Some(p) => p,
        None => 0,
    }
}

/// A word with `flags` added to its POS, the first POS it had remembered.
pub open spec fn with_pos_bits(x: WordView, flags: u32) -> WordView {
    WordView { p: Some(view_pos(x) | flags), op: if x.op is Some { x.op } else { x.p }, ..x }
}

/// Add `flags` to a word's POS, remembering the first POS it had.
fn add_pos(w: &mut Word, flags: u32)
    ensures
        final(w).w == old(w).w,
        final(w).p == Some(old(w).pos_of() | flags),
        final(w).op == (if old(w).op is Some { old(w).op } else { old(w).p }),
        final(w)@ == with_pos_bits(old(w)@, flags),
{
    if w.op.is_none() {
        w.op = w.p;
    }
    w.p = Some(w.pos() | flags);
}

/// A colour word retagged by what follows it: an adjective before a particle; an
/// adjective noun when it is a noun before a nominal word; `純`/`纯` an adjective before a
/// hair colour.
pub open spec fn adj_view(lex: Lexicon, x: WordView, next: WordView) -> WordView {
    let np = view_pos(next);
    let color = lex.color_all.table@.contains(x.w);
    let a = if np & POSTAG::D_U != 0 && color {
        with_pos_bits(x, POSTAG::D_A)
    } else {
        x
    };
    let b = if view_pos(a) & POSTAG::D_N != 0 && nominal(np) && color {
        with_pos_bits(a, POSTAG::D_A | POSTAG::D_N)
    } else {
        a
    };
    if (x.w == "純"@ || x.w == "纯"@) && lex.color_hair.table@.contains(next.w) {
        with_pos_bits(b, POSTAG::D_A)
    } else {
        b
    }
}

/// Every word but the last retagged by the word after it.
pub open spec fn adj_views(lex: Lexicon, ws: Seq<WordView>) -> Seq<WordView> {
    Seq::new(
        ws.len(),
        |k: int|
            if k + 1 < ws.len() {
                adj_view(lex, ws[k], ws[k + 1])
            } else {
                ws[k]
            },
    )
}

/// Marks colour words used as adjectives.
pub struct AdjectiveOptimizer;

impl AdjectiveOptimizer {
    pub fn name(&self) -> (r: &'static str)
        ensures
            r@ == ADJECTIVE_OPTIMIZER@,
    {
        ADJECTIVE_OPTIMIZER
    }

    /// Retag colour words before particles, nouns, or hair colours; only POS changes.
    pub fn do_optimize(&self, words: Vec<Word>, seg: &Segment) -> (r: Vec<Word>)
        ensures
            r@.len() == words@.len(),
            forall|k: int| 0 <= k < r@.len() ==> #[trigger] r@[k].w@ == words@[k].w@,
            text_of(r@) == text_of(words@),
            views(r@) == adj_views(seg.lexicon, views(words@)),
    {
        let mut words = words;
        let ghost orig = words@;
        let mut i: usize = 0;
        while i < words.len() && 1 < words.len() - i
            invariant
                words@.len() == orig.len(),
                forall|k: int| 0 <= k < words@.len() ==> #[trigger] words@[k].w@ == orig[k].w@,
                i <= words@.len(),
                words@.len() > 0 ==> i < words@.len(),
                forall|k: int| 0 <= k < i ==> #[trigger] words@[k]@ == adj_view(seg.lexicon, orig[k]@, orig[k + 1]@),
                forall|k: int| i <= k < words@.len() ==> #[trigger] words@[k] == orig[k],
            decreases words@.len() - i,
        {
            let next_p = words[i + 1].pos();
            let color = seg.lexicon.color_all.contains(words[i].w.as_str());
            let pure = str_eq(words[i].w.as_str(), "純") || str_eq(words[i].w.as_str(), "纯");
            let hair_next = seg.lexicon.color_hair.contains(words[i + 1].w.as_str());
            let mut w = clone_word(&words[i]);
            proof {
                assert(w.w@ == words@[i as int].w@);
            }
            if next_p & POSTAG::D_U != 0 && color {
                add_pos(&mut w, POSTAG::D_A);
            }
            if w.pos() & POSTAG::D_N != 0 && is_nominal(next_p) && color {
                add_pos(&mut w, POSTAG::D_A | POSTAG::D_N);
            }
            if pure && hair_next {
                add_pos(&mut w, POSTAG::D_A);
            }
            proof {
                assert(words@[i as int] == orig[i as int]);
                assert(words@[i + 1] == orig[i + 1]);
                assert(w@ == adj_view(seg.lexicon, orig[i as int]@, orig[i + 1]@));
            }
            let ghost before = words@;
            words.set(i, w);
            proof {
                assert forall|k: int| 0 <= k < words@.len() implies #[trigger] words@[k].w@ == orig[k].w@ by {
                    if k != i {
                        assert(words@[k] == before[k]);
                    }
                }
                assert forall|k: int| 0 <= k < i + 1 implies #[trigger] words@[k]@ == adj_view(seg.lexicon, orig[k]@, orig[k + 1]@) by {
                    if k < i {
                        assert(words@[k] == before[k]);
                    }
                }
                assert forall|k: int| i + 1 <= k < words@.len() implies #[trigger] words@[k] == orig[k] by {
                    assert(words@[k] == before[k]);
                }
            }
            i += 1;
        }
        proof {
            lemma_same_texts(words@, orig);
            assert forall|k: int| 0 <= k < views(words@).len() implies #[trigger] views(words@)[k] == adj_views(seg.lexicon, views(orig))[k] by {
                if k + 1 < orig.len() {
                    assert(views(orig)[k + 1] == orig[k + 1]@);
                } else {
                    assert(words@[k] == orig[k]);
                }
            }
            assert(views(words@) =~= adj_views(seg.lexicon, views(orig)));
        }
        words
    }
}

/// Lists with the same word texts have the same text.
proof fn lemma_same_texts(a: Seq<Word>, b: Seq<Word>)
    requires
        a.len() == b.len(),
        forall|k: int| 0 <= k < a.len() ==> #[trigger] a[k].w@ == b[k].w@,
    ensures
        text_of(a) == text_of(b),
    decreases a.len(),
{
    if a.len() > 0 {
        lemma_same_texts(a.drop_last(), b.drop_last());
        assert(a.last().w@ == b.last().w@);
    }
}

/// A given name: a single name that may repeat, doubled, or a double name.
pub open spec fn first_name(lex: Lexicon, w1: Seq<char>, w2: Seq<char>) -> bool {
    (lex.single_name_no_repeat.table@.contains(w1) && lex.single_name.table@.contains(w1) && w2
        == w1) || (lex.double_name_1.table@.contains(w1) && lex.double_name_2.table@.contains(w2))
}

pub fn is_first_name(lex: &Lexicon, w1: &str, w2: &str) -> (r: bool)
    ensures
        r == first_name(*lex, w1@, w2@),
{
    (lex.single_name_no_repeat.contains(w1) && lex.single_name.contains(w1) && str_eq(w2, w1)) || (
    lex.double_name_1.contains(w1) && lex.double_name_2.contains(w2))
}

/// A merged name may stand when the dictionary lacks it or knows it as a name (or
/// without POS).
fn name_ok(table: &TableDict, nw: &str) -> (r: bool)
    ensures
        r == (!table.table@.contains_key(nw@) || table.table@[nw@].p == 0 || table.table@[nw@].p
            & POSTAG::A_NR != 0),
{
    match table.get(nw) {
        Some(e) => e.p == 0 || e.p & POSTAG::A_NR != 0,
        None => true,
    }
}

/// The texts of word views.
pub open spec fn view_texts(vs: Seq<WordView>) -> Seq<Seq<char>> {
    vs.map_values(|v: WordView| v.w)
}

/// A table entry does not stop a merged name: the table lacks the text, knows it without
/// POS, or knows it as a name.
pub open spec fn name_ok_view(table: TableDict, t: Seq<char>) -> bool {
    !table.table@.contains_key(t) || table.table@[t].p == 0 || table.table@[t].p & POSTAG::A_NR != 0
}

/// A family name (one or two characters).
pub open spec fn family_view(lex: Lexicon, t: Seq<char>) -> bool {
    lex.family_name_1.table@.contains(t) || lex.family_name_2.table@.contains(t)
}

/// A merged word: the words' text with POS `p` and weight `f`, marked created when the
/// table lacks it, with the words' texts as its parts.
pub open spec fn merged_view(table: TableDict, parts: Seq<WordView>, p: u32, f: Option<u64>) -> WordView {
    let t = view_text(parts);
    WordView {
        w: t,
        p: Some(p),
        f,
        c: None,
        s: None,
        ow: None,
        op: None,
        m: Some(parts),
        auto_create: !table.table@.contains_key(t),
        os: None,
    }
}

/// Words `i .. end` replaced by one merged word with POS `p` and weight `f`.
pub open spec fn merge_at(table: TableDict, ws: Seq<WordView>, i: int, end: int, p: u32, f: Option<u64>) -> Seq<WordView> {
    ws.subrange(0, i) + seq![merged_view(table, ws.subrange(i, end), p, f)] + ws.subrange(end, ws.len() as int)
}

/// Words `i .. end` replaced by one merged name (`A_NR`).
pub open spec fn name_merge(table: TableDict, ws: Seq<WordView>, i: int, end: int) -> Seq<WordView> {
    merge_at(table, ws, i, end, POSTAG::A_NR, None)
}

/// The first name pass from word `i`, over the pair `w n1` (and the word `n2` after it),
/// skipping a pair that is blacklisted or that the table knows with another POS:
/// a family name with a given name of at most two chars, not a preposition, merges the
/// three (unless blacklisted); `小`/`老` merges with a family name; a family name merges
/// with a name word of at most two UTF-16 units; an untagged given name merges, and then
/// with a family name before it (unless blacklisted); a family name merges with an
/// untagged word when neither is punctuation.
pub open spec fn name_scan(lex: Lexicon, table: TableDict, black: Set<Seq<char>>, ws: Seq<WordView>, i: int) -> Seq<WordView>
    decreases ws.len() + 1 - i,
{
    if !(0 <= i && i + 1 < ws.len()) {
        ws
    } else {
        let w = ws[i].w;
        let n1 = ws[i + 1].w;
        let nw = w + n1;
        let falsy = view_pos(ws[i]) == 0 || view_pos(ws[i + 1]) == 0;
        if black.contains(nw) || !name_ok_view(table, nw) {
            name_scan(lex, table, black, ws, i + 1)
        } else if i + 2 < ws.len() && ws[i + 2].w.len() <= 2 && w != "于"@ && view_pos(ws[i + 2]) & POSTAG::D_P == 0
            && family_view(lex, w) && first_name(lex, n1, ws[i + 2].w) && !black.contains(nw + ws[i + 2].w) {
            name_scan(lex, table, black, name_merge(table, ws, i, i + 3), i + 2)
        } else if (w == "小"@ || w == "老"@) && family_view(lex, n1) {
            name_scan(lex, table, black, name_merge(table, ws, i, i + 2), i + 1)
        } else if family_view(lex, w) && view_pos(ws[i + 1]) & POSTAG::A_NR != 0 && u16_len(n1) <= 2 {
            name_scan(lex, table, black, name_merge(table, ws, i, i + 2), i + 1)
        } else if falsy && first_name(lex, w, n1) {
            let m = name_merge(table, ws, i, i + 2);
            if i > 0 && m[i - 1].w.len() > 0 && family_view(lex, m[i - 1].w) && !black.contains(m[i - 1].w + nw) {
                name_scan(lex, table, black, name_merge(table, m, i - 1, i + 1), i)
            } else {
                name_scan(lex, table, black, m, i + 1)
            }
        } else if family_view(lex, w) && falsy && view_pos(ws[i]) & POSTAG::D_W == 0 && view_pos(ws[i + 1]) & POSTAG::D_W
            == 0 {
            name_scan(lex, table, black, name_merge(table, ws, i, i + 2), i + 1)
        } else {
            name_scan(lex, table, black, ws, i + 1)
        }
    }
}

/// The second name pass from word `i`: a family name merges with a single given name
/// when the pair is not blacklisted and the table does not know it with another POS.
pub open spec fn single_name_scan(lex: Lexicon, table: TableDict, black: Set<Seq<char>>, ws: Seq<WordView>, i: int) -> Seq<WordView>
    decreases ws.len() + 1 - i,
{
    if !(0 <= i && i + 1 < ws.len()) {
        ws
    } else {
        let nw = ws[i].w + ws[i + 1].w;
        if !black.contains(nw) && family_view(lex, ws[i].w) && lex.single_name.table@.contains(ws[i + 1].w)
            && name_ok_view(table, nw) {
            single_name_scan(lex, table, black, name_merge(table, ws, i, i + 2), i + 1)
        } else {
            single_name_scan(lex, table, black, ws, i + 1)
        }
    }
}

/// Merge words `i .. end`, whose text is `text`, into one word with POS `p` and weight `f`.
pub(crate) fn merge_words(words: &mut Vec<Word>, i: usize, end: usize, text: String, p: u32, f: Option<u64>, table: &TableDict)
    requires
        i < end <= old(words)@.len(),
        text@ == text_of(old(words)@.subrange(i as int, end as int)),
    ensures
        views(final(words)@) == merge_at(*table, views(old(words)@), i as int, end as int, p, f),
        text_of(final(words)@) == text_of(old(words)@),
        final(words)@.len() == old(words)@.len() - (end - i) + 1,
        final(words)@[i as int].w@ == text@,
        final(words)@[i as int].ow is None,
        final(words)@ == spliced(old(words)@, i as int, end as int, final(words)@[i as int]),
{
    let ghost before = words@;
    let mut nw = Word::from_string(text).with_p(p);
    nw.f = f;
    splice_created(words, i, end - i, nw, table);
    proof {
        lemma_spliced_keeps(before, words@, i as int, end as int);
        let sub = before.subrange(i as int, end as int);
        lemma_views_text(sub);
        assert(views(sub) =~= views(before).subrange(i as int, end as int));
        assert(words@[i as int]@ == merged_view(*table, views(before).subrange(i as int, end as int), p, f));
        assert(views(words@) =~= merge_at(*table, views(before), i as int, end as int, p, f));
    }
}

/// Merge words `i .. end`, whose text is `text`, into one `A_NR` word.
fn merge_name(words: &mut Vec<Word>, i: usize, end: usize, text: String, table: &TableDict)
    requires
        i < end <= old(words)@.len(),
        text@ == text_of(old(words)@.subrange(i as int, end as int)),
    ensures
        views(final(words)@) == name_merge(*table, views(old(words)@), i as int, end as int),
        text_of(final(words)@) == text_of(old(words)@),
        final(words)@.len() == old(words)@.len() - (end - i) + 1,
        final(words)@[i as int].w@ == text@,
{
    merge_words(words, i, end, text, POSTAG::A_NR, None, table);
}

/// Merges family names with given names (and `小`/`老` with family names) into `A_NR` words.
pub struct ChsNameOptimizer;

/// Merging words `i .. end` keeps the words before `i`, puts one word with their text and
/// POS `A_NR` at `i`, and moves the words after `end` up.
proof fn lemma_name_merge_shape(table: TableDict, ws: Seq<WordView>, i: int, end: int)
    requires
        0 <= i < end <= ws.len(),
    ensures
        name_merge(table, ws, i, end).len() == ws.len() - (end - i) + 1,
        name_merge(table, ws, i, end).subrange(0, i) == ws.subrange(0, i),
        name_merge(table, ws, i, end)[i].w == view_text(ws.subrange(i, end)),
        view_pos(name_merge(table, ws, i, end)[i]) == POSTAG::A_NR,
        name_merge(table, ws, i, end).subrange(i + 1, name_merge(table, ws, i, end).len() as int) == ws.subrange(
            end,
            ws.len() as int,
        ),
{
    let m = name_merge(table, ws, i, end);
    assert(m[i] == merged_view(table, ws.subrange(i, end), POSTAG::A_NR, None));
    assert(m.subrange(0, i) =~= ws.subrange(0, i));
    assert(m.subrange(i + 1, m.len() as int) =~= ws.subrange(end, ws.len() as int));
}

/// The first name pass from word `j` leaves the words before `j - 1` alone, and word
/// `j - 1` too unless it is a family name (which a name right after it may join).
proof fn lemma_name_scan_prefix(lex: Lexicon, table: TableDict, black: Set<Seq<char>>, ws: Seq<WordView>, j: int)
    requires
        0 <= j,
    ensures
        name_scan(lex, table, black, ws, j).len() >= (if j - 1 < ws.len() {
            j - 1
        } else {
            ws.len() as int
        }),
        forall|k: int|
            0 <= k < j - 1 && k < ws.len() ==> #[trigger] name_scan(lex, table, black, ws, j)[k] == ws[k],
        1 <= j <= ws.len() && !family_view(lex, ws[j - 1].w) ==> j - 1 < name_scan(lex, table, black, ws, j).len()
            && name_scan(lex, table, black, ws, j)[j - 1] == ws[j - 1],
    decreases ws.len() + 1 - j,
{
    let r = name_scan(lex, table, black, ws, j);
    if j + 1 < ws.len() {
        let i = j;
        let w = ws[i].w;
        let n1 = ws[i + 1].w;
        let nw = w + n1;
        let falsy = view_pos(ws[i]) == 0 || view_pos(ws[i + 1]) == 0;
        // The list and index the pass goes on with.
        let mut nx = ws;
        let mut nj = i + 1;
        if black.contains(nw) || !name_ok_view(table, nw) {
        } else if i + 2 < ws.len() && ws[i + 2].w.len() <= 2 && w != "于"@ && view_pos(ws[i + 2]) & POSTAG::D_P == 0
            && family_view(lex, w) && first_name(lex, n1, ws[i + 2].w) && !black.contains(nw + ws[i + 2].w) {
            nx = name_merge(table, ws, i, i + 3);
            nj = i + 2;
            lemma_name_merge_shape(table, ws, i, i + 3);
        } else if (w == "小"@ || w == "老"@) && family_view(lex, n1) {
            nx = name_merge(table, ws, i, i + 2);
            lemma_name_merge_shape(table, ws, i, i + 2);
        } else if family_view(lex, w) && view_pos(ws[i + 1]) & POSTAG::A_NR != 0 && u16_len(n1) <= 2 {
            nx = name_merge(table, ws, i, i + 2);
            lemma_name_merge_shape(table, ws, i, i + 2);
        } else if falsy && first_name(lex, w, n1) {
            let m = name_merge(table, ws, i, i + 2);
            lemma_name_merge_shape(table, ws, i, i + 2);
            assert forall|k: int| 0 <= k < i implies m[k] == ws[k] by {
                assert(m.subrange(0, i)[k] == ws.subrange(0, i)[k]);
            }
            if i > 0 && m[i - 1].w.len() > 0 && family_view(lex, m[i - 1].w) && !black.contains(m[i - 1].w + nw) {
                nx = name_merge(table, m, i - 1, i + 1);
                nj = i;
                lemma_name_merge_shape(table, m, i - 1, i + 1);
                assert forall|k: int| 0 <= k < i - 1 implies nx[k] == m[k] by {
                    assert(nx.subrange(0, i - 1)[k] == m.subrange(0, i - 1)[k]);
                }
            } else {
                nx = m;
            }
        } else if family_view(lex, w) && falsy && view_pos(ws[i]) & POSTAG::D_W == 0 && view_pos(ws[i + 1]) & POSTAG::D_W
            == 0 {
            nx = name_merge(table, ws, i, i + 2);
            lemma_name_merge_shape(table, ws, i, i + 2);
        }
        assert(r == name_scan(lex, table, black, nx, nj));
        assert(nj >= i);
        assert(nj == i ==> family_view(lex, ws[i - 1].w));
        assert forall|k: int| 0 <= k < i && (nj == i ==> k < i - 1) implies k < nx.len() && nx[k] == ws[k] by {
            if nx != ws && nj != i {
                assert(nx.subrange(0, i)[k] == ws.subrange(0, i)[k]);
            }
        }
        lemma_name_scan_prefix(lex, table, black, nx, nj);
        assert(nx.len() >= j - 1);
        assert forall|k: int| 0 <= k < j - 1 && k < ws.len() implies #[trigger] name_scan(lex, table, black, ws, j)[k]
            == ws[k] by {
            assert(k < nj - 1);
            assert(k < nx.len() && nx[k] == ws[k]);
            assert(name_scan(lex, table, black, nx, nj)[k] == nx[k]);
        }
        if 1 <= j && !family_view(lex, ws[j - 1].w) {
            assert(nj >= i + 1);
            assert(nx[j - 1] == ws[j - 1]);
            assert(name_scan(lex, table, black, nx, nj)[j - 1] == nx[j - 1]);
        }
    } else {
        assert(r == ws);
    }
}

/// A family name followed by a word tagged as a person's name of at most two UTF-16 units
/// (the pair not blacklisted, not known to the table with another POS, and no three-char
/// name starting there) become one `A_NR` word with their text: the pass goes on from the
/// word after it over the list with the pair replaced by that word, the words before stay,
/// and the merged word stays in the result unless it is itself a family name.
pub proof fn law_family_name_merge(lex: Lexicon, table: TableDict, black: Set<Seq<char>>, ws: Seq<WordView>, i: int)
    requires
        0 <= i,
        i + 1 < ws.len(),
        family_view(lex, ws[i].w),
        view_pos(ws[i + 1]) & POSTAG::A_NR != 0,
        u16_len(ws[i + 1].w) <= 2,
        !black.contains(ws[i].w + ws[i + 1].w),
        name_ok_view(table, ws[i].w + ws[i + 1].w),
        !(i + 2 < ws.len() && ws[i + 2].w.len() <= 2 && ws[i].w != "于"@ && view_pos(ws[i + 2]) & POSTAG::D_P == 0
            && first_name(lex, ws[i + 1].w, ws[i + 2].w) && !black.contains(ws[i].w + ws[i + 1].w + ws[i + 2].w)),
    ensures
        exists|ws2: Seq<WordView>|
            {
                &&& ws2.len() + 1 == ws.len()
                &&& ws2.subrange(0, i) == ws.subrange(0, i)
                &&& ws2[i].w == ws[i].w + ws[i + 1].w
                &&& view_pos(ws2[i]) == POSTAG::A_NR
                &&& ws2.subrange(i + 1, ws2.len() as int) == ws.subrange(i + 2, ws.len() as int)
                &&& #[trigger] name_scan(lex, table, black, ws2, i + 1) == name_scan(lex, table, black, ws, i)
            },
        i <= name_scan(lex, table, black, ws, i).len(),
        forall|k: int| 0 <= k < i ==> #[trigger] name_scan(lex, table, black, ws, i)[k] == ws[k],
        !family_view(lex, ws[i].w + ws[i + 1].w) ==> ({
            let r = name_scan(lex, table, black, ws, i);
            &&& i < r.len()
            &&& r[i].w == ws[i].w + ws[i + 1].w
            &&& view_pos(r[i]) == POSTAG::A_NR
        }),
{
    let m = name_merge(table, ws, i, i + 2);
    lemma_name_merge_shape(table, ws, i, i + 2);
    assert(ws.subrange(i, i + 2) =~= seq![ws[i], ws[i + 1]]);
    let a1 = seq![ws[i]];
    assert(view_text(a1) == ws[i].w) by {
        assert(a1.len() == 1);
        assert(a1.last() == ws[i]);
        assert(a1.drop_last() =~= Seq::<WordView>::empty());
        assert(view_text(a1.drop_last()) == Seq::<char>::empty());
        assert(Seq::<char>::empty() + ws[i].w =~= ws[i].w);
    }
    assert(view_text(seq![ws[i], ws[i + 1]]) == ws[i].w + ws[i + 1].w) by {
        assert(seq![ws[i], ws[i + 1]].drop_last() =~= seq![ws[i]]);
    }
    assert(name_scan(lex, table, black, ws, i) == name_scan(lex, table, black, m, i + 1));
    lemma_name_scan_prefix(lex, table, black, m, i + 1);
    assert forall|k: int| 0 <= k < i implies #[trigger] name_scan(lex, table, black, ws, i)[k] == ws[k] by {
        assert(m.subrange(0, i)[k] == ws.subrange(0, i)[k]);
        assert(name_scan(lex, table, black, m, i + 1)[k] == m[k]);
    }
}

impl ChsNameOptimizer {
    pub fn name(&self) -> (r: &'static str)
        ensures
            r@ == CHS_NAME_OPTIMIZER@,
    {
        CHS_NAME_OPTIMIZER
    }

    /// Merge names in two passes; the words still spell the text.
    pub fn do_optimize(&self, words: Vec<Word>, seg: &Segment) -> (r: Vec<Word>)
        requires
            seg.wf(),
        ensures
            text_of(r@) == text_of(words@),
            views(r@) == single_name_scan(
                seg.lexicon,
                seg.table,
                seg.blacklist_optimizer.table@,
                name_scan(seg.lexicon, seg.table, seg.blacklist_optimizer.table@, views(words@), 0),
                0,
            ),
    {
        let mut words = words;
        let ghost orig = words@;
        let lex = &seg.lexicon;
        let table = &seg.table;
        let black = &seg.blacklist_optimizer;
        let ghost bl = black.table@;
        let mut i: usize = 0;
        while i < words.len() && 1 < words.len() - i
            invariant
                text_of(words@) == text_of(orig),
                i <= words@.len() + 1,
                name_scan(*lex, *table, bl, views(orig), 0) == name_scan(*lex, *table, bl, views(words@), i as int),
                bl == black.table@,
            decreases words@.len() + 1 - i,
        {
            let ghost vw = views(words@);
            proof {
                assert(vw[i as int] == words@[i as int]@);
                assert(vw[i + 1] == words@[i + 1]@);
                if i + 2 < words@.len() {
                    assert(vw[i + 2] == words@[i + 2]@);
                }
            }
            let w = to_owned_string(words[i].w.as_str());
            let n1 = to_owned_string(words[i + 1].w.as_str());
            let nw = join_words(&words, i, i + 2);
            proof {
                lemma_text_of_two(words@.subrange(i as int, i + 2));
            }
            if black.contains(nw.as_str()) {
                i += 1;
                continue;
            }
            if !name_ok(table, nw.as_str()) {
                i += 1;
                continue;
            }
            if 2 < words.len() - i {
                let n2 = words[i + 2].w.as_str();
                let three = join_words(&words, i, i + 3);
                proof {
                    let s3 = words@.subrange(i as int, i + 3);
                    assert(s3.drop_last() =~= words@.subrange(i as int, i + 2));
                }
                if chars_of(n2).len() <= 2 && !str_eq(w.as_str(), "于") && words[i + 2].pos() & POSTAG::D_P == 0
                    && lex.is_family_name(w.as_str()) && is_first_name(lex, n1.as_str(), n2) && !black.contains(
                    three.as_str(),
                ) {
                    merge_name(&mut words, i, i + 3, three, table);
                    i += 2;
                    continue;
                }
            }
            if (str_eq(w.as_str(), "小") || str_eq(w.as_str(), "老")) && lex.is_family_name(n1.as_str()) {
                merge_name(&mut words, i, i + 2, nw, table);
                i += 1;
                continue;
            }
            if lex.is_family_name(w.as_str()) && words[i + 1].pos() & POSTAG::A_NR != 0 && char_len(n1.as_str()) <= 2 {
                merge_name(&mut words, i, i + 2, nw, table);
                i += 1;
                continue;
            }
            if words[i].pos_falsy() || words[i + 1].pos_falsy() {
                if is_first_name(lex, w.as_str(), n1.as_str()) {
                    let ghost nws = nw@;
                    merge_name(&mut words, i, i + 2, nw, table);
                    if i > 0 {
                        let ghost m = views(words@);
                        proof {
                            assert(m[i - 1] == words@[i - 1]@);
                        }
                        let pre = words[i - 1].w.as_str();
                        let three = join_words(&words, i - 1, i + 1);
                        proof {
                            lemma_text_of_two(words@.subrange(i - 1, i + 1));
                        }
                        if !pre.is_empty() && lex.is_family_name(pre) && !black.contains(three.as_str()) {
                            merge_name(&mut words, i - 1, i + 1, three, table);
                            continue;
                        }
                    }
                    i += 1;
                    continue;
                }
            }
            if lex.is_family_name(w.as_str()) && (words[i].pos_falsy() || words[i + 1].pos_falsy())
                && words[i].pos() & POSTAG::D_W == 0 && words[i + 1].pos() & POSTAG::D_W == 0 {
                merge_name(&mut words, i, i + 2, nw, table);
            }
            i += 1;
        }
        let ghost mid = views(words@);
        proof {
            assert(name_scan(*lex, *table, bl, views(words@), i as int) == views(words@));
        }
        i = 0;
        while i < words.len() && 1 < words.len() - i
            invariant
                text_of(words@) == text_of(orig),
                i <= words@.len() + 1,
                single_name_scan(*lex, *table, bl, mid, 0) == single_name_scan(*lex, *table, bl, views(words@), i as int),
                bl == black.table@,
            decreases words@.len() + 1 - i,
        {
            let ghost vw = views(words@);
            proof {
                assert(vw[i as int] == words@[i as int]@);
                assert(vw[i + 1] == words@[i + 1]@);
            }
            let nw = join_words(&words, i, i + 2);
            proof {
                lemma_text_of_two(words@.subrange(i as int, i + 2));
            }
            if black.contains(nw.as_str()) {
                i += 1;
                continue;
            }
            if lex.is_family_name(words[i].w.as_str()) && lex.single_name.contains(words[i + 1].w.as_str()) {
                if name_ok(table, nw.as_str()) {
                    merge_name(&mut words, i, i + 2, nw, table);
                    i += 1;
                    continue;
                }
            }
            i += 1;
        }
        words
    }
}

/// Two neighbours the dictionary knows together may merge: same POS, a shared POS bit, a
/// tagged word before an untagged one, or an adverb before a verb when the pair is one of
/// them.
pub open spec fn mergeable(w1: WordView, w2: WordView, cache: Option<crate::dict::DictEntry>) -> bool {
    if cache is None {
        false
    } else if w1.p == w2.p {
        true
    } else if view_pos(w1) & view_pos(w2) != 0 {
        true
    } else if w1.p is Some && view_pos(w1) != 0 && w2.p is None {
        true
    } else if view_pos(w1) & POSTAG::D_D != 0 && view_pos(w2) & POSTAG::D_V != 0 {
        cache->0.p & POSTAG::D_D != 0 || cache->0.p & POSTAG::D_V != 0
    } else {
        false
    }
}

pub fn is_mergeable(w1: &Word, w2: &Word, cache: Option<crate::dict::DictEntry>) -> (r: bool)
    ensures
        r == mergeable(w1@, w2@, cache),
{
    match cache {
        None => false,
        Some(mw) => {
            if w1.p == w2.p {
                return true;
            }
            if w1.pos() & w2.pos() != 0 {
                return true;
            }
            if w1.p.is_some() && w1.pos() != 0 && w2.p.is_none() {
                return true;
            }
            if w1.pos() & POSTAG::D_D != 0 && w2.pos() & POSTAG::D_V != 0 {
                return mw.p & POSTAG::D_D != 0 || mw.p & POSTAG::D_V != 0;
            }
            false
        },
    }
}

/// POS of a merged quantity: the known pair's POS with `D_MQ`, or `p` with the time, noun
/// and verb bits of `p2`.
pub open spec fn how_many_pos(p: u32, p2: u32, p3: Option<u32>) -> u32 {
    match p3 {
        Some(x) => x | POSTAG::D_MQ,
        None => {
            let a = if p2 & POSTAG::D_T != 0 {
                p | POSTAG::D_T
            } else {
                p
            };
            let b = if p2 & POSTAG::D_N != 0 {
                a | POSTAG::D_N
            } else {
                a
            };
            if p2 & POSTAG::D_V != 0 {
                b | POSTAG::D_V
            } else {
                b
            }
        },
    }
}

pub fn merge_how_many(p: u32, p2: u32, p3: Option<u32>) -> (r: u32)
    ensures
        r == how_many_pos(p, p2, p3),
{
    let mut p = p;
    match p3 {
        Some(x) => {
            p = x | POSTAG::D_MQ;
        },
        None => {
            if p2 & POSTAG::D_T != 0 {
                p = p | POSTAG::D_T;
            }
            if p2 & POSTAG::D_N != 0 {
                p = p | POSTAG::D_N;
            }
            if p2 & POSTAG::D_V != 0 {
                p = p | POSTAG::D_V;
            }
        },
    }
    p
}

/// `pattern` compiles and matches `text`.
fn re_match(pattern: &str, text: &str) -> (r: bool)
    ensures
        r == (crate::re::spec_regex_valid(pattern@) && crate::re::spec_regex_matches(pattern@, text@).len() > 0),
{
    regex_valid(pattern) && regex_is_match(pattern, text)
}

fn entry_pos(e: Option<crate::dict::DictEntry>) -> (r: Option<u32>)
    ensures
        r == (match e {
            Some(x) => Some(x.p),
            None => None::<u32>,
        }),
{
    match e {
        Some(x) => Some(x.p),
        None => None,
    }
}

/// Text of two neighbours is the join of their texts.
pub proof fn lemma_join_two(ws: Seq<Word>, i: int)
    requires
        0 <= i,
        i + 2 <= ws.len(),
    ensures
        text_of(ws.subrange(i, i + 2)) == ws[i].w@ + ws[i + 1].w@,
{
    assert(ws.subrange(i, i + 2) =~= seq![ws[i]].push(ws[i + 1]));
    lemma_text_of_push(seq![ws[i]], ws[i + 1]);
    crate::word::lemma_text_of_single(ws[i]);
}

/// `pattern` compiles and matches `t`.
pub open spec fn re_hit(pattern: Seq<char>, t: Seq<char>) -> bool {
    crate::re::spec_regex_valid(pattern) && crate::re::spec_regex_matches(pattern, t).len() > 0
}

/// How many words at the start are numbers (`A_M`).
pub open spec fn num_run(ws: Seq<WordView>) -> int
    decreases ws.len(),
{
    if ws.len() > 0 && view_pos(ws[0]) & POSTAG::A_M != 0 {
        1 + num_run(ws.drop_first())
    } else {
        0
    }
}

/// A run of numbers is no longer than the list.
pub proof fn lemma_num_run_len(ws: Seq<WordView>)
    ensures
        0 <= num_run(ws) <= ws.len(),
    decreases ws.len(),
{
    if ws.len() > 0 {
        lemma_num_run_len(ws.drop_first());
    }
}

/// The table entry of `t`, if any.
pub open spec fn entry_of(table: TableDict, t: Seq<char>) -> Option<crate::dict::DictEntry> {
    if table.table@.contains_key(t) {
        Some(table.table@[t])
    } else {
        None
    }
}

/// The POS of an entry, if any.
pub open spec fn entry_pos_of(e: Option<crate::dict::DictEntry>) -> Option<u32> {
    match e {
        Some(x) => Some(x.p),
        None => None,
    }
}

/// One dictionary pass from word `i` over neighbours `a b` (pair text `nw`, table entry
/// `e`); each merge is tried again at the same place, in this order:
/// an adjective (not `了`) and a particle merge unless the table knows the pair as
/// something other than an adjective (taking the entry's POS and weight, else `D_A`, with
/// `BAD` kept); an adjective and a noun merge when the table knows the pair as a noun;
/// mergeable known pairs take the entry's POS and weight; a number merges with a number
/// (not `第…`) or `%`/`％` (`A_M`), with a quantity word (`D_MQ`), or with a decimal
/// separator and the number after it (`A_M`; `,` only between digit runs); a
/// how-many word merges with a quantity word; `数/几/第` + number + quantity merge when the
/// table does not know the three with a POS; a quantity ending in `点`/`點` takes the
/// numbers after it (`D_MQ`); two direction words merge (`D_F` with the entry's POS).
pub open spec fn dict_scan(table: TableDict, ws: Seq<WordView>, i: int) -> Seq<WordView>
    decreases ws.len(), ws.len() - i,
{
    if !(0 <= i && i + 1 < ws.len()) {
        ws
    } else {
        let a = ws[i];
        let b = ws[i + 1];
        let nw = a.w + b.w;
        let cache = entry_of(table, nw);
        let known = cache is Some;
        let e = table.table@[nw];
        let pa = view_pos(a);
        let pb = view_pos(b);
        let third = i + 2 < ws.len();
        let pc = view_pos(ws[i + 2]);
        if a.w != "了"@ && pa & POSTAG::D_A != 0 && pb & POSTAG::D_U != 0 && (!known || e.p & POSTAG::D_A != 0) {
            let p = if known {
                e.p
            } else if pa & POSTAG::BAD != 0 {
                POSTAG::D_A | POSTAG::BAD
            } else {
                POSTAG::D_A
            };
            let f = if known {
                Some(e.f)
            } else {
                None
            };
            dict_scan(table, merge_at(table, ws, i, i + 2, p, f), i)
        } else if pa & POSTAG::D_A != 0 && pb & POSTAG::D_N != 0 && known && e.p & POSTAG::D_N != 0 {
            dict_scan(table, merge_at(table, ws, i, i + 2, e.p, Some(e.f)), i)
        } else if mergeable(a, b, cache) {
            dict_scan(table, merge_at(table, ws, i, i + 2, e.p, Some(e.f)), i)
        } else if pa & POSTAG::A_M != 0 && ((pb & POSTAG::A_M != 0 && !has_prefix(b.w, "第"@)) || b.w == "%"@ || b.w
            == "％"@) {
            dict_scan(table, merge_at(table, ws, i, i + 2, POSTAG::A_M, None), i)
        } else if pa & POSTAG::A_M != 0 && pb & POSTAG::A_Q != 0 {
            dict_scan(table, merge_at(table, ws, i, i + 2, how_many_pos(POSTAG::D_MQ, pb, entry_pos_of(cache)), None), i)
        } else if pa & POSTAG::A_M != 0 && third && pc & POSTAG::A_M != 0 && (b.w == "."@ || b.w == "点"@ || b.w
            == "點"@ || b.w == "分之"@) {
            dict_scan(table, merge_at(table, ws, i, i + 3, POSTAG::A_M, None), i)
        } else if pa & POSTAG::A_M != 0 && third && pc & POSTAG::A_M != 0 && b.w == ","@ && re_hit(RE_INT_DIGITS@, a.w)
            && re_hit(RE_DECIMAL@, ws[i + 2].w) {
            dict_scan(table, merge_at(table, ws, i, i + 3, POSTAG::A_M, None), i)
        } else if re_hit(RE_HOW_MANY@, a.w) && pb & POSTAG::A_Q != 0 {
            dict_scan(table, merge_at(table, ws, i, i + 2, how_many_pos(POSTAG::D_MQ, pb, entry_pos_of(cache)), None), i)
        } else if re_hit(RE_JI@, a.w) && pb & POSTAG::A_M != 0 && third && pc & POSTAG::A_Q != 0 && (entry_of(
            table,
            nw + ws[i + 2].w,
        ) is None || table.table@[nw + ws[i + 2].w].p == 0) {
            dict_scan(
                table,
                merge_at(table, ws, i, i + 3, how_many_pos(POSTAG::D_MQ, pc, entry_pos_of(entry_of(table, nw + ws[i + 2].w))), None),
                i,
            )
        } else if pa & POSTAG::D_MQ != 0 && (has_suffix(a.w, "點"@) || has_suffix(a.w, "点"@)) && pb & POSTAG::A_M != 0 {
            let k = 2 + num_run(ws.subrange(i + 2, ws.len() as int));
            proof {
                lemma_num_run_len(ws.subrange(i + 2, ws.len() as int));
            }
            dict_scan(table, merge_at(table, ws, i, i + k, POSTAG::D_MQ, None), i)
        } else if re_hit(RE_DIR@, a.w) && re_hit(RE_DIR@, b.w) {
            let p = if known {
                POSTAG::D_F | e.p
            } else {
                POSTAG::D_F
            };
            dict_scan(table, merge_at(table, ws, i, i + 2, p, None), i)
        } else {
            dict_scan(table, ws, i + 1)
        }
    }
}

/// One pass of the dictionary optimizer: merge adjective + particle, adjective + noun,
/// mergeable known pairs, numbers with numbers, units and separators, quantity words,
/// ordinal counts, clock times, and directions.
#[verifier::spinoff_prover]
#[verifier::rlimit(60)]
pub fn dict_optimize_pass(words: Vec<Word>, seg: &Segment) -> (r: Vec<Word>)
    requires
        seg.wf(),
    ensures
        text_of(r@) == text_of(words@),
        views(r@) == dict_scan(seg.table, views(words@), 0),
{
    let mut words = words;
    let ghost orig = words@;
    let table = &seg.table;
    let mut i: usize = 0;
    while i < words.len() && 1 < words.len() - i
        invariant
            text_of(words@) == text_of(orig),
            i <= words@.len(),
            seg.wf(),
            table == &seg.table,
            dict_scan(*table, views(orig), 0) == dict_scan(*table, views(words@), i as int),
        decreases words@.len(), words@.len() - i,
    {
        let ghost vw = views(words@);
        proof {
            assert(vw[i as int] == words@[i as int]@);
            assert(vw[i + 1] == words@[i + 1]@);
            if i + 2 < words@.len() {
                assert(vw[i + 2] == words@[i + 2]@);
            }
        }
        let w1 = clone_word(&words[i]);
        let w2 = clone_word(&words[i + 1]);
        let nw = join_words(&words, i, i + 2);
        let cache: Option<crate::dict::DictEntry> = match table.get(nw.as_str()) {
            Some(e) => Some(*e),
            None => None,
        };
        proof {
            assert(w1@ == words@[i as int]@ && w2@ == words@[i + 1]@);
            assert(w1.w@ == words@[i as int].w@ && w2.w@ == words@[i + 1].w@);
            lemma_join_two(words@, i as int);
            assert(cache == entry_of(*table, nw@));
        }
        if !str_eq(w1.w.as_str(), "了") && w1.pos() & POSTAG::D_A != 0 && w2.pos() & POSTAG::D_U != 0 {
            let known_adj = match cache {
                Some(e) => e.p & POSTAG::D_A != 0,
                None => false,
            };
            if known_adj || cache.is_none() {
                let mut p = POSTAG::D_A;
                let mut f: Option<u64> = None;
                match cache {
                    Some(e) => {
                        if e.p & POSTAG::D_A != 0 {
                            p = e.p;
                            f = Some(e.f);
                        }
                    },
                    None => {
                        if w1.pos() & POSTAG::BAD != 0 {
                            p = POSTAG::D_A | POSTAG::BAD;
                        }
                    },
                }
                merge_words(&mut words, i, i + 2, nw, p, f, table);
                continue;
            }
        }
        if w1.pos() & POSTAG::D_A != 0 && w2.pos() & POSTAG::D_N != 0 {
            match cache {
                Some(e) => {
                    if e.p & POSTAG::D_N != 0 {
                        merge_words(&mut words, i, i + 2, nw, e.p, Some(e.f), table);
                        continue;
                    }
                },
                None => {},
            }
        }
        if is_mergeable(&w1, &w2, cache) {
            match cache {
                Some(e) => {
                    merge_words(&mut words, i, i + 2, nw, e.p, Some(e.f), table);
                    continue;
                },
                None => {},
            }
        }
        if w1.pos() & POSTAG::A_M != 0 {
            if (w2.pos() & POSTAG::A_M != 0 && !starts_with(w2.w.as_str(), "第")) || str_eq(w2.w.as_str(), "%")
                || str_eq(w2.w.as_str(), "％") {
                merge_words(&mut words, i, i + 2, nw, POSTAG::A_M, None, table);
                continue;
            }
            if w2.pos() & POSTAG::A_Q != 0 {
                let p = merge_how_many(POSTAG::D_MQ, w2.pos(), entry_pos(cache));
                merge_words(&mut words, i, i + 2, nw, p, None, table);
                continue;
            }
            if 2 < words.len() - i && words[i + 2].pos() & POSTAG::A_M != 0 {
                let w2s = w2.w.as_str();
                if str_eq(w2s, ".") || str_eq(w2s, "点") || str_eq(w2s, "點") || str_eq(w2s, "分之") {
                    let comb = join_words(&words, i, i + 3);
                    merge_words(&mut words, i, i + 3, comb, POSTAG::A_M, None, table);
                    continue;
                }
                if str_eq(w2s, ",") {
                    if re_match(RE_INT_DIGITS, w1.w.as_str()) && re_match(RE_DECIMAL, words[i + 2].w.as_str()) {
                        let comb = join_words(&words, i, i + 3);
                        merge_words(&mut words, i, i + 3, comb, POSTAG::A_M, None, table);
                        continue;
                    }
                }
            }
        }
        if re_match(RE_HOW_MANY, w1.w.as_str()) && w2.pos() & POSTAG::A_Q != 0 {
            let p = merge_how_many(POSTAG::D_MQ, w2.pos(), entry_pos(cache));
            merge_words(&mut words, i, i + 2, nw, p, None, table);
            continue;
        }
        if re_match(RE_JI, w1.w.as_str()) && w2.pos() & POSTAG::A_M != 0 && 2 < words.len() - i
            && words[i + 2].pos() & POSTAG::A_Q != 0 {
            let comb = join_words(&words, i, i + 3);
            proof {
                let s3 = words@.subrange(i as int, i + 3);
                assert(s3.drop_last() =~= words@.subrange(i as int, i + 2));
            }
            let c3: Option<crate::dict::DictEntry> = match table.get(comb.as_str()) {
                Some(e) => Some(*e),
                None => None,
            };
            let unknown = match c3 {
                Some(e) => e.p == 0,
                None => true,
            };
            if unknown {
                let p = merge_how_many(POSTAG::D_MQ, words[i + 2].pos(), entry_pos(c3));
                merge_words(&mut words, i, i + 3, comb, p, None, table);
                continue;
            }
        }
        if w1.pos() & POSTAG::D_MQ != 0 && (ends_with(w1.w.as_str(), "點") || ends_with(w1.w.as_str(), "点"))
            && w2.pos() & POSTAG::A_M != 0 {
            let mut take: usize = 2;
            while take < words.len() - i && words[i + take].pos() & POSTAG::A_M != 0
                invariant
                    i + take <= words@.len(),
                    i + 1 < words@.len(),
                    take >= 2,
                    vw == views(words@),
                    num_run(vw.subrange(i + 2, vw.len() as int)) == (take - 2) + num_run(
                        vw.subrange(i + take, vw.len() as int),
                    ),
                decreases words@.len() - i - take,
            {
                proof {
                    let t = vw.subrange(i + take, vw.len() as int);
                    assert(t[0] == words@[i + take]@);
                    assert(t.drop_first() =~= vw.subrange(i + take + 1, vw.len() as int));
                }
                take += 1;
            }
            proof {
                let t = vw.subrange(i + take, vw.len() as int);
                if t.len() > 0 {
                    assert(t[0] == words@[i + take]@);
                }
                assert(num_run(t) == 0);
            }
            let comb = join_words(&words, i, i + take);
            merge_words(&mut words, i, i + take, comb, POSTAG::D_MQ, None, table);
            continue;
        }
        if re_match(RE_DIR, w1.w.as_str()) && re_match(RE_DIR, w2.w.as_str()) {
            let p = match cache {
                Some(e) => POSTAG::D_F | e.p,
                None => POSTAG::D_F,
            };
            merge_words(&mut words, i, i + 2, nw, p, None, table);
            continue;
        }
        i += 1;
    }
    words
}

/// Merges neighbours by the dictionary and by number, quantity and direction rules (two
/// passes).
pub struct DictOptimizer;

impl DictOptimizer {
    pub fn name(&self) -> (r: &'static str)
        ensures
            r@ == DICT_OPTIMIZER@,
    {
        DICT_OPTIMIZER
    }

    /// Two merge passes; the words still spell the text.
    pub fn do_optimize(&self, words: Vec<Word>, seg: &Segment) -> (r: Vec<Word>)
        requires
            seg.wf(),
        ensures
            text_of(r@) == text_of(words@),
            views(r@) == dict_scan(seg.table, dict_scan(seg.table, views(words@), 0), 0),
    {
        let once = dict_optimize_pass(words, seg);
        dict_optimize_pass(once, seg)
    }
}

} // verus!
