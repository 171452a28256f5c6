//! Word tokens.
use vstd::prelude::*;
use crate::strs::to_owned_string;

verus! {

/// A segmented word.
///
/// The weight `f` is carried as the bit pattern of the dictionary's IEEE-754 value:
/// the library copies it from dictionary entries to words and never computes with it.
pub struct Word {
    /// Word text.
    pub w: String,
    /// POS bit flags (`POSTAG`).
    pub p: Option<u32>,
    /// Frequency / weight (bit pattern of the weight).
    pub f: Option<u64>,
    /// Start index in the current section (UTF-16 units).
    pub c: Option<usize>,
    /// Native dictionary entry.
    pub s: Option<bool>,
    /// Original word before synonym conversion.
    pub ow: Option<String>,
    /// Original POS before conversion / retag.
    pub op: Option<u32>,
    /// Merged source tokens.
    pub m: Option<Vec<Word>>,
    /// Created by an optimizer and not in the table.
    pub auto_create: bool,
    /// Previous native-dict flag.
    pub os: Option<bool>,
}

/// The texts of word views.
pub open spec fn part_texts(ps: Seq<WordView>) -> Seq<Seq<char>> {
    ps.map_values(|x: WordView| x.w)
}

/// Mathematical view of a `Word`, the tokens merged into it seen the same way.
pub struct WordView {
    pub w: Seq<char>,
    pub p: Option<u32>,
    pub f: Option<u64>,
    pub c: Option<usize>,
    pub s: Option<bool>,
    pub ow: Option<Seq<char>>,
    pub op: Option<u32>,
    pub m: Option<Seq<WordView>>,
    pub auto_create: bool,
    pub os: Option<bool>,
}

/// The view of a word: its fields, and the views of the tokens merged into it.
pub open spec fn word_view(x: Word) -> WordView
    decreases x,
{
    WordView {
        w: x.w@,
        p: x.p,
        f: x.f,
        c: x.c,
        s: x.s,
        ow: opt_str_view(x.ow),
        op: x.op,
        m: match x.m {
            Some(v) => {
                proof {
                    broadcast use vstd::std_specs::vec::group_vec_axioms;

                    assert(decreases_to!(x => x.m));
                    assert(decreases_to!(x.m => v));
                    assert(decreases_to!(v => v@));
                }
                Some(list_view(v@))
            },
            None => None,
        },
        auto_create: x.auto_create,
        os: x.os,
    }
}

/// The views of a word list, each as `word_view` gives it.
pub open spec fn list_view(s: Seq<Word>) -> Seq<WordView>
    decreases s,
{
    if s.len() == 0 {
        Seq::empty()
    } else {
        proof {
            assert(decreases_to!(s => s.subrange(0, s.len() - 1)));
            assert(decreases_to!(s => s[s.len() - 1]));
        }
        list_view(s.subrange(0, s.len() - 1)).push(word_view(s[s.len() - 1]))
    }
}

pub open spec fn opt_str_view(o: Option<String>) -> Option<Seq<char>> {
    match o {
        Some(s) => Some(s@),
        None => None,
    }
}

pub open spec fn texts_of(ws: Seq<Word>) -> Seq<Seq<char>> {
    ws.map_values(|x: Word| x.w@)
}

impl View for Word {
    type V = WordView;

    open spec fn view(&self) -> WordView {
        word_view(*self)
    }
}

/// The views of a word list.
pub open spec fn views(ws: Seq<Word>) -> Seq<WordView> {
    ws.map_values(|x: Word| x@)
}

/// `list_view` is `views`.
pub proof fn lemma_list_view(s: Seq<Word>)
    ensures
        list_view(s) == views(s),
    decreases s.len(),
{
    if s.len() > 0 {
        let t = s.subrange(0, s.len() - 1);
        lemma_list_view(t);
        assert(views(s) =~= views(t).push(s[s.len() - 1]@));
    }
}

/// The text of a word list: its words' texts laid end to end.
pub open spec fn text_of(ws: Seq<Word>) -> Seq<char>
    decreases ws.len(),
{
    if ws.len() == 0 {
        Seq::empty()
    } else {
        text_of(ws.drop_last()) + ws.last().w@
    }
}

pub proof fn lemma_text_of_push(ws: Seq<Word>, x: Word)
    ensures
        text_of(ws.push(x)) == text_of(ws) + x.w@,
{
    assert(ws.push(x).drop_last() =~= ws);
}

pub proof fn lemma_text_of_add(a: Seq<Word>, b: Seq<Word>)
    ensures
        text_of(a + b) == text_of(a) + text_of(b),
    decreases b.len(),
{
    if b.len() == 0 {
        assert(a + b =~= a);
        assert(text_of(a) + Seq::<char>::empty() =~= text_of(a));
    } else {
        lemma_text_of_add(a, b.drop_last());
        assert((a + b).drop_last() =~= a + b.drop_last());
        assert(text_of(a) + text_of(b.drop_last()) + b.last().w@ =~= text_of(a) + (text_of(
            b.drop_last(),
        ) + b.last().w@));
    }
}

pub proof fn lemma_text_of_single(x: Word)
    ensures
        text_of(seq![x]) == x.w@,
{
    assert(seq![x].drop_last() =~= Seq::<Word>::empty());
    assert(text_of(Seq::<Word>::empty()) == Seq::<char>::empty());
    assert(seq![x].last() == x);
    assert(Seq::<char>::empty() + x.w@ =~= x.w@);
}

/// Splitting a list at `i` splits its text.
/// A joined text holds a char when one of its halves does.
pub proof fn lemma_concat_contains(a: Seq<char>, b: Seq<char>, c: char)
    ensures
        (a + b).contains(c) <==> a.contains(c) || b.contains(c),
{
    if (a + b).contains(c) {
        let i = choose|i: int| 0 <= i < (a + b).len() && (a + b)[i] == c;
        if i < a.len() {
            assert(a[i] == c);
        } else {
            assert(b[i - a.len()] == c);
        }
    }
    if a.contains(c) {
        let i = choose|i: int| 0 <= i < a.len() && a[i] == c;
        assert((a + b)[i] == c);
    }
    if b.contains(c) {
        let i = choose|i: int| 0 <= i < b.len() && b[i] == c;
        assert((a + b)[a.len() + i] == c);
    }
}

pub proof fn lemma_text_of_split(ws: Seq<Word>, i: int)
    requires
        0 <= i <= ws.len(),
    ensures
        text_of(ws) == text_of(ws.subrange(0, i)) + text_of(ws.subrange(i, ws.len() as int)),
{
    lemma_text_of_add(ws.subrange(0, i), ws.subrange(i, ws.len() as int));
    assert(ws.subrange(0, i) + ws.subrange(i, ws.len() as int) =~= ws);
}

/// Recursive deep copy of a word.
pub fn clone_word(w: &Word) -> (r: Word)
    ensures
        r@ == w@,
        r.w@ == w.w@,
        r.p == w.p,
        r.c == w.c,
    decreases w,
{
    let m = match &w.m {
        None => None,
        Some(v) => {
            let mut out: Vec<Word> = Vec::new();
            let mut i: usize = 0;
            while i < v.len()
                invariant
                    i <= v.len(),
                    out@.len() == i,
                    forall|j: int| 0 <= j < i ==> #[trigger] out@[j].w@ == v@[j].w@ && out@[j]@ == v@[j]@,
                    w.m == Some(*v),
                decreases v.len() - i,
            {
                proof {
                    broadcast use vstd::std_specs::vec::group_vec_axioms;

                    assert(decreases_to!(*w => w.m));
                    assert(decreases_to!(w.m => w.m->0));
                    assert(decreases_to!(*v => v[i as int]));
                }
                let x = clone_word(&v[i]);
                assert(x.w@ == v@[i as int].w@);
                let ghost old_out = out@;
                out.push(x);
                assert forall|j: int| 0 <= j < i + 1 implies #[trigger] out@[j].w@ == v@[j].w@ && out@[j]@ == v@[j]@ by {
                    if j < i {
                        assert(out@[j] == old_out[j]);
                        assert(old_out[j].w@ == v@[j].w@);
                    } else {
                        assert(out@[j] == x);
                    }
                }
                i += 1;
            }
            assert(texts_of(out@) =~= texts_of(v@));
            assert forall|j: int| 0 <= j < out@.len() implies #[trigger] views(out@)[j] == views(v@)[j] by {
                assert(out@[j]@ == v@[j]@);
            }
            assert(views(out@) =~= views(v@));
            proof {
                lemma_list_view(out@);
                lemma_list_view(v@);
            }
            Some(out)
        },
    };
    let ow = match &w.ow {
        None => None,
        Some(s) => Some(s.clone()),
    };
    Word {
        w: w.w.clone(),
        p: w.p,
        f: w.f,
        c: w.c,
        s: w.s,
        ow,
        op: w.op,
        m,
        auto_create: w.auto_create,
        os: w.os,
    }
}

/// Copies of `ws[a..b]`.
pub fn clone_words(ws: &Vec<Word>, a: usize, b: usize) -> (r: Vec<Word>)
    requires
        a <= b <= ws.len(),
    ensures
        r@.len() == b - a,
        forall|j: int| 0 <= j < b - a ==> #[trigger] r@[j]@ == ws@[a + j]@,
        texts_of(r@) == texts_of(ws@.subrange(a as int, b as int)),
        views(r@) == views(ws@.subrange(a as int, b as int)),
        text_of(r@) == text_of(ws@.subrange(a as int, b as int)),
{
    let mut out: Vec<Word> = Vec::new();
    let mut i = a;
    while i < b
        invariant
            a <= i <= b <= ws.len(),
            out@.len() == i - a,
            forall|j: int| 0 <= j < i - a ==> #[trigger] out@[j]@ == ws@[a + j]@,
            text_of(out@) == text_of(ws@.subrange(a as int, i as int)),
        decreases b - i,
    {
        let x = clone_word(&ws[i]);
        proof {
            lemma_text_of_push(out@, x);
            assert(ws@.subrange(a as int, i + 1) =~= ws@.subrange(a as int, i as int).push(
                ws@[i as int],
            ));
            lemma_text_of_push(ws@.subrange(a as int, i as int), ws@[i as int]);
        }
        out.push(x);
        i += 1;
    }
    assert forall|j: int| 0 <= j < b - a implies #[trigger] texts_of(out@)[j] == texts_of(
        ws@.subrange(a as int, b as int),
    )[j] by {
        assert(out@[j]@ == ws@[a + j]@);
        assert(out@[j]@.w == out@[j].w@);
    }
    assert(texts_of(out@) =~= texts_of(ws@.subrange(a as int, b as int)));
    assert forall|j: int| 0 <= j < b - a implies #[trigger] views(out@)[j] == views(ws@.subrange(a as int, b as int))[j] by {
        assert(out@[j]@ == ws@[a + j]@);
    }
    assert(views(out@) =~= views(ws@.subrange(a as int, b as int)));
    out
}

impl Clone for Word {
    fn clone(&self) -> (r: Self)
        ensures
            r@ == self@,
    {
        clone_word(self)
    }
}

impl Word {
    /// A word with only its text set.
    pub fn new(w: &str) -> (r: Word)
        ensures
            r.w@ == w@,
            r.p is None,
            r.f is None,
            r.c is None,
            r.s is None,
            r.ow is None,
            r.op is None,
            r.m is None,
            !r.auto_create,
            r.os is None,
    {
        Word::from_string(to_owned_string(w))
    }

    /// A word with only its text set, taking the text by value.
    pub fn from_string(w: String) -> (r: Word)
        ensures
            r.w == w,
            r.p is None,
            r.f is None,
            r.c is None,
            r.s is None,
            r.ow is None,
            r.op is None,
            r.m is None,
            !r.auto_create,
            r.os is None,
    {
        Word {
            w,
            p: None,
            f: None,
            c: None,
            s: None,
            ow: None,
            op: None,
            m: None,
            auto_create: false,
            os: None,
        }
    }

    pub fn with_p(self, p: u32) -> (r: Word)
        ensures
            r@ == (WordView { p: Some(p), ..self@ }),
            r.w == self.w,
            r.p == Some(p),
            r.c == self.c,
            r.m == self.m,
    {
        Word { p: Some(p), ..self }
    }

    /// Sets the weight (bit pattern).
    pub fn with_f(self, f: u64) -> (r: Word)
        ensures
            r@ == (WordView { f: Some(f), ..self@ }),
            r.w == self.w,
            r.p == self.p,
            r.c == self.c,
            r.m == self.m,
    {
        Word { f: Some(f), ..self }
    }

    pub fn with_c(self, c: usize) -> (r: Word)
        ensures
            r@ == (WordView { c: Some(c), ..self@ }),
            r.w == self.w,
            r.p == self.p,
            r.c == Some(c),
            r.m == self.m,
    {
        Word { c: Some(c), ..self }
    }

    pub open spec fn pos_of(&self) -> u32 {
        match self.p {
            Some(p) => p,
            None => 0,
        }
    }

    /// The POS is set and non-zero.
    pub fn is_recognized(&self) -> (r: bool)
        ensures
            r == (self.pos_of() > 0),
    {
        match self.p {
            Some(p) => p > 0,
            None => false,
        }
    }

    /// The POS is set.
    pub fn has_pos(&self) -> (r: bool)
        ensures
            r == self.p is Some,
    {
        self.p.is_some()
    }

    pub fn pos(&self) -> (r: u32)
        ensures
            r == self.pos_of(),
    {
        match self.p {
            Some(p) => p,
            None => 0,
        }
    }

    /// The weight's bit pattern, `0` (the bits of `0.0`) when unset.
    pub fn freq(&self) -> (r: u64)
        ensures
            r == (match self.f {
                Some(f) => f,
                None => 0,
            }),
    {
        match self.f {
            Some(f) => f,
            None => 0,
        }
    }

    /// Missing or zero POS.
    pub fn pos_falsy(&self) -> (r: bool)
        ensures
            r == (self.pos_of() == 0),
    {
        self.pos() == 0
    }
}

/// Join words back into the original text.
pub fn stringify(words: &[Word]) -> (r: String)
    ensures
        r@ == text_of(words@),
{
    let mut out = String::new();
    let mut i: usize = 0;
    while i < words.len()
        invariant
            i <= words.len(),
            out@ == text_of(words@.subrange(0, i as int)),
        decreases words.len() - i,
    {
        proof {
            assert(words@.subrange(0, i + 1) =~= words@.subrange(0, i as int).push(words@[i as int]));
            lemma_text_of_push(words@.subrange(0, i as int), words@[i as int]);
        }
        out.append(words[i].w.as_str());
        i += 1;
    }
    assert(words@.subrange(0, words@.len() as int) =~= words@);
    out
}

/// The words' texts, in order.
pub fn stringify_list(words: &[Word]) -> (r: Vec<String>)
    ensures
        r@.len() == words@.len(),
        forall|i: int| 0 <= i < words@.len() ==> #[trigger] r@[i]@ == words@[i].w@,
{
    let mut out: Vec<String> = Vec::new();
    let mut i: usize = 0;
    while i < words.len()
        invariant
            i <= words.len(),
            out@.len() == i,
            forall|j: int| 0 <= j < i ==> #[trigger] out@[j]@ == words@[j].w@,
        decreases words.len() - i,
    {
        out.push(words[i].w.clone());
        i += 1;
    }
    out
}

} // verus!
