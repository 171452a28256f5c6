//! Public options.
use vstd::prelude::*;

verus! {

/// Copy of a list of strings.
pub fn clone_strings(v: &Vec<String>) -> (r: Vec<String>)
    ensures
        r@ == v@,
{
    let mut out: Vec<String> = Vec::new();
    let mut i: usize = 0;
    while i < v.len()
        invariant
            i <= v.len(),
            out@ == v@.subrange(0, i as int),
        decreases v.len() - i,
    {
        out.push(v[i].clone());
        assert(v@.subrange(0, i + 1) =~= v@.subrange(0, i as int).push(v@[i as int]));
        i += 1;
    }
    assert(v@.subrange(0, v@.len() as int) =~= v@);
    out
}

/// Segmenter construction options.
///
/// `auto_cjk` defaults to `false`.
pub struct SegmentOptions {
    /// Expand CJK variants when adding dictionary words.
    pub auto_cjk: bool,
    /// Also enable `ZhtSynonymOptimizer`.
    pub all_mod: bool,
    /// Load extra node-novel synonym files.
    pub node_novel_mode: bool,
    /// Skip built-in tokenizers/optimizers.
    pub nomod: bool,
    /// Skip built-in dictionaries.
    pub nodict: bool,
    /// Default `do_segment` options.
    pub options_do_segment: DoSegmentOptions,
    /// DictTokenizer max chunk count (default 40).
    pub max_chunk_count: Option<usize>,
    /// DictTokenizer min chunk count (default 30).
    pub min_chunk_count: Option<usize>,
    /// Module names to disable.
    pub disable_modules: Vec<String>,
}

/// Per-call segmentation options.
///
/// `None` means inherit from `SegmentOptions.options_do_segment` then default `false`.
pub struct DoSegmentOptions {
    pub simple: Option<bool>,
    pub strip_punctuation: Option<bool>,
    pub convert_synonym: Option<bool>,
    pub strip_stopword: Option<bool>,
    pub strip_space: Option<bool>,
    pub disable_modules: Vec<String>,
}

pub open spec fn or_opt(over: Option<bool>, base: Option<bool>) -> Option<bool> {
    match over {
        Some(b) => Some(b),
        None => base,
    }
}

pub open spec fn flag_of(o: Option<bool>) -> bool {
    match o {
        Some(b) => b,
        None => false,
    }
}

impl Default for DoSegmentOptions {
    fn default() -> (r: Self)
        ensures
            r.simple is None,
            r.strip_punctuation is None,
            r.convert_synonym is None,
            r.strip_stopword is None,
            r.strip_space is None,
            r.disable_modules@.len() == 0,
    {
        DoSegmentOptions {
            simple: None,
            strip_punctuation: None,
            convert_synonym: None,
            strip_stopword: None,
            strip_space: None,
            disable_modules: Vec::new(),
        }
    }
}

impl Default for SegmentOptions {
    fn default() -> (r: Self)
        ensures
            !r.auto_cjk,
            !r.all_mod,
            !r.node_novel_mode,
            !r.nomod,
            !r.nodict,
            r.options_do_segment.simple is None,
            r.options_do_segment.strip_punctuation is None,
            r.options_do_segment.convert_synonym is None,
            r.options_do_segment.strip_stopword is None,
            r.options_do_segment.strip_space is None,
            r.options_do_segment.disable_modules@.len() == 0,
            r.max_chunk_count is None,
            r.min_chunk_count is None,
            r.disable_modules@.len() == 0,
    {
        SegmentOptions {
            auto_cjk: false,
            all_mod: false,
            node_novel_mode: false,
            nomod: false,
            nodict: false,
            options_do_segment: DoSegmentOptions::default(),
            max_chunk_count: None,
            min_chunk_count: None,
            disable_modules: Vec::new(),
        }
    }
}

impl Clone for DoSegmentOptions {
    fn clone(&self) -> (r: Self)
        ensures
            r.simple == self.simple,
            r.strip_punctuation == self.strip_punctuation,
            r.convert_synonym == self.convert_synonym,
            r.strip_stopword == self.strip_stopword,
            r.strip_space == self.strip_space,
            r.disable_modules@ == self.disable_modules@,
    {
        DoSegmentOptions {
            simple: self.simple,
            strip_punctuation: self.strip_punctuation,
            convert_synonym: self.convert_synonym,
            strip_stopword: self.strip_stopword,
            strip_space: self.strip_space,
            disable_modules: clone_strings(&self.disable_modules),
        }
    }
}

impl DoSegmentOptions {
    /// Only `convert_synonym` set, to `true`.
    pub fn convert_synonym() -> (r: Self)
        ensures
            r.simple is None,
            r.strip_punctuation is None,
            r.convert_synonym == Some(true),
            r.strip_stopword is None,
            r.strip_space is None,
            r.disable_modules@.len() == 0,
    {
        DoSegmentOptions {
            simple: None,
            strip_punctuation: None,
            convert_synonym: Some(true),
            strip_stopword: None,
            strip_space: None,
            disable_modules: Vec::new(),
        }
    }

    /// `over` wins field by field; an empty module list in `over` inherits `self`'s.
    pub fn merge(&self, over: &Self) -> (r: Self)
        ensures
            r.simple == or_opt(over.simple, self.simple),
            r.strip_punctuation == or_opt(over.strip_punctuation, self.strip_punctuation),
            r.convert_synonym == or_opt(over.convert_synonym, self.convert_synonym),
            r.strip_stopword == or_opt(over.strip_stopword, self.strip_stopword),
            r.strip_space == or_opt(over.strip_space, self.strip_space),
            r.disable_modules@ == (if over.disable_modules@.len() == 0 {
                self.disable_modules@
            } else {
                over.disable_modules@
            }),
    {
        DoSegmentOptions {
            simple: match over.simple {
                Some(b) => Some(b),
                None => self.simple,
            },
            strip_punctuation: match over.strip_punctuation {
                Some(b) => Some(b),
                None => self.strip_punctuation,
            },
            convert_synonym: match over.convert_synonym {
                Some(b) => Some(b),
                None => self.convert_synonym,
            },
            strip_stopword: match over.strip_stopword {
                Some(b) => Some(b),
                None => self.strip_stopword,
            },
            strip_space: match over.strip_space {
                Some(b) => Some(b),
                None => self.strip_space,
            },
            disable_modules: if over.disable_modules.len() == 0 {
                clone_strings(&self.disable_modules)
            } else {
                clone_strings(&over.disable_modules)
            },
        }
    }

    pub fn simple_flag(&self) -> (r: bool)
        ensures
            r == flag_of(self.simple),
    {
        match self.simple {
            Some(b) => b,
            None => false,
        }
    }

    pub fn strip_punctuation_flag(&self) -> (r: bool)
        ensures
            r == flag_of(self.strip_punctuation),
    {
        match self.strip_punctuation {
            Some(b) => b,
            None => false,
        }
    }

    pub fn convert_synonym_flag(&self) -> (r: bool)
        ensures
            r == flag_of(self.convert_synonym),
    {
        match self.convert_synonym {
            Some(b) => b,
            None => false,
        }
    }

    pub fn strip_stopword_flag(&self) -> (r: bool)
        ensures
            r == flag_of(self.strip_stopword),
    {
        match self.strip_stopword {
            Some(b) => b,
            None => false,
        }
    }

    pub fn strip_space_flag(&self) -> (r: bool)
        ensures
            r == flag_of(self.strip_space),
    {
        match self.strip_space {
            Some(b) => b,
            None => false,
        }
    }
}

/// Merging with options that set nothing keeps every field (the call options only
/// override what they set).
pub proof fn law_merge_identity(base: DoSegmentOptions, over: DoSegmentOptions)
    requires
        over.simple is None,
        over.strip_punctuation is None,
        over.convert_synonym is None,
        over.strip_stopword is None,
        over.strip_space is None,
        over.disable_modules@.len() == 0,
    ensures
        or_opt(over.simple, base.simple) == base.simple,
        or_opt(over.strip_punctuation, base.strip_punctuation) == base.strip_punctuation,
        or_opt(over.convert_synonym, base.convert_synonym) == base.convert_synonym,
        or_opt(over.strip_stopword, base.strip_stopword) == base.strip_stopword,
        or_opt(over.strip_space, base.strip_space) == base.strip_space,
{
}

} // verus!
