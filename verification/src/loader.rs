//! Dictionary text formats: lines, `詞|詞性|詞權值` rows, synonym rows, POS numbers, and
//! which files a dictionary name stands for.
use vstd::prelude::*;
use crate::strs::{
    chars_of, concat_str, has_prefix, has_suffix, push_char, starts_with, string_from_chars, trim,
    trim_seq, to_owned_string,
};

verus! {

/// The pieces of `s` between the separator `c` (one more piece than separators).
pub open spec fn fields(s: Seq<char>, c: char) -> Seq<Seq<char>>
    decreases s.len(),
{
    if s.len() == 0 {
        seq![Seq::empty()]
    } else {
        let f = fields(s.drop_last(), c);
        if s.last() == c {
            f.push(Seq::empty())
        } else {
            f.update(f.len() - 1, f.last().push(s.last()))
        }
    }
}

proof fn lemma_fields_nonempty(s: Seq<char>, c: char)
    ensures
        fields(s, c).len() >= 1,
    decreases s.len(),
{
    if s.len() > 0 {
        lemma_fields_nonempty(s.drop_last(), c);
    }
}

/// `str::split(c)`.
pub fn split_fields(s: &str, c: char) -> (r: Vec<String>)
    ensures
        r@.map_values(|x: String| x@) == fields(s@, c),
{
    let cs = chars_of(s);
    let mut out: Vec<String> = Vec::new();
    let mut cur = String::new();
    let mut i: usize = 0;
    while i < cs.len()
        invariant
            cs@ == s@,
            i <= cs@.len(),
            out@.map_values(|x: String| x@).push(cur@) == fields(s@.subrange(0, i as int), c),
        decreases cs@.len() - i,
    {
        proof {
            assert(s@.subrange(0, i + 1).drop_last() =~= s@.subrange(0, i as int));
            lemma_fields_nonempty(s@.subrange(0, i as int), c);
        }
        let ghost prev = out@.map_values(|x: String| x@);
        if cs[i] == c {
            let done = cur;
            out.push(done);
            cur = String::new();
            proof {
                assert(out@.map_values(|x: String| x@) =~= prev.push(done@));
            }
        } else {
            push_char(&mut cur, cs[i]);
            proof {
                assert(out@.map_values(|x: String| x@) =~= prev);
            }
        }
        i += 1;
    }
    proof {
        assert(s@.subrange(0, cs@.len() as int) =~= s@);
    }
    let ghost prev = out@.map_values(|x: String| x@);
    out.push(cur);
    assert(out@.map_values(|x: String| x@) =~= prev.push(cur@));
    out
}

/// A line without its trailing `\r`.
pub open spec fn strip_cr(l: Seq<char>) -> Seq<char> {
    if l.len() > 0 && l.last() == '\r' {
        l.drop_last()
    } else {
        l
    }
}

/// `str::lines`: pieces between `\n` with a trailing `\r` dropped, and no piece after a
/// final `\n`.
pub open spec fn lines_spec(s: Seq<char>) -> Seq<Seq<char>> {
    let f = fields(s, '\n');
    let g = if f.last().len() == 0 {
        f.drop_last()
    } else {
        f
    };
    strip_crs(g)
}

/// Every line without its trailing `\r`.
pub open spec fn strip_crs(g: Seq<Seq<char>>) -> Seq<Seq<char>> {
    g.map_values(|l: Seq<char>| strip_cr(l))
}

fn strip_cr_exec(l: String) -> (r: String)
    ensures
        r@ == strip_cr(l@),
{
    let cs = chars_of(l.as_str());
    if cs.len() > 0 && cs[cs.len() - 1] == '\r' {
        string_from_chars(crate::strs::slice_of(&cs, 0, cs.len() - 1))
    } else {
        l
    }
}

/// `str::lines`.
pub fn lines_of(text: &str) -> (r: Vec<String>)
    ensures
        r@.map_values(|x: String| x@) == lines_spec(text@),
{
    let f = split_fields(text, '\n');
    let ghost fv = fields(text@, '\n');
    proof {
        lemma_fields_nonempty(text@, '\n');
    }
    let n = f.len();
    let keep = if f[n - 1].as_str().is_empty() {
        n - 1
    } else {
        n
    };
    proof {
        assert(f@[n - 1]@ == fv.last());
    }
    let ghost g = if fv.last().len() == 0 {
        fv.drop_last()
    } else {
        fv
    };
    let mut out: Vec<String> = Vec::new();
    let mut i: usize = 0;
    while i < keep
        invariant
            f@.map_values(|x: String| x@) == fv,
            keep <= f@.len(),
            g == fv.subrange(0, keep as int),
            i <= keep,
            out@.map_values(|x: String| x@) == strip_crs(g.subrange(0, i as int)),
        decreases keep - i,
    {
        let x = strip_cr_exec(f[i].clone());
        let ghost prev = out@.map_values(|x: String| x@);
        out.push(x);
        proof {
            assert(f@[i as int]@ == fv[i as int]);
            assert(g[i as int] == fv[i as int]);
            assert(strip_crs(g.subrange(0, i + 1)) =~= strip_crs(g.subrange(0, i as int)).push(strip_cr(g[i as int])));
            assert(out@.map_values(|x: String| x@) =~= prev.push(x@));
        }
        i += 1;
    }
    proof {
        assert(g.subrange(0, keep as int) =~= g);
    }
    out
}

/// A comment line (`//…` or `#…`) or an empty one, once trimmed.
pub open spec fn skipped_line(t: Seq<char>) -> bool {
    t.len() == 0 || has_prefix(t, "//"@) || has_prefix(t, "#"@)
}

fn is_skipped(t: &str) -> (r: bool)
    ensures
        r == skipped_line(t@),
{
    t.is_empty() || starts_with(t, "//") || starts_with(t, "#")
}

/// The trimmed lines of a word-list file that are neither empty nor comments.
pub open spec fn clean_lines_spec(ls: Seq<Seq<char>>) -> Seq<Seq<char>>
    decreases ls.len(),
{
    if ls.len() == 0 {
        Seq::empty()
    } else {
        let r = clean_lines_spec(ls.drop_last());
        let t = trim_seq(ls.last());
        if skipped_line(t) {
            r
        } else {
            r.push(t)
        }
    }
}

/// The lines of a word-list file (`load_line_file` without the reading).
pub fn clean_lines(text: &str) -> (r: Vec<String>)
    ensures
        r@.map_values(|x: String| x@) == clean_lines_spec(lines_spec(text@)),
{
    let ls = lines_of(text);
    let ghost lv = lines_spec(text@);
    let mut out: Vec<String> = Vec::new();
    let mut i: usize = 0;
    while i < ls.len()
        invariant
            ls@.map_values(|x: String| x@) == lv,
            i <= ls@.len(),
            out@.map_values(|x: String| x@) == clean_lines_spec(lv.subrange(0, i as int)),
        decreases ls@.len() - i,
    {
        let t = trim(ls[i].as_str());
        proof {
            assert(lv.subrange(0, i + 1).drop_last() =~= lv.subrange(0, i as int));
            assert(ls@[i as int]@ == lv[i as int]);
        }
        let ghost prev = out@.map_values(|x: String| x@);
        if !is_skipped(t.as_str()) {
            out.push(t);
            proof {
                assert(out@.map_values(|x: String| x@) =~= prev.push(t@));
            }
        }
        i += 1;
    }
    proof {
        assert(lv.subrange(0, lv.len() as int) =~= lv);
    }
    out
}

/// Value of a digit in `radix` (10 or 16), if it is one.
pub open spec fn digit_value(c: char, radix: u32) -> Option<u32> {
    if '0' <= c && c <= '9' {
        Some((c as u32 - '0' as u32) as u32)
    } else if radix == 16 && 'a' <= c && c <= 'f' {
        Some((c as u32 - 'a' as u32 + 10) as u32)
    } else if radix == 16 && 'A' <= c && c <= 'F' {
        Some((c as u32 - 'A' as u32 + 10) as u32)
    } else {
        None
    }
}

/// Value of the digits `d` in `radix` as a mathematical integer, if all are digits.
pub open spec fn digits_value(d: Seq<char>, radix: u32) -> Option<int>
    decreases d.len(),
{
    if d.len() == 0 {
        Some(0)
    } else {
        match (digits_value(d.drop_last(), radix), digit_value(d.last(), radix)) {
            (Some(v), Some(x)) => Some(v * radix + x),
            _ => None,
        }
    }
}

/// The text without a leading `+`.
pub open spec fn unsigned_digits(s: Seq<char>) -> Seq<char> {
    if s.len() > 0 && s[0] == '+' {
        s.skip(1)
    } else {
        s
    }
}

/// `u32::from_str_radix`: an optional `+`, then at least one digit, and a value that
/// fits.
pub open spec fn radix_u32(s: Seq<char>, radix: u32) -> Option<u32> {
    let d = unsigned_digits(s);
    if d.len() == 0 {
        None
    } else {
        match digits_value(d, radix) {
            Some(v) => if v <= u32::MAX {
                Some(v as u32)
            } else {
                None
            },
            None => None,
        }
    }
}

proof fn lemma_digits_nonneg(d: Seq<char>, radix: u32)
    requires
        radix == 10 || radix == 16,
    ensures
        digits_value(d, radix) matches Some(v) ==> v >= 0,
    decreases d.len(),
{
    if d.len() > 0 {
        lemma_digits_nonneg(d.drop_last(), radix);
        if let (Some(v), Some(x)) = (digits_value(d.drop_last(), radix), digit_value(d.last(), radix)) {
            assert(v * radix + x >= 0) by (nonlinear_arith)
                requires
                    v >= 0,
                    radix >= 10,
                    x >= 0,
            ;
        }
    }
}

/// `u32::from_str_radix` for radix 10 and 16.
fn parse_radix(s: &str, radix: u32) -> (r: Option<u32>)
    requires
        radix == 10 || radix == 16,
    ensures
        r == radix_u32(s@, radix),
{
    let cs = chars_of(s);
    let start: usize = if cs.len() > 0 && cs[0] == '+' {
        1
    } else {
        0
    };
    let ghost d = unsigned_digits(s@);
    proof {
        assert(d =~= cs@.subrange(start as int, cs@.len() as int));
    }
    if start >= cs.len() {
        return None;
    }
    let mut v: u64 = 0;
    let mut i = start;
    let mut overflow = false;
    while i < cs.len()
        invariant
            cs@ == s@,
            radix == 10 || radix == 16,
            start <= i <= cs@.len(),
            d == cs@.subrange(start as int, cs@.len() as int),
            d == unsigned_digits(s@),
            !overflow ==> v <= u32::MAX && digits_value(cs@.subrange(start as int, i as int), radix) == Some(v as int),
            overflow ==> (digits_value(cs@.subrange(start as int, i as int), radix) matches Some(x) ==> x > u32::MAX),
        decreases cs@.len() - i,
    {
        let c = cs[i];
        let ghost pre = cs@.subrange(start as int, i as int);
        proof {
            assert(cs@.subrange(start as int, i + 1).drop_last() =~= pre);
            assert(cs@.subrange(start as int, i + 1).last() == c);
            lemma_digits_nonneg(pre, radix);
        }
        let dv: Option<u32> = if '0' <= c && c <= '9' {
            Some(crate::text::char_code(c) - 48)
        } else if radix == 16 && 'a' <= c && c <= 'f' {
            Some(crate::text::char_code(c) - 87)
        } else if radix == 16 && 'A' <= c && c <= 'F' {
            Some(crate::text::char_code(c) - 55)
        } else {
            None
        };
        match dv {
            None => {
                proof {
                    assert(digit_value(c, radix) is None);
                    assert(digits_value(cs@.subrange(start as int, i + 1), radix) is None);
                    lemma_digits_none_extends(cs@, start as int, i + 1, radix);
                    assert(digits_value(d, radix) is None);
                    assert(d.len() > 0);
                    assert(radix_u32(s@, radix) is None);
                }
                return None;
            },
            Some(x) => {
                if !overflow {
                    assert(v * (radix as u64) <= 0xFFFF_FFFF * 16) by (nonlinear_arith)
                        requires
                            v <= 0xFFFF_FFFF,
                            radix <= 16,
                    ;
                    let nv = v * (radix as u64) + (x as u64);
                    if nv > 0xFFFF_FFFF {
                        overflow = true;
                    } else {
                        v = nv;
                    }
                } else {
                    proof {
                        if let Some(y) = digits_value(pre, radix) {
                            assert(y * radix + x > u32::MAX) by (nonlinear_arith)
                                requires
                                    y > u32::MAX,
                                    radix >= 10,
                                    x >= 0,
                            ;
                        }
                    }
                }
            },
        }
        i += 1;
    }
    proof {
        assert(cs@.subrange(start as int, cs@.len() as int) == d);
    }
    if overflow {
        None
    } else {
        Some(v as u32)
    }
}

/// Once a non-digit is met, no longer prefix has a value.
proof fn lemma_digits_none_extends(s: Seq<char>, a: int, b: int, radix: u32)
    requires
        0 <= a <= b <= s.len(),
        digits_value(s.subrange(a, b), radix) is None,
    ensures
        digits_value(s.subrange(a, s.len() as int), radix) is None,
    decreases s.len() - b,
{
    if b < s.len() {
        assert(s.subrange(a, b + 1).drop_last() =~= s.subrange(a, b));
        lemma_digits_none_extends(s, a, b + 1, radix);
    }
}

/// What `parse_pos` reads from a field.
pub open spec fn pos_value(s: Seq<char>, as_float: Option<u32>) -> Option<u32> {
    let t = trim_seq(s);
    if has_prefix(t, "0x"@) || has_prefix(t, "0X"@) {
        radix_u32(t.skip(2), 16)
    } else {
        match radix_u32(t, 10) {
            Some(v) => Some(v),
            None => as_float,
        }
    }
}

/// POS number of a dictionary field: hexadecimal after `0x`/`0X`, else decimal, else the
/// number the field reads as when taken as a floating-point number, cast to `u32`
/// (`as_float`, which the caller works out: this library does no floating point).
pub fn parse_pos(s: &str, as_float: Option<u32>) -> (r: Option<u32>)
    ensures
        r == pos_value(s@, as_float),
{
    let t = trim(s);
    proof {
        reveal_strlit("0x");
        reveal_strlit("0X");
    }
    if starts_with(t.as_str(), "0x") || starts_with(t.as_str(), "0X") {
        let cs = chars_of(t.as_str());
        let hex = string_from_chars(crate::strs::slice_of(&cs, 2, cs.len()));
        proof {
            assert(hex@ =~= t@.skip(2));
        }
        return parse_radix(hex.as_str(), 16);
    }
    match parse_radix(t.as_str(), 10) {
        Some(v) => Some(v),
        None => as_float,
    }
}

/// The fields of a `詞|詞性|詞權值` row: the trimmed word, and the POS and weight fields
/// as written.
pub struct DictFields {
    pub w: String,
    pub pos: Option<String>,
    pub weight: Option<String>,
}

/// Split a dictionary row; `None` for an empty or comment line or an empty word.
pub fn split_dict_line(line: &str) -> (r: Option<DictFields>)
    ensures
        ({
            let t = trim_seq(line@);
            let f = fields(t, '|');
            match r {
                None => skipped_line(t) || trim_seq(f[0]).len() == 0,
                Some(d) => !skipped_line(t) && trim_seq(f[0]).len() > 0 && d.w@ == trim_seq(f[0]) && (if f.len() > 1 {
                    d.pos matches Some(p) && p@ == f[1]
                } else {
                    d.pos is None
                }) && (if f.len() > 2 {
                    d.weight matches Some(x) && x@ == f[2]
                } else {
                    d.weight is None
                }),
            }
        }),
{
    let t = trim(line);
    if is_skipped(t.as_str()) {
        return None;
    }
    let parts = split_fields(t.as_str(), '|');
    proof {
        lemma_fields_nonempty(t@, '|');
        assert(parts@[0]@ == fields(t@, '|')[0]);
    }
    let w = trim(parts[0].as_str());
    if w.as_str().is_empty() {
        return None;
    }
    let pos = if parts.len() > 1 {
        proof {
            assert(parts@[1]@ == fields(t@, '|')[1]);
        }
        Some(parts[1].clone())
    } else {
        None
    };
    let weight = if parts.len() > 2 {
        proof {
            assert(parts@[2]@ == fields(t@, '|')[2]);
        }
        Some(parts[2].clone())
    } else {
        None
    };
    Some(DictFields { w, pos, weight })
}

/// Trimmed fields that are not empty.
pub open spec fn nonempty_trimmed(fs: Seq<Seq<char>>) -> Seq<Seq<char>>
    decreases fs.len(),
{
    if fs.len() == 0 {
        Seq::empty()
    } else {
        let r = nonempty_trimmed(fs.drop_last());
        let t = trim_seq(fs.last());
        if t.len() == 0 {
            r
        } else {
            r.push(t)
        }
    }
}

/// Synonym row `正字,錯字,…`: the canonical word and its variants, when there are at least
/// two non-empty fields on a line that is neither empty nor a comment.
pub fn parse_synonym_line(line: &str) -> (r: Option<(String, Vec<String>)>)
    ensures
        ({
            let t = trim_seq(line@);
            let ps = nonempty_trimmed(fields(t, ','));
            match r {
                None => skipped_line(t) || ps.len() < 2,
                Some((c, vs)) => !skipped_line(t) && ps.len() >= 2 && c@ == ps[0] && vs@.map_values(|x: String| x@)
                    == ps.skip(1),
            }
        }),
{
    let t = trim(line);
    if is_skipped(t.as_str()) {
        return None;
    }
    let fs = split_fields(t.as_str(), ',');
    let ghost fv = fields(t@, ',');
    let mut parts: Vec<String> = Vec::new();
    let mut i: usize = 0;
    while i < fs.len()
        invariant
            fs@.map_values(|x: String| x@) == fv,
            i <= fs@.len(),
            parts@.map_values(|x: String| x@) == nonempty_trimmed(fv.subrange(0, i as int)),
        decreases fs@.len() - i,
    {
        let x = trim(fs[i].as_str());
        proof {
            assert(fv.subrange(0, i + 1).drop_last() =~= fv.subrange(0, i as int));
            assert(fs@[i as int]@ == fv[i as int]);
        }
        let ghost prev = parts@.map_values(|x: String| x@);
        if !x.as_str().is_empty() {
            parts.push(x);
            proof {
                assert(parts@.map_values(|x: String| x@) =~= prev.push(x@));
            }
        }
        i += 1;
    }
    proof {
        assert(fv.subrange(0, fv.len() as int) =~= fv);
    }
    if parts.len() < 2 {
        return None;
    }
    let ghost pv = parts@.map_values(|x: String| x@);
    let canonical = parts.remove(0);
    proof {
        assert(canonical@ == pv[0]);
        assert(parts@.map_values(|x: String| x@) =~= pv.skip(1));
    }
    Some((canonical, parts))
}

/// The segmentation dictionaries' directory under a dictionary root.
pub fn segment_dict_root(root: &str) -> (r: String)
    ensures
        r@ == root@ + "/segment"@,
{
    concat_str(root, "/segment")
}

/// The synonym dictionaries' directory under a dictionary root.
pub fn synonym_dict_root(root: &str) -> (r: String)
    ensures
        r@ == root@ + "/synonym"@,
{
    concat_str(root, "/synonym")
}

/// The stopword lists' directory under a dictionary root.
pub fn stopword_dict_root(root: &str) -> (r: String)
    ensures
        r@ == root@ + "/stopword"@,
{
    concat_str(root, "/stopword")
}

/// The blacklists' directory under a dictionary root.
pub fn blacklist_dict_root(root: &str) -> (r: String)
    ensures
        r@ == root@ + "/blacklist"@,
{
    concat_str(root, "/blacklist")
}

/// The files a dictionary name stands for: every file of a directory (for a name with
/// `*`, the directory before its last `/`, relative to the root; empty for the root), or
/// the first of the name, the name with `.txt`, the name with `.utf8` that exists.
pub enum NamedDict {
    Dir(String),
    Files(Vec<String>),
}

/// Where a dictionary name is looked for (`resolve_named` without the file system).
pub fn resolve_named(name: &str) -> (r: NamedDict)
    ensures
        name@.contains('*') ==> (r matches NamedDict::Dir(d) && (d@ == (if name@.contains('/') {
            name@.subrange(0, last_index_of(name@, '/'))
        } else {
            Seq::empty()
        }))),
        !name@.contains('*') ==> (r matches NamedDict::Files(fs) && fs@.len() == 3 && fs@[0]@ == name@
            && fs@[1]@ == name@ + ".txt"@ && fs@[2]@ == name@ + ".utf8"@),
{
    let cs = chars_of(name);
    let mut star = false;
    let mut slash: Option<usize> = None;
    let mut i: usize = 0;
    while i < cs.len()
        invariant
            cs@ == name@,
            i <= cs@.len(),
            star == (exists|j: int| 0 <= j < i && cs@[j] == '*'),
            match slash {
                Some(k) => k < i && cs@[k as int] == '/' && forall|j: int| k < j < i ==> cs@[j] != '/',
                None => forall|j: int| 0 <= j < i ==> cs@[j] != '/',
            },
        decreases cs@.len() - i,
    {
        if cs[i] == '*' {
            star = true;
        }
        if cs[i] == '/' {
            slash = Some(i);
        }
        i += 1;
    }
    proof {
        if star {
            let j = choose|j: int| 0 <= j < cs@.len() && cs@[j] == '*';
            assert(name@.contains('*')) by {
                assert(name@[j] == '*');
            }
        } else {
            assert(!name@.contains('*'));
        }
    }
    if star {
        let dir = match slash {
            Some(k) => {
                proof {
                    assert(name@.contains('/')) by {
                        assert(name@[k as int] == '/');
                    }
                    lemma_last_index(name@, '/', k as int);
                }
                string_from_chars(crate::strs::slice_of(&cs, 0, k))
            },
            None => {
                proof {
                    assert(!name@.contains('/'));
                }
                String::new()
            },
        };
        NamedDict::Dir(dir)
    } else {
        let mut fs: Vec<String> = Vec::new();
        fs.push(to_owned_string(name));
        fs.push(concat_str(name, ".txt"));
        fs.push(concat_str(name, ".utf8"));
        NamedDict::Files(fs)
    }
}

/// Index of the last `c` in `s` (when there is one).
pub open spec fn last_index_of(s: Seq<char>, c: char) -> int {
    choose|k: int| 0 <= k < s.len() && s[k] == c && forall|j: int| k < j < s.len() ==> s[j] != c
}

proof fn lemma_last_index(s: Seq<char>, c: char, k: int)
    requires
        0 <= k < s.len(),
        s[k] == c,
        forall|j: int| k < j < s.len() ==> s[j] != c,
    ensures
        last_index_of(s, c) == k,
{
    let m = last_index_of(s, c);
    assert(0 <= m < s.len() && s[m] == c && forall|j: int| m < j < s.len() ==> s[j] != c);
    if m < k {
        assert(s[k] != c);
    }
    if k < m {
        assert(s[m] != c);
    }
}

/// ASCII lowercase of one char.
pub open spec fn ascii_lower(c: char) -> char {
    if 'A' <= c && c <= 'Z' {
        ((c as u32) + 32) as char
    } else {
        c
    }
}

/// A file name a dictionary directory lists: not a Markdown file.
pub open spec fn dict_name_ok(name: Seq<char>) -> bool {
    !(name.map_values(|c: char| ascii_lower(c)) == "readme.md"@ || has_suffix(name, ".md"@))
}

/// Whether a file of a dictionary directory is read (not `README.md` in any case, not
/// `*.md`).
pub fn is_dict_file_name(name: &str) -> (r: bool)
    ensures
        r == dict_name_ok(name@),
{
    let cs = chars_of(name);
    let mut lower: Vec<char> = Vec::new();
    let mut i: usize = 0;
    while i < cs.len()
        invariant
            cs@ == name@,
            i <= cs@.len(),
            lower@ == cs@.subrange(0, i as int).map_values(|c: char| ascii_lower(c)),
        decreases cs@.len() - i,
    {
        let c = cs[i];
        let l = if 'A' <= c && c <= 'Z' {
            crate::strs::char_from_u32(crate::text::char_code(c) + 32)
        } else {
            Some(c)
        };
        let l = match l {
            Some(x) => x,
            None => c,
        };
        proof {
            if 'A' <= c && c <= 'Z' {
                crate::text::lemma_char_range(c);
            }
        }
        lower.push(l);
        proof {
            assert(lower@ =~= cs@.subrange(0, i + 1).map_values(|c: char| ascii_lower(c)));
        }
        i += 1;
    }
    proof {
        assert(cs@.subrange(0, cs@.len() as int) =~= cs@);
    }
    let ls = string_from_chars(lower.as_slice());
    !(crate::strs::str_eq(ls.as_str(), "readme.md") || crate::strs::ends_with(name, ".md"))
}

} // verus!
