//! Text helpers whose length, slicing and char positions count UTF-16 code units.
use vstd::prelude::*;
use crate::strs::{char_from_u32, chars_of, slice_of, string_from_chars};

verus! {

pub open spec fn is_high_surrogate(u: u16) -> bool {
    0xD800 <= u && u <= 0xDBFF
}

pub open spec fn is_low_surrogate(u: u16) -> bool {
    0xDC00 <= u && u <= 0xDFFF
}

pub open spec fn is_surrogate(u: u16) -> bool {
    0xD800 <= u && u <= 0xDFFF
}

/// One UTF-16 unit encodes the char.
pub open spec fn is_bmp_char(c: char) -> bool {
    (c as u32) < 0x10000
}

pub open spec fn all_bmp(s: Seq<char>) -> bool {
    forall|i: int| 0 <= i < s.len() ==> is_bmp_char(#[trigger] s[i])
}

/// UTF-16 encoding of one char.
pub open spec fn char_units(c: char) -> Seq<u16> {
    let v = c as u32;
    if v < 0x10000 {
        seq![v as u16]
    } else {
        let x = v - 0x10000;
        seq![(0xD800 + x / 0x400) as u16, (0xDC00 + x % 0x400) as u16]
    }
}

/// UTF-16 encoding of a char sequence (`str::encode_utf16`).
pub open spec fn encode_utf16(s: Seq<char>) -> Seq<u16>
    decreases s.len(),
{
    if s.len() == 0 {
        Seq::empty()
    } else {
        encode_utf16(s.drop_last()) + char_units(s.last())
    }
}

/// The scalar value of a surrogate pair.
pub open spec fn pair_value(hi: u16, lo: u16) -> u32 {
    (0x10000 + (hi - 0xD800) * 0x400 + (lo - 0xDC00)) as u32
}

/// `String::from_utf16_lossy`: pairs decode to one char, a lone surrogate to U+FFFD.
pub open spec fn decode_utf16_lossy(u: Seq<u16>) -> Seq<char>
    decreases u.len(),
{
    if u.len() == 0 {
        Seq::empty()
    } else if u.len() >= 2 && is_high_surrogate(u[0]) && is_low_surrogate(u[1]) {
        seq![pair_value(u[0], u[1]) as char] + decode_utf16_lossy(u.skip(2))
    } else if is_surrogate(u[0]) {
        seq!['\u{FFFD}'] + decode_utf16_lossy(u.skip(1))
    } else {
        seq![(u[0] as u32) as char] + decode_utf16_lossy(u.skip(1))
    }
}

/// Length in UTF-16 units.
pub open spec fn u16_len(s: Seq<char>) -> nat {
    encode_utf16(s).len()
}

pub open spec fn min_int(a: int, b: int) -> int {
    if a < b {
        a
    } else {
        b
    }
}

/// Units `start .. start + len` (cut to the text), decoded lossily.
pub open spec fn unit_slice(s: Seq<char>, start: int, len: int) -> Seq<char> {
    let u = encode_utf16(s);
    if len == 0 || start >= u.len() {
        Seq::empty()
    } else {
        decode_utf16_lossy(u.subrange(start, min_int(start + len, u.len() as int)))
    }
}

/// Units from `start` on, decoded lossily.
pub open spec fn unit_tail(s: Seq<char>, start: int) -> Seq<char> {
    let u = encode_utf16(s);
    if start >= u.len() {
        Seq::empty()
    } else {
        decode_utf16_lossy(u.subrange(start, u.len() as int))
    }
}

/// The char at unit `i`, `None` past the end or on a lone surrogate unit.
pub open spec fn unit_char_at(s: Seq<char>, i: int) -> Option<char> {
    let u = encode_utf16(s);
    if 0 <= i < u.len() && !is_surrogate(u[i]) {
        Some((u[i] as u32) as char)
    } else {
        None
    }
}

/// Every `char` is a Unicode scalar value.
pub proof fn lemma_char_range(c: char)
    ensures
        (c as u32) <= 0x10FFFF,
        !(0xD800 <= (c as u32) && (c as u32) <= 0xDFFF),
        ((c as u32) as char) == c,
{
}

/// `c as u32` with its range.
pub fn char_code(c: char) -> (r: u32)
    ensures
        r == c as u32,
        r <= 0x10FFFF,
        !(0xD800 <= r && r <= 0xDFFF),
{
    proof {
        lemma_char_range(c);
    }
    c as u32
}

pub proof fn lemma_encode_len_bound(s: Seq<char>)
    ensures
        s.len() <= encode_utf16(s).len() <= 2 * s.len(),
    decreases s.len(),
{
    if s.len() > 0 {
        lemma_encode_len_bound(s.drop_last());
    }
}

/// On BMP text, UTF-16 units are the chars themselves.
pub proof fn lemma_encode_bmp(s: Seq<char>)
    requires
        all_bmp(s),
    ensures
        encode_utf16(s).len() == s.len(),
        forall|i: int|
            0 <= i < s.len() ==> #[trigger] encode_utf16(s)[i] == (s[i] as u32) as u16
                && !is_surrogate(encode_utf16(s)[i]),
    decreases s.len(),
{
    if s.len() > 0 {
        let t = s.drop_last();
        assert(all_bmp(t)) by {
            assert forall|i: int| 0 <= i < t.len() implies is_bmp_char(#[trigger] t[i]) by {
                assert(t[i] == s[i]);
            }
        }
        lemma_encode_bmp(t);
        assert(is_bmp_char(s[s.len() - 1]));
        lemma_char_range(s[s.len() - 1]);
        assert forall|i: int| 0 <= i < s.len() implies #[trigger] encode_utf16(s)[i] == (
        s[i] as u32) as u16 && !is_surrogate(encode_utf16(s)[i]) by {
            if i < s.len() - 1 {
                assert(encode_utf16(s)[i] == encode_utf16(t)[i]);
                assert(t[i] == s[i]);
            }
        }
    }
}

/// Units with no surrogates decode one char per unit.
pub proof fn lemma_decode_plain(u: Seq<u16>)
    requires
        forall|i: int| 0 <= i < u.len() ==> !is_surrogate(#[trigger] u[i]),
    ensures
        decode_utf16_lossy(u).len() == u.len(),
        forall|i: int|
            0 <= i < u.len() ==> #[trigger] decode_utf16_lossy(u)[i] == (u[i] as u32) as char,
    decreases u.len(),
{
    if u.len() > 0 {
        let t = u.skip(1);
        assert forall|i: int| 0 <= i < t.len() implies !is_surrogate(#[trigger] t[i]) by {
            assert(t[i] == u[i + 1]);
        }
        lemma_decode_plain(t);
        assert forall|i: int| 0 <= i < u.len() implies #[trigger] decode_utf16_lossy(u)[i] == (
        u[i] as u32) as char by {
            if i > 0 {
                assert(t[i - 1] == u[i]);
            }
        }
    }
}

/// On BMP text, decoding a range of units gives back that range of chars.
pub proof fn lemma_bmp_slice(s: Seq<char>, a: int, b: int)
    requires
        all_bmp(s),
        0 <= a <= b <= s.len(),
    ensures
        decode_utf16_lossy(encode_utf16(s).subrange(a, b)) == s.subrange(a, b),
{
    lemma_encode_bmp(s);
    let u = encode_utf16(s).subrange(a, b);
    assert forall|i: int| 0 <= i < u.len() implies !is_surrogate(#[trigger] u[i]) by {
        assert(u[i] == encode_utf16(s)[a + i]);
    }
    lemma_decode_plain(u);
    assert forall|i: int| 0 <= i < b - a implies #[trigger] decode_utf16_lossy(u)[i] == s.subrange(
        a,
        b,
    )[i] by {
        assert(u[i] == encode_utf16(s)[a + i]);
        assert(is_bmp_char(s[a + i]));
        lemma_char_range(s[a + i]);
    }
    assert(decode_utf16_lossy(u) =~= s.subrange(a, b));
}

/// On BMP text the unit helpers are plain char operations.
pub proof fn lemma_bmp_units(s: Seq<char>)
    requires
        all_bmp(s),
    ensures
        u16_len(s) == s.len(),
        forall|a: int, l: int|
            0 <= a && 0 <= l ==> #[trigger] unit_slice(s, a, l) == (if l == 0 || a >= s.len() {
                Seq::<char>::empty()
            } else {
                s.subrange(a, min_int(a + l, s.len() as int))
            }),
        forall|a: int|
            0 <= a ==> #[trigger] unit_tail(s, a) == (if a >= s.len() {
                Seq::<char>::empty()
            } else {
                s.subrange(a, s.len() as int)
            }),
        forall|i: int|
            #[trigger] unit_char_at(s, i) == (if 0 <= i < s.len() {
                Some(s[i])
            } else {
                None::<char>
            }),
{
    lemma_encode_bmp(s);
    assert forall|a: int, l: int| 0 <= a && 0 <= l implies #[trigger] unit_slice(s, a, l) == (if l
        == 0 || a >= s.len() {
        Seq::<char>::empty()
    } else {
        s.subrange(a, min_int(a + l, s.len() as int))
    }) by {
        if !(l == 0 || a >= s.len()) {
            lemma_bmp_slice(s, a, min_int(a + l, s.len() as int));
        }
    }
    assert forall|a: int| 0 <= a implies #[trigger] unit_tail(s, a) == (if a >= s.len() {
        Seq::<char>::empty()
    } else {
        s.subrange(a, s.len() as int)
    }) by {
        if a < s.len() {
            lemma_bmp_slice(s, a, s.len() as int);
        }
    }
    assert forall|i: int| #[trigger] unit_char_at(s, i) == (if 0 <= i < s.len() {
        Some(s[i])
    } else {
        None::<char>
    }) by {
        if 0 <= i < s.len() {
            assert(is_bmp_char(s[i]));
            lemma_char_range(s[i]);
        }
    }
}

/// Decoding `u` gives a text of exactly `u.len()` UTF-16 units.
pub proof fn lemma_decode_len(u: Seq<u16>)
    ensures
        u16_len(decode_utf16_lossy(u)) == u.len(),
    decreases u.len(),
{
    if u.len() > 0 {
        let d = decode_utf16_lossy(u);
        if u.len() >= 2 && is_high_surrogate(u[0]) && is_low_surrogate(u[1]) {
            let c = pair_value(u[0], u[1]) as char;
            lemma_decode_len(u.skip(2));
            assert(0x10000 <= pair_value(u[0], u[1]) <= 0x10FFFF);
            assert((pair_value(u[0], u[1]) as char) as u32 == pair_value(u[0], u[1]));
            lemma_encode_prepend(c, decode_utf16_lossy(u.skip(2)));
        } else if is_surrogate(u[0]) {
            lemma_decode_len(u.skip(1));
            lemma_encode_prepend('\u{FFFD}', decode_utf16_lossy(u.skip(1)));
        } else {
            lemma_decode_len(u.skip(1));
            let c = (u[0] as u32) as char;
            assert((((u[0] as u32) as char) as u32) == u[0] as u32);
            lemma_encode_prepend(c, decode_utf16_lossy(u.skip(1)));
        }
    }
}

/// Encoding distributes over concatenation.
pub proof fn lemma_encode_add(a: Seq<char>, b: Seq<char>)
    ensures
        encode_utf16(a + b) == encode_utf16(a) + encode_utf16(b),
    decreases b.len(),
{
    if b.len() == 0 {
        assert(a + b =~= a);
        assert(encode_utf16(a) + Seq::<u16>::empty() =~= encode_utf16(a));
    } else {
        lemma_encode_add(a, b.drop_last());
        assert((a + b).drop_last() =~= a + b.drop_last());
        assert((a + b).last() == b.last());
        assert(encode_utf16(a) + encode_utf16(b.drop_last()) + char_units(b.last()) =~= encode_utf16(
            a,
        ) + (encode_utf16(b.drop_last()) + char_units(b.last())));
    }
}

proof fn lemma_encode_prepend(c: char, s: Seq<char>)
    ensures
        encode_utf16(seq![c] + s).len() == char_units(c).len() + encode_utf16(s).len(),
{
    lemma_encode_add(seq![c], s);
    assert(seq![c].drop_last() =~= Seq::<char>::empty());
    assert(seq![c].last() == c);
    assert(encode_utf16(Seq::<char>::empty()) == Seq::<u16>::empty());
    assert(encode_utf16(seq![c]) == encode_utf16(Seq::<char>::empty()) + char_units(c));
    assert(encode_utf16(seq![c]) =~= char_units(c));
}

/// A char's units decode back to the char, whatever follows them.
proof fn lemma_decode_char(c: char, rest: Seq<u16>)
    ensures
        decode_utf16_lossy(char_units(c) + rest) == seq![c] + decode_utf16_lossy(rest),
{
    lemma_char_range(c);
    let v = c as u32;
    let u = char_units(c) + rest;
    if v < 0x10000 {
        assert(u[0] == v as u16);
        assert(!is_surrogate(u[0]));
        assert(u.skip(1) =~= rest);
        assert(((u[0] as u32) as char) == c);
    } else {
        let x = v - 0x10000;
        assert(0 <= x < 0x100000);
        let hi = (0xD800 + x / 0x400) as u16;
        let lo = (0xDC00 + x % 0x400) as u16;
        assert(x / 0x400 < 0x400) by (nonlinear_arith)
            requires
                0 <= x < 0x100000,
        ;
        assert(x % 0x400 < 0x400) by (nonlinear_arith)
            requires
                0 <= x,
        ;
        assert(u[0] == hi && u[1] == lo);
        assert(is_high_surrogate(u[0]) && is_low_surrogate(u[1]));
        assert((x / 0x400) * 0x400 + x % 0x400 == x) by (nonlinear_arith)
            requires
                0 <= x,
        ;
        assert(pair_value(u[0], u[1]) == v);
        assert(u.skip(2) =~= rest);
    }
}

/// Decoding the units of a text gives the text back.
pub proof fn lemma_decode_encode(s: Seq<char>)
    ensures
        decode_utf16_lossy(encode_utf16(s)) == s,
    decreases s.len(),
{
    if s.len() > 0 {
        let c = s[0];
        let rest = s.skip(1);
        lemma_decode_encode(rest);
        assert(s =~= seq![c] + rest);
        lemma_encode_add(seq![c], rest);
        assert(seq![c].drop_last() =~= Seq::<char>::empty());
        assert(seq![c].last() == c);
        assert(encode_utf16(Seq::<char>::empty()) == Seq::<u16>::empty());
        assert(encode_utf16(seq![c]) == encode_utf16(Seq::<char>::empty()) + char_units(c));
        assert(encode_utf16(seq![c]) =~= char_units(c));
        lemma_decode_char(c, encode_utf16(rest));
        assert(seq![c] + rest =~= s);
    }
}

/// Decoding splits at a unit that does not close a surrogate pair.
pub proof fn lemma_decode_split(u: Seq<u16>, k: int)
    requires
        0 <= k <= u.len(),
        k == u.len() || !is_low_surrogate(u[k]),
    ensures
        decode_utf16_lossy(u) == decode_utf16_lossy(u.take(k)) + decode_utf16_lossy(u.skip(k)),
    decreases k,
{
    if k == 0 {
        assert(u.take(0) =~= Seq::<u16>::empty());
        assert(u.skip(0) =~= u);
        assert(Seq::<char>::empty() + decode_utf16_lossy(u) =~= decode_utf16_lossy(u));
    } else {
        let p = u.take(k);
        if u.len() >= 2 && is_high_surrogate(u[0]) && is_low_surrogate(u[1]) {
            assert(k >= 2);
            lemma_decode_split(u.skip(2), k - 2);
            assert(u.skip(2).take(k - 2) =~= p.skip(2));
            assert(u.skip(2).skip(k - 2) =~= u.skip(k));
            assert(p[0] == u[0] && p[1] == u[1]);
        } else {
            lemma_decode_split(u.skip(1), k - 1);
            assert(u.skip(1).take(k - 1) =~= p.skip(1));
            assert(u.skip(1).skip(k - 1) =~= u.skip(k));
            assert(p[0] == u[0]);
            if p.len() >= 2 {
                assert(p[1] == u[1]);
            }
        }
    }
}

/// The units before `k` and the units from `k` on, both decoded, give back the text when
/// `k` does not fall inside a surrogate pair (always so on BMP text): what `char_slice`
/// from 0 and `char_substr_from` give at one position spell the text together.
pub proof fn lemma_slice_then_rest(s: Seq<char>, k: int)
    requires
        0 <= k,
        k >= u16_len(s) || !is_low_surrogate(encode_utf16(s)[k]),
    ensures
        unit_slice(s, 0, k) + unit_tail(s, k) == s,
{
    let u = encode_utf16(s);
    lemma_encode_len_bound(s);
    lemma_decode_encode(s);
    if k >= u.len() {
        if u.len() == 0 {
            assert(s.len() == 0);
            assert(unit_slice(s, 0, k) + unit_tail(s, k) =~= s);
        } else {
            assert(u.subrange(0, u.len() as int) =~= u);
            assert(unit_slice(s, 0, k) + unit_tail(s, k) =~= s);
        }
    } else if k == 0 {
        assert(u.subrange(0, u.len() as int) =~= u);
        assert(unit_slice(s, 0, k) + unit_tail(s, k) =~= s);
    } else {
        lemma_decode_split(u, k);
        assert(u.subrange(0, k) =~= u.take(k));
        assert(u.subrange(k, u.len() as int) =~= u.skip(k));
    }
}

/// In the units of a text, a low surrogate always follows a high one.
pub proof fn lemma_low_follows_high(s: Seq<char>, k: int)
    requires
        0 <= k < encode_utf16(s).len(),
        is_low_surrogate(encode_utf16(s)[k]),
    ensures
        k > 0,
        is_high_surrogate(encode_utf16(s)[k - 1]),
    decreases s.len(),
{
    let t = s.drop_last();
    let c = s.last();
    let a = encode_utf16(t);
    lemma_char_range(c);
    if k < a.len() {
        lemma_low_follows_high(t, k);
    } else {
        let v = c as u32;
        if v >= 0x10000 {
            let x = v - 0x10000;
            assert(x / 0x400 < 0x400) by (nonlinear_arith)
                requires
                    0 <= x < 0x100000,
            ;
            assert(x % 0x400 < 0x400) by (nonlinear_arith)
                requires
                    0 <= x,
            ;
        }
    }
}

/// Units that start with a low surrogate decode to U+FFFD first.
pub proof fn lemma_decode_low_first(v: Seq<u16>)
    requires
        v.len() > 0,
        is_low_surrogate(v[0]),
    ensures
        decode_utf16_lossy(v).len() > 0,
        decode_utf16_lossy(v)[0] == '\u{FFFD}',
{
}

/// Units that end with a high surrogate decode to a text holding U+FFFD.
pub proof fn lemma_decode_high_last(v: Seq<u16>)
    requires
        v.len() > 0,
        is_high_surrogate(v.last()),
    ensures
        decode_utf16_lossy(v).contains('\u{FFFD}'),
    decreases v.len(),
{
    let d = decode_utf16_lossy(v);
    if v.len() == 1 {
        assert(d[0] == '\u{FFFD}');
    } else if is_high_surrogate(v[0]) && is_low_surrogate(v[1]) {
        if v.len() == 2 {
            assert(false);
        }
        let r = v.skip(2);
        assert(r.last() == v.last());
        lemma_decode_high_last(r);
        let j = choose|j: int| 0 <= j < decode_utf16_lossy(r).len() && decode_utf16_lossy(r)[j] == '\u{FFFD}';
        assert(d[j + 1] == '\u{FFFD}');
    } else {
        let r = v.skip(1);
        assert(r.last() == v.last());
        lemma_decode_high_last(r);
        let j = choose|j: int| 0 <= j < decode_utf16_lossy(r).len() && decode_utf16_lossy(r)[j] == '\u{FFFD}';
        assert(d[j + 1] == '\u{FFFD}');
    }
}

/// Unit position `k` of a text is a char boundary: it does not fall inside a surrogate pair.
pub open spec fn unit_boundary(s: Seq<char>, k: int) -> bool {
    0 <= k <= u16_len(s) && (k == u16_len(s) || !is_low_surrogate(encode_utf16(s)[k]))
}

/// A piece of a text that decodes to a word without U+FFFD starts and ends on char
/// boundaries.
pub proof fn lemma_piece_boundaries(s: Seq<char>, c: int, l: int)
    requires
        0 <= c,
        1 <= l,
        c + l <= u16_len(s),
        !decode_utf16_lossy(encode_utf16(s).subrange(c, c + l)).contains('\u{FFFD}'),
    ensures
        unit_boundary(s, c),
        unit_boundary(s, c + l),
{
    let u = encode_utf16(s);
    let v = u.subrange(c, c + l);
    if is_low_surrogate(u[c]) {
        assert(v[0] == u[c]);
        lemma_decode_low_first(v);
        assert(decode_utf16_lossy(v).contains('\u{FFFD}'));
    }
    if c + l < u.len() && is_low_surrogate(u[c + l]) {
        lemma_low_follows_high(s, c + l);
        assert(v.last() == u[c + l - 1]);
        lemma_decode_high_last(v);
    }
}

/// Decoding the units between two boundaries of a text, then the units between the next
/// ones, is decoding the units between the outer two.
pub proof fn lemma_decode_join(s: Seq<char>, a: int, b: int, c: int)
    requires
        0 <= a <= b <= c <= u16_len(s),
        unit_boundary(s, b),
    ensures
        decode_utf16_lossy(encode_utf16(s).subrange(a, c)) == decode_utf16_lossy(encode_utf16(s).subrange(a, b))
            + decode_utf16_lossy(encode_utf16(s).subrange(b, c)),
{
    let u = encode_utf16(s);
    let v = u.subrange(a, c);
    if b < c {
        assert(v[b - a] == u[b]);
    }
    lemma_decode_split(v, b - a);
    assert(v.take(b - a) =~= u.subrange(a, b));
    assert(v.skip(b - a) =~= u.subrange(b, c));
}

/// A surrogate pair decodes to a char whose units are the pair.
proof fn lemma_pair_units(hi: u16, lo: u16)
    requires
        is_high_surrogate(hi),
        is_low_surrogate(lo),
    ensures
        0x10000 <= pair_value(hi, lo) <= 0x10FFFF,
        char_units(pair_value(hi, lo) as char) == seq![hi, lo],
{
    let a = (hi - 0xD800) as int;
    let b = (lo - 0xDC00) as int;
    assert(0 <= a < 0x400 && 0 <= b < 0x400);
    assert(0 <= a * 0x400 + b < 0x100000) by (nonlinear_arith)
        requires
            0 <= a < 0x400,
            0 <= b < 0x400,
    ;
    let v = pair_value(hi, lo);
    assert(v == 0x10000 + a * 0x400 + b);
    assert((v as char) as u32 == v);
    let x = v - 0x10000;
    assert(x / 0x400 == a && x % 0x400 == b) by (nonlinear_arith)
        requires
            x == a * 0x400 + b,
            0 <= b < 0x400,
            0 <= a,
    ;
    assert(char_units(v as char) =~= seq![hi, lo]);
}

/// Decoding units, encoding the text again and decoding a range of that, is decoding the
/// same range of the units: lone surrogates come out as U+FFFD either way.
pub proof fn lemma_redecode(x: Seq<u16>, a: int, b: int)
    requires
        0 <= a <= b <= x.len(),
    ensures
        encode_utf16(decode_utf16_lossy(x)).len() == x.len(),
        decode_utf16_lossy(encode_utf16(decode_utf16_lossy(x)).subrange(a, b)) == decode_utf16_lossy(x.subrange(a, b)),
    decreases x.len(),
{
    lemma_decode_len(x);
    if x.len() > 0 {
        let d = decode_utf16_lossy(x);
        let pair = x.len() >= 2 && is_high_surrogate(x[0]) && is_low_surrogate(x[1]);
        let m: int = if pair {
            2
        } else {
            1
        };
        let xr = x.skip(m);
        let c0 = d[0];
        assert(d == seq![c0] + decode_utf16_lossy(xr));
        lemma_encode_add(seq![c0], decode_utf16_lossy(xr));
        assert(seq![c0].drop_last() =~= Seq::<char>::empty());
        assert(seq![c0].last() == c0);
        assert(encode_utf16(Seq::<char>::empty()) == Seq::<u16>::empty());
        assert(encode_utf16(seq![c0]) == encode_utf16(Seq::<char>::empty()) + char_units(c0));
        assert(encode_utf16(seq![c0]) =~= char_units(c0));
        let cu = char_units(c0);
        let yr = encode_utf16(decode_utf16_lossy(xr));
        let y = encode_utf16(d);
        assert(y == cu + yr);
        lemma_decode_len(xr);
        if pair {
            lemma_pair_units(x[0], x[1]);
            assert(cu == seq![x[0], x[1]]);
        } else if is_surrogate(x[0]) {
            assert(c0 == '\u{FFFD}');
            assert(cu =~= seq![0xFFFDu16]);
        } else {
            assert(((x[0] as u32) as char) as u32 == x[0] as u32);
            assert(cu =~= seq![x[0]]);
        }
        assert(cu.len() == m);
        if a >= m {
            lemma_redecode(xr, a - m, b - m);
            assert(y.subrange(a, b) =~= yr.subrange(a - m, b - m));
            assert(x.subrange(a, b) =~= xr.subrange(a - m, b - m));
        } else if b <= m {
            if pair || !is_surrogate(x[0]) {
                assert(y.subrange(a, b) =~= x.subrange(a, b));
            } else {
                assert(a == 0 && b <= 1);
                if b == 1 {
                    let ys = y.subrange(0, 1);
                    let xs = x.subrange(0, 1);
                    assert(ys.skip(1) =~= Seq::<u16>::empty());
                    assert(xs.skip(1) =~= Seq::<u16>::empty());
                    assert(ys[0] == 0xFFFDu16);
                    lemma_char_range('\u{FFFD}');
                    assert(('\u{FFFD}' as u32) == 0xFFFD);
                    assert(((ys[0] as u32) as char) == '\u{FFFD}');
                    assert(decode_utf16_lossy(Seq::<u16>::empty()) =~= Seq::<char>::empty());
                    assert(decode_utf16_lossy(ys.skip(1)) =~= Seq::<char>::empty());
                    assert(!is_surrogate(ys[0]));
                    assert(decode_utf16_lossy(ys) == seq![(ys[0] as u32) as char] + decode_utf16_lossy(ys.skip(1)));
                    assert(decode_utf16_lossy(ys) =~= seq!['\u{FFFD}']);
                    assert(decode_utf16_lossy(xs) =~= seq!['\u{FFFD}']);
                } else {
                    assert(y.subrange(a, b) =~= x.subrange(a, b));
                }
            }
        } else if a == 0 {
            lemma_redecode(xr, 0, b - m);
            let ys = y.subrange(0, b);
            let xs = x.subrange(0, b);
            lemma_decode_char(c0, yr.subrange(0, b - m));
            assert(ys =~= cu + yr.subrange(0, b - m));
            assert(xs.skip(m) =~= xr.subrange(0, b - m));
            assert(xs[0] == x[0]);
            assert(xs[1] == x[1]);
            assert(decode_utf16_lossy(xs) == seq![c0] + decode_utf16_lossy(xr.subrange(0, b - m)));
        } else {
            assert(a == 1 && m == 2);
            lemma_redecode(xr, 0, b - 2);
            let ys = y.subrange(1, b);
            let xs = x.subrange(1, b);
            assert(ys[0] == x[1]);
            assert(xs[0] == x[1]);
            assert(ys.skip(1) =~= yr.subrange(0, b - 2));
            assert(xs.skip(1) =~= xr.subrange(0, b - 2));
        }
    }
}

/// The units of a text from `k` on, decoded, then cut again at `j`, are the units of the
/// text from `k + j` on, decoded; and their first `j` units are the text's units
/// `k .. k + j`.
pub proof fn lemma_unit_tail_tail(s: Seq<char>, k: int, j: int)
    requires
        0 <= k <= u16_len(s),
        0 <= j,
        k + j <= u16_len(s),
    ensures
        unit_tail(unit_tail(s, k), j) == unit_tail(s, k + j),
        j > 0 ==> unit_slice(unit_tail(s, k), 0, j) == unit_slice(s, k, j),
        u16_len(unit_tail(s, k)) == u16_len(s) - k,
{
    let u = encode_utf16(s);
    let x = u.subrange(k, u.len() as int);
    if k < u.len() {
        lemma_redecode(x, j, x.len() as int);
        lemma_redecode(x, 0, j);
        assert(x.subrange(j, x.len() as int) =~= u.subrange(k + j, u.len() as int));
        assert(x.subrange(0, j) =~= u.subrange(k, k + j));
        lemma_decode_len(x);
    } else {
        assert(encode_utf16(Seq::<char>::empty()) =~= Seq::<u16>::empty());
    }
}

/// True when every char is in the BMP (one UTF-16 unit each).
pub fn is_bmp(s: &str) -> (r: bool)
    ensures
        r == all_bmp(s@),
{
    let cs = chars_of(s);
    let mut i: usize = 0;
    while i < cs.len()
        invariant
            cs@ == s@,
            i <= cs.len(),
            forall|j: int| 0 <= j < i ==> is_bmp_char(#[trigger] cs@[j]),
        decreases cs.len() - i,
    {
        if (cs[i] as u32) >= 0x10000 {
            assert(!is_bmp_char(cs@[i as int]));
            return false;
        }
        i = i + 1;
    }
    true
}

/// UTF-16 units of `s`.
pub fn utf16_units(s: &str) -> (r: Vec<u16>)
    ensures
        r@ == encode_utf16(s@),
{
    let cs = chars_of(s);
    let mut out: Vec<u16> = Vec::new();
    let mut i: usize = 0;
    while i < cs.len()
        invariant
            cs@ == s@,
            i <= cs.len(),
            out@ == encode_utf16(cs@.take(i as int)),
        decreases cs.len() - i,
    {
        let v = char_code(cs[i]);
        if v < 0x10000 {
            out.push(v as u16);
        } else {
            let x = v - 0x10000;
            assert(x <= 0xFFFFF);
            out.push((0xD800 + x / 0x400) as u16);
            out.push((0xDC00 + x % 0x400) as u16);
        }
        proof {
            let t = cs@.take(i + 1);
            assert(t.drop_last() =~= cs@.take(i as int));
            assert(t.last() == cs@[i as int]);
            assert(out@ =~= encode_utf16(cs@.take(i as int)) + char_units(cs@[i as int]));
        }
        i = i + 1;
    }
    assert(cs@.take(cs@.len() as int) =~= cs@);
    out
}

/// `String::from_utf16_lossy`.
pub fn decode_lossy(u: &[u16]) -> (r: String)
    ensures
        r@ == decode_utf16_lossy(u@),
{
    let n = u.len();
    let mut out: Vec<char> = Vec::new();
    let mut i: usize = 0;
    assert(u@.subrange(0, n as int) =~= u@);
    while i < n
        invariant
            n == u.len(),
            i <= n,
            decode_utf16_lossy(u@) == out@ + decode_utf16_lossy(u@.subrange(i as int, n as int)),
        decreases n - i,
    {
        let t = Ghost(u@.subrange(i as int, n as int));
        let a = u[i];
        if i + 1 < n && 0xD800 <= a && a <= 0xDBFF && 0xDC00 <= u[i + 1] && u[i + 1] <= 0xDFFF {
            let b = u[i + 1];
            let v: u32 = 0x10000 + (a as u32 - 0xD800) * 0x400 + (b as u32 - 0xDC00);
            let c = char_from_u32(v);
            match c {
                Some(ch) => {
                    out.push(ch);
                },
                None => {
                    assert(false);
                },
            }
            proof {
                assert(t@[0] == a && t@[1] == b);
                assert(t@.skip(2) =~= u@.subrange(i + 2, n as int));
                assert(v == pair_value(a, b));
            }
            i = i + 2;
        } else if 0xD800 <= a && a <= 0xDFFF {
            out.push('\u{FFFD}');
            proof {
                assert(t@[0] == a);
                assert(t@.skip(1) =~= u@.subrange(i + 1, n as int));
                if i + 1 < n {
                    assert(t@[1] == u@[i + 1]);
                }
            }
            i = i + 1;
        } else {
            let c = char_from_u32(a as u32);
            match c {
                Some(ch) => {
                    out.push(ch);
                },
                None => {
                    assert(false);
                },
            }
            proof {
                assert(t@[0] == a);
                assert(t@.skip(1) =~= u@.subrange(i + 1, n as int));
            }
            i = i + 1;
        }
    }
    assert(u@.subrange(n as int, n as int) =~= Seq::<u16>::empty());
    assert(out@ + Seq::<char>::empty() =~= out@);
    string_from_chars(out.as_slice())
}

/// Length in UTF-16 code units.
pub fn char_len(s: &str) -> (r: usize)
    ensures
        r == u16_len(s@),
{
    utf16_units(s).len()
}

/// Bound `start + len` by `n`.
fn clamp_end(start: usize, len: usize, n: usize) -> (r: usize)
    requires
        start < n,
    ensures
        r == min_int(start + len, n as int),
        start < r <= n || len == 0,
{
    if len < n - start {
        start + len
    } else {
        n
    }
}

/// Units `start .. start + len` of the text.
pub fn char_slice(s: &str, start: usize, len: usize) -> (r: String)
    ensures
        r@ == unit_slice(s@, start as int, len as int),
{
    if len == 0 {
        return String::new();
    }
    if is_bmp(s) {
        let cs = chars_of(s);
        proof {
            lemma_bmp_units(s@);
        }
        if start >= cs.len() {
            return String::new();
        }
        let end = clamp_end(start, len, cs.len());
        return string_from_chars(slice_of(&cs, start, end));
    }
    let units = utf16_units(s);
    if start >= units.len() {
        return String::new();
    }
    let end = clamp_end(start, len, units.len());
    decode_lossy(slice_of(&units, start, end))
}

/// Units from `start` on, decoded lossily.
pub fn char_substr_from(s: &str, start: usize) -> (r: String)
    ensures
        r@ == unit_tail(s@, start as int),
{
    if is_bmp(s) {
        let cs = chars_of(s);
        proof {
            lemma_bmp_units(s@);
        }
        if start >= cs.len() {
            return String::new();
        }
        return string_from_chars(slice_of(&cs, start, cs.len()));
    }
    let units = utf16_units(s);
    if start >= units.len() {
        return String::new();
    }
    decode_lossy(slice_of(&units, start, units.len()))
}

/// Slice already-materialized BMP code points (1:1 with UTF-16 units).
pub fn slice_chars(chars: &[char], start: usize, len: usize) -> (r: Option<String>)
    ensures
        match r {
            Some(x) => start + len <= chars@.len() && x@ == chars@.subrange(
                start as int,
                start + len,
            ),
            None => start + len > chars@.len(),
        },
{
    if len > chars.len() || start > chars.len() - len {
        None
    } else {
        Some(string_from_chars(vstd::slice::slice_subrange(chars, start, start + len)))
    }
}

/// Slice already-materialized UTF-16 units, decoding lossily.
pub fn slice_utf16(units: &[u16], start: usize, len: usize) -> (r: Option<String>)
    ensures
        match r {
            Some(x) => start + len <= units@.len() && x@ == decode_utf16_lossy(
                units@.subrange(start as int, start + len),
            ),
            None => start + len > units@.len(),
        },
{
    if len > units.len() || start > units.len() - len {
        None
    } else {
        Some(decode_lossy(vstd::slice::slice_subrange(units, start, start + len)))
    }
}

/// The char at one UTF-16 unit.
pub fn char_at(s: &str, i: usize) -> (r: Option<char>)
    ensures
        r == unit_char_at(s@, i as int),
{
    let units = utf16_units(s);
    if i < units.len() && !(0xD800 <= units[i] && units[i] <= 0xDFFF) {
        char_from_u32(units[i] as u32)
    } else {
        None
    }
}

/// Only `\r` and `\n`, and at least one char.
pub open spec fn newline_only(s: Seq<char>) -> bool {
    s.len() > 0 && forall|i: int| 0 <= i < s.len() ==> #[trigger] s[i] == '\r' || s[i] == '\n'
}

pub fn is_newline_only(s: &str) -> (r: bool)
    ensures
        r == newline_only(s@),
{
    let cs = chars_of(s);
    if cs.len() == 0 {
        return false;
    }
    let mut i: usize = 0;
    while i < cs.len()
        invariant
            cs@ == s@,
            i <= cs.len(),
            forall|j: int| 0 <= j < i ==> #[trigger] cs@[j] == '\r' || cs@[j] == '\n',
        decreases cs.len() - i,
    {
        if cs[i] != '\r' && cs[i] != '\n' {
            return false;
        }
        i = i + 1;
    }
    true
}

/// End of the run of copies of `u[0..unit]` that starts at `p` (copies laid end to end).
pub open spec fn run_end(u: Seq<u16>, unit: int, p: int) -> int
    decreases u.len() - p,
{
    if unit > 0 && p >= 0 && p + unit <= u.len() && u.subrange(p, p + unit) == u.subrange(0, unit) {
        run_end(u, unit, p + unit)
    } else {
        p
    }
}

/// A UTF-16 unit that `.` of a regular expression does not match: a line terminator.
pub open spec fn line_unit(c: u16) -> bool {
    c == 0x0A || c == 0x0D || c == 0x2028 || c == 0x2029
}

/// The first `unit` units hold no line terminator.
pub open spec fn unit_ok(u: Seq<u16>, unit: int) -> bool {
    forall|k: int| 0 <= k < unit ==> !line_unit(#[trigger] u[k])
}

/// Largest `unit <= from`, free of line terminators, whose prefix repeats at least six
/// times from the start; the run of its copies then goes as far as they repeat.
pub open spec fn last_repeat_run(u: Seq<u16>, unit: int) -> Option<int>
    decreases unit,
{
    if unit < 1 {
        None
    } else if unit_ok(u, unit) && run_end(u, unit, unit) >= 6 * unit {
        Some(run_end(u, unit, unit))
    } else {
        last_repeat_run(u, unit - 1)
    }
}

/// The length of the match of `^((.+)\2{5,})` on UTF-16 units: the greedy `(.+)` gives
/// the longest chunk (without line terminators) that is followed by at least five more
/// copies of itself, and the copies are taken as far as they go.
pub open spec fn leading_run(u: Seq<u16>) -> Option<int> {
    if u.len() < 6 {
        None
    } else {
        last_repeat_run(u, (u.len() / 6) as int)
    }
}

pub proof fn lemma_run_end_bound(u: Seq<u16>, unit: int, p: int)
    requires
        0 <= p <= u.len(),
    ensures
        p <= run_end(u, unit, p) <= u.len(),
    decreases u.len() - p,
{
    if unit > 0 && p + unit <= u.len() && u.subrange(p, p + unit) == u.subrange(0, unit) {
        lemma_run_end_bound(u, unit, p + unit);
    }
}

fn units_eq(u: &Vec<u16>, a: usize, b: usize, len: usize) -> (r: bool)
    requires
        a + len <= u.len(),
        b + len <= u.len(),
    ensures
        r == (u@.subrange(a as int, a + len) == u@.subrange(b as int, b + len)),
{
    let mut k: usize = 0;
    while k < len
        invariant
            a + len <= u.len(),
            b + len <= u.len(),
            k <= len,
            u@.subrange(a as int, a + k) == u@.subrange(b as int, b + k),
        decreases len - k,
    {
        if u[a + k] != u[b + k] {
            assert(u@.subrange(a as int, a + len)[k as int] != u@.subrange(b as int, b + len)[k as int]);
            return false;
        }
        assert(u@.subrange(a as int, a + k + 1) =~= u@.subrange(a as int, a + k).push(u@[a + k]));
        assert(u@.subrange(b as int, b + k + 1) =~= u@.subrange(b as int, b + k).push(u@[b + k]));
        k = k + 1;
    }
    assert(u@.subrange(a as int, a + len) =~= u@.subrange(b as int, b + len));
    true
}

/// Length of the match of `^((.+)\2{5,})` (a chunk without line terminators, as `.`
/// matches none, and at least five more copies of it, the chunk as long as possible), if
/// the text starts with such a run.
pub fn leading_repeat_run(text: &str) -> (r: Option<usize>)
    ensures
        match r {
            Some(p) => leading_run(encode_utf16(text@)) == Some(p as int),
            None => leading_run(encode_utf16(text@)) is None,
        },
{
    let units = utf16_units(text);
    let n = units.len();
    if n < 6 {
        return None;
    }
    let mut unit: usize = n / 6;
    while unit >= 1
        invariant
            units@ == encode_utf16(text@),
            n == units.len(),
            n >= 6,
            unit <= n / 6,
            leading_run(units@) == last_repeat_run(units@, unit as int),
        decreases unit,
    {
        assert(unit * 6 <= n) by (nonlinear_arith)
            requires
                unit <= n / 6,
        ;
        let mut ok = true;
        let mut k: usize = 0;
        while k < unit
            invariant
                n == units.len(),
                unit <= n,
                k <= unit,
                ok == forall|j: int| 0 <= j < k ==> !line_unit(#[trigger] units@[j]),
            decreases unit - k,
        {
            let c = units[k];
            if c == 0x0A || c == 0x0D || c == 0x2028 || c == 0x2029 {
                ok = false;
            }
            k = k + 1;
        }
        if ok {
            let mut pos: usize = unit;
            while unit <= n - pos && units_eq(&units, pos, 0, unit)
                invariant
                    n == units.len(),
                    1 <= unit,
                    unit <= pos <= n,
                    run_end(units@, unit as int, unit as int) == run_end(units@, unit as int, pos as int),
                decreases n - pos,
            {
                pos = pos + unit;
            }
            if pos >= unit * 6 {
                return Some(pos);
            }
        }
        unit = unit - 1;
    }
    None
}

} // verus!
