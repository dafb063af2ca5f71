//! Small verified text utilities: character extraction and comparison,
//! decimal and hexadecimal number parsing, UTF-16 and byte-string encoding.

use vstd::prelude::*;

verus! {

/// The characters of `s`, in order.
pub fn collect_chars(s: &str) -> (r: Vec<char>)
    ensures
        r@ == s@,
{
    let n = s.unicode_len();
    let mut r: Vec<char> = Vec::new();
    let mut i: usize = 0;
    while i < n
        invariant
            i <= n,
            n == s@.len(),
            r@ == s@.subrange(0, i as int),
        decreases n - i,
    {
        r.push(s.get_char(i));
        proof {
            assert(r@ =~= s@.subrange(0, i + 1 as int));
        }
        i += 1;
    }
    proof {
        assert(s@.subrange(0, n as int) =~= s@);
    }
    r
}

/// Whether the character range `[lo, hi)` of `cs` spells exactly `s`.
pub fn chars_eq(cs: &Vec<char>, lo: usize, hi: usize, s: &str) -> (r: bool)
    requires
        lo <= hi <= cs@.len(),
    ensures
        r == (cs@.subrange(lo as int, hi as int) == s@),
{
    let m = s.unicode_len();
    if hi - lo != m {
        proof {
            assert(cs@.subrange(lo as int, hi as int).len() != s@.len());
        }
        return false;
    }
    let mut j: usize = 0;
    while j < m
        invariant
            j <= m,
            m == s@.len(),
            lo <= hi <= cs@.len(),
            hi - lo == m,
            forall|t: int| 0 <= t < j ==> cs@.subrange(lo as int, hi as int)[t] == s@[t],
        decreases m - j,
    {
        if s.get_char(j) != cs[lo + j] {
            proof {
                assert(cs@.subrange(lo as int, hi as int)[j as int] != s@[j as int]);
            }
            return false;
        }
        j += 1;
    }
    proof {
        assert(cs@.subrange(lo as int, hi as int) =~= s@);
    }
    true
}

pub open spec fn is_digit_char(c: char) -> bool {
    0x30 <= c as u32 <= 0x39
}

pub open spec fn is_hex_digit_char(c: char) -> bool {
    is_digit_char(c) || (0x41 <= c as u32 <= 0x46) || (0x61 <= c as u32 <= 0x66)
}

pub open spec fn digit_of(c: char) -> int {
    c as u32 - 0x30
}

/// The numeric value of a hexadecimal digit, either case.
pub open spec fn hex_digit_of(c: char) -> int {
    if is_digit_char(c) {
        c as u32 - 0x30
    } else if 0x41 <= c as u32 <= 0x46 {
        c as u32 - 0x41 + 10
    } else {
        c as u32 - 0x61 + 10
    }
}

/// The value of a decimal digit string, most significant digit first.
pub open spec fn dec_seq_val(s: Seq<char>) -> int
    decreases s.len(),
{
    if s.len() == 0 {
        0
    } else {
        dec_seq_val(s.drop_last()) * 10 + digit_of(s.last())
    }
}

/// The value of a hexadecimal digit string, most significant digit first.
pub open spec fn hex_seq_val(s: Seq<char>) -> int
    decreases s.len(),
{
    if s.len() == 0 {
        0
    } else {
        hex_seq_val(s.drop_last()) * 16 + hex_digit_of(s.last())
    }
}

pub open spec fn all_digit_chars(s: Seq<char>) -> bool {
    forall|i: int| 0 <= i < s.len() ==> is_digit_char(#[trigger] s[i])
}

pub open spec fn all_hex_digit_chars(s: Seq<char>) -> bool {
    forall|i: int| 0 <= i < s.len() ==> is_hex_digit_char(#[trigger] s[i])
}

/// What parsing an unsigned 32-bit decimal number from a digit string yields:
/// defined exactly when the string is non-empty, all decimal digits, and the
/// value fits.
pub open spec fn parse_u32_digits_spec(s: Seq<char>) -> Option<u32> {
    if s.len() > 0 && all_digit_chars(s) && dec_seq_val(s) <= u32::MAX {
        Some(dec_seq_val(s) as u32)
    } else {
        None
    }
}

/// What parsing a bare string of hexadecimal digits yields: defined exactly
/// when the string is non-empty, all hex digits, and the value fits.
pub open spec fn parse_hex_digits_spec(s: Seq<char>) -> Option<u32> {
    if s.len() > 0 && all_hex_digit_chars(s) && hex_seq_val(s) <= u32::MAX {
        Some(hex_seq_val(s) as u32)
    } else {
        None
    }
}

/// What parsing an unsigned 32-bit hexadecimal number yields, after an
/// optional leading plus sign, as the standard radix-16 unsigned parse does.
pub open spec fn parse_hex_u32_spec(s: Seq<char>) -> Option<u32> {
    if s.len() > 0 && s[0] == '+' {
        parse_hex_digits_spec(s.drop_first())
    } else {
        parse_hex_digits_spec(s)
    }
}

proof fn lemma_dec_nonneg(s: Seq<char>)
    requires
        all_digit_chars(s),
    ensures
        dec_seq_val(s) >= 0,
    decreases s.len(),
{
    if s.len() > 0 {
        assert(all_digit_chars(s.drop_last())) by {
            assert(forall|i: int| 0 <= i < s.len() - 1 ==> s.drop_last()[i] == s[i]);
        }
        lemma_dec_nonneg(s.drop_last());
        assert(dec_seq_val(s.drop_last()) * 10 >= 0) by (nonlinear_arith)
            requires
                dec_seq_val(s.drop_last()) >= 0,
        ;
    }
}

/// A digit-string prefix never exceeds the whole string's value.
proof fn lemma_dec_prefix(s: Seq<char>, i: int)
    requires
        all_digit_chars(s),
        0 <= i <= s.len(),
    ensures
        dec_seq_val(s.subrange(0, i)) <= dec_seq_val(s),
    decreases s.len(),
{
    if i == s.len() {
        assert(s.subrange(0, i) =~= s);
    } else {
        let d = s.drop_last();
        assert(all_digit_chars(d)) by {
            assert(forall|t: int| 0 <= t < d.len() ==> d[t] == s[t]);
        }
        assert(s.subrange(0, i) =~= d.subrange(0, i));
        lemma_dec_prefix(d, i);
        lemma_dec_nonneg(d);
        assert(dec_seq_val(d) * 10 >= dec_seq_val(d)) by (nonlinear_arith)
            requires
                dec_seq_val(d) >= 0,
        ;
    }
}

proof fn lemma_hex_nonneg(s: Seq<char>)
    requires
        all_hex_digit_chars(s),
    ensures
        hex_seq_val(s) >= 0,
    decreases s.len(),
{
    if s.len() > 0 {
        assert(all_hex_digit_chars(s.drop_last())) by {
            assert(forall|i: int| 0 <= i < s.len() - 1 ==> s.drop_last()[i] == s[i]);
        }
        lemma_hex_nonneg(s.drop_last());
        assert(hex_seq_val(s.drop_last()) * 16 >= 0) by (nonlinear_arith)
            requires
                hex_seq_val(s.drop_last()) >= 0,
        ;
    }
}

proof fn lemma_hex_prefix(s: Seq<char>, i: int)
    requires
        all_hex_digit_chars(s),
        0 <= i <= s.len(),
    ensures
        hex_seq_val(s.subrange(0, i)) <= hex_seq_val(s),
    decreases s.len(),
{
    if i == s.len() {
        assert(s.subrange(0, i) =~= s);
    } else {
        let d = s.drop_last();
        assert(all_hex_digit_chars(d)) by {
            assert(forall|t: int| 0 <= t < d.len() ==> d[t] == s[t]);
        }
        assert(s.subrange(0, i) =~= d.subrange(0, i));
        lemma_hex_prefix(d, i);
        lemma_hex_nonneg(d);
        assert(hex_seq_val(d) * 16 >= hex_seq_val(d)) by (nonlinear_arith)
            requires
                hex_seq_val(d) >= 0,
        ;
    }
}

/// Parse the character range `[lo, hi)` of `cs` as a decimal `u32`.
pub fn parse_u32_digits(cs: &Vec<char>, lo: usize, hi: usize) -> (r: Option<u32>)
    requires
        lo <= hi <= cs@.len(),
    ensures
        r == parse_u32_digits_spec(cs@.subrange(lo as int, hi as int)),
{
    let ghost whole = cs@.subrange(lo as int, hi as int);
    if lo == hi {
        return None;
    }
    let mut acc: u32 = 0;
    let mut j: usize = lo;
    while j < hi
        invariant
            lo <= j <= hi <= cs@.len(),
            whole == cs@.subrange(lo as int, hi as int),
            all_digit_chars(cs@.subrange(lo as int, j as int)),
            acc == dec_seq_val(cs@.subrange(lo as int, j as int)),
        decreases hi - j,
    {
        let c = cs[j];
        let cu = c as u32;
        if cu < 0x30 || cu > 0x39 {
            proof {
                assert(whole[j - lo] == c);
                assert(!all_digit_chars(whole));
            }
            return None;
        }
        let d = cu - 0x30;
        let wide: u64 = acc as u64 * 10 + d as u64;
        proof {
            assert(cs@.subrange(lo as int, j + 1 as int).drop_last() =~= cs@.subrange(
                lo as int,
                j as int,
            ));
            assert(dec_seq_val(cs@.subrange(lo as int, j + 1 as int)) == wide);
            assert(all_digit_chars(cs@.subrange(lo as int, j + 1 as int))) by {
                let nxt = cs@.subrange(lo as int, j + 1 as int);
                assert(forall|t: int| 0 <= t < nxt.len() - 1 ==> nxt[t] == cs@.subrange(
                    lo as int,
                    j as int,
                )[t]);
                assert(nxt.last() == c);
            }
        }
        if wide > 0xFFFF_FFFF {
            proof {
                if all_digit_chars(whole) {
                    assert(whole.subrange(0, j + 1 - lo) =~= cs@.subrange(lo as int, j + 1 as int));
                    lemma_dec_prefix(whole, j + 1 - lo);
                }
            }
            return None;
        }
        acc = wide as u32;
        j += 1;
    }
    proof {
        assert(cs@.subrange(lo as int, j as int) =~= whole);
    }
    Some(acc)
}

/// Parse the character range `[lo, hi)` of `cs` as a hexadecimal `u32`,
/// accepting one optional leading plus sign, as the standard radix-16
/// unsigned parse does.
pub fn parse_hex_u32(cs: &Vec<char>, lo: usize, hi: usize) -> (r: Option<u32>)
    requires
        lo <= hi <= cs@.len(),
    ensures
        r == parse_hex_u32_spec(cs@.subrange(lo as int, hi as int)),
{
    let ghost orig = cs@.subrange(lo as int, hi as int);
    if lo < hi && cs[lo] == '+' {
        proof {
            assert(orig[0] == '+');
            assert(orig.drop_first() =~= cs@.subrange(lo + 1 as int, hi as int));
        }
        parse_hex_digits(cs, lo + 1, hi)
    } else {
        parse_hex_digits(cs, lo, hi)
    }
}

/// Parse the character range `[lo, hi)` of `cs` as bare hexadecimal digits.
fn parse_hex_digits(cs: &Vec<char>, lo: usize, hi: usize) -> (r: Option<u32>)
    requires
        lo <= hi <= cs@.len(),
    ensures
        r == parse_hex_digits_spec(cs@.subrange(lo as int, hi as int)),
{
    let ghost whole = cs@.subrange(lo as int, hi as int);
    if lo == hi {
        return None;
    }
    let mut acc: u32 = 0;
    let mut j: usize = lo;
    while j < hi
        invariant
            lo <= j <= hi <= cs@.len(),
            whole == cs@.subrange(lo as int, hi as int),
            all_hex_digit_chars(cs@.subrange(lo as int, j as int)),
            acc == hex_seq_val(cs@.subrange(lo as int, j as int)),
        decreases hi - j,
    {
        let c = cs[j];
        let cu = c as u32;
        let d: u32 = if cu >= 0x30 && cu <= 0x39 {
            cu - 0x30
        } else if cu >= 0x41 && cu <= 0x46 {
            cu - 0x41 + 10
        } else if cu >= 0x61 && cu <= 0x66 {
            cu - 0x61 + 10
        } else {
            proof {
                assert(whole[j - lo] == c);
                assert(!all_hex_digit_chars(whole));
            }
            return None;
        };
        let wide: u64 = acc as u64 * 16 + d as u64;
        proof {
            assert(cs@.subrange(lo as int, j + 1 as int).drop_last() =~= cs@.subrange(
                lo as int,
                j as int,
            ));
            assert(hex_seq_val(cs@.subrange(lo as int, j + 1 as int)) == wide);
            assert(all_hex_digit_chars(cs@.subrange(lo as int, j + 1 as int))) by {
                let nxt = cs@.subrange(lo as int, j + 1 as int);
                assert(forall|t: int| 0 <= t < nxt.len() - 1 ==> nxt[t] == cs@.subrange(
                    lo as int,
                    j as int,
                )[t]);
                assert(nxt.last() == c);
            }
        }
        if wide > 0xFFFF_FFFF {
            proof {
                if all_hex_digit_chars(whole) {
                    assert(whole.subrange(0, j + 1 - lo) =~= cs@.subrange(lo as int, j + 1 as int));
                    lemma_hex_prefix(whole, j + 1 - lo);
                }
            }
            return None;
        }
        acc = wide as u32;
        j += 1;
    }
    proof {
        assert(cs@.subrange(lo as int, j as int) =~= whole);
    }
    Some(acc)
}

/// The UTF-16 code units of one character.
pub open spec fn utf16_units(c: char) -> Seq<u16> {
    let u = c as u32;
    if u < 0x10000 {
        seq![u as u16]
    } else {
        seq![
            (0xD800 + (u - 0x10000) / 0x400) as u16,
            (0xDC00 + (u - 0x10000) % 0x400) as u16,
        ]
    }
}

/// The UTF-16 encoding of a character sequence.
pub open spec fn utf16_of(s: Seq<char>) -> Seq<u16>
    decreases s.len(),
{
    if s.len() == 0 {
        Seq::empty()
    } else {
        utf16_of(s.drop_last()) + utf16_units(s.last())
    }
}

/// The UTF-16 encoding of `src` followed by one terminating zero unit, as a
/// platform wide-string call expects.
pub fn to_wchar(src: &str) -> (r: Vec<u16>)
    ensures
        r@ == utf16_of(src@).push(0u16),
{
    let n = src.unicode_len();
    let mut r: Vec<u16> = Vec::new();
    let mut i: usize = 0;
    while i < n
        invariant
            i <= n,
            n == src@.len(),
            r@ == utf16_of(src@.subrange(0, i as int)),
        decreases n - i,
    {
        let c = src.get_char(i);
        let u = c as u32;
        proof {
            assert(src@.subrange(0, i + 1 as int).drop_last() =~= src@.subrange(0, i as int));
            assert(src@.subrange(0, i + 1 as int).last() == c);
        }
        if u < 0x10000 {
            r.push(u as u16);
            proof {
                assert(r@ =~= utf16_of(src@.subrange(0, i + 1 as int)));
            }
        } else {
            let off = u - 0x10000;
            r.push((0xD800 + off / 0x400) as u16);
            r.push((0xDC00 + off % 0x400) as u16);
            proof {
                assert(r@ =~= utf16_of(src@.subrange(0, i + 1 as int)));
            }
        }
        i += 1;
    }
    proof {
        assert(src@.subrange(0, n as int) =~= src@);
    }
    r.push(0);
    r
}

/// `src` with one terminating zero byte appended, for calls that expect a
/// zero-terminated byte string.
pub fn bstr(src: &[u8]) -> (r: Vec<u8>)
    ensures
        r@ == src@.push(0u8),
{
    let mut r: Vec<u8> = Vec::new();
    let mut i: usize = 0;
    while i < src.len()
        invariant
            i <= src@.len(),
            r@ == src@.subrange(0, i as int),
        decreases src@.len() - i,
    {
        r.push(src[i]);
        proof {
            assert(r@ =~= src@.subrange(0, i + 1 as int));
        }
        i += 1;
    }
    proof {
        assert(src@.subrange(0, src@.len() as int) =~= src@);
    }
    r.push(0);
    r
}


/// Drop leading characters satisfying `p`.
pub open spec fn trim_front_by(s: Seq<char>, p: spec_fn(char) -> bool) -> Seq<char>
    decreases s.len(),
{
    if s.len() > 0 && p(s[0]) {
        trim_front_by(s.drop_first(), p)
    } else {
        s
    }
}

/// Drop trailing characters satisfying `p`.
pub open spec fn trim_back_by(s: Seq<char>, p: spec_fn(char) -> bool) -> Seq<char>
    decreases s.len(),
{
    if s.len() > 0 && p(s.last()) {
        trim_back_by(s.drop_last(), p)
    } else {
        s
    }
}

/// Drop characters satisfying `p` from both ends.
pub open spec fn trim_by(s: Seq<char>, p: spec_fn(char) -> bool) -> Seq<char> {
    trim_back_by(trim_front_by(s, p), p)
}

/// `trim_front_by` keeps exactly the suffix from the first index whose
/// character fails `p`.
pub proof fn lemma_trim_front_by(s: Seq<char>, p: spec_fn(char) -> bool, lo: int)
    requires
        0 <= lo <= s.len(),
        forall|t: int| 0 <= t < lo ==> p(s[t]),
        lo < s.len() ==> !p(s[lo]),
    ensures
        trim_front_by(s, p) == s.subrange(lo, s.len() as int),
    decreases lo,
{
    if lo == 0 {
        assert(s.subrange(0, s.len() as int) =~= s);
    } else {
        assert(p(s[0]));
        let d = s.drop_first();
        lemma_trim_front_by(d, p, lo - 1);
        assert(d.subrange(lo - 1, d.len() as int) =~= s.subrange(lo, s.len() as int));
    }
}

/// `trim_back_by` keeps exactly the prefix up to the last index whose
/// character fails `p`.
pub proof fn lemma_trim_back_by(s: Seq<char>, p: spec_fn(char) -> bool, hi: int)
    requires
        0 <= hi <= s.len(),
        forall|t: int| hi <= t < s.len() ==> p(s[t]),
        hi > 0 ==> !p(s[hi - 1]),
    ensures
        trim_back_by(s, p) == s.subrange(0, hi),
    decreases s.len() - hi,
{
    if hi == s.len() {
        if s.len() > 0 {
            assert(!p(s.last()));
        }
        assert(s.subrange(0, s.len() as int) =~= s);
    } else {
        assert(p(s.last()));
        let d = s.drop_last();
        lemma_trim_back_by(d, p, hi);
        assert(d.subrange(0, hi) =~= s.subrange(0, hi));
    }
}


/// A lowered ASCII letter: `c` must be an uppercase ASCII letter's code
/// offset (0 for `A`).
fn lower_letter_str(d: u32) -> (r: &'static str)
    requires
        d < 26,
    ensures
        r@ == seq![((d + 0x61) as u8) as char],
{
    if d == 0 {
        proof {
            reveal_strlit("a");
            assert("a"@ =~= seq!['a']);
        }
        "a"
    } else if d == 1 {
        proof {
            reveal_strlit("b");
            assert("b"@ =~= seq!['b']);
        }
        "b"
    } else if d == 2 {
        proof {
            reveal_strlit("c");
            assert("c"@ =~= seq!['c']);
        }
        "c"
    } else if d == 3 {
        proof {
            reveal_strlit("d");
            assert("d"@ =~= seq!['d']);
        }
        "d"
    } else if d == 4 {
        proof {
            reveal_strlit("e");
            assert("e"@ =~= seq!['e']);
        }
        "e"
    } else if d == 5 {
        proof {
            reveal_strlit("f");
            assert("f"@ =~= seq!['f']);
        }
        "f"
    } else if d == 6 {
        proof {
            reveal_strlit("g");
            assert("g"@ =~= seq!['g']);
        }
        "g"
    } else if d == 7 {
        proof {
            reveal_strlit("h");
            assert("h"@ =~= seq!['h']);
        }
        "h"
    } else if d == 8 {
        proof {
            reveal_strlit("i");
            assert("i"@ =~= seq!['i']);
        }
        "i"
    } else if d == 9 {
        proof {
            reveal_strlit("j");
            assert("j"@ =~= seq!['j']);
        }
        "j"
    } else if d == 10 {
        proof {
            reveal_strlit("k");
            assert("k"@ =~= seq!['k']);
        }
        "k"
    } else if d == 11 {
        proof {
            reveal_strlit("l");
            assert("l"@ =~= seq!['l']);
        }
        "l"
    } else if d == 12 {
        proof {
            reveal_strlit("m");
            assert("m"@ =~= seq!['m']);
        }
        "m"
    } else if d == 13 {
        proof {
            reveal_strlit("n");
            assert("n"@ =~= seq!['n']);
        }
        "n"
    } else if d == 14 {
        proof {
            reveal_strlit("o");
            assert("o"@ =~= seq!['o']);
        }
        "o"
    } else if d == 15 {
        proof {
            reveal_strlit("p");
            assert("p"@ =~= seq!['p']);
        }
        "p"
    } else if d == 16 {
        proof {
            reveal_strlit("q");
            assert("q"@ =~= seq!['q']);
        }
        "q"
    } else if d == 17 {
        proof {
            reveal_strlit("r");
            assert("r"@ =~= seq!['r']);
        }
        "r"
    } else if d == 18 {
        proof {
            reveal_strlit("s");
            assert("s"@ =~= seq!['s']);
        }
        "s"
    } else if d == 19 {
        proof {
            reveal_strlit("t");
            assert("t"@ =~= seq!['t']);
        }
        "t"
    } else if d == 20 {
        proof {
            reveal_strlit("u");
            assert("u"@ =~= seq!['u']);
        }
        "u"
    } else if d == 21 {
        proof {
            reveal_strlit("v");
            assert("v"@ =~= seq!['v']);
        }
        "v"
    } else if d == 22 {
        proof {
            reveal_strlit("w");
            assert("w"@ =~= seq!['w']);
        }
        "w"
    } else if d == 23 {
        proof {
            reveal_strlit("x");
            assert("x"@ =~= seq!['x']);
        }
        "x"
    } else if d == 24 {
        proof {
            reveal_strlit("y");
            assert("y"@ =~= seq!['y']);
        }
        "y"
    } else if d == 25 {
        proof {
            reveal_strlit("z");
            assert("z"@ =~= seq!['z']);
        }
        "z"
    } else {
        proof {
            reveal_strlit("z");
            assert("z"@ =~= seq!['z']);
        }
        "z"
    }
}

/// An uppercase ASCII letter lowered; any other character unchanged.
pub open spec fn to_lower_char(c: char) -> char {
    if 0x41 <= c as u32 <= 0x5A {
        ((c as u32 + 0x20) as u8) as char
    } else {
        c
    }
}

/// The string with its uppercase ASCII letters lowered, as the standard
/// ASCII lowercasing does.
pub open spec fn lower_seq(s: Seq<char>) -> Seq<char> {
    s.map_values(|c: char| to_lower_char(c))
}

/// Lower the ASCII uppercase letters of `s` (see [`lower_seq`]).
pub fn to_lowercase_ascii(s: &str) -> (r: String)
    ensures
        r@ == lower_seq(s@),
{
    let n = s.unicode_len();
    let mut out = String::new();
    let mut i: usize = 0;
    while i < n
        invariant
            i <= n,
            n == s@.len(),
            out@ == lower_seq(s@.subrange(0, i as int)),
        decreases n - i,
    {
        let c = s.get_char(i);
        let u = c as u32;
        if 0x41 <= u && u <= 0x5A {
            out.append(lower_letter_str(u - 0x41));
        } else {
            out.append(s.substring_char(i, i + 1));
        }
        proof {
            assert(out@ =~= lower_seq(s@.subrange(0, i + 1 as int)));
        }
        i += 1;
    }
    proof {
        assert(s@.subrange(0, n as int) =~= s@);
    }
    out
}

} // verus!
