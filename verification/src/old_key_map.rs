//! Importing bindings from the older line-based text format: the
//! display-name-to-code table and the line parser.

use vstd::prelude::*;

use crate::keys::{canon_of, Keys};
use crate::text::{
    chars_eq, collect_chars, is_digit_char, lemma_trim_back_by, lemma_trim_front_by, lower_seq,
    parse_u32_digits, parse_u32_digits_spec, to_lowercase_ascii, trim_by,
};
use crate::vk::{
    VK_ADD, VK_BACK, VK_CAPITAL, VK_CONTROL, VK_DECIMAL, VK_DELETE, VK_DIVIDE, VK_END, VK_ESCAPE,
    VK_HOME, VK_INSERT, VK_LEFT, VK_MENU, VK_MULTIPLY, VK_NEXT, VK_OEM_1, VK_OEM_102, VK_OEM_2,
    VK_OEM_3, VK_OEM_4, VK_OEM_5, VK_OEM_6, VK_OEM_7, VK_OEM_COMMA, VK_OEM_MINUS, VK_OEM_PERIOD,
    VK_OEM_PLUS, VK_PAUSE, VK_PRIOR, VK_RETURN, VK_RIGHT, VK_SHIFT, VK_SNAPSHOT, VK_SPACE,
    VK_SUBTRACT, VK_TAB, VK_UP, VK_DOWN,
};

verus! {

/// The whitespace characters stripped from key names.
pub open spec fn is_ws_char(c: char) -> bool {
    let u = c as u32;
    u == 0x09 || u == 0x0A || u == 0x0B || u == 0x0C || u == 0x0D || u == 0x20 || u == 0x85
        || u == 0xA0 || u == 0x1680 || (0x2000 <= u && u <= 0x200A) || u == 0x2028 || u == 0x2029
        || u == 0x202F || u == 0x205F || u == 0x3000
}

/// The name with surrounding whitespace removed.
pub open spec fn trim_ws(s: Seq<char>) -> Seq<char> {
    trim_by(s, |c: char| is_ws_char(c))
}

/// The name with non-digit characters removed from both ends.
pub open spec fn digit_trim(s: Seq<char>) -> Seq<char> {
    trim_by(s, |c: char| !is_digit_char(c))
}

/// The code a fixed lowercase key name denotes, if any.
pub open spec fn named_key_code(t: Seq<char>) -> Option<u32> {
    if t == "esc"@ { Some(VK_ESCAPE)
    } else if t == "tab"@ { Some(VK_TAB)
    } else if t == "capslock"@ { Some(VK_CAPITAL)
    } else if t == "shift"@ { Some(VK_SHIFT)
    } else if t == "ctrl"@ { Some(VK_CONTROL)
    } else if t == "alt"@ { Some(VK_MENU)
    } else if t == "backspace"@ { Some(VK_BACK)
    } else if t == "enter"@ { Some(VK_RETURN)
    } else if t == "space"@ { Some(VK_SPACE)
    } else if t == "printscreen"@ { Some(VK_SNAPSHOT)
    } else if t == "pause"@ { Some(VK_PAUSE)
    } else if t == "insert"@ { Some(VK_INSERT)
    } else if t == "delete"@ { Some(VK_DELETE)
    } else if t == "home"@ { Some(VK_HOME)
    } else if t == "end"@ { Some(VK_END)
    } else if t == "pageup"@ { Some(VK_PRIOR)
    } else if t == "pagedown"@ { Some(VK_NEXT)
    } else if t == "up"@ { Some(VK_UP)
    } else if t == "down"@ { Some(VK_DOWN)
    } else if t == "left"@ { Some(VK_LEFT)
    } else if t == "right"@ { Some(VK_RIGHT)
    } else if t == "num+"@ { Some(VK_ADD)
    } else if t == "num-"@ { Some(VK_SUBTRACT)
    } else if t == "num*"@ { Some(VK_MULTIPLY)
    } else if t == "num/"@ { Some(VK_DIVIDE)
    } else if t == "num."@ { Some(VK_DECIMAL)
    } else if t == "-"@ { Some(VK_OEM_MINUS)
    } else if t == ";"@ { Some(VK_OEM_PLUS)
    } else if t == ","@ { Some(VK_OEM_COMMA)
    } else if t == "."@ { Some(VK_OEM_PERIOD)
    } else if t == ":"@ { Some(VK_OEM_1)
    } else if t == "/"@ { Some(VK_OEM_2)
    } else if t == "@"@ { Some(VK_OEM_3)
    } else if t == "["@ { Some(VK_OEM_4)
    } else if t == "\\"@ { Some(VK_OEM_5)
    } else if t == "]"@ { Some(VK_OEM_6)
    } else if t == "^"@ { Some(VK_OEM_7)
    } else if t == "_"@ { Some(VK_OEM_102)
    } else { None }
}

pub open spec fn is_ascii_control_char(c: char) -> bool {
    (c as u32) < 0x20 || c as u32 == 0x7F
}

/// A lowercase ASCII letter mapped to its uppercase code; anything else is
/// its own code point.
pub open spec fn upper_code(c: char) -> u32 {
    if 0x61 <= c as u32 <= 0x7A {
        (c as u32 - 0x20) as u32
    } else {
        c as u32
    }
}

/// A `num<digits>` name: the numeric-keypad code for the digits between the
/// non-digit ends, when they parse and the sum stays a code.
pub open spec fn numpad_name_code(s: Seq<char>) -> Option<u32> {
    match parse_u32_digits_spec(digit_trim(s)) {
        Some(v) => if v + 0x60 <= u32::MAX {
            Some((v + 0x60) as u32)
        } else {
            None
        },
        None => None,
    }
}

/// An `f<digits>` name: the function-key code, numbered from one.
pub open spec fn function_name_code(s: Seq<char>) -> Option<u32> {
    match parse_u32_digits_spec(digit_trim(s)) {
        Some(v) => if 0x70 + v - 1 <= u32::MAX {
            Some((0x70 + v - 1) as u32)
        } else {
            None
        },
        None => None,
    }
}

/// The virtual-key code a configuration key name denotes. Fixed names are
/// matched after whitespace trimming; otherwise a one-byte name is taken as
/// the (uppercased) character itself unless it is a control character; names
/// beginning `num` or `f` number into the keypad or function-key ranges.
/// Overflowing numbers yield `None`.
pub open spec fn str_to_vk_spec(s: Seq<char>) -> Option<u32> {
    let t = trim_ws(s);
    if named_key_code(t).is_some() {
        named_key_code(t)
    } else if s.len() == 1 && (s[0] as u32) < 0x80 {
        if !is_ascii_control_char(s[0]) {
            Some(upper_code(s[0]))
        } else {
            None
        }
    } else if s.len() >= 3 && s[0] == 'n' && s[1] == 'u' && s[2] == 'm' {
        numpad_name_code(s)
    } else if s.len() >= 1 && s[0] == 'f' {
        function_name_code(s)
    } else {
        None
    }
}

fn is_ws(c: char) -> (r: bool)
    ensures
        r == is_ws_char(c),
{
    let u = c as u32;
    u == 0x09 || u == 0x0A || u == 0x0B || u == 0x0C || u == 0x0D || u == 0x20 || u == 0x85
        || u == 0xA0 || u == 0x1680 || (0x2000 <= u && u <= 0x200A) || u == 0x2028 || u == 0x2029
        || u == 0x202F || u == 0x205F || u == 0x3000
}

fn is_digit(c: char) -> (r: bool)
    ensures
        r == is_digit_char(c),
{
    let u = c as u32;
    0x30 <= u && u <= 0x39
}

/// Parse the digit run left between the non-digit ends of `cs`.
fn parse_digit_trimmed(cs: &Vec<char>) -> (r: Option<u32>)
    ensures
        r == parse_u32_digits_spec(digit_trim(cs@)),
{
    let n = cs.len();
    let mut d0: usize = 0;
    while d0 < n && !is_digit(cs[d0])
        invariant
            d0 <= n,
            n == cs@.len(),
            forall|t: int| 0 <= t < d0 ==> !is_digit_char(cs@[t]),
        decreases n - d0,
    {
        d0 += 1;
    }
    let mut d1: usize = n;
    while d1 > d0 && !is_digit(cs[d1 - 1])
        invariant
            d0 <= d1 <= n,
            n == cs@.len(),
            forall|t: int| d1 <= t < n ==> !is_digit_char(cs@[t]),
        decreases d1,
    {
        d1 -= 1;
    }
    proof {
        let p = |c: char| !is_digit_char(c);
        lemma_trim_front_by(cs@, p, d0 as int);
        let f = cs@.subrange(d0 as int, n as int);
        lemma_trim_back_by(f, p, d1 - d0);
        assert(f.subrange(0, d1 - d0) =~= cs@.subrange(d0 as int, d1 as int));
        assert(digit_trim(cs@) == cs@.subrange(d0 as int, d1 as int));
    }
    parse_u32_digits(cs, d0, d1)
}

/// The virtual-key code a configuration key name denotes (see
/// [`str_to_vk_spec`]).
pub fn str_to_vk(k: &str) -> (r: Option<u32>)
    ensures
        r == str_to_vk_spec(k@),
{
    let cs = collect_chars(k);
    let n = cs.len();
    let mut lo: usize = 0;
    while lo < n && is_ws(cs[lo])
        invariant
            lo <= n,
            n == cs@.len(),
            cs@ == k@,
            forall|t: int| 0 <= t < lo ==> is_ws_char(cs@[t]),
        decreases n - lo,
    {
        lo += 1;
    }
    let mut hi: usize = n;
    while hi > lo && is_ws(cs[hi - 1])
        invariant
            lo <= hi <= n,
            n == cs@.len(),
            cs@ == k@,
            forall|t: int| hi <= t < n ==> is_ws_char(cs@[t]),
        decreases hi,
    {
        hi -= 1;
    }
    proof {
        let p = |c: char| is_ws_char(c);
        lemma_trim_front_by(cs@, p, lo as int);
        let f = cs@.subrange(lo as int, n as int);
        lemma_trim_back_by(f, p, hi - lo);
        assert(f.subrange(0, hi - lo) =~= cs@.subrange(lo as int, hi as int));
        assert(trim_ws(cs@) == cs@.subrange(lo as int, hi as int));
    }
    if chars_eq(&cs, lo, hi, "esc") {
        return Some(VK_ESCAPE);
    }
    if chars_eq(&cs, lo, hi, "tab") {
        return Some(VK_TAB);
    }
    if chars_eq(&cs, lo, hi, "capslock") {
        return Some(VK_CAPITAL);
    }
    if chars_eq(&cs, lo, hi, "shift") {
        return Some(VK_SHIFT);
    }
    if chars_eq(&cs, lo, hi, "ctrl") {
        return Some(VK_CONTROL);
    }
    if chars_eq(&cs, lo, hi, "alt") {
        return Some(VK_MENU);
    }
    if chars_eq(&cs, lo, hi, "backspace") {
        return Some(VK_BACK);
    }
    if chars_eq(&cs, lo, hi, "enter") {
        return Some(VK_RETURN);
    }
    if chars_eq(&cs, lo, hi, "space") {
        return Some(VK_SPACE);
    }
    if chars_eq(&cs, lo, hi, "printscreen") {
        return Some(VK_SNAPSHOT);
    }
    if chars_eq(&cs, lo, hi, "pause") {
        return Some(VK_PAUSE);
    }
    if chars_eq(&cs, lo, hi, "insert") {
        return Some(VK_INSERT);
    }
    if chars_eq(&cs, lo, hi, "delete") {
        return Some(VK_DELETE);
    }
    if chars_eq(&cs, lo, hi, "home") {
        return Some(VK_HOME);
    }
    if chars_eq(&cs, lo, hi, "end") {
        return Some(VK_END);
    }
    if chars_eq(&cs, lo, hi, "pageup") {
        return Some(VK_PRIOR);
    }
    if chars_eq(&cs, lo, hi, "pagedown") {
        return Some(VK_NEXT);
    }
    if chars_eq(&cs, lo, hi, "up") {
        return Some(VK_UP);
    }
    if chars_eq(&cs, lo, hi, "down") {
        return Some(VK_DOWN);
    }
    if chars_eq(&cs, lo, hi, "left") {
        return Some(VK_LEFT);
    }
    if chars_eq(&cs, lo, hi, "right") {
        return Some(VK_RIGHT);
    }
    if chars_eq(&cs, lo, hi, "num+") {
        return Some(VK_ADD);
    }
    if chars_eq(&cs, lo, hi, "num-") {
        return Some(VK_SUBTRACT);
    }
    if chars_eq(&cs, lo, hi, "num*") {
        return Some(VK_MULTIPLY);
    }
    if chars_eq(&cs, lo, hi, "num/") {
        return Some(VK_DIVIDE);
    }
    if chars_eq(&cs, lo, hi, "num.") {
        return Some(VK_DECIMAL);
    }
    if chars_eq(&cs, lo, hi, "-") {
        return Some(VK_OEM_MINUS);
    }
    if chars_eq(&cs, lo, hi, ";") {
        return Some(VK_OEM_PLUS);
    }
    if chars_eq(&cs, lo, hi, ",") {
        return Some(VK_OEM_COMMA);
    }
    if chars_eq(&cs, lo, hi, ".") {
        return Some(VK_OEM_PERIOD);
    }
    if chars_eq(&cs, lo, hi, ":") {
        return Some(VK_OEM_1);
    }
    if chars_eq(&cs, lo, hi, "/") {
        return Some(VK_OEM_2);
    }
    if chars_eq(&cs, lo, hi, "@") {
        return Some(VK_OEM_3);
    }
    if chars_eq(&cs, lo, hi, "[") {
        return Some(VK_OEM_4);
    }
    if chars_eq(&cs, lo, hi, "\\") {
        return Some(VK_OEM_5);
    }
    if chars_eq(&cs, lo, hi, "]") {
        return Some(VK_OEM_6);
    }
    if chars_eq(&cs, lo, hi, "^") {
        return Some(VK_OEM_7);
    }
    if chars_eq(&cs, lo, hi, "_") {
        return Some(VK_OEM_102);
    }
    if n == 1 {
        let c = cs[0];
        let u = c as u32;
        if u < 0x80 {
            if u < 0x20 || u == 0x7F {
                return None;
            } else if 0x61 <= u && u <= 0x7A {
                return Some(u - 0x20);
            } else {
                return Some(u);
            }
        }
    }
    if n >= 3 && cs[0] == 'n' && cs[1] == 'u' && cs[2] == 'm' {
        match parse_digit_trimmed(&cs) {
            Some(v) => {
                if v <= 0xFFFF_FFFF - 0x60 {
                    Some(v + 0x60)
                } else {
                    None
                }
            },
            None => None,
        }
    } else if n >= 1 && cs[0] == 'f' {
        match parse_digit_trimmed(&cs) {
            Some(v) => {
                if v == 0 {
                    Some(0x6F)
                } else if v - 1 <= 0xFFFF_FFFF - 0x70 {
                    Some(0x70 + (v - 1))
                } else {
                    None
                }
            },
            None => None,
        }
    } else {
        None
    }
}


/// Split on `c`, accumulating the current piece in `acc`.
pub open spec fn split_acc(s: Seq<char>, c: char, acc: Seq<char>) -> Seq<Seq<char>>
    decreases s.len(),
{
    if s.len() == 0 {
        seq![acc]
    } else if s[0] == c {
        seq![acc] + split_acc(s.drop_first(), c, Seq::empty())
    } else {
        split_acc(s.drop_first(), c, acc.push(s[0]))
    }
}

/// The pieces of `s` between occurrences of `c`, in order; a piece may be
/// empty, and a string without `c` is one piece.
pub open spec fn split_char(s: Seq<char>, c: char) -> Seq<Seq<char>> {
    split_acc(s, c, Seq::empty())
}

/// A split always yields at least one piece.
proof fn lemma_split_len(s: Seq<char>, c: char, acc: Seq<char>)
    ensures
        split_acc(s, c, acc).len() >= 1,
    decreases s.len(),
{
    if s.len() != 0 && s[0] != c {
        lemma_split_len(s.drop_first(), c, acc.push(s[0]));
    }
}

/// Splitting steps over the first occurrence of `c` (at `p`, or absent when
/// `p` is the length): the first piece is everything before it.
proof fn lemma_split_acc(s: Seq<char>, c: char, acc: Seq<char>, p: int)
    requires
        0 <= p <= s.len(),
        forall|t: int| 0 <= t < p ==> s[t] != c,
        p < s.len() ==> s[p] == c,
    ensures
        p == s.len() ==> split_acc(s, c, acc) == seq![acc + s],
        p < s.len() ==> split_acc(s, c, acc) == seq![acc + s.subrange(0, p)] + split_acc(
            s.subrange(p + 1, s.len() as int),
            c,
            Seq::empty(),
        ),
    decreases s.len(),
{
    if s.len() == 0 {
        assert(acc + s =~= acc);
        assert(split_acc(s, c, acc) =~= seq![acc + s]);
    } else if p == 0 {
        if p < s.len() {
            assert(s[0] == c);
            assert(acc + s.subrange(0, 0) =~= acc);
            assert(s.drop_first() =~= s.subrange(1, s.len() as int));
            assert(split_acc(s, c, acc) =~= seq![acc + s.subrange(0, 0)] + split_acc(
                s.subrange(1, s.len() as int),
                c,
                Seq::empty(),
            ));
        }
    } else {
        assert(s[0] != c);
        let d = s.drop_first();
        assert(forall|t: int| 0 <= t < p - 1 ==> d[t] == s[t + 1]);
        lemma_split_acc(d, c, acc.push(s[0]), p - 1);
        if p == s.len() {
            assert(acc.push(s[0]) + d =~= acc + s);
        } else {
            assert(d[p - 1] == s[p]);
            assert(acc.push(s[0]) + d.subrange(0, p - 1) =~= acc + s.subrange(0, p));
            assert(d.subrange(p, d.len() as int) =~= s.subrange(p + 1, s.len() as int));
        }
    }
}

/// The codes a list of (still unlowered) key-name pieces denotes: every
/// piece must name a key after ASCII lowercasing, or the whole list fails.
pub open spec fn seg_codes(segs: Seq<Seq<char>>) -> Option<Seq<u32>>
    decreases segs.len(),
{
    if segs.len() == 0 {
        Some(Seq::empty())
    } else {
        match (str_to_vk_spec(lower_seq(segs[0])), seg_codes(segs.drop_first())) {
            (Some(v), Some(rest)) => Some(seq![v] + rest),
            _ => None,
        }
    }
}

/// What one line of the older text format denotes: a comment (leading `#`)
/// or empty line denotes nothing; otherwise the line must hold exactly one
/// `=`, its left side trimmed is the action name, and its right side trimmed
/// is a `+`-separated list of key names giving the chord.
pub open spec fn parse_line_spec(s: Seq<char>) -> Option<(Seq<char>, Seq<u32>)> {
    if s.len() == 0 {
        None
    } else if s[0] == '#' {
        None
    } else {
        let parts = split_char(s, '=');
        if parts.len() != 2 {
            None
        } else {
            match seg_codes(split_char(trim_ws(parts[1]), '+')) {
                Some(codes) => Some((trim_ws(parts[0]), canon_of(codes))),
                None => None,
            }
        }
    }
}

/// The bindings a whole file of lines denotes, bad lines skipped.
pub open spec fn parse_lines_spec(ls: Seq<Seq<char>>) -> Seq<(Seq<char>, Seq<u32>)>
    decreases ls.len(),
{
    if ls.len() == 0 {
        Seq::empty()
    } else {
        let rest = parse_lines_spec(ls.drop_last());
        match parse_line_spec(ls.last()) {
            Some(e) => rest.push(e),
            None => rest,
        }
    }
}

/// One imported binding: the action name and its chord.
pub struct Item {
    pub id: String,
    pub keys: Option<Keys>,
}

/// The specification view of imported bindings.
pub open spec fn old_km_model(items: Seq<Item>) -> Seq<(Seq<char>, Seq<u32>)> {
    items.map_values(
        |it: Item|
            (
                it.id@,
                match it.keys {
                    Some(k) => k@,
                    None => Seq::empty(),
                },
            ),
    )
}

/// Bindings imported from the older line-based text format.
pub struct OldKeyMap(pub Vec<Item>);

/// Parse the key-name pieces of `cs` in `[lo, hi)`, separated by `+`.
fn parse_segments(line: &str, cs: &Vec<char>, lo: usize, hi: usize) -> (r: Option<Vec<u32>>)
    requires
        cs@ == line@,
        lo <= hi <= cs@.len(),
    ensures
        match r {
            Some(v) => seg_codes(split_char(cs@.subrange(lo as int, hi as int), '+')) == Some(
                v@,
            ),
            None => seg_codes(split_char(cs@.subrange(lo as int, hi as int), '+')) is None,
        },
{
    let ghost whole = cs@.subrange(lo as int, hi as int);
    let mut codes: Vec<u32> = Vec::new();
    let mut cur = lo;
    loop
        invariant
            lo <= cur <= hi <= cs@.len(),
            cs@ == line@,
            whole == cs@.subrange(lo as int, hi as int),
            cur > lo ==> cur <= hi,
            match seg_codes(split_char(cs@.subrange(cur as int, hi as int), '+')) {
                Some(rest) => seg_codes(split_char(whole, '+')) == Some(codes@ + rest),
                None => seg_codes(split_char(whole, '+')) is None,
            },
        decreases hi - cur,
    {
        let ghost rem = cs@.subrange(cur as int, hi as int);
        let mut b = cur;
        while b < hi && cs[b] != '+'
            invariant
                cur <= b <= hi <= cs@.len(),
                forall|t: int| cur <= t < b ==> cs@[t] != '+',
            decreases hi - b,
        {
            b += 1;
        }
        let ghost head = cs@.subrange(cur as int, b as int);
        proof {
            assert(forall|t: int| 0 <= t < b - cur ==> rem[t] == cs@[cur + t] && rem[t] != '+');
            if b < hi {
                assert(rem[b - cur] == cs@[b as int]);
            }
            lemma_split_acc(rem, '+', Seq::empty(), b - cur);
            assert(Seq::<char>::empty() + rem.subrange(0, b - cur) =~= head);
            if b == hi {
                assert(rem =~= head);
                assert(Seq::<char>::empty() + rem =~= head);
                assert(split_char(rem, '+') == seq![Seq::<char>::empty() + rem]);
                assert(seq![Seq::<char>::empty() + rem] =~= seq![head]);
                assert(split_char(rem, '+') == seq![head]);
                assert(split_char(rem, '+').drop_first() =~= Seq::<Seq<char>>::empty());
                assert(seg_codes(Seq::<Seq<char>>::empty()) == Some(Seq::<u32>::empty()));
            }
        }
        let lowered = to_lowercase_ascii(line.substring_char(cur, b));
        let v = match str_to_vk(lowered.as_str()) {
            Some(v) => v,
            None => {
                proof {
                    assert(split_char(rem, '+')[0] == head);
                    assert(seg_codes(split_char(rem, '+')) is None);
                }
                return None;
            },
        };
        codes.push(v);
        if b == hi {
            proof {
                assert(split_char(rem, '+')[0] == head);
                assert(seg_codes(split_char(rem, '+')) == Some(seq![v] + Seq::<u32>::empty()));
                assert(seq![v] + Seq::<u32>::empty() =~= seq![v]);
                assert(codes@.drop_last() + seq![v] =~= codes@);
            }
            return Some(codes);
        }
        proof {
            let rem2 = cs@.subrange(b + 1 as int, hi as int);
            assert(rem.subrange(b - cur + 1, rem.len() as int) =~= rem2);
            assert(split_char(rem, '+') == seq![head] + split_char(rem2, '+')) by {
                assert(seq![Seq::<char>::empty() + rem.subrange(0, b - cur)] =~= seq![head]);
            }
            assert(split_char(rem, '+')[0] == head);
            assert(split_char(rem, '+').drop_first() =~= split_char(rem2, '+'));
            assert(match seg_codes(split_char(rem2, '+')) {
                Some(r2) => seg_codes(split_char(whole, '+')) == Some(codes@ + r2),
                None => seg_codes(split_char(whole, '+')) is None,
            }) by {
                match seg_codes(split_char(rem2, '+')) {
                    Some(r2) => {
                        assert(seg_codes(split_char(rem, '+')) == Some(seq![v] + r2));
                        assert(codes@.drop_last() + (seq![v] + r2) =~= codes@ + r2);
                    },
                    None => {
                        assert(seg_codes(split_char(rem, '+')) is None);
                    },
                }
            }
        }
        cur = b + 1;
    }
}

/// Parse one line of the older text format (see [`parse_line_spec`]).
pub fn parse_line(line: &str) -> (r: Option<Item>)
    ensures
        match r {
            Some(it) => it.keys is Some && it.keys.unwrap().wf() && parse_line_spec(line@)
                == Some((it.id@, it.keys.unwrap()@)),
            None => parse_line_spec(line@) is None,
        },
{
    let cs = collect_chars(line);
    let n = cs.len();
    if n == 0 {
        return None;
    }
    if cs[0] == '#' {
        return None;
    }
    let mut p: usize = 0;
    while p < n && cs[p] != '='
        invariant
            p <= n,
            n == cs@.len(),
            cs@ == line@,
            forall|t: int| 0 <= t < p ==> cs@[t] != '=',
        decreases n - p,
    {
        p += 1;
    }
    if p == n {
        proof {
            lemma_split_acc(cs@, '=', Seq::empty(), n as int);
            assert(split_char(cs@, '=').len() == 1);
        }
        return None;
    }
    let ghost part0 = cs@.subrange(0, p as int);
    let ghost rest = cs@.subrange(p + 1 as int, n as int);
    proof {
        lemma_split_acc(cs@, '=', Seq::empty(), p as int);
        assert(seq![Seq::<char>::empty() + part0] =~= seq![part0]);
        assert(split_char(cs@, '=') == seq![part0] + split_char(rest, '='));
    }
    let mut q: usize = p + 1;
    while q < n && cs[q] != '='
        invariant
            p < q <= n,
            n == cs@.len(),
            cs@ == line@,
            forall|t: int| p < t < q ==> cs@[t] != '=',
        decreases n - q,
    {
        q += 1;
    }
    if q < n {
        proof {
            assert(forall|t: int| 0 <= t < q - p - 1 ==> rest[t] == cs@[p + 1 + t]);
            assert(rest[q - p - 1] == cs@[q as int]);
            lemma_split_acc(rest, '=', Seq::empty(), q - p - 1);
            lemma_split_len(rest.subrange(q - p, rest.len() as int), '=', Seq::empty());
            assert(split_char(rest, '=').len() >= 2);
            assert(split_char(cs@, '=').len() >= 3);
        }
        return None;
    }
    proof {
        assert(forall|t: int| 0 <= t < rest.len() ==> rest[t] == cs@[p + 1 + t]);
        lemma_split_acc(rest, '=', Seq::empty(), rest.len() as int);
        assert(seq![Seq::<char>::empty() + rest] =~= seq![rest]);
        assert(split_char(rest, '=') == seq![rest]);
        assert(split_char(cs@, '=').len() == 2);
        assert(split_char(cs@, '=')[0] == part0);
        assert(split_char(cs@, '=')[1] == rest);
    }
    let mut lo1: usize = 0;
    while lo1 < p && is_ws(cs[lo1])
        invariant
            lo1 <= p <= n == cs@.len(),
            cs@ == line@,
            forall|t: int| 0 <= t < lo1 ==> is_ws_char(cs@[t]),
        decreases p - lo1,
    {
        lo1 += 1;
    }
    let mut hi1: usize = p;
    while hi1 > lo1 && is_ws(cs[hi1 - 1])
        invariant
            lo1 <= hi1 <= p <= n == cs@.len(),
            cs@ == line@,
            forall|t: int| hi1 <= t < p ==> is_ws_char(cs@[t]),
        decreases hi1,
    {
        hi1 -= 1;
    }
    proof {
        let w = |c: char| is_ws_char(c);
        assert(forall|t: int| 0 <= t < part0.len() ==> part0[t] == cs@[t]);
        lemma_trim_front_by(part0, w, lo1 as int);
        let f = part0.subrange(lo1 as int, part0.len() as int);
        assert(forall|t: int| 0 <= t < f.len() ==> f[t] == cs@[lo1 + t]);
        lemma_trim_back_by(f, w, hi1 - lo1);
        assert(f.subrange(0, hi1 - lo1) =~= cs@.subrange(lo1 as int, hi1 as int));
        assert(trim_ws(part0) == cs@.subrange(lo1 as int, hi1 as int));
    }
    let id = line.substring_char(lo1, hi1).to_owned();
    let mut lo2: usize = p + 1;
    while lo2 < n && is_ws(cs[lo2])
        invariant
            p + 1 <= lo2 <= n == cs@.len(),
            cs@ == line@,
            forall|t: int| p + 1 <= t < lo2 ==> is_ws_char(cs@[t]),
        decreases n - lo2,
    {
        lo2 += 1;
    }
    let mut hi2: usize = n;
    while hi2 > lo2 && is_ws(cs[hi2 - 1])
        invariant
            lo2 <= hi2 <= n == cs@.len(),
            cs@ == line@,
            forall|t: int| hi2 <= t < n ==> is_ws_char(cs@[t]),
        decreases hi2,
    {
        hi2 -= 1;
    }
    proof {
        let w = |c: char| is_ws_char(c);
        assert(forall|t: int| 0 <= t < rest.len() ==> rest[t] == cs@[p + 1 + t]);
        lemma_trim_front_by(rest, w, lo2 - p - 1);
        let f = rest.subrange(lo2 - p - 1, rest.len() as int);
        assert(forall|t: int| 0 <= t < f.len() ==> f[t] == cs@[lo2 + t]);
        lemma_trim_back_by(f, w, hi2 - lo2);
        assert(f.subrange(0, hi2 - lo2) =~= cs@.subrange(lo2 as int, hi2 as int));
        assert(trim_ws(rest) == cs@.subrange(lo2 as int, hi2 as int));
    }
    match parse_segments(line, &cs, lo2, hi2) {
        Some(codes) => {
            let keys = Keys::from_slice(codes.as_slice());
            Some(Item { id, keys: Some(keys) })
        },
        None => None,
    }
}

impl OldKeyMap {
    /// Import bindings from the lines of the older text format: one binding
    /// per well-formed line, bad lines skipped.
    pub fn from_lines(lines: &Vec<String>) -> (r: OldKeyMap)
        ensures
            old_km_model(r.0@) == parse_lines_spec(lines@.map_values(|l: String| l@)),
    {
        let ghost lv = lines@.map_values(|l: String| l@);
        let mut items: Vec<Item> = Vec::new();
        let mut i: usize = 0;
        proof {
            assert(old_km_model(items@) =~= parse_lines_spec(lv.subrange(0, 0)));
        }
        while i < lines.len()
            invariant
                i <= lines@.len(),
                lv == lines@.map_values(|l: String| l@),
                old_km_model(items@) == parse_lines_spec(lv.subrange(0, i as int)),
            decreases lines@.len() - i,
        {
            let ghost nextv = lv.subrange(0, i + 1 as int);
            proof {
                assert(nextv.drop_last() =~= lv.subrange(0, i as int));
                assert(nextv.last() == lv[i as int]);
                assert(lv[i as int] == lines@[i as int]@);
            }
            let ghost pre = items@;
            match parse_line(lines[i].as_str()) {
                Some(it) => {
                    items.push(it);
                    proof {
                        assert(old_km_model(items@) =~= old_km_model(pre).push(
                            (it.id@, it.keys.unwrap()@),
                        ));
                    }
                },
                None => {},
            }
            proof {
                assert(old_km_model(items@) =~= parse_lines_spec(nextv));
            }
            i += 1;
        }
        proof {
            assert(lv.subrange(0, lv.len() as int) =~= lv);
        }
        OldKeyMap(items)
    }
}

} // verus!
