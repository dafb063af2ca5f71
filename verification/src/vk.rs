//! The fixed virtual-key code tables: named code constants and the
//! code-to-display-label table used when showing chords to the user.

use vstd::prelude::*;

use crate::keys::Keys;

verus! {

pub const VK_BACK: u32 = 0x08;
pub const VK_TAB: u32 = 0x09;
pub const VK_RETURN: u32 = 0x0D;
pub const VK_SHIFT: u32 = 0x10;
pub const VK_CONTROL: u32 = 0x11;
pub const VK_MENU: u32 = 0x12;
pub const VK_PAUSE: u32 = 0x13;
pub const VK_CAPITAL: u32 = 0x14;
pub const VK_ESCAPE: u32 = 0x1B;
pub const VK_SPACE: u32 = 0x20;
pub const VK_PRIOR: u32 = 0x21;
pub const VK_NEXT: u32 = 0x22;
pub const VK_END: u32 = 0x23;
pub const VK_HOME: u32 = 0x24;
pub const VK_LEFT: u32 = 0x25;
pub const VK_UP: u32 = 0x26;
pub const VK_RIGHT: u32 = 0x27;
pub const VK_DOWN: u32 = 0x28;
pub const VK_SNAPSHOT: u32 = 0x2C;
pub const VK_INSERT: u32 = 0x2D;
pub const VK_DELETE: u32 = 0x2E;
pub const VK_NUMPAD0: u32 = 0x60;
pub const VK_NUMPAD9: u32 = 0x69;
pub const VK_MULTIPLY: u32 = 0x6A;
pub const VK_ADD: u32 = 0x6B;
pub const VK_SUBTRACT: u32 = 0x6D;
pub const VK_DECIMAL: u32 = 0x6E;
pub const VK_DIVIDE: u32 = 0x6F;
pub const VK_F1: u32 = 0x70;
pub const VK_F24: u32 = 0x87;
pub const VK_LSHIFT: u32 = 0xA0;
pub const VK_RSHIFT: u32 = 0xA1;
pub const VK_LCONTROL: u32 = 0xA2;
pub const VK_RCONTROL: u32 = 0xA3;
pub const VK_LMENU: u32 = 0xA4;
pub const VK_RMENU: u32 = 0xA5;
pub const VK_OEM_1: u32 = 0xBA;
pub const VK_OEM_PLUS: u32 = 0xBB;
pub const VK_OEM_COMMA: u32 = 0xBC;
pub const VK_OEM_MINUS: u32 = 0xBD;
pub const VK_OEM_PERIOD: u32 = 0xBE;
pub const VK_OEM_2: u32 = 0xBF;
pub const VK_OEM_3: u32 = 0xC0;
pub const VK_OEM_4: u32 = 0xDB;
pub const VK_OEM_5: u32 = 0xDC;
pub const VK_OEM_6: u32 = 0xDD;
pub const VK_OEM_7: u32 = 0xDE;
pub const VK_OEM_102: u32 = 0xE2;

/// The decimal digit characters.
pub open spec fn digit_char(d: nat) -> char {
    if d == 0 { '0' } else if d == 1 { '1' } else if d == 2 { '2' }
    else if d == 3 { '3' } else if d == 4 { '4' } else if d == 5 { '5' }
    else if d == 6 { '6' } else if d == 7 { '7' } else if d == 8 { '8' }
    else { '9' }
}

/// The usual decimal rendering of `n`, most significant digit first.
pub open spec fn dec_label_nat(n: nat) -> Seq<char>
    decreases n,
{
    if n < 10 { seq![digit_char(n)] } else { dec_label_nat(n / 10).push(digit_char(n % 10)) }
}

pub open spec fn dec_label(n: u32) -> Seq<char> {
    dec_label_nat(n as nat)
}

/// The label of a code in the identity range 0x30..=0x5A: the character the
/// code point itself denotes (digits, a few punctuation marks, letters).
pub open spec fn identity_label(t: u32) -> Seq<char> {
    if t == 0x30 { seq!['0']
    } else if t == 0x31 { seq!['1']
    } else if t == 0x32 { seq!['2']
    } else if t == 0x33 { seq!['3']
    } else if t == 0x34 { seq!['4']
    } else if t == 0x35 { seq!['5']
    } else if t == 0x36 { seq!['6']
    } else if t == 0x37 { seq!['7']
    } else if t == 0x38 { seq!['8']
    } else if t == 0x39 { seq!['9']
    } else if t == 0x3A { seq![':']
    } else if t == 0x3B { seq![';']
    } else if t == 0x3C { seq!['<']
    } else if t == 0x3D { seq!['=']
    } else if t == 0x3E { seq!['>']
    } else if t == 0x3F { seq!['?']
    } else if t == 0x40 { seq!['@']
    } else if t == 0x41 { seq!['A']
    } else if t == 0x42 { seq!['B']
    } else if t == 0x43 { seq!['C']
    } else if t == 0x44 { seq!['D']
    } else if t == 0x45 { seq!['E']
    } else if t == 0x46 { seq!['F']
    } else if t == 0x47 { seq!['G']
    } else if t == 0x48 { seq!['H']
    } else if t == 0x49 { seq!['I']
    } else if t == 0x4A { seq!['J']
    } else if t == 0x4B { seq!['K']
    } else if t == 0x4C { seq!['L']
    } else if t == 0x4D { seq!['M']
    } else if t == 0x4E { seq!['N']
    } else if t == 0x4F { seq!['O']
    } else if t == 0x50 { seq!['P']
    } else if t == 0x51 { seq!['Q']
    } else if t == 0x52 { seq!['R']
    } else if t == 0x53 { seq!['S']
    } else if t == 0x54 { seq!['T']
    } else if t == 0x55 { seq!['U']
    } else if t == 0x56 { seq!['V']
    } else if t == 0x57 { seq!['W']
    } else if t == 0x58 { seq!['X']
    } else if t == 0x59 { seq!['Y']
    } else if t == 0x5A { seq!['Z']
    } else { seq![] }
}

/// The human-readable display label of a virtual-key code, as shown in the
/// bindings editor. The code is taken modulo 2^16, mirroring the platform's
/// 16-bit virtual-key type; an unrecognized code renders as its decimal
/// value in parentheses.
pub open spec fn vk_label(k: u32) -> Seq<char> {
    let t = k & 0xFFFF;
    if t == VK_ESCAPE { "Esc"@
    } else if t == VK_TAB { "Tab"@
    } else if t == VK_CAPITAL { "CapsLock"@
    } else if t == VK_SHIFT { "Shift"@
    } else if t == VK_CONTROL { "Ctrl"@
    } else if t == VK_MENU { "Alt"@
    } else if t == VK_BACK { "BackSpace"@
    } else if t == VK_RETURN { "Enter"@
    } else if t == VK_SPACE { "Space"@
    } else if t == VK_SNAPSHOT { "PrintScreen"@
    } else if t == VK_PAUSE { "Pause"@
    } else if t == VK_INSERT { "Insert"@
    } else if t == VK_DELETE { "Delete"@
    } else if t == VK_HOME { "Home"@
    } else if t == VK_END { "End"@
    } else if t == VK_PRIOR { "PageUp"@
    } else if t == VK_NEXT { "PageDown"@
    } else if t == VK_UP { "Up"@
    } else if t == VK_DOWN { "Down"@
    } else if t == VK_LEFT { "Left"@
    } else if t == VK_RIGHT { "Right"@
    } else if t == VK_ADD { "Num+"@
    } else if t == VK_SUBTRACT { "Num-"@
    } else if t == VK_MULTIPLY { "Num*"@
    } else if t == VK_DIVIDE { "Num/"@
    } else if t == VK_DECIMAL { "Num."@
    } else if t == VK_OEM_MINUS { "-"@
    } else if t == VK_OEM_PLUS { ";"@
    } else if t == VK_OEM_COMMA { ","@
    } else if t == VK_OEM_PERIOD { "."@
    } else if t == VK_OEM_1 { ":"@
    } else if t == VK_OEM_2 { "/"@
    } else if t == VK_OEM_3 { "@"@
    } else if t == VK_OEM_4 { "["@
    } else if t == VK_OEM_5 { "\\"@
    } else if t == VK_OEM_6 { "]"@
    } else if t == VK_OEM_7 { "^"@
    } else if t == VK_OEM_102 { "_"@
    } else if 0x30 <= t && t <= 0x5A { identity_label(t)
    } else if VK_NUMPAD0 <= t && t <= VK_NUMPAD9 { "Num"@ + dec_label((t - 0x60) as u32)
    } else if VK_F1 <= t && t <= VK_F24 { "F"@ + dec_label((t - 0x70 + 1) as u32)
    } else { "("@ + dec_label(t) + ")"@ }
}

/// One decimal digit as a string.
fn digit_str(d: u32) -> (r: &'static str)
    requires
        d < 10,
    ensures
        r@ == seq![digit_char(d as nat)],
{
    if d == 0 {
        proof {
            reveal_strlit("0");
            assert("0"@ =~= seq!['0']);
        }
        "0"
    } else if d == 1 {
        proof {
            reveal_strlit("1");
            assert("1"@ =~= seq!['1']);
        }
        "1"
    } else if d == 2 {
        proof {
            reveal_strlit("2");
            assert("2"@ =~= seq!['2']);
        }
        "2"
    } else if d == 3 {
        proof {
            reveal_strlit("3");
            assert("3"@ =~= seq!['3']);
        }
        "3"
    } else if d == 4 {
        proof {
            reveal_strlit("4");
            assert("4"@ =~= seq!['4']);
        }
        "4"
    } else if d == 5 {
        proof {
            reveal_strlit("5");
            assert("5"@ =~= seq!['5']);
        }
        "5"
    } else if d == 6 {
        proof {
            reveal_strlit("6");
            assert("6"@ =~= seq!['6']);
        }
        "6"
    } else if d == 7 {
        proof {
            reveal_strlit("7");
            assert("7"@ =~= seq!['7']);
        }
        "7"
    } else if d == 8 {
        proof {
            reveal_strlit("8");
            assert("8"@ =~= seq!['8']);
        }
        "8"
    } else {
        proof {
            reveal_strlit("9");
            assert("9"@ =~= seq!['9']);
        }
        "9"
    }
}

/// The decimal rendering of `n`.
pub fn dec_u32(n: u32) -> (r: String)
    ensures
        r@ == dec_label(n),
    decreases n,
{
    if n < 10 {
        String::from_str(digit_str(n))
    } else {
        let mut s = dec_u32(n / 10);
        s.append(digit_str(n % 10));
        proof {
            assert(dec_label_nat(n as nat) =~= dec_label((n / 10) as u32) + seq![digit_char((n % 10) as nat)]);
        }
        s
    }
}

/// The identity-range labels as strings.
fn identity_label_str(t: u32) -> (r: &'static str)
    requires
        0x30 <= t && t <= 0x5A,
    ensures
        r@ == identity_label(t),
{
    if t == 0x30 {
        proof {
            reveal_strlit("0");
            assert("0"@ =~= seq!['0']);
        }
        "0"
    } else if t == 0x31 {
        proof {
            reveal_strlit("1");
            assert("1"@ =~= seq!['1']);
        }
        "1"
    } else if t == 0x32 {
        proof {
            reveal_strlit("2");
            assert("2"@ =~= seq!['2']);
        }
        "2"
    } else if t == 0x33 {
        proof {
            reveal_strlit("3");
            assert("3"@ =~= seq!['3']);
        }
        "3"
    } else if t == 0x34 {
        proof {
            reveal_strlit("4");
            assert("4"@ =~= seq!['4']);
        }
        "4"
    } else if t == 0x35 {
        proof {
            reveal_strlit("5");
            assert("5"@ =~= seq!['5']);
        }
        "5"
    } else if t == 0x36 {
        proof {
            reveal_strlit("6");
            assert("6"@ =~= seq!['6']);
        }
        "6"
    } else if t == 0x37 {
        proof {
            reveal_strlit("7");
            assert("7"@ =~= seq!['7']);
        }
        "7"
    } else if t == 0x38 {
        proof {
            reveal_strlit("8");
            assert("8"@ =~= seq!['8']);
        }
        "8"
    } else if t == 0x39 {
        proof {
            reveal_strlit("9");
            assert("9"@ =~= seq!['9']);
        }
        "9"
    } else if t == 0x3A {
        proof {
            reveal_strlit(":");
            assert(":"@ =~= seq![':']);
        }
        ":"
    } else if t == 0x3B {
        proof {
            reveal_strlit(";");
            assert(";"@ =~= seq![';']);
        }
        ";"
    } else if t == 0x3C {
        proof {
            reveal_strlit("<");
            assert("<"@ =~= seq!['<']);
        }
        "<"
    } else if t == 0x3D {
        proof {
            reveal_strlit("=");
            assert("="@ =~= seq!['=']);
        }
        "="
    } else if t == 0x3E {
        proof {
            reveal_strlit(">");
            assert(">"@ =~= seq!['>']);
        }
        ">"
    } else if t == 0x3F {
        proof {
            reveal_strlit("?");
            assert("?"@ =~= seq!['?']);
        }
        "?"
    } else if t == 0x40 {
        proof {
            reveal_strlit("@");
            assert("@"@ =~= seq!['@']);
        }
        "@"
    } else if t == 0x41 {
        proof {
            reveal_strlit("A");
            assert("A"@ =~= seq!['A']);
        }
        "A"
    } else if t == 0x42 {
        proof {
            reveal_strlit("B");
            assert("B"@ =~= seq!['B']);
        }
        "B"
    } else if t == 0x43 {
        proof {
            reveal_strlit("C");
            assert("C"@ =~= seq!['C']);
        }
        "C"
    } else if t == 0x44 {
        proof {
            reveal_strlit("D");
            assert("D"@ =~= seq!['D']);
        }
        "D"
    } else if t == 0x45 {
        proof {
            reveal_strlit("E");
            assert("E"@ =~= seq!['E']);
        }
        "E"
    } else if t == 0x46 {
        proof {
            reveal_strlit("F");
            assert("F"@ =~= seq!['F']);
        }
        "F"
    } else if t == 0x47 {
        proof {
            reveal_strlit("G");
            assert("G"@ =~= seq!['G']);
        }
        "G"
    } else if t == 0x48 {
        proof {
            reveal_strlit("H");
            assert("H"@ =~= seq!['H']);
        }
        "H"
    } else if t == 0x49 {
        proof {
            reveal_strlit("I");
            assert("I"@ =~= seq!['I']);
        }
        "I"
    } else if t == 0x4A {
        proof {
            reveal_strlit("J");
            assert("J"@ =~= seq!['J']);
        }
        "J"
    } else if t == 0x4B {
        proof {
            reveal_strlit("K");
            assert("K"@ =~= seq!['K']);
        }
        "K"
    } else if t == 0x4C {
        proof {
            reveal_strlit("L");
            assert("L"@ =~= seq!['L']);
        }
        "L"
    } else if t == 0x4D {
        proof {
            reveal_strlit("M");
            assert("M"@ =~= seq!['M']);
        }
        "M"
    } else if t == 0x4E {
        proof {
            reveal_strlit("N");
            assert("N"@ =~= seq!['N']);
        }
        "N"
    } else if t == 0x4F {
        proof {
            reveal_strlit("O");
            assert("O"@ =~= seq!['O']);
        }
        "O"
    } else if t == 0x50 {
        proof {
            reveal_strlit("P");
            assert("P"@ =~= seq!['P']);
        }
        "P"
    } else if t == 0x51 {
        proof {
            reveal_strlit("Q");
            assert("Q"@ =~= seq!['Q']);
        }
        "Q"
    } else if t == 0x52 {
        proof {
            reveal_strlit("R");
            assert("R"@ =~= seq!['R']);
        }
        "R"
    } else if t == 0x53 {
        proof {
            reveal_strlit("S");
            assert("S"@ =~= seq!['S']);
        }
        "S"
    } else if t == 0x54 {
        proof {
            reveal_strlit("T");
            assert("T"@ =~= seq!['T']);
        }
        "T"
    } else if t == 0x55 {
        proof {
            reveal_strlit("U");
            assert("U"@ =~= seq!['U']);
        }
        "U"
    } else if t == 0x56 {
        proof {
            reveal_strlit("V");
            assert("V"@ =~= seq!['V']);
        }
        "V"
    } else if t == 0x57 {
        proof {
            reveal_strlit("W");
            assert("W"@ =~= seq!['W']);
        }
        "W"
    } else if t == 0x58 {
        proof {
            reveal_strlit("X");
            assert("X"@ =~= seq!['X']);
        }
        "X"
    } else if t == 0x59 {
        proof {
            reveal_strlit("Y");
            assert("Y"@ =~= seq!['Y']);
        }
        "Y"
    } else {
        proof {
            reveal_strlit("Z");
            assert("Z"@ =~= seq!['Z']);
        }
        "Z"
    }
}

/// The display label of a virtual-key code (see [`vk_label`]).
pub fn vk_to_string(k: u32) -> (r: String)
    ensures
        r@ == vk_label(k),
{
    let t = k & 0xFFFF;
    proof {
        assert(t <= 0xFFFF) by (bit_vector)
            requires
                t == k & 0xFFFF,
        ;
    }
    if t == VK_ESCAPE {
        String::from_str("Esc")
    } else if t == VK_TAB {
        String::from_str("Tab")
    } else if t == VK_CAPITAL {
        String::from_str("CapsLock")
    } else if t == VK_SHIFT {
        String::from_str("Shift")
    } else if t == VK_CONTROL {
        String::from_str("Ctrl")
    } else if t == VK_MENU {
        String::from_str("Alt")
    } else if t == VK_BACK {
        String::from_str("BackSpace")
    } else if t == VK_RETURN {
        String::from_str("Enter")
    } else if t == VK_SPACE {
        String::from_str("Space")
    } else if t == VK_SNAPSHOT {
        String::from_str("PrintScreen")
    } else if t == VK_PAUSE {
        String::from_str("Pause")
    } else if t == VK_INSERT {
        String::from_str("Insert")
    } else if t == VK_DELETE {
        String::from_str("Delete")
    } else if t == VK_HOME {
        String::from_str("Home")
    } else if t == VK_END {
        String::from_str("End")
    } else if t == VK_PRIOR {
        String::from_str("PageUp")
    } else if t == VK_NEXT {
        String::from_str("PageDown")
    } else if t == VK_UP {
        String::from_str("Up")
    } else if t == VK_DOWN {
        String::from_str("Down")
    } else if t == VK_LEFT {
        String::from_str("Left")
    } else if t == VK_RIGHT {
        String::from_str("Right")
    } else if t == VK_ADD {
        String::from_str("Num+")
    } else if t == VK_SUBTRACT {
        String::from_str("Num-")
    } else if t == VK_MULTIPLY {
        String::from_str("Num*")
    } else if t == VK_DIVIDE {
        String::from_str("Num/")
    } else if t == VK_DECIMAL {
        String::from_str("Num.")
    } else if t == VK_OEM_MINUS {
        String::from_str("-")
    } else if t == VK_OEM_PLUS {
        String::from_str(";")
    } else if t == VK_OEM_COMMA {
        String::from_str(",")
    } else if t == VK_OEM_PERIOD {
        String::from_str(".")
    } else if t == VK_OEM_1 {
        String::from_str(":")
    } else if t == VK_OEM_2 {
        String::from_str("/")
    } else if t == VK_OEM_3 {
        String::from_str("@")
    } else if t == VK_OEM_4 {
        String::from_str("[")
    } else if t == VK_OEM_5 {
        String::from_str("\\")
    } else if t == VK_OEM_6 {
        String::from_str("]")
    } else if t == VK_OEM_7 {
        String::from_str("^")
    } else if t == VK_OEM_102 {
        String::from_str("_")
    } else if t >= 0x30 && t <= 0x5A {
        String::from_str(identity_label_str(t))
    } else if t >= VK_NUMPAD0 && t <= VK_NUMPAD9 {
        let mut s = String::from_str("Num");
        s.append(dec_u32(t - 0x60).as_str());
        s
    } else if t >= VK_F1 && t <= VK_F24 {
        let mut s = String::from_str("F");
        s.append(dec_u32(t - 0x70 + 1).as_str());
        s
    } else {
        let mut s = String::from_str("(");
        s.append(dec_u32(t).as_str());
        s.append(")");
        s
    }
}

impl Keys {
    /// The display labels of the chord's codes, one per code, in the chord's
    /// ascending code order.
    pub fn to_strings(&self) -> (r: Vec<String>)
        ensures
            r@.len() == self@.len(),
            forall|i: int| 0 <= i < r@.len() ==> r@[i]@ == vk_label(self@[i]),
    {
        let codes = self.codes();
        let mut v: Vec<String> = Vec::new();
        let mut i: usize = 0;
        while i < codes.len()
            invariant
                i <= codes@.len(),
                codes@ == self@,
                v@.len() == i,
                forall|t: int| 0 <= t < i ==> v@[t]@ == vk_label(self@[t]),
            decreases codes@.len() - i,
        {
            v.push(vk_to_string(codes[i]));
            i += 1;
        }
        v
    }
}

} // verus!
