//! Input symbols of automata (and terminals of grammars).
use crate::text::push_char;
use vstd::prelude::*;

verus! {

/// A symbol of an input alphabet, identified by its textual name.
#[derive(Debug, Hash, PartialEq, Eq)]
pub struct InputSymbol {
    pub name: String,
}

impl View for InputSymbol {
    type V = Seq<char>;

    open spec fn view(&self) -> Seq<char> {
        self.name@
    }
}

impl Clone for InputSymbol {
    fn clone(&self) -> (r: Self)
        ensures
            r == *self,
    {
        InputSymbol { name: self.name.clone() }
    }
}

/// The names that stand for the empty word.
pub const EPSILON_SYMBOLS: [&'static str; 5] = ["epsilon", "ε", "ϵ", "Є", "$"];

/// The name of the epsilon symbol.
pub const EPSILON: &'static str = "epsilon";

/// The name of the epsilon symbol, as a sequence of characters.
pub open spec fn epsilon_name() -> Seq<char> {
    seq!['e', 'p', 's', 'i', 'l', 'o', 'n']
}

impl InputSymbol {
    /// Creates a symbol named `name`.
    pub fn new(name: &str) -> (s: Self)
        ensures
            s@ == name@,
    {
        InputSymbol { name: name.to_owned() }
    }

    /// Creates a symbol named `name`, taking the string.
    pub fn from_string(name: String) -> (s: Self)
        ensures
            s@ == name@,
    {
        InputSymbol { name }
    }

    /// The name of the symbol.
    pub fn get_name(&self) -> (n: &str)
        ensures
            n@ == self@,
    {
        self.name.as_str()
    }

    /// The symbol shown as its name.
    pub fn display(&self) -> (s: String)
        ensures
            s@ == self@,
    {
        self.name.clone()
    }
}

/// Tells whether two symbols have the same name.
pub fn same_symbol(a: &InputSymbol, b: &InputSymbol) -> (r: bool)
    ensures
        r == (a@ == b@),
{
    a.name == b.name
}

/// The epsilon symbol.
pub fn epsilon() -> (s: InputSymbol)
    ensures
        s@ == epsilon_name(),
{
    let s = InputSymbol::new(EPSILON);
    proof {
        reveal_strlit("epsilon");
    }
    s
}

/// The lower-case hexadecimal digit character of `d` (for `0 <= d < 16`).
pub open spec fn hex_digit_char(d: nat) -> char {
    if d < 10 {
        ((48 + d) as u32) as char
    } else {
        ((87 + d) as u32) as char
    }
}

/// The name of the symbol that stands for byte `b`: the character itself when
/// it is printable ASCII (0x20 to 0x7e), and `\x` followed by two lower-case
/// hexadecimal digits otherwise.
pub open spec fn byte_name(b: u8) -> Seq<char> {
    if 0x20 <= b <= 0x7e {
        seq![b as char]
    } else {
        seq!['\\', 'x', hex_digit_char((b / 16) as nat), hex_digit_char((b % 16) as nat)]
    }
}

/// The word of symbols that stands for a sequence of bytes.
pub open spec fn bytes_word(bs: Seq<u8>) -> Seq<Seq<char>> {
    bs.map_values(|b: u8| byte_name(b))
}

fn hex_digit(d: u8) -> (c: char)
    requires
        d < 16,
    ensures
        c == hex_digit_char(d as nat),
{
    if d < 10 {
        (48u8 + d) as char
    } else {
        (87u8 + d) as char
    }
}

/// The symbol that stands for byte `i`.
pub fn char_to_symbol(i: u8) -> (s: InputSymbol)
    ensures
        s@ == byte_name(i),
{
    let mut name = String::new();
    if 0x20 <= i && i <= 0x7e {
        push_char(&mut name, i as char);
    } else {
        push_char(&mut name, '\\');
        push_char(&mut name, 'x');
        push_char(&mut name, hex_digit(i / 16));
        push_char(&mut name, hex_digit(i % 16));
    }
    proof {
        assert(name@ =~= byte_name(i));
    }
    InputSymbol { name }
}

/// The value of a hexadecimal digit byte (`0-9`, `a-f`, `A-F`), if it is one.
pub open spec fn hex_value(b: u8) -> Option<nat> {
    if 48 <= b <= 57 {
        Some((b - 48) as nat)
    } else if 97 <= b <= 102 {
        Some((b - 87) as nat)
    } else if 65 <= b <= 70 {
        Some((b - 55) as nat)
    } else {
        None
    }
}

/// Whether every byte of `ds` is a hexadecimal digit.
pub open spec fn all_hex(ds: Seq<u8>) -> bool {
    forall|i: int| 0 <= i < ds.len() ==> (#[trigger] hex_value(ds[i])) is Some
}

/// The number that the hexadecimal digits `ds` write (most significant first).
pub open spec fn hex_number(ds: Seq<u8>) -> nat
    decreases ds.len(),
{
    if ds.len() == 0 {
        0
    } else {
        hex_number(ds.drop_last()) * 16 + hex_value(ds.last()).unwrap()
    }
}

/// `u8::from_str_radix(s, 16)`: an optional `+` sign, then at least one
/// hexadecimal digit, and a value that fits in a byte.
pub open spec fn parse_hex_byte(s: Seq<u8>) -> Option<u8> {
    let ds = if s.len() > 0 && s[0] == 43 { s.drop_first() } else { s };
    if ds.len() > 0 && all_hex(ds) && hex_number(ds) < 256 {
        Some(hex_number(ds) as u8)
    } else {
        None
    }
}

/// The byte that a symbol name stands for: a name of one byte stands for that
/// byte, a name `\x` followed by a hexadecimal number below 256 stands for that number.
pub open spec fn name_byte(bytes: Seq<u8>) -> Option<u8> {
    if bytes.len() == 1 {
        Some(bytes[0])
    } else if bytes.len() >= 2 && bytes[0] == 92 && bytes[1] == 120 {
        parse_hex_byte(bytes.skip(2))
    } else {
        None
    }
}

proof fn lemma_hex_number_monotone(ds: Seq<u8>, i: int)
    requires
        0 <= i <= ds.len(),
        all_hex(ds),
    ensures
        hex_number(ds.take(i)) <= hex_number(ds),
    decreases ds.len() - i,
{
    if i < ds.len() {
        lemma_hex_number_monotone(ds, i + 1);
        assert(ds.take(i + 1).drop_last() =~= ds.take(i));
        assert(hex_value(ds[i]) is Some);
    } else {
        assert(ds.take(i) =~= ds);
    }
}

/// Parses the hexadecimal bytes `ds[start..]` as `parse_hex_byte` says.
fn parse_hex_bytes(ds: &[u8], start: usize) -> (r: Option<u8>)
    requires
        start <= ds@.len(),
    ensures
        r == parse_hex_byte(ds@.skip(start as int)),
{
    let ghost s = ds@.skip(start as int);
    let mut pos = start;
    if pos < ds.len() && ds[pos] == 43 {
        pos = pos + 1;
    }
    let ghost digits = ds@.skip(pos as int);
    assert(digits =~= (if s.len() > 0 && s[0] == 43 { s.drop_first() } else { s }));
    if pos >= ds.len() {
        return None;
    }
    let mut value: u32 = 0;
    let mut i = pos;
    while i < ds.len()
        invariant
            pos <= i <= ds@.len(),
            pos < ds@.len(),
            s == ds@.skip(start as int),
            digits == ds@.skip(pos as int),
            digits == (if s.len() > 0 && s[0] == 43 { s.drop_first() } else { s }),
            all_hex(digits.take(i - pos)),
            value as nat == hex_number(digits.take(i - pos)),
            value < 256,
        decreases ds@.len() - i,
    {
        let b = ds[i];
        let d: u32 = if 48 <= b && b <= 57 {
            (b - 48) as u32
        } else if 97 <= b && b <= 102 {
            (b - 87) as u32
        } else if 65 <= b && b <= 70 {
            (b - 55) as u32
        } else {
            proof {
                assert(digits[i - pos] == b);
                assert(hex_value(digits[i - pos]) is None);
                assert(!all_hex(digits));
            }
            return None;
        };
        assert(digits.take(i + 1 - pos).drop_last() =~= digits.take(i - pos));
        assert(digits.take(i + 1 - pos).last() == b);
        assert(hex_value(b) == Some(d as nat));
        assert(hex_number(digits.take(i + 1 - pos)) == hex_number(digits.take(i - pos)) * 16 + d);
        let next = value * 16 + d;
        assert(all_hex(digits.take(i + 1 - pos)));
        if next >= 256 {
            proof {
                if all_hex(digits) {
                    lemma_hex_number_monotone(digits, i + 1 - pos);
                }
            }
            return None;
        }
        value = next;
        i = i + 1;
    }
    assert(digits.take(i - pos) =~= digits);
    Some(value as u8)
}

/// The byte that a symbol stands for, as `name_byte` says of its UTF-8 bytes.
pub fn symbol_to_char(symbol: &InputSymbol) -> (r: Option<u8>)
    ensures
        r == name_byte(vstd::utf8::encode_utf8(symbol@)),
{
    let bytes = symbol.name.as_str().as_bytes();
    if bytes.len() == 1 {
        Some(bytes[0])
    } else if bytes.len() >= 2 && bytes[0] == 92 && bytes[1] == 120 {
        parse_hex_bytes(bytes, 2)
    } else {
        None
    }
}

} // verus!

verus! {

/// The names that stand for the empty word: `epsilon`, `ε`, `ϵ`, `Є` and `$`.
pub open spec fn epsilon_names() -> Seq<Seq<char>> {
    seq![
        epsilon_name(),
        seq!['\u{3b5}'],
        seq!['\u{3f5}'],
        seq!['\u{404}'],
        seq!['$'],
    ]
}

/// Whether two texts are equal, character by character.
pub fn str_eq(a: &str, b: &str) -> (r: bool)
    ensures
        r == (a@ == b@),
{
    let n = a.unicode_len();
    if n != b.unicode_len() {
        return false;
    }
    let mut i: usize = 0;
    while i < n
        invariant
            n == a@.len(),
            n == b@.len(),
            i <= n,
            forall|k: int| 0 <= k < i ==> a@[k] == b@[k],
        decreases n - i,
    {
        if a.get_char(i) != b.get_char(i) {
            return false;
        }
        i = i + 1;
    }
    assert(a@ =~= b@);
    true
}

/// Whether `name` is one of the names that stand for the empty word.
pub fn is_epsilon_name(name: &str) -> (r: bool)
    ensures
        r == epsilon_names().contains(name@),
{
    proof {
        reveal_strlit("epsilon");
        reveal_strlit("\u{3b5}");
        reveal_strlit("\u{3f5}");
        reveal_strlit("\u{404}");
        reveal_strlit("$");
        assert(epsilon_names()[0] == epsilon_name());
        assert(epsilon_names()[1] == seq!['\u{3b5}']);
        assert(epsilon_names()[2] == seq!['\u{3f5}']);
        assert(epsilon_names()[3] == seq!['\u{404}']);
        assert(epsilon_names()[4] == seq!['$']);
        assert("epsilon"@ =~= epsilon_name());
        assert("\u{3b5}"@ =~= seq!['\u{3b5}']);
        assert("\u{3f5}"@ =~= seq!['\u{3f5}']);
        assert("\u{404}"@ =~= seq!['\u{404}']);
        assert("$"@ =~= seq!['$']);
    }
    let r = str_eq(name, "epsilon") || str_eq(name, "\u{3b5}") || str_eq(name, "\u{3f5}") || str_eq(name, "\u{404}")
        || str_eq(name, "$");
    proof {
        if epsilon_names().contains(name@) {
            let k = choose|k: int| 0 <= k < 5 && epsilon_names()[k] == name@;
            assert(k == 0 || k == 1 || k == 2 || k == 3 || k == 4);
        }
        if r {
            if name@ == epsilon_name() {
                assert(epsilon_names()[0] == name@);
            } else if name@ == seq!['\u{3b5}'] {
                assert(epsilon_names()[1] == name@);
            } else if name@ == seq!['\u{3f5}'] {
                assert(epsilon_names()[2] == name@);
            } else if name@ == seq!['\u{404}'] {
                assert(epsilon_names()[3] == name@);
            } else {
                assert(epsilon_names()[4] == name@);
            }
        }
    }
    r
}

} // verus!
