use vstd::prelude::*;
use crate::errors::message3;
use crate::errors::TranError;
use crate::text::collect_chars;

verus! {

/// An RGB color with 8 bits per channel.
#[derive(Clone, Copy, Debug, PartialEq, Eq, Structural)]
pub struct Color {
    pub red: u8,
    pub green: u8,
    pub blue: u8,
}

/// `c` is one of `0-9`, `a-f`, `A-F`.
pub open spec fn is_hex_digit(c: char) -> bool {
    ('0' <= c && c <= '9') || ('a' <= c && c <= 'f') || ('A' <= c && c <= 'F')
}

/// `c` is one of `0-9`, `a-f`.
pub open spec fn is_lower_hex_digit(c: char) -> bool {
    ('0' <= c && c <= '9') || ('a' <= c && c <= 'f')
}

/// The number a hex digit stands for.
pub open spec fn hex_digit_value(c: char) -> int {
    if '0' <= c && c <= '9' {
        c as int - '0' as int
    } else if 'a' <= c && c <= 'f' {
        c as int - 'a' as int + 10
    } else {
        c as int - 'A' as int + 10
    }
}

/// The lower-case hex digit for a number below 16.
pub open spec fn hex_digit(v: int) -> char {
    if v < 10 {
        ('0' as int + v) as char
    } else {
        ('a' as int + v - 10) as char
    }
}

/// `c` with the letters `A-F` put in lower case.
pub open spec fn lowered(c: char) -> char {
    if 'A' <= c && c <= 'F' {
        (c as int - 'A' as int + 'a' as int) as char
    } else {
        c
    }
}

/// The channel written as two hex digits, high digit first.
pub open spec fn hex_pair(high: char, low: char) -> u8 {
    (hex_digit_value(high) * 16 + hex_digit_value(low)) as u8
}

/// The color written as exactly six hex digits `rrggbb`, if `digits` is that.
pub open spec fn six_digits(digits: Seq<char>) -> Option<Color> {
    if digits.len() == 6 && (forall|i: int| 0 <= i < 6 ==> is_hex_digit(#[trigger] digits[i])) {
        Some(
            Color {
                red: hex_pair(digits[0], digits[1]),
                green: hex_pair(digits[2], digits[3]),
                blue: hex_pair(digits[4], digits[5]),
            },
        )
    } else {
        None
    }
}

/// The color that `text` denotes: six hex digits, with or without a leading
/// `#`. Any other text denotes no color.
pub open spec fn hex_color(text: Seq<char>) -> Option<Color> {
    if text.len() == 7 && text[0] == '#' {
        six_digits(text.drop_first())
    } else {
        six_digits(text)
    }
}

/// The six digits of an accepted hex text, without the optional `#`.
pub open spec fn digits_of(text: Seq<char>) -> Seq<char> {
    if text.len() == 7 {
        text.drop_first()
    } else {
        text
    }
}

/// The six lower-case hex digits of a color.
pub open spec fn hex_digits(c: Color) -> Seq<char> {
    seq![
        hex_digit(c.red as int / 16),
        hex_digit(c.red as int % 16),
        hex_digit(c.green as int / 16),
        hex_digit(c.green as int % 16),
        hex_digit(c.blue as int / 16),
        hex_digit(c.blue as int % 16),
    ]
}

/// The display form of a color: `#rrggbb` in lower case.
pub open spec fn hex_text(c: Color) -> Seq<char> {
    seq!['#'] + hex_digits(c)
}

impl Color {
    pub fn black() -> (c: Self)
        ensures
            c == (Color { red: 0, green: 0, blue: 0 }),
    {
        Color { red: 0, green: 0, blue: 0 }
    }

    pub fn white() -> (c: Self)
        ensures
            c == (Color { red: 255, green: 255, blue: 255 }),
    {
        Color { red: 255, green: 255, blue: 255 }
    }

    pub fn from_bytes(red: u8, green: u8, blue: u8) -> (c: Self)
        ensures
            c == (Color { red, green, blue }),
    {
        Color { red, green, blue }
    }

    pub fn bytes(&self) -> (channels: (u8, u8, u8))
        ensures
            channels == (self.red, self.green, self.blue),
    {
        (self.red, self.green, self.blue)
    }

    /// Reads a color from six hex digits with or without a leading `#`.
    /// Every other text is rejected with a `ConfigError`.
    pub fn try_from_hex_str(s: &str) -> (res: Result<Self, TranError>)
        ensures
            match res {
                Ok(c) => hex_color(s@) == Some(c),
                Err(e) => hex_color(s@) is None && e is ConfigError,
            },
    {
        let chars = collect_chars(s);
        proof {
            assert(chars@.subrange(0, chars@.len() as int) =~= s@);
        }
        match hex_color_in(&chars, 0, chars.len()) {
            Some(c) => Ok(c),
            None => Err(
                TranError::ConfigError(message3("Could not interpret ", s, " as hex color")),
            ),
        }
    }

    /// The display form `#rrggbb`, in lower case.
    pub fn to_string(&self) -> (text: String)
        ensures
            text@ == hex_text(*self),
    {
        let mut text = String::from_str("#");
        text.append(nibble_str(self.red / 16));
        text.append(nibble_str(self.red % 16));
        text.append(nibble_str(self.green / 16));
        text.append(nibble_str(self.green % 16));
        text.append(nibble_str(self.blue / 16));
        text.append(nibble_str(self.blue % 16));
        proof {
            reveal_strlit("#");
            assert(text@ =~= hex_text(*self));
        }
        text
    }
}

impl<'a> TryFrom<&'a str> for Color {
    type Error = TranError;

    fn try_from(value: &'a str) -> (res: Result<Self, Self::Error>)
        ensures
            match res {
                Ok(c) => hex_color(value@) == Some(c),
                Err(e) => hex_color(value@) is None && e is ConfigError,
            },
    {
        Color::try_from_hex_str(value)
    }
}

/// The conversion is specified by the `ensures` of `try_from`: an error
/// carries a `String`, which has no value in specifications.
impl<'a> vstd::std_specs::convert::TryFromSpecImpl<&'a str> for Color {
    open spec fn obeys_try_from_spec() -> bool {
        false
    }

    open spec fn try_from_spec(v: &'a str) -> Result<Self, Self::Error> {
        arbitrary()
    }
}

impl From<Color> for String {
    /// The display form `#rrggbb`, in lower case.
    fn from(value: Color) -> (text: String)
        ensures
            text@ == hex_text(value),
    {
        value.to_string()
    }
}

/// The conversion is specified by the `ensures` of `from`: a `String` has
/// no value in specifications, only its text.
impl vstd::std_specs::convert::FromSpecImpl<Color> for String {
    open spec fn obeys_from_spec() -> bool {
        false
    }

    open spec fn from_spec(v: Color) -> String {
        arbitrary()
    }
}

/// The value of one hex digit, or `None` for any other character.
pub fn hex_digit_of(c: char) -> (res: Option<u8>)
    ensures
        res is Some <==> is_hex_digit(c),
        res matches Some(v) ==> v == hex_digit_value(c) && v < 16,
{
    if c >= '0' && c <= '9' {
        Some((c as u32 - '0' as u32) as u8)
    } else if c >= 'a' && c <= 'f' {
        Some((c as u32 - 'a' as u32 + 10) as u8)
    } else if c >= 'A' && c <= 'F' {
        Some((c as u32 - 'A' as u32 + 10) as u8)
    } else {
        None
    }
}

/// The channel written by the two characters at `at` and `at + 1`.
fn hex_pair_in(chars: &Vec<char>, at: usize) -> (res: Option<u8>)
    requires
        at + 1 < chars.len(),
    ensures
        res is Some <==> is_hex_digit(chars@[at as int]) && is_hex_digit(chars@[at + 1]),
        res matches Some(v) ==> v == hex_pair(chars@[at as int], chars@[at + 1]),
{
    match hex_digit_of(chars[at]) {
        Some(high) => match hex_digit_of(chars[at + 1]) {
            Some(low) => Some(high * 16 + low),
            None => None,
        },
        None => None,
    }
}

/// The color written by exactly the six characters from `at` on.
fn six_digits_in(chars: &Vec<char>, at: usize) -> (res: Option<Color>)
    requires
        at + 6 <= chars.len(),
    ensures
        res == six_digits(chars@.subrange(at as int, at + 6)),
{
    let ghost digits = chars@.subrange(at as int, at + 6);
    proof {
        assert(forall|i: int| 0 <= i < 6 ==> digits[i] == chars@[at + i]);
    }
    let red = hex_pair_in(chars, at);
    let green = hex_pair_in(chars, at + 2);
    let blue = hex_pair_in(chars, at + 4);
    match (red, green, blue) {
        (Some(red), Some(green), Some(blue)) => {
            proof {
                assert forall|i: int| 0 <= i < 6 implies is_hex_digit(#[trigger] digits[i]) by {
                    assert(digits[i] == chars@[at + i]);
                    if i == 0 {
                    } else if i == 1 {
                    } else if i == 2 {
                    } else if i == 3 {
                    } else if i == 4 {
                    } else {
                    }
                }
            }
            Some(Color { red, green, blue })
        },
        _ => {
            proof {
                if red is None {
                    assert(!is_hex_digit(digits[0]) || !is_hex_digit(digits[1]));
                } else if green is None {
                    assert(!is_hex_digit(digits[2]) || !is_hex_digit(digits[3]));
                } else {
                    assert(!is_hex_digit(digits[4]) || !is_hex_digit(digits[5]));
                }
            }
            None
        },
    }
}

/// The color denoted by the characters `chars[from..to]`.
pub(crate) fn hex_color_in(chars: &Vec<char>, from: usize, to: usize) -> (res: Option<Color>)
    requires
        from <= to <= chars.len(),
    ensures
        res == hex_color(chars@.subrange(from as int, to as int)),
{
    let ghost text = chars@.subrange(from as int, to as int);
    let len = to - from;
    if len == 7 && chars[from] == '#' {
        proof {
            assert(text.drop_first() =~= chars@.subrange(from + 1, from + 7));
        }
        six_digits_in(chars, from + 1)
    } else if len == 6 {
        six_digits_in(chars, from)
    } else {
        None
    }
}

/// The one-character text of a hex digit below 16.
pub(crate) fn nibble_str(v: u8) -> (digit: &'static str)
    requires
        v < 16,
    ensures
        digit@ == seq![hex_digit(v as int)],
{
    proof {
        reveal_strlit("0");
        reveal_strlit("1");
        reveal_strlit("2");
        reveal_strlit("3");
        reveal_strlit("4");
        reveal_strlit("5");
        reveal_strlit("6");
        reveal_strlit("7");
        reveal_strlit("8");
        reveal_strlit("9");
        reveal_strlit("a");
        reveal_strlit("b");
        reveal_strlit("c");
        reveal_strlit("d");
        reveal_strlit("e");
        reveal_strlit("f");
    }
    let digit = if v == 0 {
        "0"
    } else if v == 1 {
        "1"
    } else if v == 2 {
        "2"
    } else if v == 3 {
        "3"
    } else if v == 4 {
        "4"
    } else if v == 5 {
        "5"
    } else if v == 6 {
        "6"
    } else if v == 7 {
        "7"
    } else if v == 8 {
        "8"
    } else if v == 9 {
        "9"
    } else if v == 10 {
        "a"
    } else if v == 11 {
        "b"
    } else if v == 12 {
        "c"
    } else if v == 13 {
        "d"
    } else if v == 14 {
        "e"
    } else {
        "f"
    };
    proof {
        assert(digit@ =~= seq![hex_digit(v as int)]);
    }
    digit
}

/// A hex digit pair read back from the two digits written for a channel
/// gives the channel.
pub proof fn lemma_hex_pair_of_digits(v: u8)
    ensures
        is_lower_hex_digit(hex_digit(v as int / 16)),
        is_lower_hex_digit(hex_digit(v as int % 16)),
        hex_pair(hex_digit(v as int / 16), hex_digit(v as int % 16)) == v,
{
}

/// Parsing the display form of a color gives the color back, with and
/// without the leading `#`.
pub proof fn lemma_parse_of_display(c: Color)
    ensures
        hex_color(hex_text(c)) == Some(c),
        hex_color(hex_digits(c)) == Some(c),
        six_digits(hex_digits(c)) == Some(c),
        hex_text(c).len() == 7,
        hex_text(c)[0] == '#',
        forall|i: int| 0 <= i < 6 ==> is_lower_hex_digit(#[trigger] hex_digits(c)[i]),
{
    lemma_hex_pair_of_digits(c.red);
    lemma_hex_pair_of_digits(c.green);
    lemma_hex_pair_of_digits(c.blue);
    assert(hex_text(c).drop_first() =~= hex_digits(c));
}

/// Writing the two hex digits of the channel that two digits denote gives
/// those digits in lower case.
pub proof fn lemma_digits_of_hex_pair(high: char, low: char)
    requires
        is_hex_digit(high),
        is_hex_digit(low),
    ensures
        hex_digit(hex_pair(high, low) as int / 16) == lowered(high),
        hex_digit(hex_pair(high, low) as int % 16) == lowered(low),
{
}

/// For every accepted hex text, with or without the leading `#`, the
/// display of the parsed color is `#` followed by the six digits of the
/// text in lower case, and parsing and displaying again changes nothing.
pub proof fn lemma_display_normalizes(text: Seq<char>)
    requires
        hex_color(text) is Some,
    ensures
        ({
            let shown = hex_text(hex_color(text).unwrap());
            &&& shown == seq!['#'] + digits_of(text).map_values(|c: char| lowered(c))
            &&& shown.len() == 7
            &&& forall|i: int| 1 <= i < 7 ==> is_lower_hex_digit(#[trigger] shown[i])
            &&& hex_color(shown) == hex_color(text)
            &&& hex_text(hex_color(shown).unwrap()) == shown
        }),
{
    let c = hex_color(text).unwrap();
    let d = digits_of(text);
    let shown = hex_text(c);
    assert(six_digits(d) == Some(c));
    lemma_digits_of_hex_pair(d[0], d[1]);
    lemma_digits_of_hex_pair(d[2], d[3]);
    lemma_digits_of_hex_pair(d[4], d[5]);
    assert(shown =~= seq!['#'] + d.map_values(|c: char| lowered(c)));
    lemma_parse_of_display(c);
    assert forall|i: int| 1 <= i < 7 implies is_lower_hex_digit(#[trigger] shown[i]) by {
        assert(shown[i] == hex_digits(c)[i - 1]);
    }
}

} // verus!
