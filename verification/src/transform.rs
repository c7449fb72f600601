//! What a recoloring run is told to do: swap given colors, or shade a
//! palette from one new color. Colors are handed over as hex text.
use vstd::prelude::*;
use crate::color::hex_digit_of;
use crate::color::hex_digit;
use crate::color::hex_digit_value;
use crate::color::hex_digits;
use crate::color::hex_text;
use crate::color::is_hex_digit;
use crate::color::Color;
use crate::config::grammar::unsigned_digits;
use crate::errors::message3;
use crate::errors::TranError;
use crate::text::collect_chars;

verus! {

/// The number written by a sequence of hex digits.
pub open spec fn hex_value(digits: Seq<char>) -> nat
    decreases digits.len(),
{
    if digits.len() == 0 {
        0
    } else {
        (hex_value(digits.drop_last()) * 16 + hex_digit_value(digits.last())) as nat
    }
}

/// The number that a color text packs: the first character, which must be
/// a single byte, is passed over; the rest is an optional `+` and one or
/// more hex digits that write a number of at most 32 bits.
pub open spec fn packed_value(text: Seq<char>) -> Option<u32> {
    if text.len() == 0 || text[0] as u32 >= 0x80 {
        None
    } else {
        let digits = unsigned_digits(text.drop_first());
        if digits.len() > 0 && (forall|i: int|
            0 <= i < digits.len() ==> is_hex_digit(#[trigger] digits[i])) && hex_value(digits)
            <= u32::MAX {
            Some(hex_value(digits) as u32)
        } else {
            None
        }
    }
}

/// The color in the low 24 bits of `v`: red, green, blue from high to low.
pub open spec fn unpacked(v: u32) -> Color {
    Color {
        red: ((v & 0xFF0000) >> 16) as u8,
        green: ((v & 0x00FF00) >> 8) as u8,
        blue: (v & 0x0000FF) as u8,
    }
}

/// The color that a color text such as `#1a2b3c` denotes, if it is valid.
pub open spec fn packed_color(text: Seq<char>) -> Option<Color> {
    match packed_value(text) {
        Some(v) => Some(unpacked(v)),
        None => None,
    }
}

proof fn lemma_hex_value_grows(digits: Seq<char>, n: int)
    requires
        0 <= n <= digits.len(),
        forall|i: int| 0 <= i < digits.len() ==> is_hex_digit(#[trigger] digits[i]),
    ensures
        hex_value(digits.take(n)) <= hex_value(digits),
    decreases digits.len() - n,
{
    if n < digits.len() {
        assert(digits.take(n + 1).drop_last() =~= digits.take(n));
        lemma_hex_value_grows(digits, n + 1);
    } else {
        assert(digits.take(n) =~= digits);
    }
}

/// The number packed in `hex`.
fn packed_value_of(hex: &str) -> (res: Option<u32>)
    ensures
        res == packed_value(hex@),
{
    let chars = collect_chars(hex);
    let n = chars.len();
    if n == 0 || chars[0] as u32 >= 0x80 {
        return None;
    }
    let start: usize = if 1 < n && chars[1] == '+' {
        2
    } else {
        1
    };
    let ghost rest = chars@.drop_first();
    let ghost digits = chars@.subrange(start as int, n as int);
    proof {
        if start == 2 {
            assert(rest[0] == '+');
            assert(rest.drop_first() =~= digits);
        } else {
            assert(rest =~= digits);
            if rest.len() > 0 {
                assert(rest[0] == chars@[1]);
            }
        }
        assert(unsigned_digits(rest) == digits);
        assert(digits.take(0) =~= Seq::<char>::empty());
    }
    if start == n {
        return None;
    }
    let mut value: u32 = 0;
    let mut i: usize = start;
    while i < n
        invariant
            1 <= start <= i <= n,
            n == chars.len(),
            chars@ == hex@,
            chars@.len() > 0,
            (chars@[0] as u32) < 0x80,
            digits == chars@.subrange(start as int, n as int),
            digits == unsigned_digits(chars@.drop_first()),
            forall|k: int| 0 <= k < i - start ==> is_hex_digit(#[trigger] digits[k]),
            value == hex_value(digits.take(i - start)),
        decreases n - i,
    {
        let d: u32 = match hex_digit_of(chars[i]) {
            Some(d) => d as u32,
            None => {
                proof {
                    assert(digits[i - start] == chars@[i as int]);
                }
                return None;
            },
        };
        proof {
            assert(digits.take(i - start + 1).drop_last() =~= digits.take(i - start));
            assert(digits.take(i - start + 1).last() == chars@[i as int]);
        }
        if value > (u32::MAX - d) / 16 {
            proof {
                if forall|k: int| 0 <= k < digits.len() ==> is_hex_digit(#[trigger] digits[k]) {
                    lemma_hex_value_grows(digits, i - start + 1);
                }
            }
            return None;
        }
        value = value * 16 + d;
        i += 1;
    }
    proof {
        assert(digits.take(n - start) =~= digits);
    }
    Some(value)
}

/// The color in the low 24 bits of `v`.
fn unpack(v: u32) -> (c: Color)
    ensures
        c == unpacked(v),
{
    proof {
        assert(((v & 0xFF0000) >> 16) < 256) by (bit_vector);
        assert(((v & 0x00FF00) >> 8) < 256) by (bit_vector);
        assert((v & 0x0000FF) < 256) by (bit_vector);
    }
    Color {
        red: ((v & 0xFF0000) >> 16) as u8,
        green: ((v & 0x00FF00) >> 8) as u8,
        blue: (v & 0x0000FF) as u8,
    }
}

/// Reads the color that a color text such as `#1a2b3c` denotes. A text
/// that denotes none is a `ConfigError`.
pub fn hex_to_bytes(hex: &str) -> (res: Result<(u8, u8, u8), TranError>)
    ensures
        match res {
            Ok(channels) => packed_color(hex@) == Some(
                Color { red: channels.0, green: channels.1, blue: channels.2 },
            ),
            Err(e) => packed_color(hex@) is None && e is ConfigError,
        },
{
    match packed_value_of(hex) {
        Some(v) => Ok(unpack(v).bytes()),
        None => Err(TranError::ConfigError(message3("Color hex ", hex, " is invalid"))),
    }
}

/// One substitution: where `current_color` stands, `new_color` is put.
#[derive(Debug)]
pub struct ColorMap<'a> {
    new_color: &'a str,
    current_color: &'a str,
}

impl<'a> View for ColorMap<'a> {
    type V = (Seq<char>, Seq<char>);

    /// The new color and the current color, as text.
    closed spec fn view(&self) -> (Seq<char>, Seq<char>) {
        (self.new_color@, self.current_color@)
    }
}

impl<'a> ColorMap<'a> {
    pub fn new(new_color: &'a str, current_color: &'a str) -> (map: Self)
        ensures
            map@ == (new_color@, current_color@),
    {
        ColorMap { new_color, current_color }
    }

    /// The channels of the new color.
    pub fn new_color_bytes(&self) -> (res: Result<(u8, u8, u8), TranError>)
        ensures
            match res {
                Ok(channels) => packed_color(self@.0) == Some(
                    Color { red: channels.0, green: channels.1, blue: channels.2 },
                ),
                Err(e) => packed_color(self@.0) is None && e is ConfigError,
            },
    {
        hex_to_bytes(self.new_color)
    }

    /// The channels of the current color.
    pub fn current_color_bytes(&self) -> (res: Result<(u8, u8, u8), TranError>)
        ensures
            match res {
                Ok(channels) => packed_color(self@.1) == Some(
                    Color { red: channels.0, green: channels.1, blue: channels.2 },
                ),
                Err(e) => packed_color(self@.1) is None && e is ConfigError,
            },
    {
        hex_to_bytes(self.current_color)
    }

    pub fn get_new_color(&self) -> (text: &'a str)
        ensures
            text@ == self@.0,
    {
        self.new_color
    }

    pub fn get_current_color(&self) -> (text: &'a str)
        ensures
            text@ == self@.1,
    {
        self.current_color
    }
}

/// How a palette is recolored.
pub enum ColorTransform<'a, 'b> {
    /// Each palette color that is the current color of a substitution is
    /// replaced by its new color. Where several substitutions name one
    /// current color, the first of them in the list decides. A color is
    /// replaced once: what was put in is not looked up again.
    Mapping(&'b [ColorMap<'a>]),
    /// The palette is shaded from `primary`: the brightest color becomes
    /// `primary`, each darker one keeps its proportion to the one before
    /// it. Black and white stay. `background` belongs to the transform but
    /// takes no part in the shading.
    Gradient { primary: &'a str, background: &'a str },
}

/// What a transform says, as text.
pub enum TransformModel {
    /// Pairs of a new and a current color.
    Mapping(Seq<(Seq<char>, Seq<char>)>),
    Gradient { primary: Seq<char>, background: Seq<char> },
}

impl<'a, 'b> View for ColorTransform<'a, 'b> {
    type V = TransformModel;

    open spec fn view(&self) -> TransformModel {
        match self {
            ColorTransform::Mapping(maps) => TransformModel::Mapping(
                Seq::new(maps@.len(), |i: int| maps@[i]@),
            ),
            ColorTransform::Gradient { primary, background } => TransformModel::Gradient {
                primary: primary@,
                background: background@,
            },
        }
    }
}

/// What is chosen from a list in a given turn: the turns go round the
/// list. Nothing is chosen from an empty list.
pub open spec fn chosen<T>(choices: Seq<T>, turn: int) -> Option<T> {
    if choices.len() == 0 {
        None
    } else {
        Some(choices[turn % choices.len() as int])
    }
}

/// Chooses from a selection list by the number of the turn, such as the
/// time in seconds.
pub fn pick<T>(choices: &[T], turn: usize) -> (res: Option<&T>)
    ensures
        match res {
            Some(choice) => chosen(choices@, turn as int) == Some(*choice),
            None => chosen(choices@, turn as int) is None,
        },
{
    if choices.len() == 0 {
        None
    } else {
        Some(&choices[turn % choices.len()])
    }
}

/// The substitutions that lead from one row of colors to another: the
/// colors of the two rows pair by pair, as far as both rows go, each color
/// in its display form. The new color comes first.
pub fn row_pairs(new_row: &[Color], current_row: &[Color]) -> (pairs: Vec<(String, String)>)
    ensures
        pairs@.len() == new_row@.len() || pairs@.len() == current_row@.len(),
        pairs@.len() <= new_row@.len(),
        pairs@.len() <= current_row@.len(),
        forall|i: int|
            0 <= i < pairs@.len() ==> (#[trigger] pairs@[i]).0@ == hex_text(new_row@[i])
                && pairs@[i].1@ == hex_text(current_row@[i]),
{
    let mut pairs: Vec<(String, String)> = Vec::new();
    let mut i: usize = 0;
    while i < new_row.len() && i < current_row.len()
        invariant
            i <= new_row.len(),
            i <= current_row.len(),
            pairs@.len() == i,
            forall|k: int|
                0 <= k < i ==> (#[trigger] pairs@[k]).0@ == hex_text(new_row@[k]) && pairs@[k].1@
                    == hex_text(current_row@[k]),
        decreases new_row.len() - i,
    {
        pairs.push((new_row[i].to_string(), current_row[i].to_string()));
        i += 1;
    }
    pairs
}

proof fn lemma_hex_value_push(digits: Seq<char>, c: char)
    requires
        is_hex_digit(c),
    ensures
        hex_value(digits.push(c)) == hex_value(digits) * 16 + hex_digit_value(c),
{
    assert(digits.push(c).drop_last() =~= digits);
}

/// The display form of a color denotes that color as a color text, so
/// that a transform made from displayed colors works on those colors.
pub proof fn lemma_packed_of_display(c: Color)
    ensures
        packed_color(hex_text(c)) == Some(c),
{
    let text = hex_text(c);
    let digits = hex_digits(c);
    let r = c.red as int;
    let g = c.green as int;
    let b = c.blue as int;
    assert(text.drop_first() =~= digits);
    assert(unsigned_digits(digits) == digits);
    assert forall|i: int| 0 <= i < digits.len() implies is_hex_digit(#[trigger] digits[i]) by {
        if i == 0 {
        } else if i == 1 {
        } else if i == 2 {
        } else if i == 3 {
        } else if i == 4 {
        } else {
        }
    }
    let s0 = Seq::<char>::empty();
    let s1 = s0.push(hex_digit(r / 16));
    let s2 = s1.push(hex_digit(r % 16));
    let s3 = s2.push(hex_digit(g / 16));
    let s4 = s3.push(hex_digit(g % 16));
    let s5 = s4.push(hex_digit(b / 16));
    let s6 = s5.push(hex_digit(b % 16));
    assert(s6 =~= digits);
    lemma_hex_value_push(s0, hex_digit(r / 16));
    lemma_hex_value_push(s1, hex_digit(r % 16));
    lemma_hex_value_push(s2, hex_digit(g / 16));
    lemma_hex_value_push(s3, hex_digit(g % 16));
    lemma_hex_value_push(s4, hex_digit(b / 16));
    lemma_hex_value_push(s5, hex_digit(b % 16));
    assert(hex_value(s0) == 0);
    assert(hex_value(s2) == r);
    assert(hex_value(s4) == r * 256 + g);
    assert(hex_value(digits) == r * 65536 + g * 256 + b);
    let v = (r * 65536 + g * 256 + b) as u32;
    let (red, green, blue) = (c.red, c.green, c.blue);
    assert(((v & 0xFF0000) >> 16) as u8 == red && ((v & 0x00FF00) >> 8) as u8 == green && (v
        & 0x0000FF) as u8 == blue) by (bit_vector)
        requires
            v == (red as u32) * 65536 + (green as u32) * 256 + (blue as u32),
    ;
}

} // verus!
