//! The configuration grammar as a mathematical model: a scanner that reads
//! one character at a time, and the meaning of each completed line.
//!
//! ```text
//! file      := section+
//! section   := '[' name ']' '\n' line*
//! line      := text '\n'        -- or the end of the input for the last line
//! ```
use vstd::prelude::*;
use crate::color::hex_color;
use crate::color::Color;
use crate::config::mode_named;
use crate::config::section_named;
use crate::config::ConfigModel;
use crate::config::GradientModel;
use crate::config::MapModel;
use crate::config::Mode;
use crate::config::Section;

verus! {

/// Where the scanner stands.
#[derive(Clone, Copy, Debug, PartialEq, Eq, Structural)]
pub enum Phase {
    /// Nothing was read yet.
    Start,
    /// Inside the brackets of a section header.
    BraceOpen,
    /// Directly behind the `]` of a section header.
    BraceClosed,
    /// At the beginning of a line.
    NewLine,
    /// Inside a content line.
    Text,
}

/// The current color as far as the scanner knows it.
pub enum CurrentDraft {
    Single(Color),
    Row(Seq<Color>),
}

/// The colors as far as the scanner knows them.
pub enum ColorsDraft {
    Unset,
    Singles(Seq<Color>),
    Rows(Seq<Seq<Color>>),
}

/// What the scanner has gathered from the completed lines.
pub struct Draft {
    pub mode: Option<Mode>,
    pub current: CurrentDraft,
    pub colors: ColorsDraft,
    pub weights: Seq<usize>,
    pub target_files: Seq<Seq<char>>,
    pub overwrite: bool,
}

/// The whole state of the scanner: its phase, the section that content
/// lines belong to, the characters of the unfinished header or line, and
/// the draft.
pub struct Scanner {
    pub phase: Phase,
    pub section: Section,
    pub pending: Seq<char>,
    pub draft: Draft,
}

/// The characters that count as white space: those with the Unicode
/// property `White_Space`.
pub open spec fn is_space(c: char) -> bool {
    let code = c as u32;
    ||| 0x09 <= code <= 0x0D
    ||| code == 0x20
    ||| code == 0x85
    ||| code == 0xA0
    ||| code == 0x1680
    ||| 0x2000 <= code <= 0x200A
    ||| code == 0x2028
    ||| code == 0x2029
    ||| code == 0x202F
    ||| code == 0x205F
    ||| code == 0x3000
}

/// `s` without its leading white space.
pub open spec fn trim_start(s: Seq<char>) -> Seq<char>
    decreases s.len(),
{
    if s.len() > 0 && is_space(s[0]) {
        trim_start(s.drop_first())
    } else {
        s
    }
}

/// `s` without its trailing white space.
pub open spec fn trim_end(s: Seq<char>) -> Seq<char>
    decreases s.len(),
{
    if s.len() > 0 && is_space(s.last()) {
        trim_end(s.drop_last())
    } else {
        s
    }
}

/// `s` without its leading and trailing white space.
pub open spec fn trimmed(s: Seq<char>) -> Seq<char> {
    trim_end(trim_start(s))
}

/// `c` is one of `0-9`.
pub open spec fn is_decimal_digit(c: char) -> bool {
    '0' <= c && c <= '9'
}

/// The number written by a sequence of decimal digits.
pub open spec fn decimal_value(digits: Seq<char>) -> nat
    decreases digits.len(),
{
    if digits.len() == 0 {
        0
    } else {
        (decimal_value(digits.drop_last()) * 10 + (digits.last() as int - '0' as int)) as nat
    }
}

/// The digits of `token`: what stands behind its `+`, if it has one.
pub open spec fn unsigned_digits(token: Seq<char>) -> Seq<char> {
    if token.len() > 0 && token[0] == '+' {
        token.drop_first()
    } else {
        token
    }
}

/// The number that `token` writes in decimal: an optional `+`, then one or
/// more digits. Any other token writes no number.
pub open spec fn unsigned_of(token: Seq<char>) -> Option<nat> {
    let digits = unsigned_digits(token);
    if digits.len() > 0 && (forall|i: int|
        0 <= i < digits.len() ==> is_decimal_digit(#[trigger] digits[i])) {
        Some(decimal_value(digits))
    } else {
        None
    }
}

/// The weight that `token` gives: the number it writes, or 1 where it
/// writes none or one that is out of range.
pub open spec fn weight_of(token: Seq<char>) -> usize {
    match unsigned_of(token) {
        Some(v) => if v <= usize::MAX {
            v as usize
        } else {
            1
        },
        None => 1,
    }
}

/// The index of the first `#` in `s`, or the length of `s` if there is
/// none.
pub open spec fn first_hash(s: Seq<char>) -> nat
    decreases s.len(),
{
    if s.len() == 0 {
        0
    } else if s[0] == '#' {
        0
    } else {
        1 + first_hash(s.drop_first())
    }
}

/// The colors of a list of hex colors separated by `#`. A token that is no
/// hex color makes the whole list invalid.
pub open spec fn color_list(s: Seq<char>) -> Option<Seq<Color>>
    decreases s.len(),
{
    let i = first_hash(s) as int;
    match hex_color(s.take(i)) {
        None => None,
        Some(c) => if i >= s.len() {
            Some(seq![c])
        } else {
            match color_list(s.skip(i + 1)) {
                None => None,
                Some(rest) => Some(seq![c] + rest),
            }
        },
    }
}

/// A row of colors as a line of the `current_color` section writes it in
/// map mode: hex colors separated by `#`, with or without a `#` in front.
pub open spec fn color_row(line: Seq<char>) -> Option<Seq<Color>> {
    if line.len() > 0 && line[0] == '#' {
        color_list(line.drop_first())
    } else {
        color_list(line)
    }
}

/// A line of the `colors` section in gradient mode: the text before the
/// first `#` gives the weight, the text behind it is one hex color.
pub open spec fn weighted_color(line: Seq<char>) -> Option<(usize, Color)> {
    let i = first_hash(line) as int;
    if i >= line.len() {
        None
    } else {
        match hex_color(line.skip(i + 1)) {
            None => None,
            Some(c) => Some((weight_of(line.take(i)), c)),
        }
    }
}

/// A line of the `colors` section in map mode: the text before the first
/// `#` gives the weight, the text behind it is a list of hex colors
/// separated by `#`. A line without `#` gives an empty row.
pub open spec fn weighted_row(line: Seq<char>) -> Option<(usize, Seq<Color>)> {
    let i = first_hash(line) as int;
    if i >= line.len() {
        Some((weight_of(line), Seq::empty()))
    } else {
        match color_list(line.skip(i + 1)) {
            None => None,
            Some(row) => Some((weight_of(line.take(i)), row)),
        }
    }
}

/// The draft after a completed line of the `colors` section.
pub open spec fn with_colors_line(draft: Draft, line: Seq<char>) -> Option<Draft> {
    match draft.mode {
        None => None,
        Some(Mode::Gradient) => match weighted_color(line) {
            None => None,
            Some((w, c)) => match draft.colors {
                ColorsDraft::Unset => Some(
                    Draft {
                        colors: ColorsDraft::Singles(seq![c]),
                        weights: draft.weights.push(w),
                        ..draft
                    },
                ),
                ColorsDraft::Singles(list) => Some(
                    Draft {
                        colors: ColorsDraft::Singles(list.push(c)),
                        weights: draft.weights.push(w),
                        ..draft
                    },
                ),
                ColorsDraft::Rows(_) => None,
            },
        },
        Some(Mode::Mapping) => match weighted_row(line) {
            None => None,
            Some((w, row)) => match draft.colors {
                ColorsDraft::Unset => Some(
                    Draft {
                        colors: ColorsDraft::Rows(seq![row]),
                        weights: draft.weights.push(w),
                        ..draft
                    },
                ),
                ColorsDraft::Rows(rows) => Some(
                    Draft {
                        colors: ColorsDraft::Rows(rows.push(row)),
                        weights: draft.weights.push(w),
                        ..draft
                    },
                ),
                ColorsDraft::Singles(_) => None,
            },
        },
    }
}

/// The draft after a completed line of the `current_color` section.
pub open spec fn with_current_line(draft: Draft, line: Seq<char>) -> Option<Draft> {
    match draft.mode {
        None => None,
        Some(Mode::Gradient) => match hex_color(line) {
            None => None,
            Some(c) => Some(Draft { current: CurrentDraft::Single(c), ..draft }),
        },
        Some(Mode::Mapping) => match color_row(line) {
            None => None,
            Some(row) => Some(Draft { current: CurrentDraft::Row(row), ..draft }),
        },
    }
}

/// The draft after a completed line of the given section, or `None` where
/// the line is not valid there.
pub open spec fn interpret(draft: Draft, section: Section, line: Seq<char>) -> Option<Draft> {
    match section {
        Section::Mode => match mode_named(line) {
            None => None,
            Some(mode) => Some(Draft { mode: Some(mode), ..draft }),
        },
        Section::Colors => with_colors_line(draft, line),
        Section::CurrentColor => with_current_line(draft, line),
        Section::TargetFiles => Some(
            Draft { target_files: draft.target_files.push(line), ..draft },
        ),
        Section::Overwrite => Some(Draft { overwrite: line == "true"@, ..draft }),
    }
}

/// The scanner before the first character.
pub open spec fn initial() -> Scanner {
    Scanner {
        phase: Phase::Start,
        section: Section::Mode,
        pending: Seq::empty(),
        draft: Draft {
            mode: None,
            current: CurrentDraft::Single(Color { red: 0, green: 0, blue: 0 }),
            colors: ColorsDraft::Unset,
            weights: Seq::empty(),
            target_files: Seq::empty(),
            overwrite: false,
        },
    }
}

/// The scanner after one more character, or `None` where the character
/// breaks the grammar or completes an invalid header or line.
pub open spec fn step(sc: Scanner, c: char) -> Option<Scanner> {
    match sc.phase {
        Phase::Start => if c == '[' {
            Some(Scanner { phase: Phase::BraceOpen, ..sc })
        } else {
            None
        },
        Phase::BraceOpen => if c == ']' {
            match section_named(sc.pending) {
                None => None,
                Some(section) => Some(
                    Scanner {
                        phase: Phase::BraceClosed,
                        section: section,
                        pending: Seq::empty(),
                        ..sc
                    },
                ),
            }
        } else {
            Some(Scanner { pending: sc.pending.push(c), ..sc })
        },
        Phase::BraceClosed => if c == '\n' {
            Some(Scanner { phase: Phase::NewLine, ..sc })
        } else {
            None
        },
        Phase::NewLine => if c == '[' {
            Some(Scanner { phase: Phase::BraceOpen, ..sc })
        } else {
            Some(Scanner { phase: Phase::Text, pending: sc.pending.push(c), ..sc })
        },
        Phase::Text => if c == '\n' {
            match interpret(sc.draft, sc.section, sc.pending) {
                None => None,
                Some(draft) => Some(
                    Scanner { phase: Phase::NewLine, pending: Seq::empty(), draft: draft, ..sc },
                ),
            }
        } else {
            Some(Scanner { pending: sc.pending.push(c), ..sc })
        },
    }
}

/// The scanner after the characters of `text`, read from left to right.
pub open spec fn scan(sc: Scanner, text: Seq<char>) -> Option<Scanner>
    decreases text.len(),
{
    if text.len() == 0 {
        Some(sc)
    } else {
        match scan(sc, text.drop_last()) {
            None => None,
            Some(before) => step(before, text.last()),
        }
    }
}

/// The draft at the end of the input: what is pending is taken as a last
/// line of the current section.
pub open spec fn flush(sc: Scanner) -> Option<Draft> {
    if sc.pending.len() == 0 {
        Some(sc.draft)
    } else {
        interpret(sc.draft, sc.section, sc.pending)
    }
}

/// The configuration that a finished draft amounts to. The mode and the
/// colors are required, and the current color and the colors must have
/// the shape that the mode asks for.
pub open spec fn assemble(draft: Draft) -> Option<ConfigModel> {
    match (draft.mode, draft.current, draft.colors) {
        (Some(Mode::Gradient), CurrentDraft::Single(current), ColorsDraft::Singles(colors)) => Some(
            ConfigModel::Gradient(
                GradientModel {
                    current_color: current,
                    colors: colors,
                    weights: draft.weights,
                    target_files: draft.target_files,
                    overwrite: draft.overwrite,
                },
            ),
        ),
        (Some(Mode::Mapping), CurrentDraft::Row(current), ColorsDraft::Rows(colors)) => Some(
            ConfigModel::Mapping(
                MapModel {
                    current_color: current,
                    colors: colors,
                    weights: draft.weights,
                    target_files: draft.target_files,
                    overwrite: draft.overwrite,
                },
            ),
        ),
        _ => None,
    }
}

/// The configuration that `text` denotes, or `None` where `text` is no
/// valid configuration. White space around the text does not count.
pub open spec fn parsed(text: Seq<char>) -> Option<ConfigModel> {
    match scan(initial(), trimmed(text)) {
        None => None,
        Some(sc) => match flush(sc) {
            None => None,
            Some(draft) => assemble(draft),
        },
    }
}

/// Once the scanner has failed on a part of the text it has failed on the
/// whole.
pub proof fn lemma_scan_fails_on(sc: Scanner, text: Seq<char>, n: int)
    requires
        0 <= n <= text.len(),
        scan(sc, text.take(n)) is None,
    ensures
        scan(sc, text) is None,
    decreases text.len() - n,
{
    if n < text.len() {
        assert(text.take(n + 1).drop_last() =~= text.take(n));
        lemma_scan_fails_on(sc, text, n + 1);
    } else {
        assert(text.take(n) =~= text);
    }
}

/// Scanning a text in two parts is scanning the whole.
pub proof fn lemma_scan_concat(sc: Scanner, a: Seq<char>, b: Seq<char>)
    ensures
        scan(sc, a + b) == match scan(sc, a) {
            None => None,
            Some(mid) => scan(mid, b),
        },
    decreases b.len(),
{
    if b.len() == 0 {
        assert(a + b =~= a);
    } else {
        assert((a + b).drop_last() =~= a + b.drop_last());
        lemma_scan_concat(sc, a, b.drop_last());
    }
}

/// A text whose first character, white space aside, is not `[` is no valid
/// configuration: the scanner fails on that character, before any line is
/// interpreted.
pub proof fn lemma_must_open_with_bracket(text: Seq<char>)
    requires
        trimmed(text).len() > 0,
        trimmed(text)[0] != '[',
    ensures
        step(initial(), trimmed(text)[0]) is None,
        parsed(text) is None,
{
    let body = trimmed(text);
    assert(body.take(1).drop_last() =~= Seq::<char>::empty());
    assert(body.take(1).last() == body[0]);
    assert(scan(initial(), body.take(1).drop_last()) == Some(initial()));
    assert(scan(initial(), body.take(1)) is None);
    lemma_scan_fails_on(initial(), body, 1);
}

} // verus!
