//! The configuration parser: a scanner with one method per transition,
//! verified against the model of the grammar.
use vstd::prelude::*;
use crate::color::hex_color_in;
use crate::color::Color;
use crate::config::grammar::assemble;
use crate::config::grammar::color_list;
use crate::config::grammar::decimal_value;
use crate::config::grammar::first_hash;
use crate::config::grammar::flush;
use crate::config::grammar::initial;
use crate::config::grammar::interpret;
use crate::config::grammar::is_decimal_digit;
use crate::config::grammar::is_space;
use crate::config::grammar::lemma_scan_fails_on;
use crate::config::grammar::parsed;
use crate::config::grammar::scan;
use crate::config::grammar::step;
use crate::config::grammar::trim_end;
use crate::config::grammar::trim_start;
use crate::config::grammar::trimmed;
use crate::config::grammar::unsigned_digits;
use crate::config::grammar::weight_of;
use crate::config::grammar::with_colors_line;
use crate::config::grammar::with_current_line;
use crate::config::grammar::ColorsDraft;
use crate::config::grammar::CurrentDraft;
use crate::config::grammar::Draft;
use crate::config::grammar::Phase;
use crate::config::grammar::Scanner;
use crate::config::mode_in;
use crate::config::rows_of;
use crate::config::section_in;
use crate::config::texts_of;
use crate::config::unknown_mode;
use crate::config::unknown_section;
use crate::config::Config;
use crate::config::GradientConfig;
use crate::config::MapConfig;
use crate::config::Mode;
use crate::config::Section;
use crate::errors::message3;
use crate::errors::TranError;
use crate::text::collect_chars;
use crate::text::range_is;

verus! {

/// Whether `c` is white space.
pub fn is_space_char(c: char) -> (res: bool)
    ensures
        res == is_space(c),
{
    let code = c as u32;
    (0x09 <= code && code <= 0x0D) || code == 0x20 || code == 0x85 || code == 0xA0 || code
        == 0x1680 || (0x2000 <= code && code <= 0x200A) || code == 0x2028 || code == 0x2029
        || code == 0x202F || code == 0x205F || code == 0x3000
}

proof fn lemma_trim_start_stops(s: Seq<char>)
    requires
        s.len() == 0 || !is_space(s[0]),
    ensures
        trim_start(s) == s,
{
}

proof fn lemma_trim_end_stops(s: Seq<char>)
    requires
        s.len() == 0 || !is_space(s.last()),
    ensures
        trim_end(s) == s,
{
}

/// The bounds of `chars` without the white space around it.
fn trim_bounds(chars: &Vec<char>) -> (bounds: (usize, usize))
    ensures
        bounds.0 <= bounds.1 <= chars.len(),
        chars@.subrange(bounds.0 as int, bounds.1 as int) == trimmed(chars@),
{
    let n = chars.len();
    let mut lo: usize = 0;
    proof {
        assert(chars@.skip(0) =~= chars@);
    }
    while lo < n && is_space_char(chars[lo])
        invariant
            lo <= n,
            n == chars.len(),
            trim_start(chars@) == trim_start(chars@.skip(lo as int)),
        decreases n - lo,
    {
        proof {
            assert(chars@.skip(lo as int).drop_first() =~= chars@.skip(lo + 1));
        }
        lo += 1;
    }
    proof {
        lemma_trim_start_stops(chars@.skip(lo as int));
        assert(chars@.skip(lo as int) =~= chars@.subrange(lo as int, n as int));
    }
    let mut hi: usize = n;
    while hi > lo && is_space_char(chars[hi - 1])
        invariant
            lo <= hi <= n,
            n == chars.len(),
            trimmed(chars@) == trim_end(chars@.subrange(lo as int, hi as int)),
        decreases hi - lo,
    {
        proof {
            assert(chars@.subrange(lo as int, hi as int).drop_last() =~= chars@.subrange(
                lo as int,
                hi - 1,
            ));
        }
        hi -= 1;
    }
    proof {
        lemma_trim_end_stops(chars@.subrange(lo as int, hi as int));
    }
    (lo, hi)
}

/// The position of the first `#` in `chars[from..to]`, or `to`.
fn find_hash(chars: &Vec<char>, from: usize, to: usize) -> (at: usize)
    requires
        from <= to <= chars.len(),
    ensures
        from <= at <= to,
        at == from + first_hash(chars@.subrange(from as int, to as int)),
{
    let mut at: usize = from;
    while at < to && chars[at] != '#'
        invariant
            from <= at <= to,
            to <= chars.len(),
            first_hash(chars@.subrange(from as int, to as int)) == (at - from) + first_hash(
                chars@.subrange(at as int, to as int),
            ),
        decreases to - at,
    {
        proof {
            assert(chars@.subrange(at as int, to as int).drop_first() =~= chars@.subrange(
                at + 1,
                to as int,
            ));
        }
        at += 1;
    }
    at
}

proof fn lemma_decimal_value_grows(digits: Seq<char>, n: int)
    requires
        0 <= n <= digits.len(),
        forall|i: int| 0 <= i < digits.len() ==> is_decimal_digit(#[trigger] digits[i]),
    ensures
        decimal_value(digits.take(n)) <= decimal_value(digits),
    decreases digits.len() - n,
{
    if n < digits.len() {
        assert(digits.take(n + 1).drop_last() =~= digits.take(n));
        lemma_decimal_value_grows(digits, n + 1);
    } else {
        assert(digits.take(n) =~= digits);
    }
}

/// The weight written by `chars[from..to]`.
fn weight_in(chars: &Vec<char>, from: usize, to: usize) -> (weight: usize)
    requires
        from <= to <= chars.len(),
    ensures
        weight == weight_of(chars@.subrange(from as int, to as int)),
{
    let ghost token = chars@.subrange(from as int, to as int);
    let start: usize = if from < to && chars[from] == '+' {
        from + 1
    } else {
        from
    };
    let ghost digits = chars@.subrange(start as int, to as int);
    proof {
        if start > from {
            assert(token[0] == '+');
            assert(token.drop_first() =~= digits);
        } else {
            assert(token =~= digits);
            if token.len() > 0 {
                assert(token[0] == chars@[from as int]);
            }
        }
        assert(unsigned_digits(token) == digits);
        assert(digits.take(0) =~= Seq::<char>::empty());
    }
    if start == to {
        return 1;
    }
    let mut value: usize = 0;
    let mut i: usize = start;
    while i < to
        invariant
            start <= i <= to,
            to <= chars.len(),
            digits == chars@.subrange(start as int, to as int),
            digits == unsigned_digits(token),
            token == chars@.subrange(from as int, to as int),
            from <= start,
            forall|k: int| 0 <= k < i - start ==> is_decimal_digit(#[trigger] digits[k]),
            value == decimal_value(digits.take(i - start)),
        decreases to - i,
    {
        let c = chars[i];
        if !(c >= '0' && c <= '9') {
            proof {
                assert(digits[i - start] == c);
            }
            return 1;
        }
        let d: usize = (c as u32 - '0' as u32) as usize;
        proof {
            assert(digits.take(i - start + 1).drop_last() =~= digits.take(i - start));
            assert(digits.take(i - start + 1).last() == c);
        }
        if value > (usize::MAX - d) / 10 {
            proof {
                if forall|k: int| 0 <= k < digits.len() ==> is_decimal_digit(#[trigger] digits[k]) {
                    lemma_decimal_value_grows(digits, i - start + 1);
                }
            }
            return 1;
        }
        value = value * 10 + d;
        i += 1;
    }
    proof {
        assert(digits.take(to - start) =~= digits);
    }
    value
}

/// `found` put in front of what the rest of the list gives.
spec fn continued(found: Seq<Color>, rest: Option<Seq<Color>>) -> Option<Seq<Color>> {
    match rest {
        None => None,
        Some(more) => Some(found + more),
    }
}

/// The colors of the list of hex colors in `chars[from..to]`.
fn color_list_in(chars: &Vec<char>, from: usize, to: usize) -> (res: Option<Vec<Color>>)
    requires
        from <= to <= chars.len(),
    ensures
        match res {
            Some(colors) => color_list(chars@.subrange(from as int, to as int)) == Some(colors@),
            None => color_list(chars@.subrange(from as int, to as int)) is None,
        },
{
    let ghost whole = color_list(chars@.subrange(from as int, to as int));
    let mut colors: Vec<Color> = Vec::new();
    let mut pos: usize = from;
    proof {
        if whole is Some {
            assert(colors@ + whole.unwrap() =~= whole.unwrap());
        }
    }
    loop
        invariant
            from <= pos <= to,
            to <= chars.len(),
            whole == color_list(chars@.subrange(from as int, to as int)),
            whole == continued(colors@, color_list(chars@.subrange(pos as int, to as int))),
        decreases to - pos,
    {
        let ghost rest = chars@.subrange(pos as int, to as int);
        let hash = find_hash(chars, pos, to);
        proof {
            assert(rest.take(hash - pos) =~= chars@.subrange(pos as int, hash as int));
        }
        match hex_color_in(chars, pos, hash) {
            None => {
                return None;
            },
            Some(c) => {
                let ghost found = colors@;
                colors.push(c);
                if hash >= to {
                    proof {
                        assert(found + seq![c] =~= colors@);
                    }
                    return Some(colors);
                }
                proof {
                    assert(rest.skip(hash - pos + 1) =~= chars@.subrange(hash + 1, to as int));
                    let tail = color_list(chars@.subrange(hash + 1, to as int));
                    if tail is Some {
                        assert(found + (seq![c] + tail.unwrap()) =~= colors@ + tail.unwrap());
                    }
                }
                pos = hash + 1;
            },
        }
    }
}

/// The current color as far as it was read.
enum CurrentColors {
    Single(Color),
    Row(Vec<Color>),
}

/// The colors as far as they were read.
enum ColorLists {
    Unset,
    Singles(Vec<Color>),
    Rows(Vec<Vec<Color>>),
}

impl CurrentColors {
    spec fn model(&self) -> CurrentDraft {
        match self {
            CurrentColors::Single(c) => CurrentDraft::Single(*c),
            CurrentColors::Row(row) => CurrentDraft::Row(row@),
        }
    }
}

impl ColorLists {
    spec fn model(&self) -> ColorsDraft {
        match self {
            ColorLists::Unset => ColorsDraft::Unset,
            ColorLists::Singles(list) => ColorsDraft::Singles(list@),
            ColorLists::Rows(rows) => ColorsDraft::Rows(rows_of(rows@)),
        }
    }
}

/// The scanner over the characters of a text. What is pending is not
/// copied: it is the text from `mark` up to the character that is read
/// next.
struct Parser {
    phase: Phase,
    section: Section,
    mark: usize,
    mode: Option<Mode>,
    current: CurrentColors,
    colors: ColorLists,
    weights: Vec<usize>,
    target_files: Vec<String>,
    overwrite: bool,
}

/// What a transition on the character at `at` owes: the step of the model.
spec fn follows(
    before: Parser,
    after: Parser,
    chars: Seq<char>,
    at: int,
    res: Result<(), TranError>,
) -> bool {
    match res {
        Ok(_) => after.wf(at + 1) && step(before.scanner(chars, at), chars[at]) == Some(
            after.scanner(chars, at + 1),
        ),
        Err(e) => step(before.scanner(chars, at), chars[at]) is None && e is ConfigError,
    }
}

/// What taking `line` as a line of the current section owes: the meaning
/// of the line in the model. Nothing but the draft changes.
spec fn taken(before: Parser, after: Parser, line: Seq<char>, res: Result<(), TranError>) -> bool {
    match res {
        Ok(_) => {
            &&& interpret(before.draft(), before.section, line) == Some(after.draft())
            &&& after.phase == before.phase
            &&& after.section == before.section
            &&& after.mark == before.mark
        },
        Err(e) => interpret(before.draft(), before.section, line) is None && e is ConfigError,
    }
}

impl Parser {
    spec fn draft(&self) -> Draft {
        Draft {
            mode: self.mode,
            current: self.current.model(),
            colors: self.colors.model(),
            weights: self.weights@,
            target_files: texts_of(self.target_files@),
            overwrite: self.overwrite,
        }
    }

    /// The state of the model when the character at `at` is read next.
    spec fn scanner(&self, chars: Seq<char>, at: int) -> Scanner {
        Scanner {
            phase: self.phase,
            section: self.section,
            pending: chars.subrange(self.mark as int, at),
            draft: self.draft(),
        }
    }

    /// Outside headers and lines nothing is pending.
    spec fn wf(&self, at: int) -> bool {
        &&& self.mark <= at
        &&& (self.phase == Phase::Start || self.phase == Phase::BraceClosed || self.phase
            == Phase::NewLine) ==> self.mark == at
    }

    fn new(begin: usize) -> (parser: Self)
        ensures
            parser.wf(begin as int),
            forall|chars: Seq<char>| #[trigger]
                parser.scanner(chars, begin as int) == (Scanner {
                    pending: chars.subrange(begin as int, begin as int),
                    ..initial()
                }),
    {
        let parser = Parser {
            phase: Phase::Start,
            section: Section::Mode,
            mark: begin,
            mode: None,
            current: CurrentColors::Single(Color::black()),
            colors: ColorLists::Unset,
            weights: Vec::new(),
            target_files: Vec::new(),
            overwrite: false,
        };
        proof {
            assert(texts_of(parser.target_files@) =~= Seq::<Seq<char>>::empty());
        }
        parser
    }

    /// The first character must open a section header.
    fn on_start(&mut self, text: &str, chars: &Vec<char>, at: usize) -> (res: Result<
        (),
        TranError,
    >)
        requires
            old(self).phase == Phase::Start,
            old(self).wf(at as int),
            at < chars.len(),
            chars@ == text@,
        ensures
            follows(*old(self), *final(self), chars@, at as int, res),
    {
        if chars[at] != '[' {
            return Err(
                TranError::ConfigError(
                    message3(
                        "Expected config to start with '[', found ",
                        text.substring_char(at, at + 1),
                        "",
                    ),
                ),
            );
        }
        self.phase = Phase::BraceOpen;
        self.mark = at + 1;
        proof {
            assert(chars@.subrange(at as int, at as int) =~= chars@.subrange(at + 1, at + 1));
        }
        Ok(())
    }

    /// Inside a header: `]` completes the name of the section.
    fn on_brace_open(&mut self, text: &str, chars: &Vec<char>, at: usize) -> (res: Result<
        (),
        TranError,
    >)
        requires
            old(self).phase == Phase::BraceOpen,
            old(self).wf(at as int),
            at < chars.len(),
            chars@ == text@,
        ensures
            follows(*old(self), *final(self), chars@, at as int, res),
    {
        if chars[at] == ']' {
            match section_in(chars, self.mark, at) {
                Some(section) => {
                    self.section = section;
                    self.phase = Phase::BraceClosed;
                    self.mark = at + 1;
                    proof {
                        assert(chars@.subrange(at + 1, at + 1) =~= Seq::<char>::empty());
                    }
                    Ok(())
                },
                None => Err(unknown_section(text.substring_char(self.mark, at))),
            }
        } else {
            proof {
                assert(chars@.subrange(self.mark as int, at as int).push(chars@[at as int])
                    =~= chars@.subrange(self.mark as int, at + 1));
            }
            Ok(())
        }
    }

    /// Behind a header: nothing but a newline may follow.
    fn on_brace_closed(&mut self, text: &str, chars: &Vec<char>, at: usize) -> (res: Result<
        (),
        TranError,
    >)
        requires
            old(self).phase == Phase::BraceClosed,
            old(self).wf(at as int),
            at < chars.len(),
            chars@ == text@,
        ensures
            follows(*old(self), *final(self), chars@, at as int, res),
    {
        if chars[at] != '\n' {
            return Err(
                TranError::ConfigError(
                    message3(
                        "Expected newline after section declaration, found ",
                        text.substring_char(at, at + 1),
                        "",
                    ),
                ),
            );
        }
        self.phase = Phase::NewLine;
        self.mark = at + 1;
        proof {
            assert(chars@.subrange(at as int, at as int) =~= chars@.subrange(at + 1, at + 1));
        }
        Ok(())
    }

    /// At the beginning of a line: `[` opens the next header, any other
    /// character is the first of a content line.
    fn on_new_line(&mut self, chars: &Vec<char>, at: usize) -> (res: Result<(), TranError>)
        requires
            old(self).phase == Phase::NewLine,
            old(self).wf(at as int),
            at < chars.len(),
        ensures
            follows(*old(self), *final(self), chars@, at as int, res),
    {
        if chars[at] == '[' {
            self.phase = Phase::BraceOpen;
            self.mark = at + 1;
            proof {
                assert(chars@.subrange(at as int, at as int) =~= chars@.subrange(at + 1, at + 1));
            }
        } else {
            self.phase = Phase::Text;
            proof {
                assert(chars@.subrange(at as int, at as int).push(chars@[at as int])
                    =~= chars@.subrange(at as int, at + 1));
            }
        }
        Ok(())
    }

    /// Inside a content line: a newline completes the line.
    fn on_text(&mut self, text: &str, chars: &Vec<char>, at: usize) -> (res: Result<
        (),
        TranError,
    >)
        requires
            old(self).phase == Phase::Text,
            old(self).wf(at as int),
            at < chars.len(),
            chars@ == text@,
        ensures
            follows(*old(self), *final(self), chars@, at as int, res),
    {
        if chars[at] == '\n' {
            let from = self.mark;
            self.take_line(text, chars, from, at)?;
            self.phase = Phase::NewLine;
            self.mark = at + 1;
            proof {
                assert(chars@.subrange(at + 1, at + 1) =~= Seq::<char>::empty());
            }
            Ok(())
        } else {
            proof {
                assert(chars@.subrange(self.mark as int, at as int).push(chars@[at as int])
                    =~= chars@.subrange(self.mark as int, at + 1));
            }
            Ok(())
        }
    }

    /// Reads the character at `at`.
    fn feed(&mut self, text: &str, chars: &Vec<char>, at: usize) -> (res: Result<(), TranError>)
        requires
            old(self).wf(at as int),
            at < chars.len(),
            chars@ == text@,
        ensures
            follows(*old(self), *final(self), chars@, at as int, res),
    {
        match self.phase {
            Phase::Start => self.on_start(text, chars, at),
            Phase::BraceOpen => self.on_brace_open(text, chars, at),
            Phase::BraceClosed => self.on_brace_closed(text, chars, at),
            Phase::NewLine => self.on_new_line(chars, at),
            Phase::Text => self.on_text(text, chars, at),
        }
    }

    /// Takes `chars[from..to]` as a line of the current section.
    fn take_line(&mut self, text: &str, chars: &Vec<char>, from: usize, to: usize) -> (res:
        Result<(), TranError>)
        requires
            from <= to <= chars.len(),
            chars@ == text@,
        ensures
            taken(*old(self), *final(self), chars@.subrange(from as int, to as int), res),
    {
        match self.section {
            Section::Mode => match mode_in(chars, from, to) {
                Some(mode) => {
                    self.mode = Some(mode);
                    Ok(())
                },
                None => Err(unknown_mode(text.substring_char(from, to))),
            },
            Section::Colors => self.take_colors(chars, from, to),
            Section::CurrentColor => self.take_current(text, chars, from, to),
            Section::TargetFiles => {
                let path = String::from_str(text.substring_char(from, to));
                let ghost before = self.target_files@;
                self.target_files.push(path);
                proof {
                    assert(texts_of(self.target_files@) =~= texts_of(before).push(
                        chars@.subrange(from as int, to as int),
                    ));
                }
                Ok(())
            },
            Section::Overwrite => {
                self.overwrite = range_is(chars, from, to, "true");
                Ok(())
            },
        }
    }

    /// Takes `chars[from..to]` as a line of the `colors` section.
    fn take_colors(&mut self, chars: &Vec<char>, from: usize, to: usize) -> (res: Result<
        (),
        TranError,
    >)
        requires
            from <= to <= chars.len(),
        ensures
            match res {
                Ok(_) => {
                    &&& with_colors_line(
                        old(self).draft(),
                        chars@.subrange(from as int, to as int),
                    ) == Some(final(self).draft())
                    &&& final(self).phase == old(self).phase
                    &&& final(self).section == old(self).section
                    &&& final(self).mark == old(self).mark
                },
                Err(e) => with_colors_line(
                    old(self).draft(),
                    chars@.subrange(from as int, to as int),
                ) is None && e is ConfigError,
            },
    {
        let ghost line = chars@.subrange(from as int, to as int);
        let mode = match self.mode {
            Some(mode) => mode,
            None => {
                return Err(mode_must_come_first());
            },
        };
        let hash = find_hash(chars, from, to);
        proof {
            assert(line.take(hash - from) =~= chars@.subrange(from as int, hash as int));
            if hash < to {
                assert(line.skip(hash - from + 1) =~= chars@.subrange(hash + 1, to as int));
            }
        }
        match mode {
            Mode::Gradient => {
                if hash >= to {
                    return Err(no_color_value());
                }
                let color = match hex_color_in(chars, hash + 1, to) {
                    Some(color) => color,
                    None => {
                        return Err(no_color_value());
                    },
                };
                let weight = weight_in(chars, from, hash);
                match &mut self.colors {
                    ColorLists::Unset => {
                        let mut list: Vec<Color> = Vec::new();
                        list.push(color);
                        self.colors = ColorLists::Singles(list);
                        proof {
                            assert(list@ =~= seq![color]);
                        }
                    },
                    ColorLists::Singles(list) => {
                        list.push(color);
                    },
                    ColorLists::Rows(_) => {
                        return Err(inconsistent());
                    },
                }
                self.weights.push(weight);
                Ok(())
            },
            Mode::Mapping => {
                let row = if hash >= to {
                    proof {
                        assert(line =~= chars@.subrange(from as int, hash as int));
                    }
                    Vec::new()
                } else {
                    match color_list_in(chars, hash + 1, to) {
                        Some(row) => row,
                        None => {
                            return Err(no_color_value());
                        },
                    }
                };
                let weight = weight_in(chars, from, hash);
                match &mut self.colors {
                    ColorLists::Unset => {
                        let mut rows: Vec<Vec<Color>> = Vec::new();
                        rows.push(row);
                        self.colors = ColorLists::Rows(rows);
                        proof {
                            assert(rows_of(rows@) =~= seq![row@]);
                        }
                    },
                    ColorLists::Rows(rows) => {
                        let ghost before = rows@;
                        rows.push(row);
                        proof {
                            assert(rows_of(rows@) =~= rows_of(before).push(row@));
                        }
                    },
                    ColorLists::Singles(_) => {
                        return Err(inconsistent());
                    },
                }
                self.weights.push(weight);
                Ok(())
            },
        }
    }

    /// Takes `chars[from..to]` as a line of the `current_color` section.
    fn take_current(&mut self, text: &str, chars: &Vec<char>, from: usize, to: usize) -> (res:
        Result<(), TranError>)
        requires
            from <= to <= chars.len(),
            chars@ == text@,
        ensures
            match res {
                Ok(_) => {
                    &&& with_current_line(
                        old(self).draft(),
                        chars@.subrange(from as int, to as int),
                    ) == Some(final(self).draft())
                    &&& final(self).phase == old(self).phase
                    &&& final(self).section == old(self).section
                    &&& final(self).mark == old(self).mark
                },
                Err(e) => with_current_line(
                    old(self).draft(),
                    chars@.subrange(from as int, to as int),
                ) is None && e is ConfigError,
            },
    {
        let ghost line = chars@.subrange(from as int, to as int);
        match self.mode {
            None => Err(mode_must_come_first()),
            Some(Mode::Gradient) => match hex_color_in(chars, from, to) {
                Some(color) => {
                    self.current = CurrentColors::Single(color);
                    Ok(())
                },
                None => Err(
                    TranError::ConfigError(
                        message3(
                            "Could not interpret ",
                            text.substring_char(from, to),
                            " as hex color",
                        ),
                    ),
                ),
            },
            Some(Mode::Mapping) => {
                let begin: usize = if from < to && chars[from] == '#' {
                    from + 1
                } else {
                    from
                };
                proof {
                    if begin > from {
                        assert(line[0] == '#');
                        assert(line.drop_first() =~= chars@.subrange(begin as int, to as int));
                    } else if line.len() > 0 {
                        assert(line[0] == chars@[from as int]);
                    }
                }
                match color_list_in(chars, begin, to) {
                    Some(row) => {
                        self.current = CurrentColors::Row(row);
                        Ok(())
                    },
                    None => Err(
                        TranError::ConfigError(
                            message3(
                                "Could not interpret ",
                                text.substring_char(from, to),
                                " as hex colors",
                            ),
                        ),
                    ),
                }
            },
        }
    }

    /// Ends the input at `end`: what is pending is the last line, and the
    /// draft must be complete.
    fn finish(self, text: &str, chars: &Vec<char>, end: usize) -> (res: Result<
        Config,
        TranError,
    >)
        requires
            self.wf(end as int),
            end <= chars.len(),
            chars@ == text@,
        ensures
            match res {
                Ok(config) => match flush(self.scanner(chars@, end as int)) {
                    Some(draft) => assemble(draft) == Some(config@),
                    None => false,
                },
                Err(e) => e is ConfigError && match flush(self.scanner(chars@, end as int)) {
                    Some(draft) => assemble(draft) is None,
                    None => true,
                },
            },
    {
        let mut parser = self;
        if parser.mark < end {
            let from = parser.mark;
            parser.take_line(text, chars, from, end)?;
        }
        let mode = match parser.mode {
            Some(mode) => mode,
            None => {
                return Err(TranError::ConfigError(String::from_str("Missing mode")));
            },
        };
        match (mode, parser.current, parser.colors) {
            (_, _, ColorLists::Unset) => Err(
                TranError::ConfigError(String::from_str("Missing colors")),
            ),
            (Mode::Gradient, CurrentColors::Single(current_color), ColorLists::Singles(colors)) => {
                Ok(
                    Config::GradientConfig(
                        GradientConfig {
                            current_color,
                            colors,
                            weights: parser.weights,
                            target_files: parser.target_files,
                            overwrite: parser.overwrite,
                        },
                    ),
                )
            },
            (Mode::Mapping, CurrentColors::Row(current_color), ColorLists::Rows(colors)) => {
                Ok(
                    Config::MapConfig(
                        MapConfig {
                            current_color,
                            colors,
                            weights: parser.weights,
                            target_files: parser.target_files,
                            overwrite: parser.overwrite,
                        },
                    ),
                )
            },
            (_, _, _) => Err(inconsistent()),
        }
    }
}

/// The error for a line of colors that comes before the mode is known.
fn mode_must_come_first() -> (e: TranError)
    ensures
        e is ConfigError,
        e.detail() == "Found color section before mode section. Can't determine color format"@,
{
    TranError::ConfigError(
        String::from_str("Found color section before mode section. Can't determine color format"),
    )
}

/// The error for a line of the `colors` section that holds no valid color.
fn no_color_value() -> (e: TranError)
    ensures
        e is ConfigError,
        e.detail() == "Failed to parse color value"@,
{
    TranError::ConfigError(String::from_str("Failed to parse color value"))
}

/// The error for colors that do not have the shape that the mode asks for.
fn inconsistent() -> (e: TranError)
    ensures
        e is ConfigError,
        e.detail() == "Inconsistent state"@,
{
    TranError::ConfigError(String::from_str("Inconsistent state"))
}

/// Reads a configuration from its text.
///
/// White space around the text is dropped, then the text is scanned
/// character by character. The result is the configuration that the
/// grammar gives the text; every violation of the grammar is a
/// `ConfigError`, and there is no partial result.
pub fn parse_config(text: &str) -> (res: Result<Config, TranError>)
    ensures
        match res {
            Ok(config) => parsed(text@) == Some(config@),
            Err(e) => parsed(text@) is None && e is ConfigError,
        },
{
    let chars = collect_chars(text);
    let (lo, hi) = trim_bounds(&chars);
    let ghost body = chars@.subrange(lo as int, hi as int);
    let mut parser = Parser::new(lo);
    let mut at: usize = lo;
    proof {
        assert(parser.scanner(chars@, lo as int) == initial()) by {
            assert(chars@.subrange(lo as int, lo as int) =~= Seq::<char>::empty());
        }
        assert(body.take(0) =~= Seq::<char>::empty());
    }
    while at < hi
        invariant
            lo <= at <= hi <= chars.len(),
            chars@ == text@,
            body == chars@.subrange(lo as int, hi as int),
            body == trimmed(text@),
            parser.wf(at as int),
            scan(initial(), body.take(at - lo)) == Some(parser.scanner(chars@, at as int)),
        decreases hi - at,
    {
        let ghost before = parser;
        let fed = parser.feed(text, &chars, at);
        proof {
            assert(body.take(at - lo + 1).drop_last() =~= body.take(at - lo));
            assert(body.take(at - lo + 1).last() == chars@[at as int]);
            assert(scan(initial(), body.take(at - lo + 1)) == step(
                before.scanner(chars@, at as int),
                chars@[at as int],
            ));
        }
        match fed {
            Ok(_) => {},
            Err(e) => {
                proof {
                    lemma_scan_fails_on(initial(), body, at - lo + 1);
                }
                return Err(e);
            },
        }
        at += 1;
    }
    proof {
        assert(body.take(hi - lo) =~= body);
    }
    parser.finish(text, &chars, hi)
}

} // verus!
