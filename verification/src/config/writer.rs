//! The configuration writer: the text that the parser reads back.
use vstd::prelude::*;
use crate::color::hex_text;
use crate::color::Color;
use crate::config::texts_of;
use crate::config::weight_at;
use crate::config::Config;
use crate::config::ConfigModel;
use crate::config::GradientConfig;
use crate::config::MapConfig;

verus! {

/// The decimal digit for a number below 10.
pub open spec fn decimal_digit(v: int) -> char {
    ('0' as int + v) as char
}

/// The decimal digits of `n`, without leading zeros.
pub open spec fn decimal_text(n: nat) -> Seq<char>
    decreases n,
{
    if n < 10 {
        seq![decimal_digit(n as int)]
    } else {
        decimal_text(n / 10).push(decimal_digit(n as int % 10))
    }
}

/// The header of the section `name`.
pub open spec fn header(name: Seq<char>) -> Seq<char> {
    seq!['['] + name + seq![']', '\n']
}

/// A content line.
pub open spec fn line(content: Seq<char>) -> Seq<char> {
    content + seq!['\n']
}

/// The colors of a row, each in its display form, one behind the other.
pub open spec fn row_text(row: Seq<Color>) -> Seq<char>
    decreases row.len(),
{
    if row.len() == 0 {
        Seq::empty()
    } else {
        hex_text(row[0]) + row_text(row.drop_first())
    }
}

/// The first `n` lines of the `colors` section of a gradient
/// configuration: the weight, then the color.
pub open spec fn color_lines(colors: Seq<Color>, weights: Seq<usize>, n: nat) -> Seq<char>
    decreases n,
{
    if n == 0 {
        Seq::empty()
    } else {
        color_lines(colors, weights, (n - 1) as nat) + line(
            decimal_text(weight_at(weights, n - 1)) + hex_text(colors[n - 1]),
        )
    }
}

/// The first `n` lines of the `colors` section of a map configuration: the
/// weight, then the colors of the row.
pub open spec fn row_lines(rows: Seq<Seq<Color>>, weights: Seq<usize>, n: nat) -> Seq<char>
    decreases n,
{
    if n == 0 {
        Seq::empty()
    } else {
        row_lines(rows, weights, (n - 1) as nat) + line(
            decimal_text(weight_at(weights, n - 1)) + row_text(rows[n - 1]),
        )
    }
}

/// The first `n` lines of the `target_files` section.
pub open spec fn file_lines(files: Seq<Seq<char>>, n: nat) -> Seq<char>
    decreases n,
{
    if n == 0 {
        Seq::empty()
    } else {
        file_lines(files, (n - 1) as nat) + line(files[n - 1])
    }
}

/// How the `overwrite` section writes a flag.
pub open spec fn flag_text(flag: bool) -> Seq<char> {
    if flag {
        "true"@
    } else {
        "false"@
    }
}

/// The sections of a configuration before its colors: mode, overwrite
/// flag and current color.
pub open spec fn preamble(mode: Seq<char>, overwrite: bool, current: Seq<char>) -> Seq<char> {
    header("mode"@) + line(mode) + header("overwrite"@) + line(flag_text(overwrite)) + header(
        "current_color"@,
    ) + line(current)
}

/// The text of a configuration: the sections `mode`, `overwrite`,
/// `current_color`, `colors` and `target_files`, in this order. Each line
/// of the `colors` section begins with the weight.
pub open spec fn written(config: ConfigModel) -> Seq<char> {
    match config {
        ConfigModel::Gradient(g) => preamble("gradient"@, g.overwrite, hex_text(g.current_color))
            + header("colors"@) + color_lines(g.colors, g.weights, g.colors.len()) + header(
            "target_files"@,
        ) + file_lines(g.target_files, g.target_files.len()),
        ConfigModel::Mapping(m) => preamble("map"@, m.overwrite, row_text(m.current_color))
            + header("colors"@) + row_lines(m.colors, m.weights, m.colors.len()) + header(
            "target_files"@,
        ) + file_lines(m.target_files, m.target_files.len()),
    }
}

/// The one-character text of a decimal digit.
fn digit_str(v: usize) -> (digit: &'static str)
    requires
        v < 10,
    ensures
        digit@ == seq![decimal_digit(v as int)],
{
    proof {
        reveal_strlit("0");
        reveal_strlit("1");
        reveal_strlit("2");
        reveal_strlit("3");
        reveal_strlit("4");
        reveal_strlit("5");
        reveal_strlit("6");
        reveal_strlit("7");
        reveal_strlit("8");
        reveal_strlit("9");
    }
    let digit = if v == 0 {
        "0"
    } else if v == 1 {
        "1"
    } else if v == 2 {
        "2"
    } else if v == 3 {
        "3"
    } else if v == 4 {
        "4"
    } else if v == 5 {
        "5"
    } else if v == 6 {
        "6"
    } else if v == 7 {
        "7"
    } else if v == 8 {
        "8"
    } else {
        "9"
    };
    proof {
        assert(digit@ =~= seq![decimal_digit(v as int)]);
    }
    digit
}

/// Appends the decimal digits of `n`.
fn append_decimal(text: &mut String, n: usize)
    ensures
        final(text)@ == old(text)@ + decimal_text(n as nat),
    decreases n,
{
    if n >= 10 {
        append_decimal(text, n / 10);
    }
    text.append(digit_str(n % 10));
    proof {
        if n >= 10 {
            assert(final(text)@ =~= old(text)@ + decimal_text(n as nat));
        }
    }
}

/// Appends the header of the section `name`.
fn append_header(text: &mut String, name: &str)
    ensures
        final(text)@ == old(text)@ + header(name@),
{
    text.append("[");
    text.append(name);
    text.append("]\n");
    proof {
        reveal_strlit("[");
        reveal_strlit("]\n");
        assert(final(text)@ =~= old(text)@ + header(name@));
    }
}

/// Appends a content line.
fn append_line(text: &mut String, content: &str)
    ensures
        final(text)@ == old(text)@ + line(content@),
{
    text.append(content);
    text.append("\n");
    proof {
        reveal_strlit("\n");
        assert(final(text)@ =~= old(text)@ + line(content@));
    }
}

proof fn lemma_row_text_grows(row: Seq<Color>, n: int)
    requires
        0 <= n < row.len(),
    ensures
        row_text(row.take(n + 1)) == row_text(row.take(n)) + hex_text(row[n]),
    decreases n,
{
    let longer = row.take(n + 1);
    if n == 0 {
        assert(longer.drop_first() =~= Seq::<Color>::empty());
        assert(row_text(longer) =~= hex_text(row[0]) + row_text(longer.drop_first()));
        assert(row_text(row.take(0)) =~= Seq::<char>::empty());
        assert(row_text(longer) =~= row_text(row.take(0)) + hex_text(row[0]));
    } else {
        let tail = row.drop_first();
        assert(longer.drop_first() =~= tail.take(n));
        assert(row.take(n).drop_first() =~= tail.take(n - 1));
        lemma_row_text_grows(tail, n - 1);
        assert(row_text(longer) =~= row_text(row.take(n)) + hex_text(row[n]));
    }
}

/// Appends the colors of a row.
fn append_row(text: &mut String, row: &Vec<Color>)
    ensures
        final(text)@ == old(text)@ + row_text(row@),
{
    let ghost before = text@;
    let mut i: usize = 0;
    proof {
        assert(row@.take(0) =~= Seq::<Color>::empty());
        assert(text@ =~= before + row_text(row@.take(0)));
    }
    while i < row.len()
        invariant
            i <= row.len(),
            text@ == before + row_text(row@.take(i as int)),
        decreases row.len() - i,
    {
        let shown = row[i].to_string();
        text.append(shown.as_str());
        proof {
            lemma_row_text_grows(row@, i as int);
            assert(text@ =~= before + row_text(row@.take(i + 1)));
        }
        i += 1;
    }
    proof {
        assert(row@.take(row@.len() as int) =~= row@);
    }
}

/// Appends the sections before the colors.
fn append_preamble(text: &mut String, mode: &str, overwrite: bool, current: &str)
    ensures
        final(text)@ == old(text)@ + preamble(mode@, overwrite, current@),
{
    append_header(text, "mode");
    append_line(text, mode);
    append_header(text, "overwrite");
    append_line(
        text,
        if overwrite {
            "true"
        } else {
            "false"
        },
    );
    append_header(text, "current_color");
    append_line(text, current);
    proof {
        assert(final(text)@ =~= old(text)@ + preamble(mode@, overwrite, current@));
    }
}

/// Appends the lines of the `target_files` section.
fn append_files(text: &mut String, files: &Vec<String>)
    ensures
        final(text)@ == old(text)@ + file_lines(texts_of(files@), files@.len()),
{
    let ghost before = text@;
    let mut i: usize = 0;
    proof {
        assert(text@ =~= before + file_lines(texts_of(files@), 0));
    }
    while i < files.len()
        invariant
            i <= files.len(),
            text@ == before + file_lines(texts_of(files@), i as nat),
        decreases files.len() - i,
    {
        append_line(text, files[i].as_str());
        i += 1;
        proof {
            assert(text@ =~= before + file_lines(texts_of(files@), i as nat));
        }
    }
}

impl GradientConfig {
    /// The text of this configuration.
    fn write(&self) -> (text: String)
        ensures
            text@ == written(ConfigModel::Gradient(self@)),
    {
        let mut text = String::new();
        let current = self.current_color.to_string();
        append_preamble(&mut text, "gradient", self.overwrite, current.as_str());
        append_header(&mut text, "colors");
        let ghost before = text@;
        let mut i: usize = 0;
        proof {
            assert(text@ =~= before + color_lines(self.colors@, self.weights@, 0));
        }
        while i < self.colors.len()
            invariant
                i <= self.colors.len(),
                text@ == before + color_lines(self.colors@, self.weights@, i as nat),
            decreases self.colors.len() - i,
        {
            let weight: usize = if i < self.weights.len() {
                self.weights[i]
            } else {
                1
            };
            let ghost start = text@;
            append_decimal(&mut text, weight);
            let shown = self.colors[i].to_string();
            append_line(&mut text, shown.as_str());
            i += 1;
            proof {
                assert(text@ =~= before + color_lines(self.colors@, self.weights@, i as nat));
            }
        }
        append_header(&mut text, "target_files");
        append_files(&mut text, &self.target_files);
        proof {
            assert(text@ =~= written(ConfigModel::Gradient(self@)));
        }
        text
    }
}

impl MapConfig {
    /// The text of this configuration.
    fn write(&self) -> (text: String)
        ensures
            text@ == written(ConfigModel::Mapping(self@)),
    {
        let mut current = String::new();
        append_row(&mut current, &self.current_color);
        let mut text = String::new();
        append_preamble(&mut text, "map", self.overwrite, current.as_str());
        append_header(&mut text, "colors");
        let ghost before = text@;
        let ghost rows = crate::config::rows_of(self.colors@);
        let mut i: usize = 0;
        proof {
            assert(text@ =~= before + row_lines(rows, self.weights@, 0));
        }
        while i < self.colors.len()
            invariant
                i <= self.colors.len(),
                rows == crate::config::rows_of(self.colors@),
                text@ == before + row_lines(rows, self.weights@, i as nat),
            decreases self.colors.len() - i,
        {
            let weight: usize = if i < self.weights.len() {
                self.weights[i]
            } else {
                1
            };
            append_decimal(&mut text, weight);
            append_row(&mut text, &self.colors[i]);
            text.append("\n");
            i += 1;
            proof {
                reveal_strlit("\n");
                assert(text@ =~= before + row_lines(rows, self.weights@, i as nat));
            }
        }
        append_header(&mut text, "target_files");
        append_files(&mut text, &self.target_files);
        proof {
            assert(text@ =~= written(ConfigModel::Mapping(self@)));
        }
        text
    }
}

/// The text of a configuration, in the form that `parse_config` reads: the
/// sections `mode`, `overwrite`, `current_color`, `colors` and
/// `target_files`, with the mode that the configuration has, and with the
/// weight in front of each line of colors.
pub fn write_config(config: &Config) -> (text: String)
    ensures
        text@ == written(config@),
{
    match config {
        Config::GradientConfig(gc) => gc.write(),
        Config::MapConfig(mc) => mc.write(),
    }
}

} // verus!
