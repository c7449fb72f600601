use vstd::prelude::*;
use crate::errors::message3;
use crate::errors::TranError;
use crate::text::collect_chars;
use crate::text::range_is;

pub mod grammar;
pub mod parser;
pub mod round_trip;
pub mod writer;

pub use crate::color::Color;
pub use parser::parse_config;
pub use writer::write_config;

verus! {

/// The sections a configuration is made of.
#[derive(Clone, Copy, Debug, PartialEq, Eq, Structural)]
pub enum Section {
    Mode,
    CurrentColor,
    Colors,
    TargetFiles,
    Overwrite,
}

/// The two recoloring strategies, as the `mode` section names them.
#[derive(Clone, Copy, Debug, PartialEq, Eq, Structural)]
pub enum Mode {
    Gradient,
    Mapping,
}

/// The section that a header names, if it names one.
pub open spec fn section_named(name: Seq<char>) -> Option<Section> {
    if name == "mode"@ {
        Some(Section::Mode)
    } else if name == "colors"@ {
        Some(Section::Colors)
    } else if name == "target_files"@ {
        Some(Section::TargetFiles)
    } else if name == "current_color"@ {
        Some(Section::CurrentColor)
    } else if name == "overwrite"@ {
        Some(Section::Overwrite)
    } else {
        None
    }
}

/// The mode that a line of the `mode` section names, if it names one.
pub open spec fn mode_named(name: Seq<char>) -> Option<Mode> {
    if name == "map"@ {
        Some(Mode::Mapping)
    } else if name == "gradient"@ {
        Some(Mode::Gradient)
    } else {
        None
    }
}

/// The section named by the characters `chars[from..to]`.
pub(crate) fn section_in(chars: &Vec<char>, from: usize, to: usize) -> (res: Option<Section>)
    requires
        from <= to <= chars.len(),
    ensures
        res == section_named(chars@.subrange(from as int, to as int)),
{
    if range_is(chars, from, to, "mode") {
        Some(Section::Mode)
    } else if range_is(chars, from, to, "colors") {
        Some(Section::Colors)
    } else if range_is(chars, from, to, "target_files") {
        Some(Section::TargetFiles)
    } else if range_is(chars, from, to, "current_color") {
        Some(Section::CurrentColor)
    } else if range_is(chars, from, to, "overwrite") {
        Some(Section::Overwrite)
    } else {
        None
    }
}

/// The mode named by the characters `chars[from..to]`.
pub(crate) fn mode_in(chars: &Vec<char>, from: usize, to: usize) -> (res: Option<Mode>)
    requires
        from <= to <= chars.len(),
    ensures
        res == mode_named(chars@.subrange(from as int, to as int)),
{
    if range_is(chars, from, to, "map") {
        Some(Mode::Mapping)
    } else if range_is(chars, from, to, "gradient") {
        Some(Mode::Gradient)
    } else {
        None
    }
}

impl<'a> TryFrom<&'a str> for Section {
    type Error = TranError;

    /// The section with the given name; any other name is a `ConfigError`.
    fn try_from(value: &'a str) -> (res: Result<Self, Self::Error>)
        ensures
            match res {
                Ok(section) => section_named(value@) == Some(section),
                Err(e) => section_named(value@) is None && e is ConfigError,
            },
    {
        let chars = collect_chars(value);
        proof {
            assert(chars@.subrange(0, chars@.len() as int) =~= value@);
        }
        match section_in(&chars, 0, chars.len()) {
            Some(section) => Ok(section),
            None => Err(unknown_section(value)),
        }
    }
}

/// The conversion is specified by the `ensures` of `try_from`: an error
/// carries a `String`, which has no value in specifications.
impl<'a> vstd::std_specs::convert::TryFromSpecImpl<&'a str> for Section {
    open spec fn obeys_try_from_spec() -> bool {
        false
    }

    open spec fn try_from_spec(v: &'a str) -> Result<Self, Self::Error> {
        arbitrary()
    }
}

impl<'a> TryFrom<&'a str> for Mode {
    type Error = TranError;

    /// The mode with the given name; any other name is a `ConfigError`.
    fn try_from(value: &'a str) -> (res: Result<Self, Self::Error>)
        ensures
            match res {
                Ok(mode) => mode_named(value@) == Some(mode),
                Err(e) => mode_named(value@) is None && e is ConfigError,
            },
    {
        let chars = collect_chars(value);
        proof {
            assert(chars@.subrange(0, chars@.len() as int) =~= value@);
        }
        match mode_in(&chars, 0, chars.len()) {
            Some(mode) => Ok(mode),
            None => Err(unknown_mode(value)),
        }
    }
}

/// The conversion is specified by the `ensures` of `try_from`: an error
/// carries a `String`, which has no value in specifications.
impl<'a> vstd::std_specs::convert::TryFromSpecImpl<&'a str> for Mode {
    open spec fn obeys_try_from_spec() -> bool {
        false
    }

    open spec fn try_from_spec(v: &'a str) -> Result<Self, Self::Error> {
        arbitrary()
    }
}

/// The error for a header that names no section; its message quotes the
/// name.
pub(crate) fn unknown_section(name: &str) -> (e: TranError)
    ensures
        e is ConfigError,
        e.detail() == "Unrecognized section'"@ + name@
            + "', valid sections are 'mode', 'current_color', 'colors', and 'target_files'"@,
{
    TranError::ConfigError(
        message3(
            "Unrecognized section'",
            name,
            "', valid sections are 'mode', 'current_color', 'colors', and 'target_files'",
        ),
    )
}

/// The error for a line of the `mode` section that names no mode; its
/// message quotes the line.
pub(crate) fn unknown_mode(name: &str) -> (e: TranError)
    ensures
        e is ConfigError,
        e.detail() == "Unrecognized mode '"@ + name@ + "', valid modes are 'map' and 'gradient'"@,
{
    TranError::ConfigError(
        message3("Unrecognized mode '", name, "', valid modes are 'map' and 'gradient'"),
    )
}

/// What a gradient configuration holds.
pub struct GradientModel {
    pub current_color: Color,
    pub colors: Seq<Color>,
    pub weights: Seq<usize>,
    pub target_files: Seq<Seq<char>>,
    pub overwrite: bool,
}

/// What a map configuration holds. A row is a set of colors that are
/// swapped together.
pub struct MapModel {
    pub current_color: Seq<Color>,
    pub colors: Seq<Seq<Color>>,
    pub weights: Seq<usize>,
    pub target_files: Seq<Seq<char>>,
    pub overwrite: bool,
}

/// What a configuration holds.
pub enum ConfigModel {
    Gradient(GradientModel),
    Mapping(MapModel),
}

/// The weight of entry `i`: the one given for it, or 1.
pub open spec fn weight_at(weights: Seq<usize>, i: int) -> nat {
    if 0 <= i < weights.len() {
        weights[i] as nat
    } else {
        1
    }
}

/// `n` copies of `item`.
pub open spec fn copies<T>(item: T, n: nat) -> Seq<T> {
    Seq::new(n, |i: int| item)
}

/// The selection list over the first `n` colors: each color as often as its
/// weight says, the current color left out.
pub open spec fn scaled_colors(
    colors: Seq<Color>,
    weights: Seq<usize>,
    current: Color,
    n: nat,
) -> Seq<Color>
    decreases n,
{
    if n == 0 {
        Seq::empty()
    } else {
        let i = n - 1;
        let head = scaled_colors(colors, weights, current, i as nat);
        if colors[i] == current {
            head
        } else {
            head + copies(colors[i], weight_at(weights, i))
        }
    }
}

/// The selection list over the first `n` rows: each row as often as its
/// weight says.
pub open spec fn scaled_rows(colors: Seq<Seq<Color>>, weights: Seq<usize>, n: nat) -> Seq<
    Seq<Color>,
>
    decreases n,
{
    if n == 0 {
        Seq::empty()
    } else {
        let i = n - 1;
        scaled_rows(colors, weights, i as nat) + copies(colors[i], weight_at(weights, i))
    }
}

impl GradientModel {
    /// The selection list of the whole configuration.
    pub open spec fn scaled(self) -> Seq<Color> {
        scaled_colors(self.colors, self.weights, self.current_color, self.colors.len())
    }
}

impl MapModel {
    /// The selection list of the whole configuration.
    pub open spec fn scaled(self) -> Seq<Seq<Color>> {
        scaled_rows(self.colors, self.weights, self.colors.len())
    }
}

/// The texts of a list of strings.
pub open spec fn texts_of(strings: Seq<String>) -> Seq<Seq<char>> {
    Seq::new(strings.len(), |i: int| strings[i]@)
}

/// The contents of a list of rows.
pub open spec fn rows_of(rows: Seq<Vec<Color>>) -> Seq<Seq<Color>> {
    Seq::new(rows.len(), |i: int| rows[i]@)
}

/// A configuration for the gradient strategy: one current color, and the
/// colors to pick the next one from.
#[derive(Debug)]
pub struct GradientConfig {
    current_color: Color,
    colors: Vec<Color>,
    weights: Vec<usize>,
    target_files: Vec<String>,
    overwrite: bool,
}

impl View for GradientConfig {
    type V = GradientModel;

    closed spec fn view(&self) -> GradientModel {
        GradientModel {
            current_color: self.current_color,
            colors: self.colors@,
            weights: self.weights@,
            target_files: texts_of(self.target_files@),
            overwrite: self.overwrite,
        }
    }
}

impl GradientConfig {
    pub fn set_current_colors(&mut self, color: Color)
        ensures
            final(self)@ == (GradientModel { current_color: color, ..old(self)@ }),
    {
        self.current_color = color
    }

    pub fn get_current_color(&self) -> (color: &Color)
        ensures
            *color == self@.current_color,
    {
        &self.current_color
    }

    pub fn get_colors(&self) -> (colors: &[Color])
        ensures
            colors@ == self@.colors,
    {
        self.colors.as_slice()
    }

    /// The list to select the next color from: every color but the current
    /// one, each as often as its weight says. A color without a weight
    /// counts once.
    pub fn get_colors_scaled(&self) -> (output: Vec<Color>)
        ensures
            output@ == self@.scaled(),
    {
        let mut output: Vec<Color> = Vec::new();
        let mut i: usize = 0;
        while i < self.colors.len()
            invariant
                i <= self.colors.len(),
                output@ == scaled_colors(
                    self.colors@,
                    self.weights@,
                    self.current_color,
                    i as nat,
                ),
            decreases self.colors.len() - i,
        {
            let color = self.colors[i];
            if color != self.current_color {
                let w: usize = if i < self.weights.len() {
                    self.weights[i]
                } else {
                    1
                };
                let ghost head = output@;
                let mut k: usize = 0;
                while k < w
                    invariant
                        k <= w,
                        output@ == head + copies(color, k as nat),
                    decreases w - k,
                {
                    output.push(color);
                    k += 1;
                    proof {
                        assert(output@ =~= head + copies(color, k as nat));
                    }
                }
            }
            i += 1;
        }
        output
    }

    pub fn get_target_files(&self) -> (files: &[String])
        ensures
            texts_of(files@) == self@.target_files,
    {
        self.target_files.as_slice()
    }

    pub fn get_overwrite(&self) -> (overwrite: bool)
        ensures
            overwrite == self@.overwrite,
    {
        self.overwrite
    }
}

/// A configuration for the map strategy: a current row of colors, and the
/// rows to pick the next one from.
#[derive(Debug)]
pub struct MapConfig {
    current_color: Vec<Color>,
    colors: Vec<Vec<Color>>,
    weights: Vec<usize>,
    target_files: Vec<String>,
    overwrite: bool,
}

impl View for MapConfig {
    type V = MapModel;

    closed spec fn view(&self) -> MapModel {
        MapModel {
            current_color: self.current_color@,
            colors: rows_of(self.colors@),
            weights: self.weights@,
            target_files: texts_of(self.target_files@),
            overwrite: self.overwrite,
        }
    }
}

impl MapConfig {
    pub fn set_current_colors(&mut self, color: Vec<Color>)
        ensures
            final(self)@ == (MapModel { current_color: color@, ..old(self)@ }),
    {
        self.current_color = color
    }

    pub fn get_current_colors(&self) -> (colors: &[Color])
        ensures
            colors@ == self@.current_color,
    {
        self.current_color.as_slice()
    }

    pub fn get_colors(&self) -> (rows: &[Vec<Color>])
        ensures
            rows_of(rows@) == self@.colors,
    {
        self.colors.as_slice()
    }

    /// The list to select the next row from: each row as often as its
    /// weight says. A row without a weight counts once.
    pub fn get_colors_scaled(&self) -> (output: Vec<&Vec<Color>>)
        ensures
            output@.len() == self@.scaled().len(),
            forall|k: int| 0 <= k < output@.len() ==> (#[trigger] output@[k])@ == self@.scaled()[k],
    {
        let mut output: Vec<&Vec<Color>> = Vec::new();
        let mut i: usize = 0;
        while i < self.colors.len()
            invariant
                i <= self.colors.len(),
                output@.len() == scaled_rows(rows_of(self.colors@), self.weights@, i as nat).len(),
                forall|k: int|
                    0 <= k < output@.len() ==> (#[trigger] output@[k])@ == scaled_rows(
                        rows_of(self.colors@),
                        self.weights@,
                        i as nat,
                    )[k],
            decreases self.colors.len() - i,
        {
            let row = &self.colors[i];
            let w: usize = if i < self.weights.len() {
                self.weights[i]
            } else {
                1
            };
            let ghost head = scaled_rows(rows_of(self.colors@), self.weights@, i as nat);
            let mut k: usize = 0;
            while k < w
                invariant
                    k <= w,
                    row@ == rows_of(self.colors@)[i as int],
                    output@.len() == head.len() + k,
                    forall|j: int|
                        0 <= j < output@.len() ==> (#[trigger] output@[j])@ == (head + copies(
                            row@,
                            k as nat,
                        ))[j],
                decreases w - k,
            {
                output.push(row);
                k += 1;
            }
            i += 1;
        }
        output
    }

    pub fn get_target_files(&self) -> (files: &[String])
        ensures
            texts_of(files@) == self@.target_files,
    {
        self.target_files.as_slice()
    }

    pub fn get_overwrite(&self) -> (overwrite: bool)
        ensures
            overwrite == self@.overwrite,
    {
        self.overwrite
    }
}

/// A configuration: one of the two strategies with its data.
#[derive(Debug)]
pub enum Config {
    GradientConfig(GradientConfig),
    MapConfig(MapConfig),
}

impl View for Config {
    type V = ConfigModel;

    open spec fn view(&self) -> ConfigModel {
        match self {
            Config::GradientConfig(gc) => ConfigModel::Gradient(gc@),
            Config::MapConfig(mc) => ConfigModel::Mapping(mc@),
        }
    }
}

impl ConfigModel {
    /// The files to recolor.
    pub open spec fn target_files(self) -> Seq<Seq<char>> {
        match self {
            ConfigModel::Gradient(g) => g.target_files,
            ConfigModel::Mapping(m) => m.target_files,
        }
    }

    /// The name under which the `mode` section selects this variant.
    pub open spec fn mode_name(self) -> Seq<char> {
        match self {
            ConfigModel::Gradient(_) => "gradient"@,
            ConfigModel::Mapping(_) => "map"@,
        }
    }
}

impl Config {
    pub fn get_target_files(&self) -> (files: &[String])
        ensures
            texts_of(files@) == self@.target_files(),
    {
        match self {
            Config::GradientConfig(gc) => gc.get_target_files(),
            Config::MapConfig(mc) => mc.get_target_files(),
        }
    }

    pub fn get_mode(&self) -> (name: &'static str)
        ensures
            name@ == self@.mode_name(),
            mode_named(name@) == Some(
                match self {
                    Config::GradientConfig(_) => Mode::Gradient,
                    Config::MapConfig(_) => Mode::Mapping,
                },
            ),
    {
        proof {
            lemma_mode_names();
        }
        match self {
            Config::GradientConfig(_) => "gradient",
            Config::MapConfig(_) => "map",
        }
    }
}

/// The two mode names are told apart.
pub proof fn lemma_mode_names()
    ensures
        mode_named("gradient"@) == Some(Mode::Gradient),
        mode_named("map"@) == Some(Mode::Mapping),
{
    reveal_strlit("gradient");
    reveal_strlit("map");
    assert("gradient"@.len() != "map"@.len());
}

/// The selection list of a gradient configuration never holds the current
/// color, and holds nothing but colors of the configuration.
pub proof fn lemma_scaled_excludes_current(
    colors: Seq<Color>,
    weights: Seq<usize>,
    current: Color,
    n: nat,
)
    requires
        n <= colors.len(),
    ensures
        !scaled_colors(colors, weights, current, n).contains(current),
        forall|c: Color| #[trigger]
            scaled_colors(colors, weights, current, n).contains(c) ==> colors.take(
                n as int,
            ).contains(c),
    decreases n,
{
    if n > 0 {
        let i = (n - 1) as nat;
        lemma_scaled_excludes_current(colors, weights, current, i);
        let head = scaled_colors(colors, weights, current, i);
        let whole = scaled_colors(colors, weights, current, n);
        assert forall|c: Color| #[trigger] whole.contains(c) implies colors.take(
            n as int,
        ).contains(c) && c != current by {
            let k = choose|k: int| 0 <= k < whole.len() && whole[k] == c;
            if k < head.len() {
                assert(head[k] == c);
                assert(head.contains(c));
                let j = choose|j: int| 0 <= j < i && colors.take(i as int)[j] == c;
                assert(colors.take(n as int)[j] == c);
            } else {
                assert(c == colors[i as int]);
                assert(colors.take(n as int)[i as int] == c);
            }
        }
    }
}

/// How often `c` stands in `s`.
pub open spec fn occurrences(s: Seq<Color>, c: Color) -> nat
    decreases s.len(),
{
    if s.len() == 0 {
        0
    } else {
        occurrences(s.drop_last(), c) + if s.last() == c {
            1nat
        } else {
            0nat
        }
    }
}

/// The sum of the weights of the entries among the first `n` that hold `c`.
pub open spec fn total_weight(colors: Seq<Color>, weights: Seq<usize>, c: Color, n: nat) -> nat
    decreases n,
{
    if n == 0 {
        0
    } else {
        total_weight(colors, weights, c, (n - 1) as nat) + if colors[n - 1] == c {
            weight_at(weights, n - 1)
        } else {
            0
        }
    }
}

proof fn lemma_occurrences_concat(a: Seq<Color>, b: Seq<Color>, c: Color)
    ensures
        occurrences(a + b, c) == occurrences(a, c) + occurrences(b, c),
    decreases b.len(),
{
    if b.len() == 0 {
        assert(a + b =~= a);
    } else {
        assert((a + b).drop_last() =~= a + b.drop_last());
        lemma_occurrences_concat(a, b.drop_last(), c);
    }
}

proof fn lemma_occurrences_copies(item: Color, n: nat, c: Color)
    ensures
        occurrences(copies(item, n), c) == if item == c {
            n
        } else {
            0
        },
    decreases n,
{
    if n > 0 {
        assert(copies(item, n).drop_last() =~= copies(item, (n - 1) as nat));
        lemma_occurrences_copies(item, (n - 1) as nat, c);
    }
}

/// In the selection list of a gradient configuration every color other
/// than the current one stands as often as the weights of its entries
/// add up to.
pub proof fn lemma_scaled_counts(
    colors: Seq<Color>,
    weights: Seq<usize>,
    current: Color,
    c: Color,
    n: nat,
)
    requires
        n <= colors.len(),
        c != current,
    ensures
        occurrences(scaled_colors(colors, weights, current, n), c) == total_weight(
            colors,
            weights,
            c,
            n,
        ),
    decreases n,
{
    if n > 0 {
        let i = (n - 1) as nat;
        lemma_scaled_counts(colors, weights, current, c, i);
        let head = scaled_colors(colors, weights, current, i);
        if colors[i as int] != current {
            lemma_occurrences_concat(head, copies(colors[i as int], weight_at(weights, i as int)), c);
            lemma_occurrences_copies(colors[i as int], weight_at(weights, i as int), c);
        }
    }
}

} // verus!
