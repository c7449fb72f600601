//! Recoloring of a palette: consecutive `(R, G, B)` triples, each replaced
//! by what a table of substitutions gives for it.
use vstd::prelude::*;
use crate::color::Color;
use crate::errors::ErrorKind;
use crate::errors::TranError;
use crate::png::shade::shade;
use crate::png::shade::shaded;
use crate::transform::hex_to_bytes;
use crate::transform::packed_color;
use crate::transform::ColorMap;
use crate::transform::ColorTransform;
use crate::transform::TransformModel;

verus! {

/// The `k`-th triple of a palette.
pub open spec fn entry(data: Seq<u8>, k: int) -> Color {
    Color { red: data[3 * k], green: data[3 * k + 1], blue: data[3 * k + 2] }
}

/// The triples of a palette. Bytes behind the last whole triple belong to
/// none.
pub open spec fn entries(data: Seq<u8>) -> Seq<Color> {
    Seq::new((data.len() / 3) as nat, |k: int| entry(data, k))
}

/// The channel of `c` that stands at place `k` of its triple.
pub open spec fn channel(c: Color, k: int) -> u8 {
    if k == 0 {
        c.red
    } else if k == 1 {
        c.green
    } else {
        c.blue
    }
}

/// What a table of `(new, old)` pairs puts in the place of `c`: the new
/// color of the first pair whose old color is `c`, or `c` itself where
/// there is none.
pub open spec fn replacement(table: Seq<(Color, Color)>, c: Color) -> Color
    decreases table.len(),
{
    if table.len() == 0 {
        c
    } else if table[0].1 == c {
        table[0].0
    } else {
        replacement(table.drop_first(), c)
    }
}

/// The palette with every triple replaced as the table says. Bytes behind
/// the last whole triple stay.
pub open spec fn remapped(data: Seq<u8>, table: Seq<(Color, Color)>) -> Seq<u8> {
    Seq::new(
        data.len(),
        |i: int|
            if i < 3 * (data.len() / 3) {
                channel(replacement(table, entry(data, i / 3)), i % 3)
            } else {
                data[i]
            },
    )
}

/// The table that pairs of color texts amount to, if all of them are
/// valid.
pub open spec fn resolved(pairs: Seq<(Seq<char>, Seq<char>)>) -> Option<Seq<(Color, Color)>> {
    if forall|i: int|
        0 <= i < pairs.len() ==> packed_color((#[trigger] pairs[i]).0) is Some && packed_color(
            pairs[i].1,
        ) is Some {
        Some(
            Seq::new(
                pairs.len(),
                |i: int| (packed_color(pairs[i].0).unwrap(), packed_color(pairs[i].1).unwrap()),
            ),
        )
    } else {
        None
    }
}

/// Pure black and pure white are never shaded.
pub open spec fn is_fixed(c: Color) -> bool {
    (c.red == 0 && c.green == 0 && c.blue == 0) || (c.red == 255 && c.green == 255 && c.blue
        == 255)
}

/// The sum of the channels.
pub open spec fn brightness(c: Color) -> int {
    c.red + c.green + c.blue
}

/// The number of colors at the front of `list` that are at least as
/// bright as `c`.
pub open spec fn rank(list: Seq<Color>, c: Color) -> int
    decreases list.len(),
{
    if list.len() > 0 && brightness(list[0]) >= brightness(c) {
        1 + rank(list.drop_first(), c)
    } else {
        0
    }
}

/// `list` with `c` put in by brightness, behind the colors that are as
/// bright. A color that is fixed or already there is not put in.
pub open spec fn placed(list: Seq<Color>, c: Color) -> Seq<Color> {
    if is_fixed(c) || list.contains(c) {
        list
    } else {
        list.insert(rank(list, c), c)
    }
}

/// The distinct colors of a palette but black and white, the brightest
/// first. Colors of one brightness stand in the order in which the
/// palette first holds them.
pub open spec fn ranking(colors: Seq<Color>) -> Seq<Color>
    decreases colors.len(),
{
    if colors.len() == 0 {
        Seq::empty()
    } else {
        placed(ranking(colors.drop_last()), colors.last())
    }
}

/// The new color for the `i`-th color of the ranking: `primary` for the
/// brightest, and for each further one the new color before it, scaled by
/// the ratio of the old colors.
pub open spec fn shade_at(ranked: Seq<Color>, primary: Color, i: nat) -> Color
    decreases i,
{
    if i == 0 {
        primary
    } else {
        shaded(shade_at(ranked, primary, (i - 1) as nat), ranked[i as int], ranked[i - 1])
    }
}

/// The table of the gradient strategy: each color of the ranking with its
/// new color.
pub open spec fn gradient_table(ranked: Seq<Color>, primary: Color) -> Seq<(Color, Color)> {
    Seq::new(ranked.len(), |i: int| (shade_at(ranked, primary, i as nat), ranked[i]))
}

/// The palette `data` recolored as `transform` says, or the kind of error
/// that stands in the way: a color text that is no color, or, for the
/// gradient strategy, a palette with nothing to shade.
pub open spec fn recolored_palette(data: Seq<u8>, transform: TransformModel) -> Result<
    Seq<u8>,
    ErrorKind,
> {
    match transform {
        TransformModel::Mapping(pairs) => match resolved(pairs) {
            None => Err(ErrorKind::Config),
            Some(table) => Ok(remapped(data, table)),
        },
        TransformModel::Gradient { primary, background } => {
            let ranked = ranking(entries(data));
            if ranked.len() == 0 {
                Err(ErrorKind::PngFormat)
            } else {
                match packed_color(primary) {
                    None => Err(ErrorKind::Config),
                    Some(first) => Ok(remapped(data, gradient_table(ranked, first))),
                }
            }
        },
    }
}

/// Recoloring keeps the length of a palette.
pub proof fn lemma_recolored_length(data: Seq<u8>, transform: TransformModel)
    ensures
        recolored_palette(data, transform) matches Ok(out) ==> out.len() == data.len(),
{
}

/// `file` with `part` written over it from `at` on.
pub open spec fn overwritten(file: Seq<u8>, at: int, part: Seq<u8>) -> Seq<u8> {
    Seq::new(
        file.len(),
        |i: int|
            if at <= i < at + part.len() {
                part[i - at]
            } else {
                file[i]
            },
    )
}

/// The table that the pairs of `maps` amount to.
fn resolve(maps: &[ColorMap]) -> (res: Result<Vec<(Color, Color)>, TranError>)
    ensures
        match res {
            Ok(table) => resolved(Seq::new(maps@.len(), |i: int| maps@[i]@)) == Some(table@),
            Err(e) => resolved(Seq::new(maps@.len(), |i: int| maps@[i]@)) is None && e
                is ConfigError,
        },
{
    let ghost pairs = Seq::new(maps@.len(), |i: int| maps@[i]@);
    let mut table: Vec<(Color, Color)> = Vec::new();
    let mut i: usize = 0;
    while i < maps.len()
        invariant
            i <= maps.len(),
            pairs == Seq::new(maps@.len(), |i: int| maps@[i]@),
            table@.len() == i,
            forall|k: int|
                0 <= k < i ==> packed_color((#[trigger] pairs[k]).0) == Some(table@[k].0)
                    && packed_color(pairs[k].1) == Some(table@[k].1),
        decreases maps.len() - i,
    {
        let old_color = match maps[i].current_color_bytes() {
            Ok(channels) => Color::from_bytes(channels.0, channels.1, channels.2),
            Err(e) => {
                proof {
                    assert(packed_color(pairs[i as int].1) is None);
                }
                return Err(e);
            },
        };
        let new_color = match maps[i].new_color_bytes() {
            Ok(channels) => Color::from_bytes(channels.0, channels.1, channels.2),
            Err(e) => {
                proof {
                    assert(packed_color(pairs[i as int].0) is None);
                }
                return Err(e);
            },
        };
        table.push((new_color, old_color));
        i += 1;
    }
    proof {
        assert(resolved(pairs).unwrap() =~= table@);
    }
    Ok(table)
}

/// The `k`-th triple of the palette that begins at `start`.
fn entry_at(file: &Vec<u8>, start: usize, length: usize, k: usize) -> (c: Color)
    requires
        start + length <= file.len(),
        3 * k + 2 < length,
    ensures
        c == entry(file@.subrange(start as int, start + length), k as int),
{
    Color { red: file[start + 3 * k], green: file[start + 3 * k + 1], blue: file[start + 3 * k + 2] }
}

fn is_fixed_color(c: Color) -> (res: bool)
    ensures
        res == is_fixed(c),
{
    (c.red == 0 && c.green == 0 && c.blue == 0) || (c.red == 255 && c.green == 255 && c.blue
        == 255)
}

fn brightness_of(c: Color) -> (sum: u16)
    ensures
        sum == brightness(c),
{
    c.red as u16 + c.green as u16 + c.blue as u16
}

fn holds(list: &Vec<Color>, c: Color) -> (res: bool)
    ensures
        res == list@.contains(c),
{
    let mut i: usize = 0;
    while i < list.len()
        invariant
            i <= list.len(),
            forall|k: int| 0 <= k < i ==> list@[k] != c,
        decreases list.len() - i,
    {
        if list[i] == c {
            return true;
        }
        i += 1;
    }
    false
}

/// Puts `c` into the ranking.
fn place(list: &mut Vec<Color>, c: Color)
    ensures
        final(list)@ == placed(old(list)@, c),
{
    if is_fixed_color(c) || holds(list, c) {
        return ;
    }
    let sum = brightness_of(c);
    let mut at: usize = 0;
    proof {
        assert(list@.skip(0) =~= list@);
    }
    while at < list.len() && brightness_of(list[at]) >= sum
        invariant
            at <= list.len(),
            sum == brightness(c),
            rank(list@, c) == at + rank(list@.skip(at as int), c),
        decreases list.len() - at,
    {
        proof {
            assert(list@.skip(at as int).drop_first() =~= list@.skip(at + 1));
        }
        at += 1;
    }
    proof {
        if at < list.len() {
            assert(list@.skip(at as int)[0] == list@[at as int]);
        }
    }
    list.insert(at, c);
}

/// The ranking of the palette of `length` bytes that begins at `start`.
fn rank_palette(file: &Vec<u8>, start: usize, length: usize) -> (ranked: Vec<Color>)
    requires
        start + length <= file.len(),
    ensures
        ranked@ == ranking(entries(file@.subrange(start as int, start + length))),
{
    let ghost data = file@.subrange(start as int, start + length);
    let count = length / 3;
    let mut ranked: Vec<Color> = Vec::new();
    let mut k: usize = 0;
    proof {
        assert(entries(data).take(0) =~= Seq::<Color>::empty());
    }
    while k < count
        invariant
            k <= count,
            count == length / 3,
            start + length <= file.len(),
            data == file@.subrange(start as int, start + length),
            ranked@ == ranking(entries(data).take(k as int)),
        decreases count - k,
    {
        let c = entry_at(file, start, length, k);
        proof {
            assert(entries(data).take(k + 1).drop_last() =~= entries(data).take(k as int));
            assert(entries(data).take(k + 1).last() == c);
        }
        place(&mut ranked, c);
        k += 1;
    }
    proof {
        assert(entries(data).take(count as int) =~= entries(data));
    }
    ranked
}

/// The table of the gradient strategy for a ranking and its first new
/// color.
fn shade_table(ranked: &Vec<Color>, primary: Color) -> (table: Vec<(Color, Color)>)
    ensures
        table@ == gradient_table(ranked@, primary),
{
    let mut table: Vec<(Color, Color)> = Vec::new();
    let mut i: usize = 0;
    let mut previous = primary;
    while i < ranked.len()
        invariant
            i <= ranked.len(),
            table@.len() == i,
            i > 0 ==> previous == shade_at(ranked@, primary, (i - 1) as nat),
            i == 0 ==> previous == primary,
            forall|k: int|
                0 <= k < i ==> #[trigger] table@[k] == (
                    shade_at(ranked@, primary, k as nat),
                    ranked@[k],
                ),
        decreases ranked.len() - i,
    {
        let next = if i == 0 {
            primary
        } else {
            shade(previous, ranked[i], ranked[i - 1])
        };
        table.push((next, ranked[i]));
        previous = next;
        i += 1;
    }
    proof {
        assert(table@ =~= gradient_table(ranked@, primary));
    }
    table
}

/// What the table puts in the place of `c`.
fn replace(table: &Vec<(Color, Color)>, c: Color) -> (res: Color)
    ensures
        res == replacement(table@, c),
{
    let mut i: usize = 0;
    proof {
        assert(table@.skip(0) =~= table@);
    }
    while i < table.len()
        invariant
            i <= table.len(),
            replacement(table@, c) == replacement(table@.skip(i as int), c),
        decreases table.len() - i,
    {
        proof {
            assert(table@.skip(i as int)[0] == table@[i as int]);
            assert(table@.skip(i as int).drop_first() =~= table@.skip(i + 1));
        }
        if table[i].1 == c {
            return table[i].0;
        }
        i += 1;
    }
    c
}

/// Replaces every triple of the palette of `length` bytes that begins at
/// `start`, in place.
fn remap(file: &mut Vec<u8>, start: usize, length: usize, table: &Vec<(Color, Color)>)
    requires
        start + length <= old(file).len(),
    ensures
        final(file)@ == overwritten(
            old(file)@,
            start as int,
            remapped(old(file)@.subrange(start as int, start + length), table@),
        ),
{
    let ghost before = file@;
    let ghost data = file@.subrange(start as int, start + length);
    let ghost goal = remapped(data, table@);
    let count = length / 3;
    let mut k: usize = 0;
    while k < count
        invariant
            k <= count,
            count == length / 3,
            start + length <= file.len(),
            file@.len() == before.len(),
            data == before.subrange(start as int, start + length),
            goal == remapped(data, table@),
            forall|i: int|
                0 <= i < file@.len() ==> #[trigger] file@[i] == (if start <= i < start + 3 * k {
                    goal[i - start]
                } else {
                    before[i]
                }),
        decreases count - k,
    {
        let old_color = entry_at(file, start, length, k);
        proof {
            assert(file@.subrange(start as int, start + length)[3 * k] == data[3 * k]);
            assert(file@.subrange(start as int, start + length)[3 * k + 1] == data[3 * k + 1]);
            assert(file@.subrange(start as int, start + length)[3 * k + 2] == data[3 * k + 2]);
            assert(old_color == entry(data, k as int));
        }
        let new_color = replace(table, old_color);
        file.set(start + 3 * k, new_color.red);
        file.set(start + 3 * k + 1, new_color.green);
        file.set(start + 3 * k + 2, new_color.blue);
        proof {
            assert((3 * k) / 3 == k && (3 * k) % 3 == 0);
            assert((3 * k + 1) / 3 == k && (3 * k + 1) % 3 == 1);
            assert((3 * k + 2) / 3 == k && (3 * k + 2) % 3 == 2);
        }
        k += 1;
    }
    proof {
        assert(file@ =~= overwritten(before, start as int, goal));
    }
}

/// Recolors the palette of `length` bytes that begins at `start`, in
/// place. On an error the file is as it was.
pub(crate) fn recolor_palette(
    file: &mut Vec<u8>,
    start: usize,
    length: usize,
    transform: &ColorTransform,
) -> (res: Result<(), TranError>)
    requires
        start + length <= old(file).len(),
    ensures
        match res {
            Ok(_) => match recolored_palette(
                old(file)@.subrange(start as int, start + length),
                transform@,
            ) {
                Ok(data) => final(file)@ == overwritten(old(file)@, start as int, data),
                Err(_) => false,
            },
            Err(e) => recolored_palette(
                old(file)@.subrange(start as int, start + length),
                transform@,
            ) == Err::<Seq<u8>, ErrorKind>(e.kind()) && final(file)@ == old(file)@,
        },
{
    match transform {
        ColorTransform::Mapping(maps) => {
            let table = resolve(maps)?;
            remap(file, start, length, &table);
            Ok(())
        },
        ColorTransform::Gradient { primary, background: _ } => {
            let ranked = rank_palette(file, start, length);
            if ranked.len() == 0 {
                return Err(TranError::PngFormatError(String::from_str("No colors")));
            }
            let first = match hex_to_bytes(primary) {
                Ok(channels) => Color::from_bytes(channels.0, channels.1, channels.2),
                Err(e) => {
                    return Err(e);
                },
            };
            let table = shade_table(&ranked, first);
            remap(file, start, length, &table);
            Ok(())
        },
    }
}

} // verus!
