//! What recoloring leaves alone and what it leaves behind.
use vstd::prelude::*;
use crate::color::hex_text;
use crate::color::Color;
use crate::errors::ErrorKind;
use crate::png::chunk_at;
use crate::png::crc::crc32;
use crate::png::palette::entries;
use crate::png::palette::brightness;
use crate::png::palette::entry;
use crate::png::palette::gradient_table;
use crate::png::palette::is_fixed;
use crate::png::palette::placed;
use crate::png::palette::rank;
use crate::png::palette::ranking;
use crate::png::palette::shade_at;
use crate::png::palette::lemma_recolored_length;
use crate::png::palette::overwritten;
use crate::png::palette::recolored_palette;
use crate::png::palette::remapped;
use crate::png::palette::replacement;
use crate::png::palette::resolved;
use crate::png::recolored;
use crate::png::signature;
use crate::png::walked;
use crate::png::with_palette;
use crate::png::word_at;
use crate::png::word_bytes;
use crate::png::IEND;
use crate::png::IHDR;
use crate::png::IHDR_COLOR_TYPE_OFFSET;
use crate::png::PLTE;
use crate::transform::lemma_packed_of_display;
use crate::transform::packed_color;
use crate::transform::TransformModel;

verus! {

/// Whether byte `i` belongs to the data or to the checksum of a palette
/// chunk that the walk from `at` comes by.
pub open spec fn in_palette(file: Seq<u8>, at: int, i: int) -> bool
    decreases file.len() - at,
{
    match chunk_at(file, at) {
        None => false,
        Some(chunk) => {
            let next = at + 12 + chunk.length;
            if chunk.chunk_type == PLTE {
                (at + 8 <= i < next) || in_palette(file, next, i)
            } else if chunk.chunk_type == IEND {
                false
            } else {
                in_palette(file, next, i)
            }
        },
    }
}

/// Whether every palette chunk that the walk from `at` comes by carries
/// the checksum of its type and data.
pub open spec fn is_sealed(file: Seq<u8>, at: int) -> bool
    decreases file.len() - at,
{
    match chunk_at(file, at) {
        None => true,
        Some(chunk) => {
            let next = at + 12 + chunk.length;
            if chunk.chunk_type == PLTE {
                word_at(file, next - 4) == crc32(file.subrange(at + 4, next - 4)) && is_sealed(
                    file,
                    next,
                )
            } else if chunk.chunk_type == IEND {
                true
            } else {
                is_sealed(file, next)
            }
        },
    }
}

/// Where the walk of a PNG with a palette begins: behind the header chunk.
pub open spec fn first_chunk(file: Seq<u8>) -> int {
    20 + chunk_at(file, 8).unwrap().length
}

/// A number is read back from its four bytes.
proof fn lemma_word_of_bytes(v: u32)
    ensures
        word_at(word_bytes(v), 0) == v,
{
    let b0 = ((v & 0xFF000000) >> 24) as u8;
    let b1 = ((v & 0x00FF0000) >> 16) as u8;
    let b2 = ((v & 0x0000FF00) >> 8) as u8;
    let b3 = (v & 0x000000FF) as u8;
    assert(((b0 as u32) << 24) | ((b1 as u32) << 16) | ((b2 as u32) << 8) | (b3 as u32) == v)
        by (bit_vector)
        requires
            b0 == ((v & 0xFF000000) >> 24) as u8,
            b1 == ((v & 0x00FF0000) >> 16) as u8,
            b2 == ((v & 0x0000FF00) >> 8) as u8,
            b3 == (v & 0x000000FF) as u8,
    ;
}

/// The chunk at `at` is read from the bytes from `at` on.
proof fn lemma_chunk_at_agrees(f1: Seq<u8>, f2: Seq<u8>, at: int)
    requires
        f1.len() == f2.len(),
        forall|j: int| at <= j < at + 8 && 0 <= j < f1.len() ==> f1[j] == f2[j],
    ensures
        chunk_at(f1, at) == chunk_at(f2, at),
{
}

/// Which bytes belong to palettes is read from the bytes from `at` on.
proof fn lemma_in_palette_agrees(f1: Seq<u8>, f2: Seq<u8>, at: int, i: int)
    requires
        f1.len() == f2.len(),
        forall|j: int| at <= j < f1.len() ==> f1[j] == f2[j],
    ensures
        in_palette(f1, at, i) == in_palette(f2, at, i),
    decreases f1.len() - at,
{
    lemma_chunk_at_agrees(f1, f2, at);
    match chunk_at(f1, at) {
        None => {},
        Some(chunk) => {
            let next = at + 12 + chunk.length;
            if chunk.chunk_type != IEND {
                lemma_in_palette_agrees(f1, f2, next, i);
            }
        },
    }
}

/// The bytes of palettes on the walk from `at` stand behind `at`.
proof fn lemma_in_palette_is_behind(file: Seq<u8>, at: int, i: int)
    requires
        in_palette(file, at, i),
    ensures
        at + 8 <= i < file.len(),
    decreases file.len() - at,
{
    let chunk = chunk_at(file, at).unwrap();
    let next = at + 12 + chunk.length;
    if chunk.chunk_type == PLTE {
        if !(at + 8 <= i < next) {
            lemma_in_palette_is_behind(file, next, i);
        }
    } else {
        lemma_in_palette_is_behind(file, next, i);
    }
}

/// A recolored palette chunk differs from the chunk before in its data and
/// its checksum only, and carries the checksum of its type and new data.
proof fn lemma_with_palette(file: Seq<u8>, at: int, data: Seq<u8>)
    requires
        chunk_at(file, at) is Some,
        data.len() == chunk_at(file, at).unwrap().length,
    ensures
        ({
            let out = with_palette(file, at, data);
            let next = at + 12 + data.len();
            &&& out.len() == file.len()
            &&& forall|j: int| 0 <= j < file.len() && !(at + 8 <= j < next) ==> out[j] == file[j]
            &&& chunk_at(out, at) == chunk_at(file, at)
            &&& word_at(out, next - 4) == crc32(out.subrange(at + 4, next - 4))
        }),
{
    let body = overwritten(file, at + 8, data);
    let sum = crc32(body.subrange(at + 4, at + 8 + data.len()));
    let out = with_palette(file, at, data);
    let next = at + 12 + data.len();
    lemma_chunk_at_agrees(out, file, at);
    assert(out.subrange(at + 4, next - 4) =~= body.subrange(at + 4, next - 4));
    lemma_word_of_bytes(sum);
    assert(out[next - 4] == word_bytes(sum)[0]);
    assert(out[next - 3] == word_bytes(sum)[1]);
    assert(out[next - 2] == word_bytes(sum)[2]);
    assert(out[next - 1] == word_bytes(sum)[3]);
}

/// The walk changes nothing but the data and the checksums of the palette
/// chunks that it comes by.
pub proof fn lemma_walk_touches_palettes_only(file: Seq<u8>, at: int, transform: TransformModel)
    requires
        walked(file, at, transform) is Ok,
    ensures
        ({
            let out = walked(file, at, transform)->Ok_0;
            &&& out.len() == file.len()
            &&& forall|i: int|
                0 <= i < file.len() && !in_palette(file, at, i) ==> out[i] == file[i]
        }),
    decreases file.len() - at,
{
    let out = walked(file, at, transform)->Ok_0;
    let chunk = chunk_at(file, at).unwrap();
    let next = at + 12 + chunk.length;
    if chunk.chunk_type == PLTE {
        let old_data = file.subrange(at + 8, at + 8 + chunk.length);
        lemma_recolored_length(old_data, transform);
        let data = recolored_palette(old_data, transform)->Ok_0;
        let changed = with_palette(file, at, data);
        lemma_with_palette(file, at, data);
        lemma_walk_touches_palettes_only(changed, next, transform);
        assert forall|i: int| 0 <= i < file.len() && !in_palette(file, at, i) implies out[i]
            == file[i] by {
            lemma_in_palette_agrees(changed, file, next, i);
        }
    } else if chunk.chunk_type != IEND {
        lemma_walk_touches_palettes_only(file, next, transform);
    }
}

/// The walk from `at` leaves the bytes before `at + 8` as they are.
proof fn lemma_walk_keeps_front(file: Seq<u8>, at: int, transform: TransformModel)
    requires
        walked(file, at, transform) is Ok,
    ensures
        ({
            let out = walked(file, at, transform)->Ok_0;
            &&& out.len() == file.len()
            &&& forall|i: int| 0 <= i < at + 8 && i < file.len() ==> out[i] == file[i]
        }),
{
    let out = walked(file, at, transform)->Ok_0;
    lemma_walk_touches_palettes_only(file, at, transform);
    assert forall|i: int| 0 <= i < at + 8 && i < file.len() implies out[i] == file[i] by {
        if in_palette(file, at, i) {
            lemma_in_palette_is_behind(file, at, i);
        }
    }
}

/// After the walk every palette chunk that it came by carries the
/// checksum of its type and data.
pub proof fn lemma_walk_seals_palettes(file: Seq<u8>, at: int, transform: TransformModel)
    requires
        walked(file, at, transform) is Ok,
    ensures
        is_sealed(walked(file, at, transform)->Ok_0, at),
    decreases file.len() - at,
{
    let out = walked(file, at, transform)->Ok_0;
    let chunk = chunk_at(file, at).unwrap();
    let next = at + 12 + chunk.length;
    if chunk.chunk_type == PLTE {
        let old_data = file.subrange(at + 8, at + 8 + chunk.length);
        lemma_recolored_length(old_data, transform);
        let data = recolored_palette(old_data, transform)->Ok_0;
        let changed = with_palette(file, at, data);
        lemma_with_palette(file, at, data);
        lemma_walk_seals_palettes(changed, next, transform);
        lemma_walk_keeps_front(changed, next, transform);
        lemma_chunk_at_agrees(out, changed, at);
        assert(out.subrange(at + 4, next - 4) =~= changed.subrange(at + 4, next - 4));
        assert(word_at(out, next - 4) == word_at(changed, next - 4));
    } else if chunk.chunk_type != IEND {
        lemma_walk_seals_palettes(file, next, transform);
        lemma_walk_keeps_front(file, next, transform);
        lemma_chunk_at_agrees(out, file, at);
    }
}

/// Recoloring gives a file of the same length that differs from the
/// file before in nothing but the data and the checksums of its palette
/// chunks, and in which each of these chunks carries the checksum of its
/// type and data.
pub proof fn lemma_recolor_touches_palettes_only(file: Seq<u8>, transform: TransformModel)
    requires
        recolored(file, transform) matches Ok(Some(_)),
    ensures
        ({
            let out = recolored(file, transform)->Ok_0->Some_0;
            &&& out.len() == file.len()
            &&& forall|i: int|
                0 <= i < file.len() && !in_palette(file, first_chunk(file), i) ==> out[i]
                    == file[i]
            &&& is_sealed(out, first_chunk(file))
        }),
{
    lemma_walk_touches_palettes_only(file, first_chunk(file), transform);
    lemma_walk_seals_palettes(file, first_chunk(file), transform);
}

/// A truecolor image, with or without alpha, is not supported, whatever
/// else the file holds and whatever the transform.
pub proof fn lemma_truecolor_is_unsupported(file: Seq<u8>, transform: TransformModel)
    requires
        file.len() >= 8,
        file.subrange(0, 8) == signature(),
        chunk_at(file, 8) matches Some(header) && header.chunk_type == IHDR && header.length
            > IHDR_COLOR_TYPE_OFFSET,
        file[16 + IHDR_COLOR_TYPE_OFFSET] == 2 || file[16 + IHDR_COLOR_TYPE_OFFSET] == 6,
    ensures
        recolored(file, transform) == Err::<Option<Seq<u8>>, ErrorKind>(ErrorKind::Unsupported),
{
}

/// A grayscale image, with or without alpha, is left alone.
pub proof fn lemma_grayscale_is_left_alone(file: Seq<u8>, transform: TransformModel)
    requires
        file.len() >= 8,
        file.subrange(0, 8) == signature(),
        chunk_at(file, 8) matches Some(header) && header.chunk_type == IHDR && header.length
            > IHDR_COLOR_TYPE_OFFSET,
        file[16 + IHDR_COLOR_TYPE_OFFSET] == 0 || file[16 + IHDR_COLOR_TYPE_OFFSET] == 4,
    ensures
        recolored(file, transform) == Ok::<Option<Seq<u8>>, ErrorKind>(None),
{
}

/// In a remapped palette each triple is what the table puts in the place
/// of the triple before; the palette is as long as before, and the bytes
/// behind the last whole triple are as before.
pub proof fn lemma_remapped_entries(data: Seq<u8>, table: Seq<(Color, Color)>)
    ensures
        remapped(data, table).len() == data.len(),
        entries(remapped(data, table)).len() == entries(data).len(),
        forall|k: int|
            0 <= k < entries(data).len() ==> #[trigger] entries(remapped(data, table))[k]
                == replacement(table, entries(data)[k]),
        forall|i: int|
            3 * (data.len() / 3) <= i < data.len() ==> #[trigger] remapped(data, table)[i]
                == data[i],
{
    let out = remapped(data, table);
    assert forall|k: int| 0 <= k < entries(data).len() implies #[trigger] entries(out)[k]
        == replacement(table, entries(data)[k]) by {
        assert((3 * k) / 3 == k && (3 * k) % 3 == 0);
        assert((3 * k + 1) / 3 == k && (3 * k + 1) % 3 == 1);
        assert((3 * k + 2) / 3 == k && (3 * k + 2) % 3 == 2);
        assert(entry(out, k) == replacement(table, entry(data, k)));
    }
}

/// A color that is the old color of no pair of the table keeps its place.
pub proof fn lemma_unmatched_stays(table: Seq<(Color, Color)>, c: Color)
    requires
        forall|k: int| 0 <= k < table.len() ==> (#[trigger] table[k]).1 != c,
    ensures
        replacement(table, c) == c,
    decreases table.len(),
{
    if table.len() > 0 {
        assert forall|k: int| 0 <= k < table.drop_first().len() implies (
        #[trigger] table.drop_first()[k]).1 != c by {
            assert(table.drop_first()[k] == table[k + 1]);
        }
        lemma_unmatched_stays(table.drop_first(), c);
    }
}

/// No color stands twice in `list`.
pub open spec fn is_distinct(list: Seq<Color>) -> bool {
    forall|i: int, j: int| 0 <= i < j < list.len() ==> list[i] != list[j]
}

/// The colors of `list` stand by brightness, the brightest first.
pub open spec fn is_ranked(list: Seq<Color>) -> bool {
    forall|i: int, j: int| 0 <= i <= j < list.len() ==> brightness(list[i]) >= brightness(list[j])
}

/// The rank of a color is a place in the list: what stands before it is at
/// least as bright as the color, what stands at it is darker.
proof fn lemma_rank(list: Seq<Color>, c: Color)
    ensures
        0 <= rank(list, c) <= list.len(),
        forall|i: int| 0 <= i < rank(list, c) ==> brightness(list[i]) >= brightness(c),
        rank(list, c) < list.len() ==> brightness(list[rank(list, c)]) < brightness(c),
    decreases list.len(),
{
    if list.len() > 0 && brightness(list[0]) >= brightness(c) {
        let tail = list.drop_first();
        lemma_rank(tail, c);
        let r = rank(tail, c);
        assert forall|i: int| 0 <= i < r + 1 implies brightness(list[i]) >= brightness(c) by {
            if i > 0 {
                assert(list[i] == tail[i - 1]);
            }
        }
        if r + 1 < list.len() {
            assert(list[r + 1] == tail[r]);
        }
    }
}

/// Putting a color into a ranking gives a ranking: by brightness, without
/// a color twice, without black and white. It holds what was there, and
/// the color unless that is black or white.
proof fn lemma_placed(list: Seq<Color>, c: Color)
    requires
        is_ranked(list),
        is_distinct(list),
        forall|i: int| 0 <= i < list.len() ==> !is_fixed(list[i]),
    ensures
        is_ranked(placed(list, c)),
        is_distinct(placed(list, c)),
        forall|i: int| 0 <= i < placed(list, c).len() ==> !is_fixed(placed(list, c)[i]),
        forall|x: Color|
            placed(list, c).contains(x) <==> list.contains(x) || (x == c && !is_fixed(c)),
{
    let out = placed(list, c);
    if is_fixed(c) || list.contains(c) {
    } else {
        lemma_rank(list, c);
        let p = rank(list, c);
        assert(out.len() == list.len() + 1);
        assert(forall|i: int| 0 <= i < p ==> out[i] == list[i]);
        assert(out[p] == c);
        assert(forall|i: int| p < i < out.len() ==> out[i] == list[i - 1]);
        assert forall|i: int, j: int| 0 <= i <= j < out.len() implies brightness(out[i])
            >= brightness(out[j]) by {
            if j < p {
            } else if j == p {
            } else if i < p {
                assert(brightness(list[i]) >= brightness(list[j - 1]));
            } else if i == p {
                assert(brightness(list[p]) >= brightness(list[j - 1]));
            } else {
                assert(brightness(list[i - 1]) >= brightness(list[j - 1]));
            }
        }
        assert forall|i: int, j: int| 0 <= i < j < out.len() implies out[i] != out[j] by {
            if i == p {
                assert(out[j] == list[j - 1]);
            } else if j == p {
                assert(out[i] == list[i]);
            }
        }
        assert forall|x: Color| out.contains(x) implies list.contains(x) || x == c by {
            let k = choose|k: int| 0 <= k < out.len() && out[k] == x;
            if k < p {
                assert(list[k] == x);
            } else if k > p {
                assert(list[k - 1] == x);
            }
        }
        assert forall|x: Color| list.contains(x) || x == c implies out.contains(x) by {
            if x == c {
                assert(out[p] == x);
            } else {
                let k = choose|k: int| 0 <= k < list.len() && list[k] == x;
                if k < p {
                    assert(out[k] == x);
                } else {
                    assert(out[k + 1] == x);
                }
            }
        }
    }
}

/// The ranking of a palette stands by brightness, the brightest first,
/// holds no color twice, and holds just the colors of the palette other
/// than black and white.
pub proof fn lemma_ranking(colors: Seq<Color>)
    ensures
        is_ranked(ranking(colors)),
        is_distinct(ranking(colors)),
        forall|i: int| 0 <= i < ranking(colors).len() ==> !is_fixed(ranking(colors)[i]),
        forall|x: Color| ranking(colors).contains(x) <==> colors.contains(x) && !is_fixed(x),
    decreases colors.len(),
{
    if colors.len() > 0 {
        let front = colors.drop_last();
        let last = colors.last();
        lemma_ranking(front);
        lemma_placed(ranking(front), last);
        let out = ranking(colors);
        assert forall|x: Color| out.contains(x) implies colors.contains(x) && !is_fixed(x) by {
            if ranking(front).contains(x) {
                let k = choose|k: int| 0 <= k < front.len() && front[k] == x;
                assert(colors[k] == x);
            } else {
                assert(colors[colors.len() - 1] == x);
            }
        }
        assert forall|x: Color| colors.contains(x) && !is_fixed(x) implies out.contains(x) by {
            let k = choose|k: int| 0 <= k < colors.len() && colors[k] == x;
            if k < colors.len() - 1 {
                assert(front[k] == x);
                assert(front.contains(x));
            }
        }
    }
}

/// The entry of a table whose old color stands in no earlier entry is the
/// one that decides on that color.
proof fn lemma_replacement_at(table: Seq<(Color, Color)>, i: int)
    requires
        0 <= i < table.len(),
        forall|j: int| 0 <= j < i ==> (#[trigger] table[j]).1 != table[i].1,
    ensures
        replacement(table, table[i].1) == table[i].0,
    decreases i,
{
    if i > 0 {
        let tail = table.drop_first();
        assert(tail[i - 1] == table[i]);
        assert forall|j: int| 0 <= j < i - 1 implies (#[trigger] tail[j]).1 != tail[i - 1].1 by {
            assert(tail[j] == table[j + 1]);
        }
        lemma_replacement_at(tail, i - 1);
    }
}

/// What the gradient strategy makes of the colors of a palette: the
/// brightest color becomes `primary`, each further color of the ranking
/// the shade of the one before, and black and white stay.
pub proof fn lemma_gradient_replacements(colors: Seq<Color>, primary: Color)
    ensures
        ({
            let ranked = ranking(colors);
            let table = gradient_table(ranked, primary);
            &&& ranked.len() > 0 ==> replacement(table, ranked[0]) == primary
            &&& forall|i: int|
                0 <= i < ranked.len() ==> replacement(table, #[trigger] ranked[i]) == shade_at(
                    ranked,
                    primary,
                    i as nat,
                )
            &&& forall|c: Color| is_fixed(c) ==> replacement(table, c) == c
        }),
{
    let ranked = ranking(colors);
    let table = gradient_table(ranked, primary);
    lemma_ranking(colors);
    assert forall|i: int| 0 <= i < ranked.len() implies replacement(table, #[trigger] ranked[i])
        == shade_at(ranked, primary, i as nat) by {
        lemma_replacement_at(table, i);
    }
    assert forall|c: Color| is_fixed(c) implies replacement(table, c) == c by {
        lemma_unmatched_stays(table, c);
    }
}

/// Substitutions that are written as the display forms of colors amount
/// to the table of just these colors.
pub proof fn lemma_displayed_pairs_resolve(
    pairs: Seq<(Seq<char>, Seq<char>)>,
    table: Seq<(Color, Color)>,
)
    requires
        pairs.len() == table.len(),
        forall|i: int|
            0 <= i < pairs.len() ==> (#[trigger] pairs[i]).0 == hex_text(table[i].0) && pairs[i].1
                == hex_text(table[i].1),
    ensures
        resolved(pairs) == Some(table),
{
    assert forall|i: int| 0 <= i < pairs.len() implies packed_color(
        (#[trigger] pairs[i]).0,
    ) == Some(table[i].0) && packed_color(pairs[i].1) == Some(table[i].1) by {
        lemma_packed_of_display(table[i].0);
        lemma_packed_of_display(table[i].1);
    }
    assert(resolved(pairs).unwrap() =~= table);
}

} // verus!
