//! The PNG chunk codec: walks a PNG chunk by chunk, recolors each palette
//! in place and gives it a fresh checksum.
//!
//! A chunk is a length of four bytes, a type of four bytes, as many bytes
//! of data as the length says, and a checksum of four bytes over type and
//! data. Numbers are big-endian.
use vstd::prelude::*;
use vstd::slice::slice_subrange;
use crate::color::hex_digit;
use crate::color::nibble_str;
use crate::errors::ErrorKind;
use crate::errors::TranError;
use crate::png::crc::crc;
use crate::png::crc::crc32;
use crate::png::palette::lemma_recolored_length;
use crate::png::palette::overwritten;
use crate::png::palette::recolor_palette;
use crate::png::palette::recolored_palette;
use crate::transform::ColorTransform;
use crate::transform::TransformModel;

pub mod crc;
pub mod laws;
pub mod palette;
pub mod shade;

verus! {

/// The type of the header chunk.
pub const IHDR: u32 = 0x49484452;

/// The type of the chunk that ends a PNG.
pub const IEND: u32 = 0x49454E44;

/// The type of the palette chunk.
pub const PLTE: u32 = 0x504C5445;

/// Where the color type stands in the data of the header chunk: behind
/// width, height and bit depth.
pub const IHDR_COLOR_TYPE_OFFSET: usize = 9;

/// The eight bytes that every PNG begins with.
pub open spec fn signature() -> Seq<u8> {
    seq![0x89u8, 0x50u8, 0x4eu8, 0x47u8, 0x0du8, 0x0au8, 0x1au8, 0x0au8]
}

/// The place of the first of the eight leading bytes, from `from` on, that
/// differs from the signature or is missing; eight where there is none.
pub open spec fn first_difference(file: Seq<u8>, from: int) -> int
    decreases 8 - from,
{
    if from >= 8 {
        8
    } else if from >= file.len() || file[from] != signature()[from] {
        from
    } else {
        first_difference(file, from + 1)
    }
}

/// The hex digits of a byte, without a leading zero.
pub open spec fn hex_number(b: u8) -> Seq<char> {
    if b < 16 {
        seq![hex_digit(b as int)]
    } else {
        seq![hex_digit(b as int / 16), hex_digit(b as int % 16)]
    }
}

/// What the error says of a file that does not begin with the signature:
/// the first byte that differs and the byte that the signature has in its
/// place, or that the file ends before.
pub open spec fn signature_complaint(file: Seq<u8>) -> Seq<char> {
    let at = first_difference(file, 0);
    if at < file.len() {
        "The file is not a png as "@ + hex_number(file[at]) + " != "@ + hex_number(
            signature()[at],
        )
    } else {
        "The file is not a png as it ends inside the signature"@
    }
}

/// How the pixels of a PNG are stored.
#[derive(Clone, Copy, Debug, PartialEq, Eq, Structural)]
pub enum PngColorType {
    Grayscale,
    Rgb,
    Palette,
    GrayscaleAlpha,
    Rgba,
}

/// The color type that a byte of the header names, if it names one.
pub open spec fn color_type_of(value: u8) -> Option<PngColorType> {
    if value == 0 {
        Some(PngColorType::Grayscale)
    } else if value == 2 {
        Some(PngColorType::Rgb)
    } else if value == 3 {
        Some(PngColorType::Palette)
    } else if value == 4 {
        Some(PngColorType::GrayscaleAlpha)
    } else if value == 6 {
        Some(PngColorType::Rgba)
    } else {
        None
    }
}

impl TryFrom<u8> for PngColorType {
    type Error = TranError;

    /// The color type with the given number; any other number is a
    /// `FileReadError`.
    fn try_from(value: u8) -> (res: Result<Self, Self::Error>)
        ensures
            match res {
                Ok(color_type) => color_type_of(value) == Some(color_type),
                Err(e) => color_type_of(value) is None && e is FileReadError,
            },
    {
        match value {
            0 => Ok(PngColorType::Grayscale),
            2 => Ok(PngColorType::Rgb),
            3 => Ok(PngColorType::Palette),
            4 => Ok(PngColorType::GrayscaleAlpha),
            6 => Ok(PngColorType::Rgba),
            _ => Err(TranError::FileReadError(String::from_str("PNG Color type is invalid"))),
        }
    }
}

/// The conversion is specified by the `ensures` of `try_from`: an error
/// carries a `String`, which has no value in specifications.
impl vstd::std_specs::convert::TryFromSpecImpl<u8> for PngColorType {
    open spec fn obeys_try_from_spec() -> bool {
        false
    }

    open spec fn try_from_spec(v: u8) -> Result<Self, Self::Error> {
        arbitrary()
    }
}

/// A chunk of a PNG held in a buffer: its length and type, and where its
/// data and its checksum begin in the buffer. The data ends where the
/// checksum begins.
#[derive(Clone, Copy, Debug, PartialEq, Eq, Structural)]
pub struct Chunk {
    pub length: u32,
    pub chunk_type: u32,
    pub data: usize,
    pub crc: usize,
}

/// The big-endian number in the four bytes from `at` on.
pub open spec fn word_at(file: Seq<u8>, at: int) -> u32 {
    ((file[at] as u32) << 24) | ((file[at + 1] as u32) << 16) | ((file[at + 2] as u32) << 8) | (
    file[at + 3] as u32)
}

/// The four bytes of a number, big-endian.
pub open spec fn word_bytes(v: u32) -> Seq<u8> {
    seq![
        ((v & 0xFF000000) >> 24) as u8,
        ((v & 0x00FF0000) >> 16) as u8,
        ((v & 0x0000FF00) >> 8) as u8,
        (v & 0x000000FF) as u8,
    ]
}

/// The chunk that begins at `at`, if the file holds all of it: twelve
/// bytes and the data.
pub open spec fn chunk_at(file: Seq<u8>, at: int) -> Option<Chunk> {
    if 0 <= at && at + 12 <= file.len() && at + 12 + word_at(file, at) <= file.len() {
        Some(
            Chunk {
                length: word_at(file, at),
                chunk_type: word_at(file, at + 4),
                data: (at + 8) as usize,
                crc: (at + 8 + word_at(file, at)) as usize,
            },
        )
    } else {
        None
    }
}

/// The file with the data of the chunk at `at` replaced by `data`, and the
/// checksum of the chunk computed anew over its type and the new data.
pub open spec fn with_palette(file: Seq<u8>, at: int, data: Seq<u8>) -> Seq<u8> {
    let body = overwritten(file, at + 8, data);
    overwritten(
        body,
        at + 8 + data.len(),
        word_bytes(crc32(body.subrange(at + 4, at + 8 + data.len()))),
    )
}

/// The file after the chunks from `at` on were walked through up to the
/// chunk that ends the PNG: each palette on the way is recolored and
/// sealed with a fresh checksum. A chunk that the file does not hold in
/// full is a read error; a palette that cannot be recolored ends the walk
/// with its error.
pub open spec fn walked(file: Seq<u8>, at: int, transform: TransformModel) -> Result<
    Seq<u8>,
    ErrorKind,
>
    decreases file.len() - at,
{
    match chunk_at(file, at) {
        None => Err(ErrorKind::FileRead),
        Some(chunk) => {
            let next = at + 12 + chunk.length;
            if chunk.chunk_type == PLTE {
                match recolored_palette(file.subrange(at + 8, at + 8 + chunk.length), transform) {
                    Err(kind) => Err(kind),
                    Ok(data) => walked(with_palette(file, at, data), next, transform),
                }
            } else if chunk.chunk_type == IEND {
                Ok(file)
            } else {
                walked(file, next, transform)
            }
        },
    }
}

/// What recoloring makes of a PNG file.
///
/// The file must begin with the signature and the header chunk, and the
/// header must name a color type; anything else is a read error. A
/// grayscale image, with or without alpha, needs no work: `Ok(None)`. A
/// truecolor image, with or without alpha, is not supported. An image with
/// a palette gives the file with every palette recolored.
pub open spec fn recolored(file: Seq<u8>, transform: TransformModel) -> Result<
    Option<Seq<u8>>,
    ErrorKind,
> {
    if file.len() < 8 || file.subrange(0, 8) != signature() {
        Err(ErrorKind::FileRead)
    } else {
        match chunk_at(file, 8) {
            None => Err(ErrorKind::FileRead),
            Some(header) => if header.chunk_type != IHDR || header.length
                <= IHDR_COLOR_TYPE_OFFSET {
                Err(ErrorKind::FileRead)
            } else {
                match color_type_of(file[16 + IHDR_COLOR_TYPE_OFFSET]) {
                    None => Err(ErrorKind::FileRead),
                    Some(PngColorType::Grayscale) | Some(PngColorType::GrayscaleAlpha) => Ok(None),
                    Some(PngColorType::Rgb) | Some(PngColorType::Rgba) => Err(
                        ErrorKind::Unsupported,
                    ),
                    Some(PngColorType::Palette) => match walked(
                        file,
                        20 + header.length,
                        transform,
                    ) {
                        Err(kind) => Err(kind),
                        Ok(out) => Ok(Some(out)),
                    },
                }
            },
        }
    }
}

/// The error for a file that ends inside a chunk.
fn out_of_bytes() -> (e: TranError)
    ensures
        e is FileReadError,
        e.detail() == "Ran out of bytes"@,
{
    TranError::FileReadError(String::from_str("Ran out of bytes"))
}

/// The big-endian number in the four bytes from `at` on.
fn read_word(file: &Vec<u8>, at: usize) -> (v: u32)
    requires
        at + 4 <= file.len(),
    ensures
        v == word_at(file@, at as int),
{
    ((file[at] as u32) << 24) | ((file[at + 1] as u32) << 16) | ((file[at + 2] as u32) << 8) | (
    file[at + 3] as u32)
}

/// Reads the chunk that begins at `at`. A file that does not hold all of
/// the chunk gives a `FileReadError`.
pub fn read_chunk(file: &Vec<u8>, at: usize) -> (res: Result<Chunk, TranError>)
    ensures
        match res {
            Ok(chunk) => {
                &&& chunk_at(file@, at as int) == Some(chunk)
                &&& chunk.data == at + 8
                &&& chunk.crc == at + 8 + chunk.length
                &&& chunk.crc + 4 <= file.len()
            },
            Err(e) => chunk_at(file@, at as int) is None && e is FileReadError,
        },
{
    let n = file.len();
    if at > n || n - at < 12 {
        return Err(out_of_bytes());
    }
    let length = read_word(file, at);
    let chunk_type = read_word(file, at + 4);
    if length as u64 > (n - at - 12) as u64 {
        return Err(out_of_bytes());
    }
    Ok(Chunk { length, chunk_type, data: at + 8, crc: at + 8 + length as usize })
}

/// Writes the four bytes of `v` from `at` on, big-endian.
fn write_word(file: &mut Vec<u8>, at: usize, v: u32)
    requires
        at + 4 <= old(file).len(),
    ensures
        final(file)@ == overwritten(old(file)@, at as int, word_bytes(v)),
{
    proof {
        assert(((v & 0xFF000000) >> 24) < 256) by (bit_vector);
        assert(((v & 0x00FF0000) >> 16) < 256) by (bit_vector);
        assert(((v & 0x0000FF00) >> 8) < 256) by (bit_vector);
        assert((v & 0x000000FF) < 256) by (bit_vector);
    }
    let ghost before = file@;
    file.set(at, ((v & 0xFF000000) >> 24) as u8);
    file.set(at + 1, ((v & 0x00FF0000) >> 16) as u8);
    file.set(at + 2, ((v & 0x0000FF00) >> 8) as u8);
    file.set(at + 3, (v & 0x000000FF) as u8);
    proof {
        assert(file@ =~= overwritten(before, at as int, word_bytes(v)));
    }
}

/// Recolors the palette chunk that begins at `at` and gives it a fresh
/// checksum.
fn recolor_chunk(file: &mut Vec<u8>, at: usize, chunk: &Chunk, transform: &ColorTransform) -> (res:
    Result<(), TranError>)
    requires
        chunk_at(old(file)@, at as int) == Some(*chunk),
        chunk.data == at + 8,
        chunk.crc == at + 8 + chunk.length,
        chunk.crc + 4 <= old(file).len(),
    ensures
        match res {
            Ok(_) => match recolored_palette(
                old(file)@.subrange(at + 8, at + 8 + chunk.length),
                transform@,
            ) {
                Ok(data) => final(file)@ == with_palette(old(file)@, at as int, data),
                Err(_) => false,
            },
            Err(e) => recolored_palette(
                old(file)@.subrange(at + 8, at + 8 + chunk.length),
                transform@,
            ) == Err::<Seq<u8>, ErrorKind>(e.kind()) && final(file)@ == old(file)@,
        },
{
    proof {
        lemma_recolored_length(file@.subrange(at + 8, at + 8 + chunk.length), transform@);
    }
    match recolor_palette(file, chunk.data, chunk.length as usize, transform) {
        Ok(_) => {},
        Err(e) => {
            return Err(e);
        },
    }
    let sum = crc(slice_subrange(file.as_slice(), at + 4, chunk.crc));
    write_word(file, chunk.crc, sum);
    Ok(())
}

/// Walks through the chunks from `begin` on, up to the chunk that ends the
/// PNG, and recolors each palette on the way.
fn recolor_chunks(file: &mut Vec<u8>, begin: usize, transform: &ColorTransform) -> (res: Result<
    (),
    TranError,
>)
    ensures
        match res {
            Ok(_) => walked(old(file)@, begin as int, transform@) == Ok::<Seq<u8>, ErrorKind>(
                final(file)@,
            ),
            Err(e) => walked(old(file)@, begin as int, transform@) == Err::<Seq<u8>, ErrorKind>(
                e.kind(),
            ),
        },
{
    let ghost before = file@;
    let mut at: usize = begin;
    loop
        invariant
            before == old(file)@,
            file@.len() == before.len(),
            walked(before, begin as int, transform@) == walked(file@, at as int, transform@),
        decreases file@.len() - at,
    {
        let chunk = match read_chunk(file, at) {
            Ok(chunk) => chunk,
            Err(e) => {
                return Err(e);
            },
        };
        if chunk.chunk_type == PLTE {
            match recolor_chunk(file, at, &chunk, transform) {
                Ok(_) => {},
                Err(e) => {
                    return Err(e);
                },
            }
        } else if chunk.chunk_type == IEND {
            return Ok(());
        }
        at = chunk.crc + 4;
    }
}

/// The byte of the signature at place `i`.
fn signature_byte(i: usize) -> (b: u8)
    requires
        i < 8,
    ensures
        b == signature()[i as int],
{
    if i == 0 {
        0x89
    } else if i == 1 {
        0x50
    } else if i == 2 {
        0x4e
    } else if i == 3 {
        0x47
    } else if i == 4 {
        0x0d
    } else if i == 5 {
        0x0a
    } else if i == 6 {
        0x1a
    } else {
        0x0a
    }
}

/// The hex digits of `b`.
fn hex_number_of(b: u8) -> (text: String)
    ensures
        text@ == hex_number(b),
{
    let mut text = String::new();
    if b >= 16 {
        text.append(nibble_str(b / 16));
    }
    text.append(nibble_str(b % 16));
    proof {
        assert(text@ =~= hex_number(b));
    }
    text
}

/// Checks that the file begins with the PNG signature. The error names the
/// first byte that differs, with the byte that the signature has there.
fn check_signature(file: &Vec<u8>) -> (res: Result<(), TranError>)
    ensures
        match res {
            Ok(_) => file@.len() >= 8 && file@.subrange(0, 8) == signature(),
            Err(e) => {
                &&& !(file@.len() >= 8 && file@.subrange(0, 8) == signature())
                &&& e is FileReadError
                &&& e.detail() == signature_complaint(file@)
            },
        },
{
    let mut i: usize = 0;
    while i < 8
        invariant
            i <= 8,
            first_difference(file@, 0) == first_difference(file@, i as int),
            forall|j: int| 0 <= j < i ==> j < file@.len() && file@[j] == signature()[j],
        decreases 8 - i,
    {
        if i >= file.len() {
            return Err(
                TranError::FileReadError(
                    String::from_str("The file is not a png as it ends inside the signature"),
                ),
            );
        }
        let expected = signature_byte(i);
        if file[i] != expected {
            let found = hex_number_of(file[i]);
            let wanted = hex_number_of(expected);
            let mut text = String::from_str("The file is not a png as ");
            text.append(found.as_str());
            text.append(" != ");
            text.append(wanted.as_str());
            proof {
                if file@.len() >= 8 {
                    assert(file@.subrange(0, 8)[i as int] == file@[i as int]);
                }
            }
            return Err(TranError::FileReadError(text));
        }
        i += 1;
    }
    proof {
        assert(file@.subrange(0, 8) =~= signature());
    }
    Ok(())
}

/// Recolors the palettes of a PNG file held in memory.
///
/// Returns the bytes to write to the destination, or `None` where the
/// image has no palette to recolor and nothing is to be written. The
/// result differs from `file` only in the data and the checksum of its
/// palette chunks.
///
/// Errors: a `FileReadError` for a file that is no well-formed PNG, an
/// `UnsupportedError` for a truecolor image, a `ConfigError` for a
/// transform with a color text that is no color, a `PngFormatError` for a
/// palette that the gradient strategy finds nothing to shade in.
pub fn recolor_png(file: Vec<u8>, transform: &ColorTransform) -> (res: Result<
    Option<Vec<u8>>,
    TranError,
>)
    ensures
        match res {
            Ok(Some(out)) => recolored(file@, transform@) == Ok::<Option<Seq<u8>>, ErrorKind>(
                Some(out@),
            ),
            Ok(None) => recolored(file@, transform@) == Ok::<Option<Seq<u8>>, ErrorKind>(None),
            Err(e) => recolored(file@, transform@) == Err::<Option<Seq<u8>>, ErrorKind>(e.kind()),
        },
        !(file@.len() >= 8 && file@.subrange(0, 8) == signature()) ==> (match res {
            Ok(_) => false,
            Err(e) => e.detail() == signature_complaint(file@),
        }),
{
    match check_signature(&file) {
        Ok(_) => {},
        Err(e) => {
            return Err(e);
        },
    }
    let header = match read_chunk(&file, 8) {
        Ok(header) => header,
        Err(e) => {
            return Err(e);
        },
    };
    if header.chunk_type != IHDR {
        return Err(
            TranError::FileReadError(
                String::from_str("The file is not a png as it does not contain IHDR chunk"),
            ),
        );
    }
    if header.length as u64 <= IHDR_COLOR_TYPE_OFFSET as u64 {
        return Err(TranError::FileReadError(String::from_str("No color type")));
    }
    let color_type = match PngColorType::try_from(file[header.data + IHDR_COLOR_TYPE_OFFSET]) {
        Ok(color_type) => color_type,
        Err(e) => {
            return Err(e);
        },
    };
    match color_type {
        PngColorType::Grayscale | PngColorType::GrayscaleAlpha => Ok(None),
        PngColorType::Rgb | PngColorType::Rgba => Err(
            TranError::UnsupportedError(String::from_str("Can't recolor png of type RGB")),
        ),
        PngColorType::Palette => {
            let mut file = file;
            match recolor_chunks(&mut file, header.crc + 4, transform) {
                Ok(_) => Ok(Some(file)),
                Err(e) => Err(e),
            }
        },
    }
}

} // verus!
