use tran::errors::TranError;
use tran::png::crc::crc;
use tran::png::read_chunk;
use tran::png::recolor_png;
use tran::png::Chunk;
use tran::png::PngColorType;
use tran::png::IEND;
use tran::png::IHDR;
use tran::png::PLTE;
use tran::ColorMap;
use tran::ColorTransform;

const SIGNATURE: [u8; 8] = [0x89, 0x50, 0x4e, 0x47, 0x0d, 0x0a, 0x1a, 0x0a];

/// A 1x1 image with the palette `#112233`, as a PNG encoder writes it.
const TINY: [u8; 82] = [
    0x89, 0x50, 0x4e, 0x47, 0x0d, 0x0a, 0x1a, 0x0a, 0x00, 0x00, 0x00, 0x0d, 0x49, 0x48, 0x44, 0x52,
    0x00, 0x00, 0x00, 0x01, 0x00, 0x00, 0x00, 0x01, 0x08, 0x03, 0x00, 0x00, 0x00, 0x28, 0xcb, 0x34,
    0xbb, 0x00, 0x00, 0x00, 0x03, 0x50, 0x4c, 0x54, 0x45, 0x11, 0x22, 0x33, 0xa2, 0xfc, 0xd3, 0xab,
    0x00, 0x00, 0x00, 0x0a, 0x49, 0x44, 0x41, 0x54, 0x78, 0x9c, 0x63, 0x60, 0x00, 0x00, 0x00, 0x02,
    0x00, 0x01, 0x48, 0xaf, 0xa4, 0x71, 0x00, 0x00, 0x00, 0x00, 0x49, 0x45, 0x4e, 0x44, 0xae, 0x42,
    0x60, 0x82,
];

fn chunk(kind: &[u8; 4], data: &[u8]) -> Vec<u8> {
    let mut out = Vec::new();
    out.extend_from_slice(&(data.len() as u32).to_be_bytes());
    out.extend_from_slice(kind);
    out.extend_from_slice(data);
    let mut summed = kind.to_vec();
    summed.extend_from_slice(data);
    out.extend_from_slice(&crc(&summed).to_be_bytes());
    out
}

fn header(color_type: u8) -> Vec<u8> {
    chunk(b"IHDR", &[0, 0, 0, 1, 0, 0, 0, 1, 8, color_type, 0, 0, 0])
}

fn png_with(color_type: u8, chunks: &[Vec<u8>]) -> Vec<u8> {
    let mut out = SIGNATURE.to_vec();
    out.extend(header(color_type));
    for c in chunks {
        out.extend_from_slice(c);
    }
    out.extend(chunk(b"IEND", &[]));
    out
}

fn gradient<'a>(primary: &'a str) -> ColorTransform<'a, 'a> {
    ColorTransform::Gradient { primary, background: "#000000" }
}

#[test]
fn end_to_end_map() {
    let maps = [ColorMap::new("#445566", "#112233")];
    let out = recolor_png(TINY.to_vec(), &ColorTransform::Mapping(&maps)).unwrap().unwrap();
    assert_eq!(out.len(), TINY.len());
    for i in 0..TINY.len() {
        if (41..48).contains(&i) {
            continue;
        }
        assert_eq!(out[i], TINY[i], "byte {}", i);
    }
    assert_eq!(&out[41..44], &[0x44, 0x55, 0x66]);
    // the checksum of "PLTE" and the new palette, from a reference implementation
    assert_eq!(&out[44..48], &[0xb3, 0xf4, 0x75, 0xba]);
}

#[test]
fn checksum_matches_the_reference() {
    // the encoder's own checksums of the fixture
    assert_eq!(crc(&TINY[12..29]), 0x28cb34bb);
    assert_eq!(crc(&TINY[37..44]), 0xa2fcd3ab);
    assert_eq!(crc(&TINY[52..66]), 0x48afa471);
    let maps = [ColorMap::new("#445566", "#112233")];
    let out = recolor_png(TINY.to_vec(), &ColorTransform::Mapping(&maps)).unwrap().unwrap();
    assert_eq!(crc(&out[37..44]).to_be_bytes(), [out[44], out[45], out[46], out[47]]);
    assert_eq!(crc(&out[37..44]), 0xb3f475ba);
}

#[test]
fn map_changes_only_matching_triples() {
    let palette = [255, 0, 0, 0, 0, 255, 255, 0, 0, 254, 0, 0, 9];
    let file = png_with(3, &[chunk(b"PLTE", &palette)]);
    let maps = [ColorMap::new("#00FF00", "#FF0000")];
    let out = recolor_png(file.clone(), &ColorTransform::Mapping(&maps)).unwrap().unwrap();
    let expected = png_with(3, &[chunk(b"PLTE", &[0, 255, 0, 0, 0, 255, 0, 255, 0, 254, 0, 0, 9])]);
    assert_eq!(out, expected);
}

#[test]
fn map_first_match_wins() {
    let file = png_with(3, &[chunk(b"PLTE", &[1, 2, 3, 4, 5, 6])]);
    let maps = [
        ColorMap::new("#0a0a0a", "#010203"),
        ColorMap::new("#0b0b0b", "#010203"),
        ColorMap::new("#040506", "#0a0a0a"),
        ColorMap::new("#010203", "#040506"),
    ];
    let out = recolor_png(file, &ColorTransform::Mapping(&maps)).unwrap().unwrap();
    // each triple is replaced once: a new color is not replaced again
    let expected = png_with(3, &[chunk(b"PLTE", &[10, 10, 10, 1, 2, 3])]);
    assert_eq!(out, expected);
}

#[test]
fn map_reaches_black_and_white() {
    let file = png_with(3, &[chunk(b"PLTE", &[0, 0, 0, 255, 255, 255])]);
    let maps = [ColorMap::new("#010101", "#000000"), ColorMap::new("#020202", "#ffffff")];
    let out = recolor_png(file, &ColorTransform::Mapping(&maps)).unwrap().unwrap();
    assert_eq!(out, png_with(3, &[chunk(b"PLTE", &[1, 1, 1, 2, 2, 2])]));
}

#[test]
fn map_without_pairs_only_seals() {
    let mut plte = chunk(b"PLTE", &[1, 2, 3]);
    let sealed = plte.clone();
    plte[11] ^= 0xff;
    let file = png_with(3, &[plte]);
    let out = recolor_png(file, &ColorTransform::Mapping(&[])).unwrap().unwrap();
    assert_eq!(out, png_with(3, &[sealed]));
}

#[test]
fn gradient_shades_by_brightness() {
    let palette = [200, 100, 50, 0, 0, 0, 100, 50, 0, 255, 255, 255, 50, 0, 25, 200, 100, 50, 10, 10, 10];
    let file = png_with(3, &[chunk(b"tRNS", &[1]), chunk(b"PLTE", &palette), chunk(b"IDAT", &[7, 7])]);
    let out = recolor_png(file, &gradient("#8040ff")).unwrap().unwrap();
    let shaded = [128, 64, 255, 0, 0, 0, 64, 32, 0, 255, 255, 255, 32, 0, 0, 128, 64, 255, 6, 0, 0];
    let expected =
        png_with(3, &[chunk(b"tRNS", &[1]), chunk(b"PLTE", &shaded), chunk(b"IDAT", &[7, 7])]);
    assert_eq!(out, expected);
    assert_eq!(crc(&[b"PLTE".as_slice(), shaded.as_slice()].concat()), 0x60ca50b6);
}

#[test]
fn gradient_zero_channel_counts_as_ratio_one() {
    // sorted by brightness: (200,100,50), (0,50,100), (10,10,10);
    // the second has no red, so the third keeps the red of the second new color
    let palette = [10, 10, 10, 0, 50, 100, 200, 100, 50];
    let file = png_with(3, &[chunk(b"PLTE", &palette)]);
    let out = recolor_png(file, &gradient("#c8c8c8")).unwrap().unwrap();
    // new colors: (200,200,200), (0,100,400 -> 255), (0 * 1, 100 * 10/50, 255 * 10/100)
    let expected = png_with(3, &[chunk(b"PLTE", &[0, 20, 25, 0, 100, 255, 200, 200, 200])]);
    assert_eq!(out, expected);
}

#[test]
fn gradient_ties_keep_the_order_of_the_palette() {
    // (1,2,3) and (3,2,1) are equally bright: the one that comes first is the brightest
    let file = png_with(3, &[chunk(b"PLTE", &[3, 2, 1, 1, 2, 3])]);
    let out = recolor_png(file, &gradient("#0c0c0c")).unwrap().unwrap();
    assert_eq!(out, png_with(3, &[chunk(b"PLTE", &[12, 12, 12, 4, 12, 36])]));
    let file = png_with(3, &[chunk(b"PLTE", &[1, 2, 3, 3, 2, 1])]);
    let out = recolor_png(file, &gradient("#0c0c0c")).unwrap().unwrap();
    assert_eq!(out, png_with(3, &[chunk(b"PLTE", &[12, 12, 12, 36, 12, 4])]));
}

#[test]
fn gradient_needs_a_color_to_shade() {
    let file = png_with(3, &[chunk(b"PLTE", &[0, 0, 0, 255, 255, 255])]);
    assert!(matches!(recolor_png(file, &gradient("#123456")), Err(TranError::PngFormatError(_))));
    let file = png_with(3, &[chunk(b"PLTE", &[])]);
    assert!(matches!(recolor_png(file, &gradient("#123456")), Err(TranError::PngFormatError(_))));
}

#[test]
fn color_texts_must_be_colors() {
    let file = png_with(3, &[chunk(b"PLTE", &[1, 2, 3])]);
    assert!(matches!(recolor_png(file.clone(), &gradient("#12345g")), Err(TranError::ConfigError(_))));
    assert!(matches!(recolor_png(file.clone(), &gradient("")), Err(TranError::ConfigError(_))));
    let maps = [ColorMap::new("#445566", "#112233"), ColorMap::new("#445566", "nothing")];
    assert!(matches!(
        recolor_png(file.clone(), &ColorTransform::Mapping(&maps)),
        Err(TranError::ConfigError(_))
    ));
    // a file without a palette never looks at the transform
    let file = png_with(3, &[chunk(b"IDAT", &[1, 2, 3])]);
    assert_eq!(recolor_png(file.clone(), &gradient("")).unwrap().unwrap(), file);
}

#[test]
fn truecolor_is_unsupported() {
    for color_type in [2, 6] {
        let file = png_with(color_type, &[chunk(b"PLTE", &[1, 2, 3]), chunk(b"IDAT", &[0])]);
        let kept = file.clone();
        let maps = [ColorMap::new("#445566", "#010203")];
        let res = recolor_png(file, &ColorTransform::Mapping(&maps));
        assert!(matches!(res, Err(TranError::UnsupportedError(_))));
        assert_eq!(kept, png_with(color_type, &[chunk(b"PLTE", &[1, 2, 3]), chunk(b"IDAT", &[0])]));
    }
}

#[test]
fn grayscale_is_left_alone() {
    for color_type in [0, 4] {
        // not even the rest of the file is looked at
        let mut file = SIGNATURE.to_vec();
        file.extend(header(color_type));
        file.extend_from_slice(&[1, 2, 3]);
        assert!(recolor_png(file, &gradient("#123456")).unwrap().is_none());
    }
}

#[test]
fn broken_files_are_read_errors() {
    let good = png_with(3, &[chunk(b"PLTE", &[1, 2, 3])]);
    let t = gradient("#123456");
    assert!(recolor_png(good.clone(), &t).is_ok());
    // every proper prefix lacks the chunk that ends the file
    for n in 0..good.len() {
        let res = recolor_png(good[..n].to_vec(), &t);
        assert!(matches!(res, Err(TranError::FileReadError(_))), "prefix of {}", n);
    }
    // a wrong signature byte
    for i in 0..8 {
        let mut bad = good.clone();
        bad[i] ^= 1;
        assert!(matches!(recolor_png(bad, &t), Err(TranError::FileReadError(_))));
    }
    // the first chunk is not the header
    let mut bad = SIGNATURE.to_vec();
    bad.extend(chunk(b"PLTE", &[1, 2, 3]));
    bad.extend(header(3));
    bad.extend(chunk(b"IEND", &[]));
    assert!(matches!(recolor_png(bad, &t), Err(TranError::FileReadError(_))));
    // a header too short to hold the color type
    let mut bad = SIGNATURE.to_vec();
    bad.extend(chunk(b"IHDR", &[0, 0, 0, 1, 0, 0, 0, 1, 8]));
    bad.extend(chunk(b"IEND", &[]));
    assert!(matches!(recolor_png(bad, &t), Err(TranError::FileReadError(_))));
    // a color type that PNG does not know
    for color_type in [1, 5, 7, 255] {
        let bad = png_with(color_type, &[]);
        assert!(matches!(recolor_png(bad, &t), Err(TranError::FileReadError(_))));
    }
    // a chunk that claims more data than the file holds
    let mut bad = good.clone();
    bad[33] = 0xff;
    assert!(matches!(recolor_png(bad, &t), Err(TranError::FileReadError(_))));
}

#[test]
fn what_follows_the_end_chunk_stays() {
    let mut file = png_with(3, &[chunk(b"PLTE", &[1, 2, 3])]);
    file.extend(chunk(b"PLTE", &[1, 2, 3]));
    let mut expected = png_with(3, &[chunk(b"PLTE", &[4, 5, 6])]);
    expected.extend(chunk(b"PLTE", &[1, 2, 3]));
    let maps = [ColorMap::new("#040506", "#010203")];
    assert_eq!(recolor_png(file, &ColorTransform::Mapping(&maps)).unwrap().unwrap(), expected);
}

#[test]
fn reads_chunks() {
    let file = TINY.to_vec();
    assert_eq!(
        read_chunk(&file, 8).unwrap(),
        Chunk { length: 13, chunk_type: IHDR, data: 16, crc: 29 }
    );
    assert_eq!(
        read_chunk(&file, 33).unwrap(),
        Chunk { length: 3, chunk_type: PLTE, data: 41, crc: 44 }
    );
    assert_eq!(
        read_chunk(&file, 70).unwrap(),
        Chunk { length: 0, chunk_type: IEND, data: 78, crc: 78 }
    );
    assert!(matches!(read_chunk(&file, 71), Err(TranError::FileReadError(_))));
    assert!(matches!(read_chunk(&file, 82), Err(TranError::FileReadError(_))));
    assert!(matches!(read_chunk(&file, 1000), Err(TranError::FileReadError(_))));
}

#[test]
fn color_types() {
    assert_eq!(PngColorType::try_from(0u8).unwrap(), PngColorType::Grayscale);
    assert_eq!(PngColorType::try_from(2u8).unwrap(), PngColorType::Rgb);
    assert_eq!(PngColorType::try_from(3u8).unwrap(), PngColorType::Palette);
    assert_eq!(PngColorType::try_from(4u8).unwrap(), PngColorType::GrayscaleAlpha);
    assert_eq!(PngColorType::try_from(6u8).unwrap(), PngColorType::Rgba);
    assert!(matches!(PngColorType::try_from(1u8), Err(TranError::FileReadError(_))));
    assert!(matches!(PngColorType::try_from(5u8), Err(TranError::FileReadError(_))));
}

#[test]
fn signature_error_names_the_byte() {
    let t = gradient("#123456");
    let mut bad = TINY.to_vec();
    bad[1] = 0x51;
    let e = recolor_png(bad, &t).unwrap_err();
    assert_eq!(e.to_string(), "Error reading file The file is not a png as 51 != 50");
    let mut bad = TINY.to_vec();
    bad[4] = 0x0c;
    bad[6] = 0;
    let e = recolor_png(bad, &t).unwrap_err();
    assert_eq!(e.to_string(), "Error reading file The file is not a png as c != d");
    let e = recolor_png(TINY[..5].to_vec(), &t).unwrap_err();
    assert_eq!(
        e.to_string(),
        "Error reading file The file is not a png as it ends inside the signature"
    );
    let e = recolor_png(vec![0x89, 0x50, 0], &t).unwrap_err();
    assert_eq!(e.to_string(), "Error reading file The file is not a png as 0 != 4e");
}

/// The gradient strategy written down plainly, in double precision.
fn shaded_plainly(palette: &[u8], primary: (u8, u8, u8)) -> Vec<u8> {
    let triples: Vec<(u8, u8, u8)> = palette.chunks_exact(3).map(|t| (t[0], t[1], t[2])).collect();
    let mut ranked: Vec<(u8, u8, u8)> = Vec::new();
    for t in &triples {
        if *t != (0, 0, 0) && *t != (255, 255, 255) && !ranked.contains(t) {
            ranked.push(*t);
        }
    }
    // a stable sort keeps equally bright colors in the order of the palette
    ranked.sort_by_key(|t| std::cmp::Reverse(t.0 as u32 + t.1 as u32 + t.2 as u32));
    let scale = |prev_new: u8, old: u8, prev_old: u8| -> u8 {
        let ratio = if prev_old == 0 { 1.0 } else { old as f64 / prev_old as f64 };
        (prev_new as f64 * ratio) as u8
    };
    let mut news = vec![primary];
    for i in 1..ranked.len() {
        let (p, a, b) = (news[i - 1], ranked[i], ranked[i - 1]);
        news.push((scale(p.0, a.0, b.0), scale(p.1, a.1, b.1), scale(p.2, a.2, b.2)));
    }
    let mut out = palette.to_vec();
    for (k, t) in triples.iter().enumerate() {
        if let Some(i) = ranked.iter().position(|r| r == t) {
            out[3 * k] = news[i].0;
            out[3 * k + 1] = news[i].1;
            out[3 * k + 2] = news[i].2;
        }
    }
    out
}

#[test]
fn gradient_agrees_with_the_plain_rule() {
    let mut seed: u32 = 12345;
    let mut next = move || {
        seed = seed.wrapping_mul(1664525).wrapping_add(1013904223);
        (seed >> 24) as u8
    };
    for round in 0..200 {
        let entries = 1 + (next() as usize) % 40;
        let mut palette = Vec::new();
        for _ in 0..entries {
            // few values, so that colors repeat and sums tie; zeros, black and white among them
            let pick = |v: u8| [0u8, 0, 1, 7, 49, 50, 100, 128, 200, 254, 255, 255][(v % 12) as usize];
            let (r, g, b) = (pick(next()), pick(next()), pick(next()));
            palette.extend_from_slice(&[r, g, b]);
        }
        for _ in 0..(round % 3) {
            palette.push(next());
        }
        let primary = (next(), next(), next());
        let text = format!("#{:02x}{:02x}{:02x}", primary.0, primary.1, primary.2);
        let file = png_with(3, &[chunk(b"PLTE", &palette)]);
        let any = palette.chunks_exact(3).any(|t| t != [0, 0, 0] && t != [255, 255, 255]);
        let res = recolor_png(file, &gradient(&text));
        if any {
            let expected = png_with(3, &[chunk(b"PLTE", &shaded_plainly(&palette, primary))]);
            assert_eq!(res.unwrap().unwrap(), expected, "palette {:?}", palette);
        } else {
            assert!(matches!(res, Err(TranError::PngFormatError(_))));
        }
    }
}

#[test]
fn map_agrees_with_the_plain_rule() {
    let mut seed: u32 = 99;
    let mut next = move || {
        seed = seed.wrapping_mul(1664525).wrapping_add(1013904223);
        (seed >> 24) as u8 % 4
    };
    for _ in 0..200 {
        let mut palette = Vec::new();
        for _ in 0..(3 * (1 + next() as usize * 3) + next() as usize % 3) {
            palette.push(next());
        }
        let mut texts = Vec::new();
        for _ in 0..next() * 2 {
            let new = (next(), next(), next());
            let old = (next(), next(), next());
            texts.push((
                format!("#{:02x}{:02x}{:02x}", new.0, new.1, new.2),
                format!("#{:02X}{:02X}{:02X}", old.0, old.1, old.2),
                new,
                old,
            ));
        }
        let maps: Vec<ColorMap> = texts.iter().map(|t| ColorMap::new(&t.0, &t.1)).collect();
        let mut expected = palette.clone();
        for t in expected.chunks_exact_mut(3) {
            if let Some(hit) = texts.iter().find(|p| [p.3 .0, p.3 .1, p.3 .2] == *t) {
                t.copy_from_slice(&[hit.2 .0, hit.2 .1, hit.2 .2]);
            }
        }
        let file = png_with(3, &[chunk(b"PLTE", &palette)]);
        let out = recolor_png(file, &ColorTransform::Mapping(&maps)).unwrap().unwrap();
        assert_eq!(out, png_with(3, &[chunk(b"PLTE", &expected)]));
    }
}
