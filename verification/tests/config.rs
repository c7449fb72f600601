use tran::config::parse_config;
use tran::config::Color;
use tran::config::Config;
use tran::config::GradientConfig;
use tran::config::MapConfig;
use tran::config::Mode;
use tran::config::Section;
use tran::errors::TranError;

fn gradient(text: &str) -> GradientConfig {
    match parse_config(text).unwrap() {
        Config::GradientConfig(gc) => gc,
        Config::MapConfig(_) => panic!("expected a gradient configuration"),
    }
}

fn map(text: &str) -> MapConfig {
    match parse_config(text).unwrap() {
        Config::MapConfig(mc) => mc,
        Config::GradientConfig(_) => panic!("expected a map configuration"),
    }
}

fn is_config_error(text: &str) -> bool {
    matches!(parse_config(text), Err(TranError::ConfigError(_)))
}

fn rgb(r: u8, g: u8, b: u8) -> Color {
    Color::from_bytes(r, g, b)
}

#[test]
fn parses_a_gradient_config() {
    let text = "[mode]\ngradient\n[overwrite]\ntrue\n[current_color]\n#102030\n[colors]\n#102030\n2#AABBCC\n+3#000001\n[target_files]\n/tmp/a.png\n/home/me/with space.txt \n/tmp/b\n";
    let gc = gradient(text);
    assert_eq!(*gc.get_current_color(), rgb(0x10, 0x20, 0x30));
    assert_eq!(gc.get_colors(), &[rgb(0x10, 0x20, 0x30), rgb(0xaa, 0xbb, 0xcc), rgb(0, 0, 1)]);
    assert_eq!(gc.get_target_files(), &["/tmp/a.png", "/home/me/with space.txt ", "/tmp/b"]);
    assert!(gc.get_overwrite());
    let config = parse_config(text).unwrap();
    assert_eq!(config.get_mode(), "gradient");
    assert_eq!(config.get_target_files().len(), 3);
}

#[test]
fn parses_a_map_config() {
    let text = "[mode]\nmap\n[colors]\n#112233#445566\n5#aaaaaa#bbbbbb\n[current_color]\n#010203#040506\n[target_files]\nx.png";
    let mc = map(text);
    assert_eq!(mc.get_current_colors(), &[rgb(1, 2, 3), rgb(4, 5, 6)]);
    assert_eq!(mc.get_colors().len(), 2);
    assert_eq!(mc.get_colors()[0], vec![rgb(0x11, 0x22, 0x33), rgb(0x44, 0x55, 0x66)]);
    assert_eq!(mc.get_colors()[1], vec![rgb(0xaa, 0xaa, 0xaa), rgb(0xbb, 0xbb, 0xbb)]);
    assert_eq!(mc.get_target_files(), &["x.png"]);
    assert!(!mc.get_overwrite());
    let scaled = mc.get_colors_scaled();
    assert_eq!(scaled.len(), 6);
    assert_eq!(*scaled[0], vec![rgb(0x11, 0x22, 0x33), rgb(0x44, 0x55, 0x66)]);
    for k in 1..6 {
        assert_eq!(*scaled[k], vec![rgb(0xaa, 0xaa, 0xaa), rgb(0xbb, 0xbb, 0xbb)]);
    }
    assert_eq!(parse_config(text).unwrap().get_mode(), "map");
}

#[test]
fn map_current_row_may_omit_the_leading_hash() {
    let mc = map("[mode]\nmap\n[colors]\n#112233\n[current_color]\n010203#040506");
    assert_eq!(mc.get_current_colors(), &[rgb(1, 2, 3), rgb(4, 5, 6)]);
}

#[test]
fn map_row_without_colors_is_empty() {
    let mc = map("[mode]\nmap\n[colors]\n7\n[current_color]\n#010203");
    assert_eq!(mc.get_colors().len(), 1);
    assert!(mc.get_colors()[0].is_empty());
    assert_eq!(mc.get_colors_scaled().len(), 7);
}

#[test]
fn weighted_scaling() {
    let gc = gradient("[mode]\ngradient\n[current_color]\n#a00000\n[colors]\n1#a00000\n3#00b000\n1#0000c0");
    let scaled = gc.get_colors_scaled();
    let a = rgb(0xa0, 0, 0);
    let b = rgb(0, 0xb0, 0);
    let c = rgb(0, 0, 0xc0);
    assert_eq!(scaled, vec![b, b, b, c]);
    assert_eq!(scaled.len(), 4);
    assert_eq!(scaled.iter().filter(|x| **x == b).count(), 3);
    assert_eq!(scaled.iter().filter(|x| **x == c).count(), 1);
    assert!(!scaled.contains(&a));
}

#[test]
fn weight_defaults_to_one() {
    let gc = gradient("[mode]\ngradient\n[colors]\n#000001\nx#000002\n-2#000003\n99999999999999999999999999#000004\n0#000005\n007#000006");
    let scaled = gc.get_colors_scaled();
    let mut expected = vec![rgb(0, 0, 1), rgb(0, 0, 2), rgb(0, 0, 3), rgb(0, 0, 4)];
    for _ in 0..7 {
        expected.push(rgb(0, 0, 6));
    }
    assert_eq!(scaled, expected);
}

#[test]
fn gradient_current_color_defaults_to_black() {
    let gc = gradient("[mode]\ngradient\n[colors]\n#000001");
    assert_eq!(*gc.get_current_color(), Color::black());
    assert!(!gc.get_overwrite());
    assert!(gc.get_target_files().is_empty());
}

#[test]
fn setting_the_current_color() {
    let mut gc = gradient("[mode]\ngradient\n[colors]\n#000001\n#000002");
    gc.set_current_colors(rgb(0, 0, 2));
    assert_eq!(*gc.get_current_color(), rgb(0, 0, 2));
    assert_eq!(gc.get_colors_scaled(), vec![rgb(0, 0, 1)]);
    let mut mc = map("[mode]\nmap\n[colors]\n#112233\n[current_color]\n#010203");
    mc.set_current_colors(vec![rgb(9, 9, 9)]);
    assert_eq!(mc.get_current_colors(), &[rgb(9, 9, 9)]);
}

#[test]
fn white_space_around_the_text_is_dropped() {
    let gc = gradient(" \n\t[mode]\ngradient\n[colors]\n#000001\n[target_files]\na \n b \n\u{3000}\n");
    assert_eq!(gc.get_target_files(), &["a ", " b"]);
}

#[test]
fn an_empty_line_begins_the_next_line() {
    let gc = gradient("[mode]\ngradient\n[colors]\n#000001\n[target_files]\n\nfoo\nbar");
    assert_eq!(gc.get_target_files(), &["\nfoo", "bar"]);
}

#[test]
fn overwrite_is_true_only_for_true() {
    assert!(gradient("[mode]\ngradient\n[colors]\n#000001\n[overwrite]\ntrue").get_overwrite());
    assert!(!gradient("[mode]\ngradient\n[colors]\n#000001\n[overwrite]\nTrue").get_overwrite());
    assert!(!gradient("[mode]\ngradient\n[colors]\n#000001\n[overwrite]\nyes").get_overwrite());
    assert!(!gradient("[mode]\ngradient\n[colors]\n#000001\n[overwrite]\ntrue\nfalse").get_overwrite());
}

#[test]
fn first_character_must_open_a_section() {
    assert!(is_config_error("mode]\ngradient"));
    assert!(is_config_error("  \n x[mode]\ngradient\n[colors]\n#000001"));
    assert!(is_config_error("#zzzzzz"));
}

#[test]
fn grammar_errors() {
    // no newline behind a header
    assert!(is_config_error("[mode]gradient\n[colors]\n#000001"));
    // unknown section
    assert!(is_config_error("[mode]\ngradient\n[colours]\n#000001"));
    // unknown mode
    assert!(is_config_error("[mode]\nGradient\n[colors]\n#000001"));
    // hex colors of wrong length or with other characters
    assert!(is_config_error("[mode]\ngradient\n[colors]\n#00001"));
    assert!(is_config_error("[mode]\ngradient\n[colors]\n#00000g"));
    assert!(is_config_error("[mode]\ngradient\n[colors]\n000001"));
    assert!(is_config_error("[mode]\ngradient\n[colors]\n3#000001#000002"));
    assert!(is_config_error("[mode]\ngradient\n[colors]\n#000001\n[current_color]\n#12"));
    assert!(is_config_error("[mode]\nmap\n[colors]\n#000001#02\n[current_color]\n#000001"));
    assert!(is_config_error("[mode]\nmap\n[colors]\n#000001\n[current_color]\n#000001#"));
    // colors before the mode
    assert!(is_config_error("[colors]\n#000001\n[mode]\ngradient"));
    assert!(is_config_error("[current_color]\n#000001\n[mode]\ngradient\n[colors]\n#000001"));
    // missing sections
    assert!(is_config_error(""));
    assert!(is_config_error("   \n"));
    assert!(is_config_error("[colors]"));
    assert!(is_config_error("[mode]\ngradient"));
    assert!(is_config_error("[mode]\ngradient\n[colors]"));
    assert!(is_config_error("[target_files]\na"));
    // a map configuration needs its current row
    assert!(is_config_error("[mode]\nmap\n[colors]\n#000001"));
    // the shapes of two modes do not mix
    assert!(is_config_error("[mode]\ngradient\n[colors]\n#000001\n[mode]\nmap\n[colors]\n#000002"));
    assert!(is_config_error("[mode]\ngradient\n[colors]\n#000001\n[mode]\nmap"));
}

#[test]
fn section_and_mode_names() {
    assert_eq!(Section::try_from("mode").unwrap(), Section::Mode);
    assert_eq!(Section::try_from("colors").unwrap(), Section::Colors);
    assert_eq!(Section::try_from("target_files").unwrap(), Section::TargetFiles);
    assert_eq!(Section::try_from("current_color").unwrap(), Section::CurrentColor);
    assert_eq!(Section::try_from("overwrite").unwrap(), Section::Overwrite);
    assert!(matches!(Section::try_from("Mode"), Err(TranError::ConfigError(_))));
    assert_eq!(Mode::try_from("gradient").unwrap(), Mode::Gradient);
    assert_eq!(Mode::try_from("map").unwrap(), Mode::Mapping);
    assert!(matches!(Mode::try_from("maps"), Err(TranError::ConfigError(_))));
    let section: Result<Section, TranError> = "colors".try_into();
    assert_eq!(section.unwrap(), Section::Colors);
}

#[test]
fn error_texts() {
    let e = parse_config("x").unwrap_err();
    assert_eq!(e.to_string(), "Error reading config: Expected config to start with '[', found x");
    let e = parse_config("[mode]\ngradient").unwrap_err();
    assert_eq!(e.to_string(), "Error reading config: Missing colors");
    let e = parse_config("[colors]\n#000001").unwrap_err();
    assert_eq!(
        e.to_string(),
        "Error reading config: Found color section before mode section. Can't determine color format"
    );
    assert_eq!(TranError::FileReadError("a".to_string()).to_string(), "Error reading file a");
    assert_eq!(TranError::FileNotFoundError("a".to_string()).to_string(), "Could not find file a");
    assert_eq!(
        TranError::WritingConfigError("a".to_string()).to_string(),
        "Could not write config file a"
    );
    assert_eq!(TranError::PngFormatError("a".to_string()).to_string(), "Error reading png file: a");
    assert_eq!(TranError::UnsupportedError("a".to_string()).to_string(), "a");
}

#[test]
fn white_space_is_what_the_standard_library_says() {
    for code in 0..=0x10FFFFu32 {
        if let Some(c) = char::from_u32(code) {
            assert_eq!(tran::config::parser::is_space_char(c), c.is_whitespace(), "{:x}", code);
        }
    }
}

#[test]
fn trimming_agrees_with_the_standard_library() {
    let body = "[mode]\ngradient\n[colors]\n#000001\n[target_files]\n a \u{a0}b";
    let blanks = ["", " ", "\n", "\t \r\n", "\u{85}\u{a0}", "\u{1680}\u{2000}\u{200a}\u{2028}\u{2029}\u{202f}\u{205f}\u{3000}", "\u{b}\u{c}"];
    for front in blanks {
        for back in blanks {
            let text = format!("{}{}{}", front, body, back);
            assert_eq!(text.trim(), body);
            let gc = gradient(&text);
            assert_eq!(gc.get_target_files(), &[" a \u{a0}b"]);
        }
    }
    // characters that look like blanks but are none
    for c in ['\u{200b}', '\u{feff}', '\u{1c}', '\u{180e}'] {
        let text = format!("{}{}", c, body);
        assert_eq!(text.trim(), text);
        assert!(is_config_error(&text));
    }
}

#[test]
fn weights_agree_with_the_standard_number_parser() {
    for token in ["", "+", "0", "1", "+1", "-1", "12", "012", "+012", "1 ", " 1", "1_0", "0x1", "1a", "٣", "++1", "20"] {
        let expected = usize::from_str_radix(token, 10).unwrap_or(1);
        let text = format!("[mode]\nmap\n[current_color]\n000000\n[colors]\n{}#000001", token);
        let mc = map(&text);
        assert_eq!(mc.get_colors_scaled().len(), expected, "{:?}", token);
    }
}
