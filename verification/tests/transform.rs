use tran::errors::TranError;
use tran::config::Color;
use tran::transform::hex_to_bytes;
use tran::transform::pick;
use tran::transform::row_pairs;
use tran::ColorMap;

#[test]
fn color_texts_are_unpacked() {
    assert_eq!(hex_to_bytes("#112233").unwrap(), (0x11, 0x22, 0x33));
    assert_eq!(hex_to_bytes("#AbCdEf").unwrap(), (0xab, 0xcd, 0xef));
    // the first character is passed over, whatever it is
    assert_eq!(hex_to_bytes("x010203").unwrap(), (1, 2, 3));
    // short numbers fill the low channels, long ones lose what is above 24 bits
    assert_eq!(hex_to_bytes("#fff").unwrap(), (0, 0x0f, 0xff));
    assert_eq!(hex_to_bytes("#+1").unwrap(), (0, 0, 1));
    assert_eq!(hex_to_bytes("#ff010203").unwrap(), (1, 2, 3));
    assert_eq!(hex_to_bytes("#0000000000000000a0b0c0").unwrap(), (0xa0, 0xb0, 0xc0));
}

#[test]
fn what_is_no_color_text() {
    for text in ["", "#", "#+", "#-1", "#12345g", "# 12345", "#100000000", "é12345", "#1 "] {
        assert!(matches!(hex_to_bytes(text), Err(TranError::ConfigError(_))), "{}", text);
    }
}

#[test]
fn color_map_holds_its_texts() {
    let map = ColorMap::new("#445566", "#112233");
    assert_eq!(map.get_new_color(), "#445566");
    assert_eq!(map.get_current_color(), "#112233");
    assert_eq!(map.new_color_bytes().unwrap(), (0x44, 0x55, 0x66));
    assert_eq!(map.current_color_bytes().unwrap(), (0x11, 0x22, 0x33));
    let bad = ColorMap::new("445566", "#");
    assert_eq!(bad.new_color_bytes().unwrap(), (0x04, 0x55, 0x66));
    assert!(matches!(bad.current_color_bytes(), Err(TranError::ConfigError(_))));
}

fn unpack(v: u32) -> (u8, u8, u8) {
    ((v >> 16) as u8, (v >> 8) as u8, v as u8)
}

#[test]
fn agrees_with_the_standard_number_parser() {
    let alphabet = ['0', '9', 'a', 'F', 'g', '+', '-', ' ', '#', '_'];
    let mut texts = vec![String::new()];
    let mut last = vec![String::new()];
    for _ in 0..4 {
        let mut next = Vec::new();
        for t in &last {
            for c in alphabet {
                let mut longer = t.clone();
                longer.push(c);
                next.push(longer);
            }
        }
        texts.extend(next.iter().cloned());
        last = next;
    }
    texts.push("ffffffff".to_string());
    texts.push("100000000".to_string());
    texts.push("+ffffffff".to_string());
    texts.push("0000000000000000ffffffff".to_string());
    texts.push("fffffffff".to_string());
    for t in texts {
        let text = format!("#{}", t);
        let expected = u32::from_str_radix(&t, 16).ok().map(unpack);
        assert_eq!(hex_to_bytes(&text).ok(), expected, "{:?}", text);
    }
}

#[test]
fn turns_go_round_the_list() {
    let list = [10, 20, 30];
    assert_eq!(pick(&list, 0), Some(&10));
    assert_eq!(pick(&list, 1), Some(&20));
    assert_eq!(pick(&list, 2), Some(&30));
    assert_eq!(pick(&list, 3), Some(&10));
    assert_eq!(pick(&list, 1_700_000_000), Some(&list[1_700_000_000 % 3]));
    assert_eq!(pick(&list, usize::MAX), Some(&list[usize::MAX % 3]));
    let none: [u8; 0] = [];
    assert_eq!(pick(&none, 5), None);
}

#[test]
fn rows_pair_as_far_as_both_go() {
    let new_row = [Color::from_bytes(1, 2, 3), Color::from_bytes(4, 5, 6), Color::from_bytes(7, 8, 9)];
    let current_row = [Color::from_bytes(0xa, 0xb, 0xc), Color::from_bytes(0xd, 0xe, 0xf)];
    let pairs = row_pairs(&new_row, &current_row);
    assert_eq!(
        pairs,
        vec![
            ("#010203".to_string(), "#0a0b0c".to_string()),
            ("#040506".to_string(), "#0d0e0f".to_string())
        ]
    );
    assert!(row_pairs(&new_row, &[]).is_empty());
    assert!(row_pairs(&[], &current_row).is_empty());
    // the texts are color texts of the same colors
    for (new, current) in &pairs {
        let map = ColorMap::new(new, current);
        assert_eq!(map.new_color_bytes().unwrap(), Color::try_from_hex_str(new).unwrap().bytes());
        assert_eq!(
            map.current_color_bytes().unwrap(),
            Color::try_from_hex_str(current).unwrap().bytes()
        );
    }
}
