use tran::png::shade::scale_channel;

/// What the proportion rule gives in double precision.
fn in_doubles(prev_new: u8, old: u8, prev_old: u8) -> u8 {
    let ratio = if prev_old == 0 { 1.0 } else { (old as f64) / (prev_old as f64) };
    ((prev_new as f64) * ratio) as u8
}

fn agrees_with_doubles(from: u16, to: u16) {
    for prev_new in from..to {
        for old in 0..=255u16 {
            for prev_old in 0..=255u16 {
                let (p, a, b) = (prev_new as u8, old as u8, prev_old as u8);
                assert_eq!(scale_channel(p, a, b), in_doubles(p, a, b), "{} {} {}", p, a, b);
            }
        }
    }
}

#[test]
fn scale_agrees_with_doubles_0() {
    agrees_with_doubles(0, 32);
}

#[test]
fn scale_agrees_with_doubles_1() {
    agrees_with_doubles(32, 64);
}

#[test]
fn scale_agrees_with_doubles_2() {
    agrees_with_doubles(64, 96);
}

#[test]
fn scale_agrees_with_doubles_3() {
    agrees_with_doubles(96, 128);
}

#[test]
fn scale_agrees_with_doubles_4() {
    agrees_with_doubles(128, 160);
}

#[test]
fn scale_agrees_with_doubles_5() {
    agrees_with_doubles(160, 192);
}

#[test]
fn scale_agrees_with_doubles_6() {
    agrees_with_doubles(192, 224);
}

#[test]
fn scale_agrees_with_doubles_7() {
    agrees_with_doubles(224, 256);
}

#[test]
fn scale_cuts_off_toward_zero() {
    assert_eq!(scale_channel(100, 1, 3), 33);
    assert_eq!(scale_channel(10, 200, 100), 20);
    assert_eq!(scale_channel(3, 1, 3), 1);
}

#[test]
fn scale_rounds_as_doubles_do() {
    // 49 * (1 / 49) is just below 1 in double precision
    assert_eq!(scale_channel(49, 1, 49), 0);
    assert_eq!(scale_channel(7, 61, 7), 60);
}

#[test]
fn scale_is_held_at_255() {
    assert_eq!(scale_channel(200, 255, 100), 255);
    assert_eq!(scale_channel(255, 255, 1), 255);
}

#[test]
fn scale_counts_a_zero_denominator_as_ratio_one() {
    assert_eq!(scale_channel(77, 0, 0), 77);
    assert_eq!(scale_channel(77, 200, 0), 77);
    assert_eq!(scale_channel(0, 200, 0), 0);
}
