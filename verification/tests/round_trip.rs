use tran::config::parse_config;
use tran::config::write_config;
use tran::config::Color;
use tran::config::Config;

fn shown(config: &Config) -> String {
    format!("{:?}", config)
}

#[test]
fn writes_a_gradient_config() {
    let config = parse_config(
        "[mode]\ngradient\n[target_files]\na.png\nb c\n[colors]\n#ABCDEF\n12#000102\n+#030405\n[current_color]\nabcdef\n[overwrite]\ntrue",
    )
    .unwrap();
    assert_eq!(
        write_config(&config),
        "[mode]\ngradient\n[overwrite]\ntrue\n[current_color]\n#abcdef\n[colors]\n1#abcdef\n12#000102\n1#030405\n[target_files]\na.png\nb c\n"
    );
}

#[test]
fn writes_a_map_config() {
    let config = parse_config(
        "[mode]\nmap\n[colors]\n#112233#445566\n300#AAAAAA\n0\n[current_color]\n010203#040506",
    )
    .unwrap();
    assert_eq!(
        write_config(&config),
        "[mode]\nmap\n[overwrite]\nfalse\n[current_color]\n#010203#040506\n[colors]\n1#112233#445566\n300#aaaaaa\n0\n[target_files]\n"
    );
}

#[test]
fn writes_the_largest_weight() {
    let text = format!("[mode]\ngradient\n[colors]\n{}#000001", usize::MAX);
    let config = parse_config(&text).unwrap();
    let written = write_config(&config);
    assert!(written.contains(&format!("\n{}#000001\n", usize::MAX)));
    assert_eq!(shown(&parse_config(&written).unwrap()), shown(&config));
}

#[test]
fn round_trip_keeps_every_field() {
    let texts = [
        "[mode]\ngradient\n[colors]\n#000001",
        "[mode]\ngradient\n[overwrite]\ntrue\n[current_color]\n#102030\n[colors]\n#102030\n2#AABBCC\n3#000001\n[target_files]\n/tmp/a.png\n with space \n\nafter an empty line\n/tmp/b",
        "[mode]\nmap\n[colors]\n#112233#445566\n5#aaaaaa#bbbbbb\n7\n[current_color]\n#010203#040506\n[target_files]\nx.png",
        "[mode]\nmap\n[current_color]\n010203\n[colors]\n0#112233\n[overwrite]\ntrue",
    ];
    for text in texts {
        let first = parse_config(text).unwrap();
        let second = parse_config(&write_config(&first)).unwrap();
        assert_eq!(shown(&first), shown(&second));
        match (&first, &second) {
            (Config::GradientConfig(a), Config::GradientConfig(b)) => {
                assert_eq!(a.get_current_color(), b.get_current_color());
                assert_eq!(a.get_colors(), b.get_colors());
                assert_eq!(a.get_colors_scaled(), b.get_colors_scaled());
                assert_eq!(a.get_target_files(), b.get_target_files());
                assert_eq!(a.get_overwrite(), b.get_overwrite());
            }
            (Config::MapConfig(a), Config::MapConfig(b)) => {
                assert_eq!(a.get_current_colors(), b.get_current_colors());
                assert_eq!(a.get_colors(), b.get_colors());
                assert_eq!(a.get_colors_scaled(), b.get_colors_scaled());
                assert_eq!(a.get_target_files(), b.get_target_files());
                assert_eq!(a.get_overwrite(), b.get_overwrite());
            }
            _ => panic!("the mode changed"),
        }
        assert_eq!(write_config(&first), write_config(&second));
    }
}

#[test]
fn round_trip_after_a_new_current_color() {
    let mut config = parse_config("[mode]\ngradient\n[colors]\n#000001\n4#000002").unwrap();
    if let Config::GradientConfig(gc) = &mut config {
        gc.set_current_colors(Color::from_bytes(0, 0, 2));
    }
    let again = parse_config(&write_config(&config)).unwrap();
    assert_eq!(shown(&config), shown(&again));
    let mut config = parse_config("[mode]\nmap\n[colors]\n#000001#000002\n[current_color]\n#000003").unwrap();
    if let Config::MapConfig(mc) = &mut config {
        let next = mc.get_colors()[0].clone();
        mc.set_current_colors(next);
    }
    let again = parse_config(&write_config(&config)).unwrap();
    assert_eq!(shown(&config), shown(&again));
}

#[test]
fn white_space_at_the_end_of_the_last_path_is_lost() {
    let first =
        parse_config("[mode]\ngradient\n[target_files]\na \n[colors]\n#000001").unwrap();
    assert_eq!(first.get_target_files(), &["a "]);
    let second = parse_config(&write_config(&first)).unwrap();
    assert_eq!(second.get_target_files(), &["a"]);
    // from then on nothing changes
    let third = parse_config(&write_config(&second)).unwrap();
    assert_eq!(shown(&second), shown(&third));
}
