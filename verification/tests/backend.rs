use armada_rgb::attributes::{parse_maximum, parse_order, MaximumError};
use armada_rgb::colour::{channel_value, gamma, scale, Channel, Rgb};
use armada_rgb::config::LightingConfig;
use armada_rgb::targets::{validate_names, NameError};
use armada_rgb::text::NumberError;

fn float_gamma(channel: u8, maximum: u32) -> u32 {
    let value: f64 = f64::from(channel) / 255.0;
    let linear: f64 = if value <= 0.04045 {
        value / 12.92
    } else {
        ((value + 0.055) / 1.055).powf(2.4)
    };
    (linear * f64::from(maximum)).round() as u32
}

#[test]
fn scales_channels_and_brightness() {
    assert_eq!(gamma(0, 255), 0);
    assert_eq!(gamma(128, 100), 22);
    assert_eq!(gamma(255, 255), 255);
    assert_eq!(scale(25, 255), 64);
}

#[test]
fn gamma_follows_the_srgb_curve() {
    assert_eq!(gamma(128, 255), 55);
    assert_eq!(gamma(10, 1000), 3);
    assert_eq!(gamma(11, 1000), 3);
    assert_eq!(gamma(200, 65535), 37852);
    assert_eq!(gamma(37, 4294967295), 79457840);
    for maximum in [1u32, 2, 3, 100, 255, 511, 1000, 4095, 65535, 1_000_000, 4294967295] {
        for channel in 0..=255u8 {
            assert_eq!(gamma(channel, maximum), float_gamma(channel, maximum), "{channel} {maximum}");
        }
    }
}

#[test]
fn gamma_endpoints_cover_the_scale() {
    for maximum in [0u32, 1, 7, 255, 100_000, u32::MAX] {
        assert_eq!(gamma(0, maximum), 0);
        assert_eq!(gamma(255, maximum), maximum);
    }
}

#[test]
fn gamma_never_dims_a_brighter_channel() {
    for maximum in [1u32, 255, 511, 65535] {
        for channel in 0..255u8 {
            assert!(gamma(channel, maximum) <= gamma(channel + 1, maximum));
        }
    }
}

#[test]
fn channel_value_picks_the_named_channel() {
    let rgb = Rgb { red: 255, green: 128, blue: 0 };
    assert_eq!(channel_value(Channel::Red, rgb, 255), 255);
    assert_eq!(channel_value(Channel::Green, rgb, 255), 55);
    assert_eq!(channel_value(Channel::Blue, rgb, 255), 0);
}

#[test]
fn scale_rounds_half_up() {
    assert_eq!(scale(50, 3), 2);
    assert_eq!(scale(1, 49), 0);
    assert_eq!(scale(1, 50), 1);
    assert_eq!(scale(100, 511), 511);
    assert_eq!(scale(0, 511), 0);
    assert_eq!(scale(100, u32::MAX), u32::MAX);
    assert_eq!(scale(255, u32::MAX), ((255u64 * u64::from(u32::MAX) + 50) / 100) as u32);
}

#[test]
fn multi_index_orders() {
    assert_eq!(parse_order("blue green red"), Some(vec![Channel::Blue, Channel::Green, Channel::Red]));
    assert_eq!(parse_order("red green blue\n"), Some(vec![Channel::Red, Channel::Green, Channel::Blue]));
    assert_eq!(parse_order("  RED\tGreen\u{a0}bLuE  "), Some(vec![Channel::Red, Channel::Green, Channel::Blue]));
    assert_eq!(parse_order("not rgb"), None);
    assert_eq!(parse_order("red red blue"), None);
    assert_eq!(parse_order("red green"), None);
    assert_eq!(parse_order("red green blue white"), None);
    assert_eq!(parse_order(""), None);
    assert_eq!(parse_order("red,green,blue"), None);
}

#[test]
fn max_brightness_readings() {
    assert_eq!(parse_maximum("255\n"), Ok(255));
    assert_eq!(parse_maximum(" +7 "), Ok(7));
    assert_eq!(parse_maximum("4294967295"), Ok(u32::MAX));
    assert_eq!(parse_maximum("0"), Err(MaximumError::Zero));
    assert_eq!(parse_maximum("zero"), Err(MaximumError::Unparsable(NumberError::InvalidDigit)));
    assert_eq!(parse_maximum(" \n"), Err(MaximumError::Unparsable(NumberError::Empty)));
    assert_eq!(parse_maximum("4294967296"), Err(MaximumError::Unparsable(NumberError::Overflow)));
    assert_eq!(parse_maximum("99999999999x"), Err(MaximumError::Unparsable(NumberError::Overflow)));
    assert_eq!(parse_maximum("9x99999999999"), Err(MaximumError::Unparsable(NumberError::InvalidDigit)));
    assert_eq!(parse_maximum("+"), Err(MaximumError::Unparsable(NumberError::InvalidDigit)));
    assert_eq!(parse_maximum("-1"), Err(MaximumError::Unparsable(NumberError::InvalidDigit)));
    for text in ["255", " 12 ", "+3", "zero", "", "-1", "4294967296", "12 3"] {
        let std_reading = text.trim().parse::<u32>();
        match parse_maximum(text) {
            Ok(value) => assert_eq!(std_reading, Ok(value)),
            Err(MaximumError::Zero) => assert_eq!(std_reading, Ok(0)),
            Err(MaximumError::Unparsable(_)) => assert!(std_reading.is_err()),
        }
    }
}

#[test]
fn target_names_are_checked_in_order() {
    let names = |list: &[&str]| list.iter().map(|name| name.to_string()).collect::<Vec<String>>();
    assert_eq!(validate_names(&names(&["rgb:l1", "rgb:r1", "a_b.c-d"])), Ok(()));
    assert_eq!(validate_names(&names(&[])), Err(NameError::Empty));
    assert_eq!(
        validate_names(&names(&["rgb:l1", "rgb:l1"])),
        Err(NameError::Duplicate("rgb:l1".into()))
    );
    assert_eq!(validate_names(&names(&["a/b"])), Err(NameError::Invalid("a/b".into())));
    assert_eq!(validate_names(&names(&["."])), Err(NameError::Invalid(".".into())));
    assert_eq!(validate_names(&names(&[".."])), Err(NameError::Invalid("..".into())));
    assert_eq!(validate_names(&names(&["..."])), Ok(()));
    assert_eq!(validate_names(&names(&[""])), Err(NameError::Invalid("".into())));
    assert_eq!(validate_names(&names(&["é"])), Err(NameError::Invalid("é".into())));
    assert_eq!(
        validate_names(&names(&["x", "x", "bad name"])),
        Err(NameError::Duplicate("x".into()))
    );
}

fn config(color: &str, enabled: bool) -> LightingConfig {
    LightingConfig { version: 1, enabled, brightness: 25, color: color.into() }
}

#[test]
fn colours_are_six_hex_digits() {
    assert_eq!(config("FF8000", true).rgb(), Rgb { red: 255, green: 128, blue: 0 });
    assert_eq!(config("abcdef", true).rgb(), Rgb { red: 171, green: 205, blue: 239 });
    assert_eq!(config("abcdef", true).named_colour(), Some(Rgb { red: 171, green: 205, blue: 239 }));
    let black: Rgb = Rgb { red: 0, green: 0, blue: 0 };
    for malformed in ["12345", "1234567", "GG0000", "red", ""] {
        assert_eq!(config(malformed, true).named_colour(), None);
        assert_eq!(config(malformed, true).rgb(), black);
    }
}

#[test]
fn gamma_never_dims_with_a_larger_maximum() {
    for channel in [0u8, 5, 10, 11, 64, 128, 200, 255] {
        let mut previous: u32 = 0;
        for maximum in [0u32, 1, 2, 10, 100, 255, 256, 511, 1000, 65535, u32::MAX] {
            let level: u32 = gamma(channel, maximum);
            assert!(previous <= level);
            previous = level;
        }
    }
}

#[test]
fn name_check_ignores_order() {
    let names = |list: &[&str]| list.iter().map(|name| name.to_string()).collect::<Vec<String>>();
    let lists: [&[&str]; 4] = [&["a", "b", "c"], &["a", "b", "a"], &["a", "b/", "c"], &["x"]];
    for list in lists {
        let forward: Vec<String> = names(list);
        let mut backward: Vec<String> = forward.clone();
        backward.reverse();
        let mut rotated: Vec<String> = forward.clone();
        rotated.rotate_left(1);
        let verdict: bool = validate_names(&forward).is_ok();
        assert_eq!(validate_names(&backward).is_ok(), verdict);
        assert_eq!(validate_names(&rotated).is_ok(), verdict);
    }
}
