use graphite::color::Color;
use graphite::color_palette::ColorPalette;

#[test]
fn grays_are_seventeen_apart() {
    assert_eq!(ColorPalette::Black.get_color(), Color { red: 0, green: 0, blue: 0 });
    assert_eq!(ColorPalette::NearBlack.get_color(), Color { red: 17, green: 17, blue: 17 });
    assert_eq!(ColorPalette::MildBlack.get_color(), Color { red: 34, green: 34, blue: 34 });
    assert_eq!(ColorPalette::DarkGray.get_color(), Color { red: 51, green: 51, blue: 51 });
    assert_eq!(ColorPalette::MiddleGray.get_color(), Color { red: 119, green: 119, blue: 119 });
    assert_eq!(ColorPalette::MildWhite.get_color(), Color { red: 221, green: 221, blue: 221 });
    assert_eq!(ColorPalette::White.get_color(), Color { red: 255, green: 255, blue: 255 });
}

#[test]
fn accent_is_blue() {
    assert_eq!(ColorPalette::Accent.get_color(), Color { red: 75, green: 121, blue: 167 });
    assert_eq!(ColorPalette::Accent.get_color().to_hex(), b"#4b79a7".to_vec());
}

#[test]
fn palette_names_are_found() {
    assert_eq!(ColorPalette::lookup_palette_color(b"Black"), Some(ColorPalette::Black));
    assert_eq!(ColorPalette::lookup_palette_color(b"NearBlack"), Some(ColorPalette::NearBlack));
    assert_eq!(ColorPalette::lookup_palette_color(b"MildBlack"), Some(ColorPalette::MildBlack));
    assert_eq!(ColorPalette::lookup_palette_color(b"DarkGray"), Some(ColorPalette::DarkGray));
    assert_eq!(ColorPalette::lookup_palette_color(b"DimGray"), Some(ColorPalette::DimGray));
    assert_eq!(ColorPalette::lookup_palette_color(b"DullGray"), Some(ColorPalette::DullGray));
    assert_eq!(ColorPalette::lookup_palette_color(b"LowerGray"), Some(ColorPalette::LowerGray));
    assert_eq!(ColorPalette::lookup_palette_color(b"MiddleGray"), Some(ColorPalette::MiddleGray));
    assert_eq!(ColorPalette::lookup_palette_color(b"UpperGray"), Some(ColorPalette::UpperGray));
    assert_eq!(ColorPalette::lookup_palette_color(b"PaleGray"), Some(ColorPalette::PaleGray));
    assert_eq!(ColorPalette::lookup_palette_color(b"SoftGray"), Some(ColorPalette::SoftGray));
    assert_eq!(ColorPalette::lookup_palette_color(b"LightGray"), Some(ColorPalette::LightGray));
    assert_eq!(ColorPalette::lookup_palette_color(b"BrightGray"), Some(ColorPalette::BrightGray));
    assert_eq!(ColorPalette::lookup_palette_color(b"MildWhite"), Some(ColorPalette::MildWhite));
    assert_eq!(ColorPalette::lookup_palette_color(b"NearWhite"), Some(ColorPalette::NearWhite));
    assert_eq!(ColorPalette::lookup_palette_color(b"White"), Some(ColorPalette::White));
    assert_eq!(ColorPalette::lookup_palette_color(b"Accent"), Some(ColorPalette::Accent));
}

#[test]
fn palette_names_are_exact() {
    assert_eq!(ColorPalette::lookup_palette_color(b"black"), None);
    assert_eq!(ColorPalette::lookup_palette_color(b"Black "), None);
    assert_eq!(ColorPalette::lookup_palette_color(b""), None);
    assert_eq!(ColorPalette::lookup_palette_color(b"Purple"), None);
    assert_eq!(ColorPalette::MildBlack.name_bytes(), b"MildBlack".to_vec());
    assert_eq!(ColorPalette::Accent.name_bytes(), b"Accent".to_vec());
    assert_eq!(
        ColorPalette::lookup_palette_color(&ColorPalette::UpperGray.name_bytes()),
        Some(ColorPalette::UpperGray)
    );
}

#[test]
fn hex_literals() {
    assert_eq!(Color::from_hex(b"#000000"), Some(Color::new(0, 0, 0)));
    assert_eq!(Color::from_hex(b"#ffffff"), Some(Color::new(255, 255, 255)));
    assert_eq!(Color::from_hex(b"#4B79a7"), Some(Color::new(75, 121, 167)));
    assert_eq!(Color::from_hex(b"#102030"), Some(Color::new(16, 32, 48)));
    assert_eq!(Color::from_hex(b"102030"), None);
    assert_eq!(Color::from_hex(b"#10203"), None);
    assert_eq!(Color::from_hex(b"#1020300"), None);
    assert_eq!(Color::from_hex(b"#10203g"), None);
    assert_eq!(Color::from_hex(b""), None);
}

#[test]
fn hex_round_trip() {
    for color in [Color::new(0, 0, 0), Color::new(1, 35, 69), Color::new(171, 205, 239), Color::gray(255)] {
        assert_eq!(Color::from_hex(&color.to_hex()), Some(color));
    }
    assert_eq!(Color::new(171, 205, 239).to_hex(), b"#abcdef".to_vec());
    assert_eq!(Color::gray(9), Color::new(9, 9, 9));
}
