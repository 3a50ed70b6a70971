use graphite::ascii::scan;
use graphite::ascii::scan_back;
use graphite::ascii::spells;
use graphite::ascii::ByteClass;
use graphite::color::Color;
use graphite::color_palette::ColorPalette;
use graphite::layout_abstract_syntax::AttributeToken;
use graphite::layout_abstract_syntax::SyntaxNode;
use graphite::layout_abstract_types::parse_color;
use graphite::layout_abstract_types::parse_length;
use graphite::layout_abstract_types::resolve;
use graphite::layout_abstract_types::resolve_value;
use graphite::layout_abstract_types::AttributeKind;
use graphite::layout_abstract_types::AttributeValue;
use graphite::layout_abstract_types::ColorValue;
use graphite::layout_abstract_types::LengthUnit;
use graphite::layout_abstract_types::Property;
use graphite::layout_abstract_types::StyleRecord;
use graphite::layout_abstract_types::Tag;
use graphite::layout_abstract_types::TypeContext;
use graphite::layout_abstract_types::TypeError;
use graphite::layout_attribute_parser::parse;

fn element(tag: &str, attributes: &[(&str, &str)]) -> SyntaxNode {
    SyntaxNode {
        tag: tag.as_bytes().to_vec(),
        attributes: attributes
            .iter()
            .map(|(key, value)| AttributeToken {
                key: key.as_bytes().to_vec(),
                raw_value: value.as_bytes().to_vec(),
            })
            .collect(),
        children: vec![],
    }
}

#[test]
fn scanning() {
    assert_eq!(scan(b"  \t\nab", 0, ByteClass::Space), 4);
    assert_eq!(scan(b"ab", 0, ByteClass::Space), 0);
    assert_eq!(scan(b"font-size=", 0, ByteClass::Name), 9);
    assert_eq!(scan(b"a_b C", 0, ByteClass::Name), 3);
    assert_eq!(scan(b"120px", 0, ByteClass::Digit), 3);
    assert_eq!(scan(b"abc<d", 1, ByteClass::NotAngle), 3);
    assert_eq!(scan(b"abc\"d", 0, ByteClass::NotQuote), 3);
    assert_eq!(scan(b"abc", 3, ByteClass::Name), 3);
    assert_eq!(scan_back(b"ab  ", 0, 4), 2);
    assert_eq!(scan_back(b"    ", 1, 4), 1);
    assert_eq!(scan_back(b"ab", 0, 2), 2);
    assert!(spells(b"px", "px"));
    assert!(!spells(b"px ", "px"));
}

#[test]
fn lengths() {
    assert_eq!(parse_length(b"24px"), Some((LengthUnit::Px, 24)));
    assert_eq!(parse_length(b"100%"), Some((LengthUnit::Percent, 100)));
    assert_eq!(parse_length(b"0px"), Some((LengthUnit::Px, 0)));
    assert_eq!(parse_length(b"007px"), Some((LengthUnit::Px, 7)));
    assert_eq!(parse_length(b"4294967295px"), Some((LengthUnit::Px, 4294967295)));
    assert_eq!(parse_length(b"4294967296px"), None);
    assert_eq!(parse_length(b"99999999999999999999999999%"), None);
    assert_eq!(parse_length(b"px"), None);
    assert_eq!(parse_length(b"24"), None);
    assert_eq!(parse_length(b"24 px"), None);
    assert_eq!(parse_length(b" 24px"), None);
    assert_eq!(parse_length(b"24px "), None);
    assert_eq!(parse_length(b"24em"), None);
    assert_eq!(parse_length(b"2.5px"), None);
    assert_eq!(parse_length(b"-3px"), None);
    assert_eq!(parse_length(b""), None);
}

#[test]
fn colors() {
    assert_eq!(parse_color(b"MildBlack"), Some(ColorValue::Named(ColorPalette::MildBlack)));
    assert_eq!(parse_color(b"#4b79a7"), Some(ColorValue::Literal(Color::new(75, 121, 167))));
    assert_eq!(parse_color(b"mildblack"), None);
    assert_eq!(parse_color(b"#4b79a"), None);
    assert_eq!(ColorValue::Named(ColorPalette::MildBlack).get_color(), Color::new(34, 34, 34));
    assert_eq!(ColorValue::Literal(Color::new(1, 2, 3)).get_color(), Color::new(1, 2, 3));
}

#[test]
fn values_by_kind() {
    assert_eq!(
        resolve_value(Property::Width, b"50%"),
        Ok(AttributeValue::Length(LengthUnit::Percent, 50))
    );
    assert_eq!(
        resolve_value(Property::Width, b"wide"),
        Err(TypeError::InvalidLength(b"wide".to_vec()))
    );
    assert_eq!(
        resolve_value(Property::Background, b"Accent"),
        Ok(AttributeValue::Color(ColorValue::Named(ColorPalette::Accent)))
    );
    assert_eq!(
        resolve_value(Property::Color, b"Mauve"),
        Err(TypeError::UnknownColor(b"Mauve".to_vec()))
    );
    assert_eq!(resolve_value(Property::Align, b"center"), Ok(AttributeValue::Enum(b"center".to_vec())));
    assert_eq!(resolve_value(Property::Align, b"start"), Ok(AttributeValue::Enum(b"start".to_vec())));
    assert_eq!(resolve_value(Property::Align, b"end"), Ok(AttributeValue::Enum(b"end".to_vec())));
    assert_eq!(
        resolve_value(Property::Align, b"middle"),
        Err(TypeError::InvalidEnumValue(
            b"middle".to_vec(),
            vec![b"start".to_vec(), b"center".to_vec(), b"end".to_vec()]
        ))
    );
    assert_eq!(resolve_value(Property::Text, b" any  thing "), Ok(AttributeValue::Text(b" any  thing ".to_vec())));
    assert_eq!(resolve_value(Property::Font, b"fonts/a.ttf"), Ok(AttributeValue::Text(b"fonts/a.ttf".to_vec())));
}

#[test]
fn property_table() {
    let keys: [(&[u8], Property, AttributeKind, bool); 9] = [
        (b"width", Property::Width, AttributeKind::Length, false),
        (b"height", Property::Height, AttributeKind::Length, false),
        (b"color", Property::Color, AttributeKind::Color, true),
        (b"background", Property::Background, AttributeKind::Color, false),
        (b"font", Property::Font, AttributeKind::Text, true),
        (b"font-size", Property::FontSize, AttributeKind::Length, true),
        (b"align", Property::Align, AttributeKind::Enum, false),
        (b"text", Property::Text, AttributeKind::Text, false),
        (b"src", Property::Source, AttributeKind::Text, false),
    ];
    for (index, (key, property, kind, inheritable)) in keys.iter().enumerate() {
        assert_eq!(Property::from_key(key), Some(*property));
        assert_eq!(property.index(), index);
        assert_eq!(Property::from_index(index), Some(*property));
        assert_eq!(property.get_kind(), *kind);
        assert_eq!(property.is_inheritable(), *inheritable);
    }
    assert_eq!(Property::from_key(b"glow"), None);
    assert_eq!(Property::from_key(b"Width"), None);
    assert_eq!(Property::from_index(9), None);
    assert!(Property::Font.is_resource());
    assert!(Property::Source.is_resource());
    assert!(!Property::Text.is_resource());
    assert_eq!(Property::Width.allowed_literals(), Vec::<Vec<u8>>::new());
    assert!(!Property::Width.accepts_literal(b"start"));
}

#[test]
fn tag_table() {
    assert_eq!(Tag::from_name(b"window"), Some(Tag::Window));
    assert_eq!(Tag::from_name(b"panel"), Some(Tag::Panel));
    assert_eq!(Tag::from_name(b"label"), Some(Tag::Label));
    assert_eq!(Tag::from_name(b"image"), Some(Tag::Image));
    assert_eq!(Tag::from_name(b"#text"), Some(Tag::Text));
    assert_eq!(Tag::from_name(b"button"), None);
    assert!(Tag::Label.accepts(Property::Text));
    assert!(!Tag::Panel.accepts(Property::Text));
    assert!(!Tag::Window.accepts(Property::Source));
    assert!(Tag::Image.accepts(Property::Source));
    assert!(!Tag::Image.accepts(Property::Color));
    assert!(Tag::Text.accepts(Property::Text));
    assert!(!Tag::Text.accepts(Property::Width));
}

#[test]
fn duplicate_attribute_last_wins() {
    let node = parse(b"<label text=\"A\" text=\"B\"/>").unwrap();
    let style = resolve(&node).unwrap();
    assert_eq!(style.get(Property::Text), Some(&AttributeValue::Text(b"B".to_vec())));
}

#[test]
fn resolve_sets_only_what_is_written() {
    let style = resolve(&element("panel", &[("width", "10px"), ("color", "#010203")])).unwrap();
    assert_eq!(style.get(Property::Width), Some(&AttributeValue::Length(LengthUnit::Px, 10)));
    assert_eq!(
        style.get(Property::Color),
        Some(&AttributeValue::Color(ColorValue::Literal(Color::new(1, 2, 3))))
    );
    assert_eq!(style.get(Property::Height), None);
    assert_eq!(style.get(Property::Font), None);
    assert!(!style.is_complete());
    assert_eq!(resolve(&element("panel", &[])), Ok(StyleRecord::new()));
}

#[test]
fn unknown_attribute() {
    assert_eq!(
        resolve(&element("label", &[("glow", "true")])),
        Err(TypeError::UnknownAttribute(b"glow".to_vec(), b"label".to_vec()))
    );
    assert_eq!(
        resolve(&element("panel", &[("text", "x")])),
        Err(TypeError::UnknownAttribute(b"text".to_vec(), b"panel".to_vec()))
    );
    assert_eq!(
        resolve(&element("button", &[("width", "1px")])),
        Err(TypeError::UnknownAttribute(b"width".to_vec(), b"button".to_vec()))
    );
}

#[test]
fn first_failing_attribute_is_reported() {
    assert_eq!(
        resolve(&element("label", &[("width", "1px"), ("height", "tall"), ("glow", "1")])),
        Err(TypeError::InvalidLength(b"tall".to_vec()))
    );
    assert_eq!(
        resolve(&element("label", &[("width", "x"), ("width", "1px")])),
        Err(TypeError::InvalidLength(b"x".to_vec()))
    );
}

#[test]
fn style_records() {
    let mut style = StyleRecord::new();
    assert_eq!(style.get(Property::Align), None);
    style.set(Property::Align, AttributeValue::Enum(b"end".to_vec()));
    style.set(Property::Width, AttributeValue::Length(LengthUnit::Px, 3));
    style.set(Property::Width, AttributeValue::Length(LengthUnit::Px, 4));
    assert_eq!(style.get(Property::Align), Some(&AttributeValue::Enum(b"end".to_vec())));
    assert_eq!(style.get(Property::Width), Some(&AttributeValue::Length(LengthUnit::Px, 4)));
    assert_eq!(style.get(Property::Width).unwrap().get_kind(), AttributeKind::Length);
    let copy = style.clone();
    assert_eq!(copy, style);
}

#[test]
fn defaults() {
    let context = TypeContext::new();
    assert_eq!(context.default_of(Property::Width), &AttributeValue::Length(LengthUnit::Percent, 100));
    assert_eq!(context.default_of(Property::Height), &AttributeValue::Length(LengthUnit::Percent, 100));
    assert_eq!(
        context.default_of(Property::Color),
        &AttributeValue::Color(ColorValue::Named(ColorPalette::MildWhite))
    );
    assert_eq!(
        context.default_of(Property::Background),
        &AttributeValue::Color(ColorValue::Named(ColorPalette::MildBlack))
    );
    assert_eq!(context.default_of(Property::Font), &AttributeValue::Text(vec![]));
    assert_eq!(context.default_of(Property::FontSize), &AttributeValue::Length(LengthUnit::Px, 18));
    assert_eq!(context.default_of(Property::Align), &AttributeValue::Enum(b"start".to_vec()));
    assert_eq!(context.default_of(Property::Text), &AttributeValue::Text(vec![]));
    assert_eq!(context.default_of(Property::Source), &AttributeValue::Text(vec![]));
}
