use graphite::ascii::bytes_of;
use graphite::ascii::copy_bytes;
use graphite::ascii::copy_range;
use graphite::ascii::same_bytes;
use graphite::ascii::ByteClass;
use graphite::layout_abstract_syntax::AttributeToken;
use graphite::layout_abstract_syntax::SyntaxNode;
use graphite::layout_attribute_parser::parse;
use graphite::layout_attribute_parser::ParseError;
use graphite::layout_system::LayoutSystem;
use graphite::resource_cache::ResourceCache;
use graphite::source_provider::FetchedSources;
use graphite::source_provider::IoError;

#[test]
fn byte_helpers() {
    assert_eq!(bytes_of("font-size"), b"font-size".to_vec());
    assert_eq!(bytes_of("\u{21e7}"), vec![0xe2, 0x87, 0xa7]);
    assert_eq!(copy_bytes(b"abc"), b"abc".to_vec());
    assert_eq!(copy_range(b"abcdef", 2, 4), b"cd".to_vec());
    assert_eq!(copy_range(b"abcdef", 3, 3), Vec::<u8>::new());
    assert!(same_bytes(b"", b""));
    assert!(same_bytes(b"ab", b"ab"));
    assert!(!same_bytes(b"ab", b"abc"));
    assert!(!same_bytes(b"ab", b"ac"));
}

#[test]
fn byte_classes() {
    for b in [b' ', b'\t', b'\n', b'\r'] {
        assert!(ByteClass::Space.test(b));
        assert!(!ByteClass::Name.test(b));
    }
    for b in [b'a', b'z', b'A', b'Z', b'0', b'9', b'-', b'_'] {
        assert!(ByteClass::Name.test(b));
        assert!(!ByteClass::Space.test(b));
    }
    for b in [b'#', b'<', b'>', b'/', b'=', b'"', b'.', 0xe2] {
        assert!(!ByteClass::Name.test(b));
    }
    assert!(ByteClass::Digit.test(b'5'));
    assert!(!ByteClass::Digit.test(b'a'));
    assert!(ByteClass::NotAngle.test(b'>'));
    assert!(!ByteClass::NotAngle.test(b'<'));
    assert!(ByteClass::NotQuote.test(b'<'));
    assert!(!ByteClass::NotQuote.test(b'"'));
}

#[test]
fn nodes_by_hand() {
    let leaf = SyntaxNode::leaf(b"label".to_vec(), vec![]);
    assert_eq!(parse(b"<label/>"), Ok(leaf));
    let run = SyntaxNode::text(b"hello".to_vec());
    assert_eq!(run.tag, b"#text".to_vec());
    assert_eq!(run.attribute(b"text"), Some(&b"hello".to_vec()));
    assert_eq!(parse(b"<label>hello</label>").unwrap().children, vec![run]);
}

#[test]
fn copies_are_equal() {
    let token = AttributeToken { key: b"k".to_vec(), raw_value: b"v".to_vec() };
    assert_eq!(token.clone(), token);
    let tree = parse(b"<window a=\"1\"><panel b=\"2\">t<label/></panel></window>").unwrap();
    assert_eq!(tree.clone(), tree);
    let error = IoError { message: b"gone".to_vec() };
    assert_eq!(error.clone(), error);
}

#[test]
fn an_empty_closing_name_is_a_mismatch() {
    assert_eq!(parse(b"<a></>"), Err(ParseError::MismatchedTag(b"a".to_vec(), vec![])));
    assert_eq!(parse(b"<a></a >"), Ok(SyntaxNode::leaf(b"a".to_vec(), vec![])));
    assert_eq!(parse(b"<a></ a>"), Err(ParseError::UnexpectedCharacter(6)));
}

#[test]
fn statements_of_what_always_holds_do_nothing() {
    let mut cache = ResourceCache::new();
    cache.intern(b"a");
    cache.paths_are_distinct();
    assert_eq!(cache.len(), 1);
    let mut layout = LayoutSystem::new();
    layout.register_window(b"w", b"s").unwrap();
    layout.is_a_registry();
    assert_eq!(layout.window_count(), 1);
    assert_eq!(FetchedSources::new().get(b"s"), None);
}
