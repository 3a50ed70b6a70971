use graphite::layout_abstract_syntax::AttributeToken;
use graphite::layout_abstract_syntax::SyntaxNode;
use graphite::layout_attribute_parser::parse;
use graphite::layout_attribute_parser::ParseError;

fn token(key: &str, value: &str) -> AttributeToken {
    AttributeToken { key: key.as_bytes().to_vec(), raw_value: value.as_bytes().to_vec() }
}

fn element(tag: &str, attributes: Vec<AttributeToken>, children: Vec<SyntaxNode>) -> SyntaxNode {
    SyntaxNode { tag: tag.as_bytes().to_vec(), attributes, children }
}

fn text(run: &str) -> SyntaxNode {
    element("#text", vec![token("text", run)], vec![])
}

#[test]
fn self_closing_element() {
    assert_eq!(parse(b"<label/>"), Ok(element("label", vec![], vec![])));
    assert_eq!(parse(b"  <label />\n"), Ok(element("label", vec![], vec![])));
}

#[test]
fn attributes_keep_their_order_and_duplicates() {
    let parsed = parse(b"<label text=\"A\" width = \"10px\" text=\"B\"/>");
    assert_eq!(
        parsed,
        Ok(element(
            "label",
            vec![token("text", "A"), token("width", "10px"), token("text", "B")],
            vec![]
        ))
    );
    let node = parsed.unwrap();
    assert_eq!(node.attribute(b"text"), Some(&b"B".to_vec()));
    assert_eq!(node.attribute(b"width"), Some(&b"10px".to_vec()));
    assert_eq!(node.attribute(b"height"), None);
}

#[test]
fn whitespace_inside_values_is_kept() {
    assert_eq!(
        parse(b"<label text=\"  two  words \"/>"),
        Ok(element("label", vec![token("text", "  two  words ")], vec![]))
    );
}

#[test]
fn children_come_in_document_order() {
    assert_eq!(
        parse(b"<window>\n  <panel><label/></panel>\n  <image/>\n</window>"),
        Ok(element(
            "window",
            vec![],
            vec![
                element("panel", vec![], vec![element("label", vec![], vec![])]),
                element("image", vec![], vec![]),
            ]
        ))
    );
}

#[test]
fn text_between_tags_becomes_a_node() {
    assert_eq!(
        parse("<label>  File: 1.8 MB \u{21e7}G  <image/> tail</label>".as_bytes()),
        Ok(element(
            "label",
            vec![],
            vec![text("File: 1.8 MB \u{21e7}G"), element("image", vec![], vec![]), text("tail")]
        ))
    );
}

#[test]
fn mismatched_closing_tag() {
    assert_eq!(
        parse(b"<window><panel></window>"),
        Err(ParseError::MismatchedTag(b"panel".to_vec(), b"window".to_vec()))
    );
}

#[test]
fn truncated_input() {
    assert_eq!(parse(b""), Err(ParseError::UnexpectedEnd));
    assert_eq!(parse(b"   "), Err(ParseError::UnexpectedEnd));
    assert_eq!(parse(b"<window>"), Err(ParseError::UnexpectedEnd));
    assert_eq!(parse(b"<window"), Err(ParseError::UnexpectedEnd));
    assert_eq!(parse(b"<window "), Err(ParseError::UnexpectedEnd));
    assert_eq!(parse(b"<window/"), Err(ParseError::UnexpectedEnd));
    assert_eq!(parse(b"<window><panel/>"), Err(ParseError::UnexpectedEnd));
    assert_eq!(parse(b"<window>text"), Err(ParseError::UnexpectedEnd));
    assert_eq!(parse(b"<window></window"), Err(ParseError::UnexpectedEnd));
    assert_eq!(parse(b"<"), Err(ParseError::UnexpectedEnd));
}

#[test]
fn malformed_attributes() {
    assert_eq!(parse(b"<label text/>"), Err(ParseError::MalformedAttribute(7)));
    assert_eq!(parse(b"<label text=A/>"), Err(ParseError::MalformedAttribute(7)));
    assert_eq!(parse(b"<label text=\"A/>"), Err(ParseError::MalformedAttribute(7)));
    assert_eq!(parse(b"<label a=\"1\" =\"2\"/>"), Err(ParseError::MalformedAttribute(13)));
    assert_eq!(parse(b"<label text"), Err(ParseError::MalformedAttribute(7)));
}

#[test]
fn more_than_one_root() {
    assert_eq!(parse(b"<window/><window/>"), Err(ParseError::MultipleRoots));
    assert_eq!(parse(b"<a></a> <b>"), Err(ParseError::MultipleRoots));
}

#[test]
fn bytes_that_fit_no_rule() {
    assert_eq!(parse(b"hello"), Err(ParseError::UnexpectedCharacter(0)));
    assert_eq!(parse(b"<a/> x"), Err(ParseError::UnexpectedCharacter(5)));
    assert_eq!(parse(b"</a>"), Err(ParseError::UnexpectedCharacter(1)));
    assert_eq!(parse(b"< a/>"), Err(ParseError::UnexpectedCharacter(1)));
    assert_eq!(parse(b"<a/ >"), Err(ParseError::UnexpectedCharacter(3)));
    assert_eq!(parse(b"<a></a b>"), Err(ParseError::UnexpectedCharacter(7)));
}
