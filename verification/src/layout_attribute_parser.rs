//! The markup parser: from bytes to a `SyntaxNode`, or to the first error in
//! the text.
//!
//! The grammar, with `S` for whitespace (space, tab, line feed, carriage
//! return) and `NAME` for one or more of `A-Z a-z 0-9 - _`:
//!
//! ```text
//! document  = S* element S*
//! element   = "<" NAME header
//! header    = S* ">" content "</" NAME S* ">"
//!           | S* "/>"
//!           | S* attribute header
//! attribute = NAME S* "=" S* '"' value '"'
//! content   = (S* (element | text))* S*
//! text      = a byte that is neither "<" nor whitespace, then all bytes up
//!             to the next "<", less the whitespace at their end
//! value     = any bytes but '"', kept as they are
//! ```
//!
//! The text is read once, from left to right, and the first error met is the
//! one reported. `spec_parse` defines the result: it runs a machine that keeps
//! the elements that are open, innermost last, each with the children it has
//! so far.

use vstd::prelude::*;
use vstd::slice::slice_subrange;
use crate::ascii::copy_range;
use crate::ascii::lemma_run_end;
use crate::ascii::run_end;
use crate::ascii::same_bytes;
use crate::ascii::scan;
use crate::ascii::scan_back;
use crate::ascii::trimmed_end;
use crate::ascii::ByteClass;
use crate::ascii::EQUALS_SIGN;
use crate::ascii::GREATER_THAN;
use crate::ascii::LESS_THAN;
use crate::ascii::QUOTE;
use crate::ascii::SLASH;
use crate::layout_abstract_syntax::lemma_push_child;
use crate::layout_abstract_syntax::text_tree;
use crate::layout_abstract_syntax::tokens_of;
use crate::layout_abstract_syntax::trees_of;
use crate::layout_abstract_syntax::AttributeToken;
use crate::layout_abstract_syntax::SyntaxNode;
use crate::layout_abstract_syntax::SyntaxTree;
use crate::layout_abstract_syntax::TokenView;

verus! {

/// Why a text is no markup. Positions are byte offsets from the start.
#[derive(Debug, PartialEq, Eq)]
pub enum ParseError {
    /// The text ends inside a tag or before every open element is closed, or
    /// holds no element at all.
    UnexpectedEnd,
    /// A closing tag names another element than the innermost open one: the
    /// tag that was expected, then the one that was found.
    MismatchedTag(Vec<u8>, Vec<u8>),
    /// The attribute that starts at this position has no name, no `=`, or a
    /// value that is not enclosed in double quotes.
    MalformedAttribute(usize),
    /// A second element starts after the root was closed.
    MultipleRoots,
    /// The byte at this position fits no rule of the grammar.
    UnexpectedCharacter(usize),
}

/// The mathematical value of a `ParseError`.
pub enum ParseFailure {
    UnexpectedEnd,
    MismatchedTag(Seq<u8>, Seq<u8>),
    MalformedAttribute(int),
    MultipleRoots,
    UnexpectedCharacter(int),
}

impl View for ParseError {
    type V = ParseFailure;

    open spec fn view(&self) -> ParseFailure {
        match *self {
            ParseError::UnexpectedEnd => ParseFailure::UnexpectedEnd,
            ParseError::MismatchedTag(expected, found) => ParseFailure::MismatchedTag(
                expected@,
                found@,
            ),
            ParseError::MalformedAttribute(at) => ParseFailure::MalformedAttribute(at as int),
            ParseError::MultipleRoots => ParseFailure::MultipleRoots,
            ParseError::UnexpectedCharacter(at) => ParseFailure::UnexpectedCharacter(at as int),
        }
    }
}

/// The state of the parser between two tokens.
pub struct Machine {
    /// The elements whose closing tag is still to come, outermost first.
    pub open: Seq<SyntaxTree>,
    /// The root, once it is closed.
    pub root: Option<SyntaxTree>,
}

/// What a tag holds after its name.
pub struct Header {
    pub attributes: Seq<TokenView>,
    /// Whether the tag ends in `/>`.
    pub self_closing: bool,
    /// The position after the tag.
    pub end: int,
}

/// Hands a finished node to the innermost open element, or makes it the root
/// where none is open.
pub open spec fn attach(m: Machine, node: SyntaxTree) -> Machine {
    if m.open.len() == 0 {
        Machine { open: m.open, root: Some(node) }
    } else {
        let top = m.open.last();
        Machine {
            open: m.open.drop_last().push(
                SyntaxTree {
                    tag: top.tag,
                    attributes: top.attributes,
                    children: top.children.push(node),
                },
            ),
            root: m.root,
        }
    }
}

/// Closes the innermost open element.
pub open spec fn close_top(m: Machine) -> Machine {
    attach(Machine { open: m.open.drop_last(), root: m.root }, m.open.last())
}

/// The attribute that starts at `at`, and the position after its closing
/// quote; `None` where the bytes at `at` are no attribute.
pub open spec fn spec_attribute(s: Seq<u8>, at: int) -> Option<(TokenView, int)> {
    let key_end = run_end(s, at, ByteClass::Name);
    let equals = run_end(s, key_end, ByteClass::Space);
    let quote = run_end(s, equals + 1, ByteClass::Space);
    let close = run_end(s, quote + 1, ByteClass::NotQuote);
    if key_end == at {
        None
    } else if equals >= s.len() || s[equals] != EQUALS_SIGN {
        None
    } else if quote >= s.len() || s[quote] != QUOTE {
        None
    } else if close >= s.len() {
        None
    } else {
        Some(
            (
                TokenView { key: s.subrange(at, key_end), raw_value: s.subrange(quote + 1, close) },
                close + 1,
            ),
        )
    }
}

/// The rest of an opening tag from `at` on, after the attributes in `seen`.
pub open spec fn spec_header(s: Seq<u8>, at: int, seen: Seq<TokenView>) -> Result<
    Header,
    ParseFailure,
>
    decreases s.len() - at,
{
    let j = run_end(s, at, ByteClass::Space);
    if j >= s.len() {
        Err(ParseFailure::UnexpectedEnd)
    } else if s[j] == GREATER_THAN {
        Ok(Header { attributes: seen, self_closing: false, end: j + 1 })
    } else if s[j] == SLASH {
        if j + 1 >= s.len() {
            Err(ParseFailure::UnexpectedEnd)
        } else if s[j + 1] == GREATER_THAN {
            Ok(Header { attributes: seen, self_closing: true, end: j + 2 })
        } else {
            Err(ParseFailure::UnexpectedCharacter(j + 1))
        }
    } else {
        match spec_attribute(s, j) {
            None => Err(ParseFailure::MalformedAttribute(j)),
            Some((token, next)) => spec_header(s, next, seen.push(token)),
        }
    }
}

/// A header ends after the place where it was looked for, and inside the text.
pub proof fn lemma_header_end(s: Seq<u8>, at: int, seen: Seq<TokenView>)
    requires
        0 <= at <= s.len(),
    ensures
        spec_header(s, at, seen) matches Ok(h) ==> at < h.end <= s.len(),
    decreases s.len() - at,
{
    let j = run_end(s, at, ByteClass::Space);
    lemma_run_end(s, at, ByteClass::Space);
    if j < s.len() && s[j] != GREATER_THAN && s[j] != SLASH {
        match spec_attribute(s, j) {
            None => {},
            Some((token, next)) => {
                lemma_attribute_end(s, j);
                lemma_header_end(s, next, seen.push(token));
            },
        }
    }
}

/// An attribute ends after the place where it starts, and inside the text.
pub proof fn lemma_attribute_end(s: Seq<u8>, at: int)
    requires
        0 <= at <= s.len(),
    ensures
        spec_attribute(s, at) matches Some((token, next)) ==> at < next <= s.len(),
{
    let key_end = run_end(s, at, ByteClass::Name);
    lemma_run_end(s, at, ByteClass::Name);
    let equals = run_end(s, key_end, ByteClass::Space);
    lemma_run_end(s, key_end, ByteClass::Space);
    if equals < s.len() {
        let quote = run_end(s, equals + 1, ByteClass::Space);
        lemma_run_end(s, equals + 1, ByteClass::Space);
        if quote < s.len() {
            lemma_run_end(s, quote + 1, ByteClass::NotQuote);
        }
    }
}

/// Runs the machine from position `at` to the end of the text.
pub open spec fn spec_run(s: Seq<u8>, at: int, m: Machine) -> Result<SyntaxTree, ParseFailure>
    decreases s.len() - at,
    when 0 <= at <= s.len()
    via spec_run_decreases
{
    let a = run_end(s, at, ByteClass::Space);
    if a >= s.len() {
        // The end: the root must be there, and nothing may be open.
        if m.open.len() == 0 && m.root is Some {
            Ok(m.root->0)
        } else {
            Err(ParseFailure::UnexpectedEnd)
        }
    } else if s[a] != LESS_THAN {
        // Text: it needs an element around it.
        if m.open.len() == 0 {
            Err(ParseFailure::UnexpectedCharacter(a))
        } else {
            let next = run_end(s, a, ByteClass::NotAngle);
            let run = s.subrange(a, trimmed_end(s, a, next));
            spec_run(s, next, attach(m, text_tree(run)))
        }
    } else if a + 1 < s.len() && s[a + 1] == SLASH {
        // A closing tag: it must name the innermost open element.
        let name_end = run_end(s, a + 2, ByteClass::Name);
        let j = run_end(s, name_end, ByteClass::Space);
        let found = s.subrange(a + 2, name_end);
        if m.open.len() == 0 {
            Err(ParseFailure::UnexpectedCharacter(a + 1))
        } else if j >= s.len() {
            Err(ParseFailure::UnexpectedEnd)
        } else if s[j] != GREATER_THAN {
            Err(ParseFailure::UnexpectedCharacter(j))
        } else if m.open.last().tag != found {
            Err(ParseFailure::MismatchedTag(m.open.last().tag, found))
        } else {
            spec_run(s, j + 1, close_top(m))
        }
    } else {
        // An opening tag.
        let name_end = run_end(s, a + 1, ByteClass::Name);
        if m.open.len() == 0 && m.root is Some {
            Err(ParseFailure::MultipleRoots)
        } else if name_end >= s.len() {
            Err(ParseFailure::UnexpectedEnd)
        } else if name_end == a + 1 {
            Err(ParseFailure::UnexpectedCharacter(name_end))
        } else {
            match spec_header(s, name_end, Seq::empty()) {
                Err(failure) => Err(failure),
                Ok(header) => {
                    let node = SyntaxTree {
                        tag: s.subrange(a + 1, name_end),
                        attributes: header.attributes,
                        children: Seq::empty(),
                    };
                    if header.self_closing {
                        spec_run(s, header.end, attach(m, node))
                    } else {
                        spec_run(
                            s,
                            header.end,
                            Machine { open: m.open.push(node), root: m.root },
                        )
                    }
                },
            }
        }
    }
}

#[via_fn]
proof fn spec_run_decreases(s: Seq<u8>, at: int, m: Machine) {
    let a = run_end(s, at, ByteClass::Space);
    lemma_run_end(s, at, ByteClass::Space);
    if a < s.len() {
        lemma_run_end(s, a, ByteClass::NotAngle);
        lemma_run_end(s, a + 1, ByteClass::Name);
        if a + 1 < s.len() {
            lemma_run_end(s, a + 2, ByteClass::Name);
            lemma_run_end(s, run_end(s, a + 2, ByteClass::Name), ByteClass::Space);
        }
        let name_end = run_end(s, a + 1, ByteClass::Name);
        lemma_header_end(s, name_end, Seq::empty());
    }
}

/// The tree that a text denotes, or the first error in it.
pub open spec fn spec_parse(s: Seq<u8>) -> Result<SyntaxTree, ParseFailure> {
    spec_run(s, 0, Machine { open: Seq::empty(), root: None })
}

/// The machine that the parser's variables stand for.
pub open spec fn machine_of(open: Seq<SyntaxNode>, root: Option<SyntaxNode>) -> Machine {
    Machine {
        open: trees_of(open),
        root: match root {
            Some(node) => Some(node@),
            None => None,
        },
    }
}

fn attach_node(open: &mut Vec<SyntaxNode>, root: &mut Option<SyntaxNode>, node: SyntaxNode)
    ensures
        machine_of(final(open)@, *final(root)) == attach(machine_of(old(open)@, *old(root)), node@),
{
    let ghost before = machine_of(open@, *root);
    match open.pop() {
        None => {
            *root = Some(node);
            assert(trees_of(open@) =~= before.open);
        },
        Some(top) => {
            let mut top = top;
            let ghost top_before = top;
            top.children.push(node);
            proof {
                lemma_push_child(top_before, top, node);
            }
            open.push(top);
            assert(trees_of(open@) =~= attach(before, node@).open);
        },
    }
}

fn parse_attribute(markup: &[u8], at: usize) -> (r: Option<(AttributeToken, usize)>)
    requires
        at <= markup.len(),
    ensures
        match r {
            Some((token, next)) => spec_attribute(markup@, at as int) == Some((token@, next as int))
                && at < next <= markup.len(),
            None => spec_attribute(markup@, at as int) is None,
        },
{
    let key_end = scan(markup, at, ByteClass::Name);
    if key_end == at {
        return None;
    }
    let equals = scan(markup, key_end, ByteClass::Space);
    if equals >= markup.len() || markup[equals] != EQUALS_SIGN {
        return None;
    }
    let quote = scan(markup, equals + 1, ByteClass::Space);
    if quote >= markup.len() || markup[quote] != QUOTE {
        return None;
    }
    let close = scan(markup, quote + 1, ByteClass::NotQuote);
    if close >= markup.len() {
        return None;
    }
    let token = AttributeToken {
        key: copy_range(markup, at, key_end),
        raw_value: copy_range(markup, quote + 1, close),
    };
    Some((token, close + 1))
}

fn parse_header(markup: &[u8], at: usize) -> (r: Result<(Vec<AttributeToken>, bool, usize), ParseError>)
    requires
        at <= markup.len(),
    ensures
        match r {
            Ok((attributes, self_closing, end)) => spec_header(markup@, at as int, Seq::empty())
                == Ok::<Header, ParseFailure>(
                Header { attributes: tokens_of(attributes@), self_closing, end: end as int },
            ) && at < end <= markup.len(),
            Err(error) => spec_header(markup@, at as int, Seq::empty()) == Err::<
                Header,
                ParseFailure,
            >(error@),
        },
{
    let mut attributes: Vec<AttributeToken> = Vec::new();
    let mut cursor: usize = at;
    assert(tokens_of(attributes@) =~= Seq::empty());
    loop
        invariant
            at <= cursor <= markup.len(),
            spec_header(markup@, at as int, Seq::empty()) == spec_header(
                markup@,
                cursor as int,
                tokens_of(attributes@),
            ),
        decreases markup.len() - cursor,
    {
        let j = scan(markup, cursor, ByteClass::Space);
        if j >= markup.len() {
            return Err(ParseError::UnexpectedEnd);
        }
        if markup[j] == GREATER_THAN {
            return Ok((attributes, false, j + 1));
        }
        if markup[j] == SLASH {
            if j + 1 >= markup.len() {
                return Err(ParseError::UnexpectedEnd);
            }
            if markup[j + 1] == GREATER_THAN {
                return Ok((attributes, true, j + 2));
            }
            return Err(ParseError::UnexpectedCharacter(j + 1));
        }
        match parse_attribute(markup, j) {
            None => {
                return Err(ParseError::MalformedAttribute(j));
            },
            Some((token, next)) => {
                let ghost seen = tokens_of(attributes@);
                attributes.push(token);
                assert(tokens_of(attributes@) =~= seen.push(token@));
                cursor = next;
            },
        }
    }
}

/// Parses a window description.
pub fn parse(markup: &[u8]) -> (r: Result<SyntaxNode, ParseError>)
    ensures
        match r {
            Ok(node) => spec_parse(markup@) == Ok::<SyntaxTree, ParseFailure>(node@),
            Err(error) => spec_parse(markup@) == Err::<SyntaxTree, ParseFailure>(error@),
        },
{
    let mut open: Vec<SyntaxNode> = Vec::new();
    let mut root: Option<SyntaxNode> = None;
    let mut at: usize = 0;
    assert(trees_of(open@) =~= Seq::empty());
    loop
        invariant
            at <= markup.len(),
            spec_parse(markup@) == spec_run(markup@, at as int, machine_of(open@, root)),
        decreases markup.len() - at,
    {
        let ghost s = markup@;
        let ghost m = machine_of(open@, root);
        let a = scan(markup, at, ByteClass::Space);
        if a >= markup.len() {
            if open.len() == 0 {
                match root {
                    Some(node) => {
                        return Ok(node);
                    },
                    None => {},
                }
            }
            return Err(ParseError::UnexpectedEnd);
        }
        if markup[a] != LESS_THAN {
            if open.len() == 0 {
                return Err(ParseError::UnexpectedCharacter(a));
            }
            let next = scan(markup, a, ByteClass::NotAngle);
            let end = scan_back(markup, a, next);
            proof {
                lemma_run_end(s, a as int, ByteClass::NotAngle);
            }
            let node = SyntaxNode::text(copy_range(markup, a, end));
            attach_node(&mut open, &mut root, node);
            at = next;
        } else if a + 1 < markup.len() && markup[a + 1] == SLASH {
            if open.len() == 0 {
                return Err(ParseError::UnexpectedCharacter(a + 1));
            }
            let name_end = scan(markup, a + 2, ByteClass::Name);
            let j = scan(markup, name_end, ByteClass::Space);
            if j >= markup.len() {
                return Err(ParseError::UnexpectedEnd);
            }
            if markup[j] != GREATER_THAN {
                return Err(ParseError::UnexpectedCharacter(j));
            }
            let top = open.pop().unwrap();
            assert(top@ == m.open.last());
            assert(trees_of(open@) =~= m.open.drop_last());
            if !same_bytes(top.tag.as_slice(), slice_subrange(markup, a + 2, name_end)) {
                return Err(
                    ParseError::MismatchedTag(top.tag, copy_range(markup, a + 2, name_end)),
                );
            }
            attach_node(&mut open, &mut root, top);
            at = j + 1;
        } else {
            if open.len() == 0 && root.is_some() {
                return Err(ParseError::MultipleRoots);
            }
            let name_end = scan(markup, a + 1, ByteClass::Name);
            if name_end >= markup.len() {
                return Err(ParseError::UnexpectedEnd);
            }
            if name_end == a + 1 {
                return Err(ParseError::UnexpectedCharacter(name_end));
            }
            match parse_header(markup, name_end) {
                Err(error) => {
                    return Err(error);
                },
                Ok((attributes, self_closing, end)) => {
                    let node = SyntaxNode::leaf(copy_range(markup, a + 1, name_end), attributes);
                    if self_closing {
                        attach_node(&mut open, &mut root, node);
                    } else {
                        open.push(node);
                        assert(trees_of(open@) =~= m.open.push(node@));
                    }
                    at = end;
                },
            }
        }
    }
}

} // verus!
