//! The written form of a syntax tree, and the law that ties the parser to it:
//! parsing what was written gives the tree back.

use vstd::prelude::*;
use crate::ascii::is_space;
use crate::ascii::lemma_lit;
use crate::ascii::lemma_run_end;
use crate::ascii::lemma_trimmed_end;
use crate::ascii::run_end;
use crate::ascii::trimmed_end;
use crate::ascii::ByteClass;
use crate::ascii::EQUALS_SIGN;
use crate::ascii::GREATER_THAN;
use crate::ascii::LESS_THAN;
use crate::ascii::QUOTE;
use crate::ascii::SLASH;
use crate::ascii::SPACE;
use crate::layout_abstract_syntax::text_tag;
use crate::layout_abstract_syntax::text_tree;
use crate::layout_abstract_syntax::SyntaxTree;
use crate::layout_abstract_syntax::TokenView;
use crate::layout_attribute_parser::attach;
use crate::layout_attribute_parser::close_top;
use crate::layout_attribute_parser::lemma_attribute_end;
use crate::layout_attribute_parser::lemma_header_end;
use crate::layout_attribute_parser::spec_attribute;
use crate::layout_attribute_parser::spec_header;
use crate::layout_attribute_parser::spec_parse;
use crate::layout_attribute_parser::spec_run;
use crate::layout_attribute_parser::Header;
use crate::layout_attribute_parser::Machine;
use crate::layout_attribute_parser::ParseFailure;

verus! {

/// Whether every byte of `s` is of `class`.
pub open spec fn all_of(s: Seq<u8>, class: ByteClass) -> bool {
    forall|i: int| 0 <= i < s.len() ==> class.holds(#[trigger] s[i])
}

/// Whether `s` can be written as the name of an element or an attribute.
pub open spec fn is_name(s: Seq<u8>) -> bool {
    s.len() > 0 && all_of(s, ByteClass::Name)
}

/// Whether `s` can be written as text between tags: it is not empty, holds
/// no `<`, and neither starts nor ends with whitespace.
pub open spec fn is_text_run(s: Seq<u8>) -> bool {
    s.len() > 0 && all_of(s, ByteClass::NotAngle) && !is_space(s[0]) && !is_space(s.last())
}

/// Whether an attribute can be written: its key is a name, and its value
/// holds no `"`.
pub open spec fn writable_attribute(token: TokenView) -> bool {
    is_name(token.key) && all_of(token.raw_value, ByteClass::NotQuote)
}

/// Whether a tree can be written so that it is read back as it is. A run of
/// text is a text node; an element has a name for its tag, writable
/// attributes and writable children, of which no two runs of text are
/// neighbours (they would be read as one).
pub open spec fn writable(tree: SyntaxTree) -> bool
    decreases tree,
{
    if tree.tag == text_tag() {
        tree.attributes.len() == 1 && is_text_run(tree.attributes[0].raw_value) && tree
            == text_tree(tree.attributes[0].raw_value)
    } else {
        &&& is_name(tree.tag)
        &&& forall|i: int|
            0 <= i < tree.attributes.len() ==> writable_attribute(#[trigger] tree.attributes[i])
        &&& forall|i: int| 0 <= i < tree.children.len() ==> writable(#[trigger] tree.children[i])
        &&& forall|i: int|
            0 <= i < tree.children.len() - 1 && (#[trigger] tree.children[i]).tag == text_tag()
                ==> tree.children[i + 1].tag != text_tag()
    }
}

/// One attribute as it is written: a space, the key, `="`, the value, `"`.
pub open spec fn render_attribute(token: TokenView) -> Seq<u8> {
    seq![SPACE] + token.key + seq![EQUALS_SIGN, QUOTE] + token.raw_value + seq![QUOTE]
}

/// The attributes of a tag as they are written, from the one at `from` on.
pub open spec fn render_attributes(attributes: Seq<TokenView>, from: int) -> Seq<u8>
    decreases attributes.len() - from,
{
    if from < 0 || from >= attributes.len() {
        Seq::empty()
    } else {
        render_attribute(attributes[from]) + render_attributes(attributes, from + 1)
    }
}

/// The end of an opening tag: `/>` or `>`.
pub open spec fn render_tag_end(self_closing: bool) -> Seq<u8> {
    if self_closing {
        seq![SLASH, GREATER_THAN]
    } else {
        seq![GREATER_THAN]
    }
}

/// The closing tag of an element.
pub open spec fn render_closing(tag: Seq<u8>) -> Seq<u8> {
    seq![LESS_THAN, SLASH] + tag + seq![GREATER_THAN]
}

/// The opening tag of an element.
pub open spec fn render_opening(tree: SyntaxTree) -> Seq<u8> {
    seq![LESS_THAN] + tree.tag + render_attributes(tree.attributes, 0) + render_tag_end(
        tree.children.len() == 0,
    )
}

/// A tree as it is written, without any whitespace between tags: a run of
/// text as it is, an element without children as one self-closing tag, any
/// other element as its opening tag, its children and its closing tag.
pub open spec fn render(tree: SyntaxTree) -> Seq<u8>
    decreases tree, 0int,
{
    if tree.tag == text_tag() {
        if tree.attributes.len() > 0 {
            tree.attributes[0].raw_value
        } else {
            Seq::empty()
        }
    } else if tree.children.len() == 0 {
        render_opening(tree)
    } else {
        render_opening(tree) + render_children(tree.children, 0) + render_closing(tree.tag)
    }
}

/// The children from the one at `from` on as they are written, one after the
/// other.
pub open spec fn render_children(children: Seq<SyntaxTree>, from: int) -> Seq<u8>
    decreases children, children.len() - from,
{
    if from < 0 || from >= children.len() {
        Seq::empty()
    } else {
        render(children[from]) + render_children(children, from + 1)
    }
}

/// The machine in which `tree` is open with the first `count` of its
/// children, above what is open in `m`.
pub open spec fn opened(m: Machine, tree: SyntaxTree, count: int) -> Machine {
    Machine {
        open: m.open.push(
            SyntaxTree {
                tag: tree.tag,
                attributes: tree.attributes,
                children: tree.children.subrange(0, count),
            },
        ),
        root: m.root,
    }
}

/// Whether `part` stands in `s` at position `at`.
pub open spec fn stands_at(s: Seq<u8>, at: int, part: Seq<u8>) -> bool {
    0 <= at && at + part.len() <= s.len() && s.subrange(at, at + part.len()) == part
}

proof fn lemma_stands_split(s: Seq<u8>, at: int, first: Seq<u8>, second: Seq<u8>)
    requires
        stands_at(s, at, first + second),
    ensures
        stands_at(s, at, first),
        stands_at(s, at + first.len(), second),
{
    let whole = first + second;
    let part = s.subrange(at, at + whole.len());
    assert forall|i: int| 0 <= i < first.len() implies s[at + i] == first[i] by {
        assert(part[i] == whole[i]);
    }
    assert(s.subrange(at, at + first.len()) =~= first);
    assert forall|i: int| 0 <= i < second.len() implies s[at + first.len() + i] == second[i] by {
        assert(part[first.len() + i] == whole[first.len() + i]);
    }
    assert(s.subrange(at + first.len(), at + first.len() + second.len()) =~= second);
}

proof fn lemma_stands_byte(s: Seq<u8>, at: int, part: Seq<u8>, i: int)
    requires
        stands_at(s, at, part),
        0 <= i < part.len(),
    ensures
        s[at + i] == part[i],
{
    assert(s.subrange(at, at + part.len())[i] == part[i]);
}

/// A run of bytes of one class that is followed by a byte of another, or by
/// the end, is run over in one go.
proof fn lemma_run_over(s: Seq<u8>, at: int, part: Seq<u8>, class: ByteClass)
    requires
        stands_at(s, at, part),
        all_of(part, class),
        at + part.len() == s.len() || !class.holds(s[at + part.len()]),
    ensures
        run_end(s, at, class) == at + part.len(),
    decreases part.len(),
{
    if part.len() > 0 {
        lemma_stands_byte(s, at, part, 0);
        let rest = part.drop_first();
        assert(s.subrange(at + 1, at + 1 + rest.len()) =~= rest) by {
            assert forall|i: int| 0 <= i < rest.len() implies s[at + 1 + i] == rest[i] by {
                lemma_stands_byte(s, at, part, i + 1);
            }
        }
        assert(all_of(rest, class)) by {
            assert forall|i: int| 0 <= i < rest.len() implies class.holds(#[trigger] rest[i]) by {
                assert(rest[i] == part[i + 1]);
            }
        }
        lemma_run_over(s, at + 1, rest, class);
    }
}

/// A written attribute is read as the attribute.
proof fn lemma_read_attribute(s: Seq<u8>, at: int, token: TokenView, rest: Seq<u8>)
    requires
        writable_attribute(token),
        stands_at(s, at, render_attribute(token) + rest),
    ensures
        run_end(s, at, ByteClass::Space) == at + 1,
        s[at + 1] != GREATER_THAN && s[at + 1] != SLASH,
        spec_attribute(s, at + 1) == Some((token, at + render_attribute(token).len())),
        stands_at(s, at + render_attribute(token).len(), rest),
{
    let written = render_attribute(token);
    lemma_stands_split(s, at, written, rest);
    let key = token.key;
    let value = token.raw_value;
    let key_at = at + 1;
    let equals = key_at + key.len();
    let quote = equals + 1;
    let value_at = quote + 1;
    let close = value_at + value.len();
    assert(written.len() == close + 1 - at);
    assert forall|i: int| 0 <= i < written.len() implies s[at + i] == written[i] by {
        lemma_stands_byte(s, at, written, i);
    }
    assert(s[at] == SPACE) by {
        assert(written[0] == SPACE);
    }
    assert(s[equals] == EQUALS_SIGN) by {
        assert(written[equals - at] == EQUALS_SIGN);
    }
    assert(s[quote] == QUOTE) by {
        assert(written[quote - at] == QUOTE);
    }
    assert(s[close] == QUOTE) by {
        assert(written[close - at] == QUOTE);
    }
    assert(s.subrange(key_at, equals) =~= key) by {
        assert forall|i: int| 0 <= i < key.len() implies s[key_at + i] == key[i] by {
            assert(written[1 + i] == key[i]);
        }
    }
    assert(s.subrange(value_at, close) =~= value) by {
        assert forall|i: int| 0 <= i < value.len() implies s[value_at + i] == value[i] by {
            assert(written[value_at - at + i] == value[i]);
        }
    }
    assert(s[key_at] == key[0]);
    assert(ByteClass::Name.holds(key[0]));
    assert(s.subrange(at, at + 1) =~= seq![SPACE]);
    lemma_run_over(s, at, seq![SPACE], ByteClass::Space);
    lemma_run_over(s, key_at, key, ByteClass::Name);
    assert(run_end(s, equals, ByteClass::Space) == equals);
    assert(run_end(s, quote, ByteClass::Space) == quote);
    lemma_run_over(s, value_at, value, ByteClass::NotQuote);
}

/// The written attributes and the end of the tag are read as the header.
proof fn lemma_read_header(
    s: Seq<u8>,
    at: int,
    attributes: Seq<TokenView>,
    from: int,
    self_closing: bool,
)
    requires
        0 <= from <= attributes.len(),
        forall|i: int| 0 <= i < attributes.len() ==> writable_attribute(#[trigger] attributes[i]),
        stands_at(s, at, render_attributes(attributes, from) + render_tag_end(self_closing)),
    ensures
        spec_header(s, at, attributes.subrange(0, from)) == Ok::<Header, ParseFailure>(
            Header {
                attributes,
                self_closing,
                end: at + render_attributes(attributes, from).len() + render_tag_end(
                    self_closing,
                ).len(),
            },
        ),
    decreases attributes.len() - from,
{
    let end = render_tag_end(self_closing);
    if from == attributes.len() {
        assert(render_attributes(attributes, from) + end =~= end);
        assert(attributes.subrange(0, from) =~= attributes);
        lemma_stands_byte(s, at, end, 0);
        if self_closing {
            lemma_stands_byte(s, at, end, 1);
        }
        assert(run_end(s, at, ByteClass::Space) == at);
    } else {
        let token = attributes[from];
        let later = render_attributes(attributes, from + 1) + end;
        assert(render_attributes(attributes, from) + end =~= render_attribute(token) + later);
        lemma_read_attribute(s, at, token, later);
        lemma_read_header(s, at + render_attribute(token).len(), attributes, from + 1, self_closing);
        assert(attributes.subrange(0, from).push(token) =~= attributes.subrange(0, from + 1));
    }
}

/// A written element starts with `<`, and a written run of text with a byte
/// that is neither `<` nor whitespace.
proof fn lemma_first_byte(tree: SyntaxTree)
    requires
        writable(tree),
    ensures
        render(tree).len() > 0,
        tree.tag != text_tag() ==> render(tree)[0] == LESS_THAN,
        tree.tag == text_tag() ==> render(tree)[0] != LESS_THAN && !is_space(render(tree)[0]),
{
    if tree.tag == text_tag() {
        let run = tree.attributes[0].raw_value;
        assert(ByteClass::NotAngle.holds(run[0]));
    } else {
        assert(render_opening(tree)[0] == LESS_THAN);
    }
}

/// The byte after the name of a written opening tag is no byte of a name.
proof fn lemma_after_name(attributes: Seq<TokenView>, self_closing: bool)
    ensures
        (render_attributes(attributes, 0) + render_tag_end(self_closing)).len() > 0,
        !ByteClass::Name.holds((render_attributes(attributes, 0) + render_tag_end(self_closing))[0]),
{
    let end = render_tag_end(self_closing);
    if attributes.len() == 0 {
        assert(render_attributes(attributes, 0) + end =~= end);
    } else {
        assert(render_attribute(attributes[0])[0] == SPACE);
    }
}

/// A written tree is read as the tree: the machine that meets it comes out
/// with the tree attached, at the position after it.
proof fn lemma_read_tree(s: Seq<u8>, at: int, m: Machine, tree: SyntaxTree)
    requires
        writable(tree),
        stands_at(s, at, render(tree)),
        tree.tag != text_tag() ==> m.open.len() > 0 || m.root is None,
        tree.tag == text_tag() ==> m.open.len() > 0 && at + render(tree).len() < s.len() && s[at
            + render(tree).len()] == LESS_THAN,
    ensures
        spec_run(s, at, m) == spec_run(s, at + render(tree).len(), attach(m, tree)),
    decreases tree, 0int,
{
    let written = render(tree);
    lemma_first_byte(tree);
    lemma_stands_byte(s, at, written, 0);
    assert(run_end(s, at, ByteClass::Space) == at);
    if tree.tag == text_tag() {
        let run = tree.attributes[0].raw_value;
        let next = at + run.len();
        lemma_run_over(s, at, run, ByteClass::NotAngle);
        lemma_stands_byte(s, at, run, run.len() - 1);
        assert(trimmed_end(s, at, next) == next);
    } else {
        let tag = tree.tag;
        let self_closing = tree.children.len() == 0;
        let header = render_attributes(tree.attributes, 0) + render_tag_end(self_closing);
        let opening = render_opening(tree);
        let body = render_children(tree.children, 0) + render_closing(tag);
        assert(opening =~= seq![LESS_THAN] + tag + header);
        if self_closing {
            assert(written =~= seq![LESS_THAN] + (tag + header));
        } else {
            assert(written =~= (seq![LESS_THAN] + (tag + header)) + body);
            lemma_stands_split(s, at, seq![LESS_THAN] + (tag + header), body);
        }
        lemma_stands_split(s, at, seq![LESS_THAN], tag + header);
        lemma_stands_split(s, at + 1, tag, header);
        let name_end = at + 1 + tag.len();
        lemma_after_name(tree.attributes, self_closing);
        lemma_stands_byte(s, name_end, header, 0);
        lemma_stands_byte(s, at + 1, tag, 0);
        assert(ByteClass::Name.holds(tag[0]));
        lemma_run_over(s, at + 1, tag, ByteClass::Name);
        assert(tree.attributes.subrange(0, 0) =~= Seq::<TokenView>::empty());
        lemma_read_header(s, name_end, tree.attributes, 0, self_closing);
        let end = at + opening.len();
        let node = SyntaxTree { tag, attributes: tree.attributes, children: Seq::empty() };
        assert(s.subrange(at + 1, name_end) == tag);
        if self_closing {
            assert(tree.children =~= Seq::<SyntaxTree>::empty());
            assert(node == tree);
        } else {
            assert(tree.children.subrange(0, 0) =~= Seq::<SyntaxTree>::empty());
            assert(opened(m, tree, 0) == (Machine { open: m.open.push(node), root: m.root }));
            lemma_read_children(s, end, m, tree, 0);
            assert(written.len() == opening.len() + body.len());
        }
    }
}

/// The written children of an element, from the one at `from` on, and its
/// closing tag are read as the rest of the element.
proof fn lemma_read_children(s: Seq<u8>, at: int, m: Machine, tree: SyntaxTree, from: int)
    requires
        writable(tree),
        tree.tag != text_tag(),
        0 <= from <= tree.children.len(),
        stands_at(s, at, render_children(tree.children, from) + render_closing(tree.tag)),
    ensures
        spec_run(s, at, opened(m, tree, from)) == spec_run(
            s,
            at + render_children(tree.children, from).len() + render_closing(tree.tag).len(),
            attach(m, tree),
        ),
    decreases tree.children, tree.children.len() - from,
{
    let tag = tree.tag;
    let closing = render_closing(tag);
    let now = opened(m, tree, from);
    if from == tree.children.len() {
        assert(render_children(tree.children, from) + closing =~= closing);
        assert(closing =~= seq![LESS_THAN, SLASH] + (tag + seq![GREATER_THAN]));
        lemma_stands_split(s, at, seq![LESS_THAN, SLASH], tag + seq![GREATER_THAN]);
        lemma_stands_split(s, at + 2, tag, seq![GREATER_THAN]);
        lemma_stands_byte(s, at, seq![LESS_THAN, SLASH], 0);
        lemma_stands_byte(s, at, seq![LESS_THAN, SLASH], 1);
        let name_end = at + 2 + tag.len();
        lemma_stands_byte(s, name_end, seq![GREATER_THAN], 0);
        assert(run_end(s, at, ByteClass::Space) == at);
        lemma_run_over(s, at + 2, tag, ByteClass::Name);
        assert(run_end(s, name_end, ByteClass::Space) == name_end);
        assert(tree.children.subrange(0, from) =~= tree.children);
        assert(now.open.last() == tree);
        assert(now.open.drop_last() =~= m.open);
        assert(close_top(now) == attach(m, tree));
    } else {
        let child = tree.children[from];
        let later = render_children(tree.children, from + 1) + closing;
        assert(render_children(tree.children, from) + closing =~= render(child) + later);
        lemma_stands_split(s, at, render(child), later);
        let next = at + render(child).len();
        if child.tag == text_tag() {
            // After a run of text comes a tag: the next child is an element,
            // or the element is closed.
            if from + 1 == tree.children.len() {
                assert(later =~= closing);
                assert(closing[0] == LESS_THAN);
            } else {
                lemma_first_byte(tree.children[from + 1]);
                assert(later[0] == render(tree.children[from + 1])[0]);
            }
            lemma_stands_byte(s, next, later, 0);
        }
        lemma_read_tree(s, at, now, child);
        assert(attach(now, child) == opened(m, tree, from + 1)) by {
            assert(tree.children.subrange(0, from).push(child) =~= tree.children.subrange(
                0,
                from + 1,
            ));
            assert(now.open.drop_last() =~= m.open);
        }
        lemma_read_children(s, next, m, tree, from + 1);
    }
}

/// Parsing what was written gives the tree back: for every writable element,
/// the parser accepts its written form and returns the element itself.
pub proof fn lemma_parse_written(tree: SyntaxTree)
    requires
        writable(tree),
        tree.tag != text_tag(),
    ensures
        spec_parse(render(tree)) == Ok::<SyntaxTree, ParseFailure>(tree),
{
    let s = render(tree);
    let start = Machine { open: Seq::empty(), root: None };
    assert(s.subrange(0, s.len() as int) =~= s);
    lemma_read_tree(s, 0, start, tree);
    assert(run_end(s, s.len() as int, ByteClass::Space) == s.len());
}

/// The tag of a run of text is no name: no element can be taken for text.
pub proof fn lemma_text_tag_is_no_name()
    ensures
        !is_name(text_tag()),
{
    reveal_strlit("#text");
    lemma_lit("#text");
    assert(text_tag()[0] == 0x23);
    assert(!ByteClass::Name.holds(text_tag()[0]));
}

/// Whether an element can take `node` as its next child and stay writable.
pub open spec fn takes(parent: SyntaxTree, node: SyntaxTree) -> bool {
    node.tag == text_tag() ==> !ends_with_text(parent)
}

/// Whether the last child of a node is a run of text.
pub open spec fn ends_with_text(node: SyntaxTree) -> bool {
    node.children.len() > 0 && node.children.last().tag == text_tag()
}

/// What holds of the machine whenever the parser is between two tokens:
/// everything it holds is a writable element, and after a run of text comes
/// a tag or the end.
pub open spec fn steady(s: Seq<u8>, at: int, m: Machine) -> bool {
    &&& forall|i: int|
        0 <= i < m.open.len() ==> writable(#[trigger] m.open[i]) && m.open[i].tag != text_tag()
    &&& m.root matches Some(root) ==> writable(root) && root.tag != text_tag()
    &&& m.open.len() > 0 && ends_with_text(m.open.last()) ==> at >= s.len() || s[at] == LESS_THAN
}

proof fn lemma_attach_writable(m: Machine, node: SyntaxTree)
    requires
        forall|i: int|
            0 <= i < m.open.len() ==> writable(#[trigger] m.open[i]) && m.open[i].tag != text_tag(),
        m.root matches Some(root) ==> writable(root) && root.tag != text_tag(),
        writable(node),
        m.open.len() > 0 ==> takes(m.open.last(), node),
        m.open.len() == 0 ==> node.tag != text_tag(),
    ensures
        forall|i: int|
            0 <= i < attach(m, node).open.len() ==> writable(#[trigger] attach(m, node).open[i])
                && attach(m, node).open[i].tag != text_tag(),
        attach(m, node).root matches Some(root) ==> writable(root) && root.tag != text_tag(),
        attach(m, node).open.len() == m.open.len(),
        m.open.len() > 0 ==> attach(m, node).open.last().children.last() == node && attach(
            m,
            node,
        ).open.last().children.len() > 0,
{
    let after = attach(m, node);
    if m.open.len() > 0 {
        let top = m.open.last();
        let grown = after.open.last();
        assert(writable(top));
        assert(grown.children =~= top.children.push(node));
        assert forall|i: int| 0 <= i < grown.children.len() implies writable(
            #[trigger] grown.children[i],
        ) by {
            if i < top.children.len() {
                assert(grown.children[i] == top.children[i]);
            }
        }
        assert forall|i: int|
            0 <= i < grown.children.len() - 1 && (#[trigger] grown.children[i]).tag
                == text_tag() implies grown.children[i + 1].tag != text_tag() by {
            if i + 1 < top.children.len() {
                assert(grown.children[i] == top.children[i]);
                assert(grown.children[i + 1] == top.children[i + 1]);
            } else {
                assert(grown.children[i] == top.children.last());
            }
        }
        assert(writable(grown));
        assert forall|i: int| 0 <= i < after.open.len() implies writable(#[trigger] after.open[i])
            && after.open[i].tag != text_tag() by {
            if i < m.open.len() - 1 {
                assert(after.open[i] == m.open[i]);
            }
        }
    }
}

proof fn lemma_attribute_writable(s: Seq<u8>, at: int)
    requires
        0 <= at <= s.len(),
    ensures
        spec_attribute(s, at) matches Some((token, next)) ==> writable_attribute(token),
{
    match spec_attribute(s, at) {
        None => {},
        Some((token, next)) => {
            let key_end = run_end(s, at, ByteClass::Name);
            lemma_run_end(s, at, ByteClass::Name);
            let equals = run_end(s, key_end, ByteClass::Space);
            lemma_run_end(s, key_end, ByteClass::Space);
            let quote = run_end(s, equals + 1, ByteClass::Space);
            lemma_run_end(s, equals + 1, ByteClass::Space);
            let close = run_end(s, quote + 1, ByteClass::NotQuote);
            lemma_run_end(s, quote + 1, ByteClass::NotQuote);
            assert forall|i: int| 0 <= i < token.key.len() implies ByteClass::Name.holds(
                #[trigger] token.key[i],
            ) by {
                assert(token.key[i] == s[at + i]);
            }
            assert forall|i: int|
                0 <= i < token.raw_value.len() implies ByteClass::NotQuote.holds(
                #[trigger] token.raw_value[i],
            ) by {
                assert(token.raw_value[i] == s[quote + 1 + i]);
            }
        },
    }
}

proof fn lemma_header_writable(s: Seq<u8>, at: int, seen: Seq<TokenView>)
    requires
        0 <= at <= s.len(),
        forall|i: int| 0 <= i < seen.len() ==> writable_attribute(#[trigger] seen[i]),
    ensures
        spec_header(s, at, seen) matches Ok(header) ==> forall|i: int|
            0 <= i < header.attributes.len() ==> writable_attribute(#[trigger] header.attributes[i]),
    decreases s.len() - at,
{
    let j = run_end(s, at, ByteClass::Space);
    lemma_run_end(s, at, ByteClass::Space);
    if j < s.len() && s[j] != GREATER_THAN && s[j] != SLASH {
        match spec_attribute(s, j) {
            None => {},
            Some((token, next)) => {
                lemma_attribute_end(s, j);
                lemma_attribute_writable(s, j);
                let more = seen.push(token);
                assert forall|i: int| 0 <= i < more.len() implies writable_attribute(
                    #[trigger] more[i],
                ) by {
                    if i < seen.len() {
                        assert(more[i] == seen[i]);
                    }
                }
                lemma_header_writable(s, next, more);
            },
        }
    }
}

proof fn lemma_run_writable(s: Seq<u8>, at: int, m: Machine)
    requires
        0 <= at <= s.len(),
        steady(s, at, m),
    ensures
        spec_run(s, at, m) matches Ok(tree) ==> writable(tree) && tree.tag != text_tag(),
    decreases s.len() - at,
{
    lemma_text_tag_is_no_name();
    let a = run_end(s, at, ByteClass::Space);
    lemma_run_end(s, at, ByteClass::Space);
    if a >= s.len() {
    } else if s[a] != LESS_THAN {
        if m.open.len() > 0 {
            let next = run_end(s, a, ByteClass::NotAngle);
            lemma_run_end(s, a, ByteClass::NotAngle);
            let end = trimmed_end(s, a, next);
            lemma_trimmed_end(s, a, next);
            assert(ByteClass::NotAngle.holds(s[a]));
            assert(next > a);
            assert(end > a) by {
                if end == a {
                    assert(is_space(s[a]));
                }
            }
            let run = s.subrange(a, end);
            assert(is_text_run(run)) by {
                assert forall|i: int| 0 <= i < run.len() implies ByteClass::NotAngle.holds(
                    #[trigger] run[i],
                ) by {
                    assert(run[i] == s[a + i]);
                }
                assert(run[0] == s[a]);
                assert(run.last() == s[end - 1]);
            }
            let node = text_tree(run);
            assert(writable(node));
            assert(!ends_with_text(m.open.last())) by {
                if ends_with_text(m.open.last()) {
                    if at < s.len() {
                        assert(!ByteClass::Space.holds(s[at]));
                        assert(a == at);
                    }
                }
            }
            lemma_attach_writable(m, node);
            lemma_run_writable(s, next, attach(m, node));
        }
    } else if a + 1 < s.len() && s[a + 1] == SLASH {
        let name_end = run_end(s, a + 2, ByteClass::Name);
        lemma_run_end(s, a + 2, ByteClass::Name);
        let j = run_end(s, name_end, ByteClass::Space);
        lemma_run_end(s, name_end, ByteClass::Space);
        if m.open.len() > 0 && j < s.len() && s[j] == GREATER_THAN && m.open.last().tag == s.subrange(
            a + 2,
            name_end,
        ) {
            let below = Machine { open: m.open.drop_last(), root: m.root };
            let node = m.open.last();
            assert forall|i: int| 0 <= i < below.open.len() implies writable(
                #[trigger] below.open[i],
            ) && below.open[i].tag != text_tag() by {
                assert(below.open[i] == m.open[i]);
            }
            lemma_attach_writable(below, node);
            lemma_run_writable(s, j + 1, close_top(m));
        }
    } else {
        let name_end = run_end(s, a + 1, ByteClass::Name);
        lemma_run_end(s, a + 1, ByteClass::Name);
        if !(m.open.len() == 0 && m.root is Some) && name_end < s.len() && name_end != a + 1 {
            lemma_header_end(s, name_end, Seq::empty());
            lemma_header_writable(s, name_end, Seq::empty());
            match spec_header(s, name_end, Seq::empty()) {
                Err(_) => {},
                Ok(header) => {
                    let tag = s.subrange(a + 1, name_end);
                    assert(is_name(tag)) by {
                        assert forall|i: int| 0 <= i < tag.len() implies ByteClass::Name.holds(
                            #[trigger] tag[i],
                        ) by {
                            assert(tag[i] == s[a + 1 + i]);
                        }
                    }
                    let node = SyntaxTree {
                        tag,
                        attributes: header.attributes,
                        children: Seq::empty(),
                    };
                    assert(writable(node));
                    if header.self_closing {
                        lemma_attach_writable(m, node);
                        lemma_run_writable(s, header.end, attach(m, node));
                    } else {
                        let deeper = Machine { open: m.open.push(node), root: m.root };
                        assert forall|i: int| 0 <= i < deeper.open.len() implies writable(
                            #[trigger] deeper.open[i],
                        ) && deeper.open[i].tag != text_tag() by {
                            if i < m.open.len() {
                                assert(deeper.open[i] == m.open[i]);
                            }
                        }
                        lemma_run_writable(s, header.end, deeper);
                    }
                },
            }
        }
    }
}

/// Whatever the parser returns is a writable element. With
/// `lemma_parse_written` this says what the parser accepts: the written forms
/// of the writable elements, with whitespace as it may stand between tokens,
/// and of each of them it returns the element.
pub proof fn lemma_parsed_is_writable(s: Seq<u8>)
    ensures
        spec_parse(s) matches Ok(tree) ==> writable(tree) && tree.tag != text_tag(),
{
    lemma_run_writable(s, 0, Machine { open: Seq::empty(), root: None });
}

/// The written form of what was parsed is read as the same tree: whitespace
/// between tokens, and the choice between `<a/>` and `<a></a>`, make no
/// difference to the result.
pub proof fn lemma_normal_form(s: Seq<u8>)
    requires
        spec_parse(s) is Ok,
    ensures
        spec_parse(render(spec_parse(s)->Ok_0)) == spec_parse(s),
{
    lemma_parsed_is_writable(s);
    lemma_parse_written(spec_parse(s)->Ok_0);
}

} // verus!
