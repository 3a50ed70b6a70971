//! The untyped parse tree: elements with their attributes as written, before
//! any attribute has been given a type.

use vstd::prelude::*;
use crate::ascii::bytes_of;
use crate::ascii::copy_bytes;
use crate::ascii::lit;
use crate::ascii::same_bytes;

verus! {

/// One occurrence of `key="value"` on an element.
#[derive(Debug, PartialEq, Eq)]
pub struct AttributeToken {
    pub key: Vec<u8>,
    pub raw_value: Vec<u8>,
}

/// The mathematical value of an `AttributeToken`.
pub struct TokenView {
    pub key: Seq<u8>,
    pub raw_value: Seq<u8>,
}

impl View for AttributeToken {
    type V = TokenView;

    open spec fn view(&self) -> TokenView {
        TokenView { key: self.key@, raw_value: self.raw_value@ }
    }
}

/// An element of the markup: its tag, its attributes in the order in which
/// they were written, and its children in document order. A run of text is a
/// node too, see `text_tree`.
#[derive(Debug, PartialEq, Eq)]
pub struct SyntaxNode {
    pub tag: Vec<u8>,
    pub attributes: Vec<AttributeToken>,
    pub children: Vec<SyntaxNode>,
}

/// The mathematical value of a `SyntaxNode`.
pub struct SyntaxTree {
    pub tag: Seq<u8>,
    pub attributes: Seq<TokenView>,
    pub children: Seq<SyntaxTree>,
}

pub open spec fn tokens_of(attributes: Seq<AttributeToken>) -> Seq<TokenView> {
    Seq::new(attributes.len(), |i: int| attributes[i]@)
}

pub open spec fn tree_of(node: SyntaxNode) -> SyntaxTree
    decreases node,
{
    SyntaxTree {
        tag: node.tag@,
        attributes: tokens_of(node.attributes@),
        children: Seq::new(
            node.children@.len(),
            |i: int|
                if 0 <= i < node.children@.len() {
                    tree_of(node.children@[i])
                } else {
                    arbitrary()
                },
        ),
    }
}

pub open spec fn trees_of(nodes: Seq<SyntaxNode>) -> Seq<SyntaxTree> {
    Seq::new(nodes.len(), |i: int| tree_of(nodes[i]))
}

impl View for SyntaxNode {
    type V = SyntaxTree;

    open spec fn view(&self) -> SyntaxTree {
        tree_of(*self)
    }
}

/// The tag under which a run of text stands in the tree. It cannot be written
/// as an element: `#` is no byte of a name.
pub open spec fn text_tag() -> Seq<u8> {
    lit("#text")
}

/// The key of the attribute that carries text.
pub open spec fn text_key() -> Seq<u8> {
    lit("text")
}

/// The node that stands for a run of text between tags: it has the reserved
/// tag, the text as its one attribute, and no children.
pub open spec fn text_tree(run: Seq<u8>) -> SyntaxTree {
    SyntaxTree {
        tag: text_tag(),
        attributes: seq![TokenView { key: text_key(), raw_value: run }],
        children: Seq::empty(),
    }
}

/// The value that the attributes give to `key`: where a key is written more
/// than once, its last occurrence counts.
pub open spec fn last_value(attributes: Seq<TokenView>, key: Seq<u8>) -> Option<Seq<u8>>
    decreases attributes.len(),
{
    if attributes.len() == 0 {
        None
    } else if attributes.last().key == key {
        Some(attributes.last().raw_value)
    } else {
        last_value(attributes.drop_last(), key)
    }
}

/// The number of nodes of a tree.
pub open spec fn tree_size(tree: SyntaxTree) -> nat
    decreases tree,
{
    1 + forest_size(tree.children)
}

/// The number of nodes of a sequence of trees.
pub open spec fn forest_size(trees: Seq<SyntaxTree>) -> nat
    decreases trees,
{
    if trees.len() == 0 {
        0
    } else {
        forest_size(trees.drop_last()) + tree_size(trees.last())
    }
}

/// Adding a child to a node adds its tree at the end of the children and
/// changes nothing else.
pub proof fn lemma_push_child(before: SyntaxNode, after: SyntaxNode, child: SyntaxNode)
    requires
        after.tag == before.tag,
        after.attributes == before.attributes,
        after.children@ == before.children@.push(child),
    ensures
        after@ == (SyntaxTree {
            tag: before@.tag,
            attributes: before@.attributes,
            children: before@.children.push(child@),
        }),
{
    assert(after@.children =~= before@.children.push(child@));
}

impl Clone for AttributeToken {
    fn clone(&self) -> (r: Self)
        ensures
            r@ == self@,
    {
        AttributeToken {
            key: copy_bytes(self.key.as_slice()),
            raw_value: copy_bytes(self.raw_value.as_slice()),
        }
    }
}

impl Clone for SyntaxNode {
    fn clone(&self) -> (r: Self)
        ensures
            r@ == self@,
        decreases self,
    {
        let mut attributes: Vec<AttributeToken> = Vec::new();
        let mut i: usize = 0;
        while i < self.attributes.len()
            invariant
                i <= self.attributes.len(),
                attributes@.len() == i,
                forall|j: int| 0 <= j < i ==> attributes@[j]@ == self.attributes@[j]@,
            decreases self.attributes.len() - i,
        {
            attributes.push(self.attributes[i].clone());
            i += 1;
        }
        let mut children: Vec<SyntaxNode> = Vec::new();
        let mut k: usize = 0;
        while k < self.children.len()
            invariant
                k <= self.children.len(),
                children@.len() == k,
                forall|j: int| 0 <= j < k ==> children@[j]@ == self.children@[j]@,
            decreases self.children.len() - k,
        {
            children.push(self.children[k].clone());
            k += 1;
        }
        let r = SyntaxNode { tag: copy_bytes(self.tag.as_slice()), attributes, children };
        assert(r@.attributes =~= self@.attributes);
        assert(r@.children =~= self@.children);
        r
    }
}

impl SyntaxNode {
    /// An element without children.
    pub fn leaf(tag: Vec<u8>, attributes: Vec<AttributeToken>) -> (r: SyntaxNode)
        ensures
            r@ == (SyntaxTree {
                tag: tag@,
                attributes: tokens_of(attributes@),
                children: Seq::empty(),
            }),
            r.tag == tag,
            r.attributes == attributes,
            r.children@.len() == 0,
    {
        let r = SyntaxNode { tag, attributes, children: Vec::new() };
        assert(r@.children =~= Seq::empty());
        r
    }

    /// The node for a run of text.
    pub fn text(run: Vec<u8>) -> (r: SyntaxNode)
        ensures
            r@ == text_tree(run@),
    {
        let mut attributes: Vec<AttributeToken> = Vec::new();
        attributes.push(AttributeToken { key: bytes_of("text"), raw_value: run });
        let r = SyntaxNode { tag: bytes_of("#text"), attributes, children: Vec::new() };
        assert(r@.attributes =~= text_tree(run@).attributes);
        assert(r@.children =~= Seq::empty());
        r
    }

    /// The raw value that the element gives to `key`, the last one where the
    /// key is written more than once.
    pub fn attribute(&self, key: &[u8]) -> (r: Option<&Vec<u8>>)
        ensures
            match r {
                Some(value) => last_value(self@.attributes, key@) == Some(value@),
                None => last_value(self@.attributes, key@) is None,
            },
    {
        let ghost all = self@.attributes;
        let mut i: usize = self.attributes.len();
        assert(all.subrange(0, i as int) =~= all);
        while i > 0
            invariant
                i <= self.attributes.len(),
                all == self@.attributes,
                last_value(all, key@) == last_value(all.subrange(0, i as int), key@),
            decreases i,
        {
            proof {
                let prefix = all.subrange(0, i as int);
                assert(prefix.last() == self.attributes@[i - 1]@);
                assert(prefix.drop_last() =~= all.subrange(0, i - 1));
            }
            if same_bytes(self.attributes[i - 1].key.as_slice(), key) {
                return Some(&self.attributes[i - 1].raw_value);
            }
            i -= 1;
        }
        proof {
            assert(all.subrange(0, 0).len() == 0);
        }
        None
    }
}

} // verus!
