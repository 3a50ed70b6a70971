//! The window DOM: the typed document tree of one window. Every node has a
//! style in which every property is set, its children in document order, and
//! the path that leads to it from the root, by which its parent is found.

use vstd::prelude::*;
use vstd::slice::slice_subrange;
use vstd::slice::slice_to_vec;
use crate::ascii::copy_bytes;
use crate::layout_abstract_syntax::last_value;
use crate::layout_abstract_syntax::SyntaxNode;
use crate::layout_abstract_syntax::SyntaxTree;
use crate::layout_abstract_syntax::TokenView;
use crate::layout_abstract_types::byte_strings;
use crate::layout_abstract_types::complete;
use crate::layout_abstract_types::lemma_last_value_wins;
use crate::layout_abstract_types::resolve;
use crate::layout_abstract_types::spec_resolve;
use crate::layout_abstract_types::well_kinded;
use crate::layout_abstract_types::AttributeValue;
use crate::layout_abstract_types::Property;
use crate::layout_abstract_types::StyleRecord;
use crate::layout_abstract_types::Tag;
use crate::layout_abstract_types::TypeContext;
use crate::layout_abstract_types::TypeError;
use crate::layout_abstract_types::TypeFailure;
use crate::layout_abstract_types::Value;
use crate::layout_abstract_types::PROPERTY_COUNT;
use crate::layout_attribute_parser::ParseError;
use crate::layout_attribute_parser::ParseFailure;
use crate::resource_cache::distinct_paths;
use crate::resource_cache::intern_all;
use crate::resource_cache::ResourceCache;
use crate::source_provider::IoError;

verus! {

/// Why a window has no new DOM.
#[derive(Debug, PartialEq, Eq)]
pub enum BuildError {
    /// An attribute could not be given its type.
    TypeResolutionFailed(TypeError),
    /// The tag is not one of the elements of the markup.
    UnknownTag(Vec<u8>),
    /// The source of the window is no markup.
    MarkupRejected(ParseError),
    /// The source of the window could not be fetched.
    SourceUnavailable(IoError),
    /// No fetch was made for the source of the window.
    SourceMissing,
}

/// The mathematical value of a `BuildError`.
pub enum BuildFailure {
    TypeResolutionFailed(TypeFailure),
    UnknownTag(Seq<u8>),
    MarkupRejected(ParseFailure),
    SourceUnavailable(Seq<u8>),
    SourceMissing,
}

impl View for BuildError {
    type V = BuildFailure;

    open spec fn view(&self) -> BuildFailure {
        match *self {
            BuildError::TypeResolutionFailed(error) => BuildFailure::TypeResolutionFailed(error@),
            BuildError::UnknownTag(tag) => BuildFailure::UnknownTag(tag@),
            BuildError::MarkupRejected(error) => BuildFailure::MarkupRejected(error@),
            BuildError::SourceUnavailable(error) => BuildFailure::SourceUnavailable(error@),
            BuildError::SourceMissing => BuildFailure::SourceMissing,
        }
    }
}

/// A node of the DOM.
#[derive(Debug, PartialEq, Eq)]
pub struct DomNode {
    pub tag: Vec<u8>,
    /// The resolved style: every property is set.
    pub style: StyleRecord,
    /// The text that the element was given, if it was given any.
    pub text: Option<Vec<u8>>,
    /// The way from the root to this node: at each step the position among
    /// the children. All but the last step lead to the parent.
    pub path: Vec<usize>,
    pub children: Vec<DomNode>,
}

/// The mathematical value of a `DomNode`.
pub struct DomTree {
    pub tag: Seq<u8>,
    pub style: Map<Property, Value>,
    pub text: Option<Seq<u8>>,
    pub path: Seq<usize>,
    pub children: Seq<DomTree>,
}

pub open spec fn dom_of(node: DomNode) -> DomTree
    decreases node,
{
    DomTree {
        tag: node.tag@,
        style: node.style@,
        text: match node.text {
            Some(text) => Some(text@),
            None => None,
        },
        path: node.path@,
        children: Seq::new(
            node.children@.len(),
            |i: int|
                if 0 <= i < node.children@.len() {
                    dom_of(node.children@[i])
                } else {
                    arbitrary()
                },
        ),
    }
}

pub open spec fn doms_of(nodes: Seq<DomNode>) -> Seq<DomTree> {
    Seq::new(nodes.len(), |i: int| dom_of(nodes[i]))
}

impl View for DomNode {
    type V = DomTree;

    open spec fn view(&self) -> DomTree {
        dom_of(*self)
    }
}

/// The style of an element: what it sets itself; else, for an inheritable
/// property, what its parent has; else the default.
pub open spec fn effective_style(
    explicit: Map<Property, Value>,
    inherited: Map<Property, Value>,
) -> Map<Property, Value> {
    Map::new(
        |property: Property| true,
        |property: Property|
            if explicit.contains_key(property) {
                explicit[property]
            } else if property.inheritable() && inherited.contains_key(property) {
                inherited[property]
            } else {
                property.default_value()
            },
    )
}

/// The text that an element sets, if it sets any.
pub open spec fn explicit_text(explicit: Map<Property, Value>) -> Option<Seq<u8>> {
    if explicit.contains_key(Property::Text) {
        match explicit[Property::Text] {
            Value::Text(text) => Some(text),
            _ => None,
        }
    } else {
        None
    }
}

/// The DOM of a syntax tree that stands at `path` under a parent with the
/// style `inherited`, or the first failure in document order: a node comes
/// before its children, and a child before the children after it.
pub open spec fn spec_build(
    node: SyntaxTree,
    inherited: Map<Property, Value>,
    path: Seq<usize>,
) -> Result<DomTree, BuildFailure>
    decreases node, 0int,
{
    if Tag::named(node.tag) is None {
        Err(BuildFailure::UnknownTag(node.tag))
    } else {
        match spec_resolve(node.tag, node.attributes) {
            Err(failure) => Err(BuildFailure::TypeResolutionFailed(failure)),
            Ok(explicit) => {
                let style = effective_style(explicit, inherited);
                match spec_build_children(node.children, style, path, node.children.len() as int) {
                    Err(failure) => Err(failure),
                    Ok(children) => Ok(
                        DomTree {
                            tag: node.tag,
                            style,
                            text: explicit_text(explicit),
                            path,
                            children,
                        },
                    ),
                }
            },
        }
    }
}

/// The DOMs of the first `count` children of a node at `path` whose style is
/// `inherited`.
pub open spec fn spec_build_children(
    children: Seq<SyntaxTree>,
    inherited: Map<Property, Value>,
    path: Seq<usize>,
    count: int,
) -> Result<Seq<DomTree>, BuildFailure>
    decreases children, count,
{
    if count <= 0 || count > children.len() {
        Ok(Seq::empty())
    } else {
        match spec_build_children(children, inherited, path, count - 1) {
            Err(failure) => Err(failure),
            Ok(built) => match spec_build(
                children[count - 1],
                inherited,
                path.push((count - 1) as usize),
            ) {
                Err(failure) => Err(failure),
                Ok(child) => Ok(built.push(child)),
            },
        }
    }
}

/// The resource that a property of a style names, if it names one: the value
/// of `font` or `src`, unless it is empty.
pub open spec fn named_resource(style: Map<Property, Value>, property: Property) -> Seq<Seq<u8>> {
    if property.names_resource() && style.contains_key(property) {
        match style[property] {
            Value::Text(path) => if path.len() > 0 {
                seq![path]
            } else {
                Seq::empty()
            },
            _ => Seq::empty(),
        }
    } else {
        Seq::empty()
    }
}

/// The resources that a DOM refers to, in document order, each as often as
/// it is referred to.
pub open spec fn resource_paths(dom: DomTree) -> Seq<Seq<u8>>
    decreases dom, 0int,
{
    named_resource(dom.style, Property::Font) + named_resource(dom.style, Property::Source)
        + forest_paths(dom.children, dom.children.len() as int)
}

/// The resources that the first `count` of `children` refer to.
pub open spec fn forest_paths(children: Seq<DomTree>, count: int) -> Seq<Seq<u8>>
    decreases children, count,
{
    if count <= 0 || count > children.len() {
        Seq::empty()
    } else {
        forest_paths(children, count - 1) + resource_paths(children[count - 1])
    }
}

/// What holds of every DOM that is built: at each node every property is set
/// to a value of its kind, and the node's path is the way to it.
pub open spec fn published(dom: DomTree, path: Seq<usize>) -> bool
    decreases dom,
{
    &&& complete(dom.style)
    &&& well_kinded(dom.style)
    &&& dom.path == path
    &&& forall|i: int|
        0 <= i < dom.children.len() ==> published(
            #[trigger] dom.children[i],
            path.push(i as usize),
        )
}

/// Whether a syntax tree is built without error: every tag is an element of
/// the markup, and the attributes of every node resolve.
pub open spec fn accepted(node: SyntaxTree) -> bool
    decreases node,
{
    &&& Tag::named(node.tag) is Some
    &&& spec_resolve(node.tag, node.attributes) is Ok
    &&& forall|i: int| 0 <= i < node.children.len() ==> accepted(#[trigger] node.children[i])
}

/// The node that `path` leads to from `dom`.
pub open spec fn descend(dom: DomTree, path: Seq<usize>) -> Option<DomTree>
    decreases path.len(),
{
    if path.len() == 0 {
        Some(dom)
    } else if path[0] < dom.children.len() {
        descend(dom.children[path[0] as int], path.drop_first())
    } else {
        None
    }
}

/// In a published DOM every node stands where its path says: the node that
/// a path leads to has that path, counted from the root, and is published
/// itself.
pub proof fn lemma_descend_published(dom: DomTree, base: Seq<usize>, path: Seq<usize>)
    requires
        published(dom, base),
        descend(dom, path) is Some,
    ensures
        descend(dom, path)->0.path == base + path,
        published(descend(dom, path)->0, base + path),
    decreases path.len(),
{
    if path.len() == 0 {
        assert(base + path =~= base);
    } else {
        let child = dom.children[path[0] as int];
        lemma_descend_published(child, base.push(path[0]), path.drop_first());
        assert(base.push(path[0]) + path.drop_first() =~= base + path);
    }
}

/// All but the last step of a path lead to the parent: the node that has the
/// node at the end of the path as its child, at the position of the last
/// step.
pub proof fn lemma_parent(dom: DomTree, path: Seq<usize>)
    requires
        path.len() > 0,
        descend(dom, path) is Some,
    ensures
        descend(dom, path.drop_last()) is Some,
        path.last() < descend(dom, path.drop_last())->0.children.len(),
        descend(dom, path.drop_last())->0.children[path.last() as int] == descend(dom, path)->0,
    decreases path.len(),
{
    if path.len() == 1 {
        assert(path.drop_last() =~= Seq::<usize>::empty());
        assert(path.drop_first() =~= Seq::<usize>::empty());
    } else {
        let child = dom.children[path[0] as int];
        lemma_parent(child, path.drop_first());
        assert(path.drop_last().drop_first() =~= path.drop_first().drop_last());
    }
}

/// A failure among the first children is the failure of them all.
pub proof fn lemma_children_fail(
    children: Seq<SyntaxTree>,
    inherited: Map<Property, Value>,
    path: Seq<usize>,
    count: int,
    total: int,
)
    requires
        0 <= count <= total <= children.len(),
    ensures
        spec_build_children(children, inherited, path, count) matches Err(failure)
            ==> spec_build_children(children, inherited, path, total) == Err::<
            Seq<DomTree>,
            BuildFailure,
        >(failure),
    decreases total - count,
{
    if count < total {
        lemma_children_fail(children, inherited, path, count, total - 1);
    }
}

/// The children of a node are built one by one, each under the style of the
/// node and at its own place, and they stand in document order.
pub proof fn lemma_children_built(
    children: Seq<SyntaxTree>,
    inherited: Map<Property, Value>,
    path: Seq<usize>,
    count: int,
)
    requires
        0 <= count <= children.len(),
    ensures
        spec_build_children(children, inherited, path, count) matches Ok(built) ==> built.len()
            == count && forall|i: int|
            0 <= i < count ==> spec_build(#[trigger] children[i], inherited, path.push(i as usize))
                == Ok::<DomTree, BuildFailure>(built[i]),
        spec_build_children(children, inherited, path, count) is Err ==> exists|i: int|
            0 <= i < count && spec_build(#[trigger] children[i], inherited, path.push(i as usize))
                is Err,
    decreases count,
{
    if count > 0 {
        lemma_children_built(children, inherited, path, count - 1);
    }
}

fn copy_path(path: &Vec<usize>) -> (r: Vec<usize>)
    ensures
        r@ == path@,
{
    slice_to_vec(path.as_slice())
}

/// The style of an element that sets `explicit` under a parent with the style
/// `inherited`.
pub fn inherit(explicit: &StyleRecord, inherited: &StyleRecord, context: &TypeContext) -> (style:
    StyleRecord)
    ensures
        style@ == effective_style(explicit@, inherited@),
        complete(style@),
{
    let mut style = StyleRecord::new();
    let mut i: usize = 0;
    while i < PROPERTY_COUNT
        invariant
            i <= PROPERTY_COUNT,
            forall|p: Property|
                #![trigger style@.contains_key(p)]
                p.spec_index() < i ==> style@.contains_key(p) && style@[p] == effective_style(
                    explicit@,
                    inherited@,
                )[p],
            forall|p: Property|
                #![trigger style@.contains_key(p)]
                p.spec_index() >= i ==> !style@.contains_key(p),
        decreases PROPERTY_COUNT - i,
    {
        let property = Property::from_index(i).unwrap();
        let value = match explicit.get(property) {
            Some(value) => value.clone(),
            None => {
                let fallback = if property.is_inheritable() {
                    inherited.get(property)
                } else {
                    None
                };
                match fallback {
                    Some(value) => value.clone(),
                    None => context.default_of(property).clone(),
                }
            },
        };
        assert(effective_style(explicit@, inherited@)[property] == value@);
        assert(forall|p: Property| p.spec_index() == i ==> p == property);
        style.set(property, value);
        i += 1;
    }
    assert(style@ =~= effective_style(explicit@, inherited@));
    style
}

fn build_tree(
    node: &SyntaxNode,
    inherited: &StyleRecord,
    context: &TypeContext,
    path: Vec<usize>,
) -> (r: Result<DomNode, BuildError>)
    ensures
        match r {
            Ok(dom) => spec_build(node@, inherited@, path@) == Ok::<DomTree, BuildFailure>(dom@),
            Err(error) => spec_build(node@, inherited@, path@) == Err::<DomTree, BuildFailure>(
                error@,
            ),
        },
    decreases node,
{
    if Tag::from_name(node.tag.as_slice()).is_none() {
        return Err(BuildError::UnknownTag(copy_bytes(node.tag.as_slice())));
    }
    let explicit = match resolve(node) {
        Err(error) => {
            return Err(BuildError::TypeResolutionFailed(error));
        },
        Ok(explicit) => explicit,
    };
    let style = inherit(&explicit, inherited, context);
    let text = match explicit.get(Property::Text) {
        Some(value) => match value {
            AttributeValue::Text(text) => Some(copy_bytes(text.as_slice())),
            _ => None,
        },
        None => None,
    };
    let mut children: Vec<DomNode> = Vec::new();
    let mut i: usize = 0;
    assert(doms_of(children@) =~= Seq::empty());
    while i < node.children.len()
        invariant
            i <= node.children.len(),
            Tag::named(node@.tag) is Some,
            spec_resolve(node@.tag, node@.attributes) == Ok::<Map<Property, Value>, TypeFailure>(
                explicit@,
            ),
            style@ == effective_style(explicit@, inherited@),
            spec_build_children(node@.children, style@, path@, i as int) == Ok::<
                Seq<DomTree>,
                BuildFailure,
            >(doms_of(children@)),
        decreases node.children.len() - i,
    {
        let mut child_path = copy_path(&path);
        child_path.push(i);
        assert(node@.children[i as int] == node.children@[i as int]@);
        match build_tree(&node.children[i], &style, context, child_path) {
            Err(error) => {
                proof {
                    lemma_children_fail(
                        node@.children,
                        style@,
                        path@,
                        i + 1,
                        node@.children.len() as int,
                    );
                }
                return Err(error);
            },
            Ok(child) => {
                let ghost built = doms_of(children@);
                children.push(child);
                assert(doms_of(children@) =~= built.push(child@));
            },
        }
        i += 1;
    }
    let dom = DomNode { tag: copy_bytes(node.tag.as_slice()), style, text, path, children };
    assert(dom@.children =~= doms_of(children@));
    Ok(dom)
}

fn push_resource(style: &StyleRecord, property: Property, out: &mut Vec<Vec<u8>>)
    ensures
        byte_strings(final(out)@) == byte_strings(old(out)@) + named_resource(style@, property),
{
    let ghost before = byte_strings(out@);
    if property.is_resource() {
        match style.get(property) {
            Some(value) => match value {
                AttributeValue::Text(path) => {
                    if path.len() > 0 {
                        out.push(copy_bytes(path.as_slice()));
                    }
                },
                _ => {},
            },
            None => {},
        }
    }
    assert(byte_strings(out@) =~= before + named_resource(style@, property));
}

fn collect_resources(dom: &DomNode, out: &mut Vec<Vec<u8>>)
    ensures
        byte_strings(final(out)@) == byte_strings(old(out)@) + resource_paths(dom@),
    decreases dom,
{
    let ghost before = byte_strings(out@);
    push_resource(&dom.style, Property::Font, out);
    push_resource(&dom.style, Property::Source, out);
    let ghost own = named_resource(dom@.style, Property::Font) + named_resource(
        dom@.style,
        Property::Source,
    );
    assert(byte_strings(out@) =~= before + own);
    let mut i: usize = 0;
    while i < dom.children.len()
        invariant
            i <= dom.children.len(),
            byte_strings(out@) == before + own + forest_paths(dom@.children, i as int),
        decreases dom.children.len() - i,
    {
        let ghost so_far = byte_strings(out@);
        assert(dom@.children[i as int] == dom.children@[i as int]@);
        collect_resources(&dom.children[i], out);
        assert(byte_strings(out@) =~= before + own + forest_paths(dom@.children, i + 1));
        i += 1;
    }
    assert(byte_strings(out@) =~= before + resource_paths(dom@));
}

impl Clone for DomNode {
    fn clone(&self) -> (r: Self)
        ensures
            r@ == self@,
        decreases self,
    {
        let mut children: Vec<DomNode> = Vec::new();
        let mut i: usize = 0;
        while i < self.children.len()
            invariant
                i <= self.children.len(),
                children@.len() == i,
                forall|j: int| 0 <= j < i ==> children@[j]@ == self.children@[j]@,
            decreases self.children.len() - i,
        {
            children.push(self.children[i].clone());
            i += 1;
        }
        let text = match &self.text {
            Some(text) => Some(copy_bytes(text.as_slice())),
            None => None,
        };
        let r = DomNode {
            tag: copy_bytes(self.tag.as_slice()),
            style: self.style.clone(),
            text,
            path: copy_path(&self.path),
            children,
        };
        assert(r@.children =~= self@.children);
        r
    }
}

impl DomNode {
    /// The resources that the tree refers to, in document order.
    pub fn resource_paths(&self) -> (r: Vec<Vec<u8>>)
        ensures
            byte_strings(r@) == resource_paths(self@),
    {
        let mut out: Vec<Vec<u8>> = Vec::new();
        assert(byte_strings(out@) =~= Seq::empty());
        collect_resources(self, &mut out);
        assert(byte_strings(out@) =~= resource_paths(self@));
        out
    }

    /// The node that `path` leads to from this one.
    pub fn node_at(&self, path: &[usize]) -> (r: Option<&DomNode>)
        ensures
            match r {
                Some(node) => descend(self@, path@) == Some(node@),
                None => descend(self@, path@) is None,
            },
    {
        let mut current: &DomNode = self;
        let mut i: usize = 0;
        assert(path@.subrange(0, path@.len() as int) =~= path@);
        while i < path.len()
            invariant
                i <= path.len(),
                descend(self@, path@) == descend(current@, path@.subrange(i as int, path@.len() as int)),
            decreases path.len() - i,
        {
            let ghost rest = path@.subrange(i as int, path@.len() as int);
            assert(rest[0] == path@[i as int]);
            assert(rest.drop_first() =~= path@.subrange(i + 1, path@.len() as int));
            let step = path[i];
            if step >= current.children.len() {
                return None;
            }
            assert(current@.children[step as int] == current.children@[step as int]@);
            current = &current.children[step];
            i += 1;
        }
        Some(current)
    }

    /// The parent of this node in the tree under `root`: the node that all
    /// but the last step of the path lead to. The root has none.
    pub fn parent_in<'a>(&self, root: &'a DomNode) -> (r: Option<&'a DomNode>)
        ensures
            match r {
                Some(node) => self@.path.len() > 0 && descend(root@, self@.path.drop_last()) == Some(
                    node@,
                ),
                None => self@.path.len() == 0 || descend(root@, self@.path.drop_last()) is None,
            },
            self@.path.len() > 0 && descend(root@, self@.path) == Some(self@) ==> r is Some
                && self@.path.last() < r->0@.children.len() && r->0@.children[self@.path.last() as int]
                == self@,
    {
        let steps = self.path.len();
        if steps == 0 {
            return None;
        }
        proof {
            assert(self.path@.subrange(0, steps - 1) =~= self@.path.drop_last());
            if descend(root@, self@.path) == Some(self@) {
                lemma_parent(root@, self@.path);
            }
        }
        root.node_at(slice_subrange(self.path.as_slice(), 0, steps - 1))
    }
}

/// Builds the DOM of a syntax tree whose root stands under a parent with the
/// style `inherited`, and notes in the cache every resource that the DOM
/// refers to. On a failure nothing is built and the cache stays as it was.
pub fn build(
    node: &SyntaxNode,
    inherited: &StyleRecord,
    context: &TypeContext,
    cache: &mut ResourceCache,
) -> (r: Result<DomNode, BuildError>)
    ensures
        match r {
            Ok(dom) => spec_build(node@, inherited@, Seq::empty()) == Ok::<DomTree, BuildFailure>(
                dom@,
            ) && final(cache)@ == intern_all(old(cache)@, resource_paths(dom@)),
            Err(error) => spec_build(node@, inherited@, Seq::empty()) == Err::<
                DomTree,
                BuildFailure,
            >(error@) && final(cache)@ == old(cache)@,
        },
        r is Ok <==> accepted(node@),
        r matches Ok(dom) ==> published(dom@, Seq::empty()),
        distinct_paths(final(cache)@),
{
    cache.paths_are_distinct();
    inherited.kinds_are_right();
    proof {
        lemma_build_accepts(node@, inherited@, Seq::empty());
        lemma_build_published(node@, inherited@, Seq::empty());
    }
    let dom = match build_tree(node, inherited, context, Vec::new()) {
        Err(error) => {
            return Err(error);
        },
        Ok(dom) => dom,
    };
    let paths = dom.resource_paths();
    let ghost wanted = byte_strings(paths@);
    let mut i: usize = 0;
    assert(wanted.subrange(0, 0) =~= Seq::empty());
    while i < paths.len()
        invariant
            i <= paths.len(),
            wanted == byte_strings(paths@),
            cache@ == intern_all(old(cache)@, wanted.subrange(0, i as int)),
            distinct_paths(cache@),
        decreases paths.len() - i,
    {
        proof {
            let next = wanted.subrange(0, i + 1);
            assert(next.drop_last() =~= wanted.subrange(0, i as int));
            assert(next.last() == paths@[i as int]@);
        }
        cache.intern(paths[i].as_slice());
        i += 1;
    }
    assert(wanted.subrange(0, i as int) =~= wanted);
    Ok(dom)
}

/// A tree is built without error exactly if it is accepted.
pub proof fn lemma_build_accepts(
    node: SyntaxTree,
    inherited: Map<Property, Value>,
    path: Seq<usize>,
)
    ensures
        spec_build(node, inherited, path) is Ok <==> accepted(node),
    decreases node,
{
    if Tag::named(node.tag) is Some {
        match spec_resolve(node.tag, node.attributes) {
            Err(failure) => {},
            Ok(explicit) => {
                let style = effective_style(explicit, inherited);
                let count = node.children.len() as int;
                lemma_children_built(node.children, style, path, count);
                assert forall|i: int| 0 <= i < count implies (spec_build(
                    #[trigger] node.children[i],
                    style,
                    path.push(i as usize),
                ) is Ok <==> accepted(node.children[i])) by {
                    lemma_build_accepts(node.children[i], style, path.push(i as usize));
                }
            },
        }
    }
}

/// The children of a DOM are those of the syntax tree, in document order,
/// each built under the style of its parent.
pub proof fn lemma_build_children(
    node: SyntaxTree,
    inherited: Map<Property, Value>,
    path: Seq<usize>,
)
    requires
        spec_build(node, inherited, path) is Ok,
    ensures
        ({
            let dom = spec_build(node, inherited, path)->Ok_0;
            &&& dom.tag == node.tag
            &&& dom.children.len() == node.children.len()
            &&& forall|i: int|
                0 <= i < node.children.len() ==> spec_build(
                    #[trigger] node.children[i],
                    dom.style,
                    path.push(i as usize),
                ) == Ok::<DomTree, BuildFailure>(dom.children[i])
        }),
{
    let explicit = spec_resolve(node.tag, node.attributes)->Ok_0;
    let style = effective_style(explicit, inherited);
    lemma_children_built(node.children, style, path, node.children.len() as int);
}

/// An element that does not set an inheritable property has the value that
/// its parent has, not the default.
pub proof fn lemma_child_inherits(
    node: SyntaxTree,
    inherited: Map<Property, Value>,
    path: Seq<usize>,
    i: int,
    property: Property,
)
    requires
        spec_build(node, inherited, path) is Ok,
        0 <= i < node.children.len(),
        property.inheritable(),
        last_value(node.children[i].attributes, property.key()) is None,
    ensures
        ({
            let dom = spec_build(node, inherited, path)->Ok_0;
            dom.children[i].style[property] == dom.style[property]
        }),
{
    let dom = spec_build(node, inherited, path)->Ok_0;
    let child = node.children[i];
    lemma_build_children(node, inherited, path);
    assert(spec_build(child, dom.style, path.push(i as usize)) is Ok);
    lemma_last_value_wins(child.tag, child.attributes, property);
}

/// What the attributes of an element set is of the right kinds.
pub proof fn lemma_resolve_kinds(tag: Seq<u8>, attributes: Seq<TokenView>)
    ensures
        spec_resolve(tag, attributes) matches Ok(style) ==> well_kinded(style),
    decreases attributes.len(),
{
    if attributes.len() > 0 {
        lemma_resolve_kinds(tag, attributes.drop_last());
    }
}

/// Every DOM that is built is published: no property of any node is unset,
/// every value is of the kind of its property, and every node knows its
/// place.
pub proof fn lemma_build_published(
    node: SyntaxTree,
    inherited: Map<Property, Value>,
    path: Seq<usize>,
)
    requires
        well_kinded(inherited),
    ensures
        spec_build(node, inherited, path) matches Ok(dom) ==> published(dom, path),
    decreases node,
{
    match spec_build(node, inherited, path) {
        Err(failure) => {},
        Ok(dom) => {
            let explicit = spec_resolve(node.tag, node.attributes)->Ok_0;
            lemma_resolve_kinds(node.tag, node.attributes);
            let style = effective_style(explicit, inherited);
            assert(well_kinded(style));
            let count = node.children.len() as int;
            lemma_children_built(node.children, style, path, count);
            assert forall|i: int| 0 <= i < dom.children.len() implies published(
                #[trigger] dom.children[i],
                path.push(i as usize),
            ) by {
                lemma_build_published(node.children[i], style, path.push(i as usize));
            }
        },
    }
}

} // verus!
