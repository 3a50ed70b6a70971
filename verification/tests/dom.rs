use graphite::color::Color;
use graphite::color_palette::ColorPalette;
use graphite::layout_abstract_types::AttributeValue;
use graphite::layout_abstract_types::ColorValue;
use graphite::layout_abstract_types::LengthUnit;
use graphite::layout_abstract_types::Property;
use graphite::layout_abstract_types::StyleRecord;
use graphite::layout_abstract_types::TypeContext;
use graphite::layout_abstract_types::TypeError;
use graphite::layout_attribute_parser::parse;
use graphite::resource_cache::LoadResult;
use graphite::resource_cache::ResourceCache;
use graphite::resource_cache::ResourceHandle;
use graphite::resource_cache::ResourceState;
use graphite::window_dom::build;
use graphite::window_dom::inherit;
use graphite::window_dom::BuildError;
use graphite::window_dom::DomNode;

fn build_markup(markup: &str, cache: &mut ResourceCache) -> Result<DomNode, BuildError> {
    let tree = parse(markup.as_bytes()).unwrap();
    build(&tree, &StyleRecord::new(), &TypeContext::new(), cache)
}

fn every_style_is_complete(node: &DomNode) -> bool {
    node.style.is_complete() && node.children.iter().all(every_style_is_complete)
}

#[test]
fn inheritable_color_reaches_the_child() {
    let dom = build_markup("<panel color=\"MildBlack\"><label/></panel>", &mut ResourceCache::new()).unwrap();
    let label = &dom.children[0];
    assert_eq!(label.tag, b"label".to_vec());
    let color = label.style.get(Property::Color).unwrap();
    assert_eq!(color, &AttributeValue::Color(ColorValue::Named(ColorPalette::MildBlack)));
    match color {
        AttributeValue::Color(value) => assert_eq!(value.get_color(), Color::new(34, 34, 34)),
        _ => panic!("color is no color"),
    }
}

#[test]
fn inheritance_passes_through_generations() {
    let dom = build_markup(
        "<window font=\"a.ttf\" font-size=\"12px\" width=\"10px\"><panel><label font-size=\"20px\"><image/></label></panel></window>",
        &mut ResourceCache::new(),
    )
    .unwrap();
    let panel = &dom.children[0];
    let label = &panel.children[0];
    assert_eq!(panel.style.get(Property::Font), Some(&AttributeValue::Text(b"a.ttf".to_vec())));
    assert_eq!(label.style.get(Property::Font), Some(&AttributeValue::Text(b"a.ttf".to_vec())));
    assert_eq!(panel.style.get(Property::FontSize), Some(&AttributeValue::Length(LengthUnit::Px, 12)));
    assert_eq!(label.style.get(Property::FontSize), Some(&AttributeValue::Length(LengthUnit::Px, 20)));
    assert_eq!(
        label.children[0].style.get(Property::FontSize),
        Some(&AttributeValue::Length(LengthUnit::Px, 20))
    );
    // Width is not inherited: the panel falls back to the default.
    assert_eq!(dom.style.get(Property::Width), Some(&AttributeValue::Length(LengthUnit::Px, 10)));
    assert_eq!(panel.style.get(Property::Width), Some(&AttributeValue::Length(LengthUnit::Percent, 100)));
}

#[test]
fn unset_properties_get_their_defaults() {
    let dom = build_markup("<label/>", &mut ResourceCache::new()).unwrap();
    let context = TypeContext::new();
    for index in 0..9 {
        let property = Property::from_index(index).unwrap();
        assert_eq!(dom.style.get(property), Some(context.default_of(property)));
    }
    assert_eq!(dom.text, None);
    assert_eq!(dom.path, Vec::<usize>::new());
}

#[test]
fn every_node_of_a_built_dom_is_fully_styled() {
    let dom = build_markup(
        "<window background=\"#101010\">\n <panel align=\"center\">Title<label text=\"a\"/><image src=\"i.png\"/></panel>\n <panel/>\n</window>",
        &mut ResourceCache::new(),
    )
    .unwrap();
    assert!(every_style_is_complete(&dom));
    assert_eq!(dom.children.len(), 2);
    assert_eq!(dom.children[0].children.len(), 3);
}

#[test]
fn children_keep_document_order_and_know_their_place() {
    let dom = build_markup(
        "<window><label text=\"1\"/><panel><label text=\"2\"/><label text=\"3\"/></panel><label text=\"4\"/></window>",
        &mut ResourceCache::new(),
    )
    .unwrap();
    let texts: Vec<Option<Vec<u8>>> = dom.children.iter().map(|child| child.text.clone()).collect();
    assert_eq!(texts, vec![Some(b"1".to_vec()), None, Some(b"4".to_vec())]);
    let third = &dom.children[1].children[1];
    assert_eq!(third.text, Some(b"3".to_vec()));
    assert_eq!(third.path, vec![1, 1]);
    assert_eq!(dom.node_at(&[1, 1]), Some(third));
    assert_eq!(dom.node_at(&[]), Some(&dom));
    assert_eq!(dom.node_at(&[3]), None);
    assert_eq!(dom.node_at(&[0, 0]), None);
    assert_eq!(third.parent_in(&dom), Some(&dom.children[1]));
    assert_eq!(dom.children[1].parent_in(&dom), Some(&dom));
    assert_eq!(dom.parent_in(&dom), None);
}

#[test]
fn text_runs_are_nodes_with_inherited_style() {
    let dom = build_markup("<label color=\"Accent\"> Box Select Objects </label>", &mut ResourceCache::new()).unwrap();
    assert_eq!(dom.children.len(), 1);
    let run = &dom.children[0];
    assert_eq!(run.tag, b"#text".to_vec());
    assert_eq!(run.text, Some(b"Box Select Objects".to_vec()));
    assert_eq!(run.style.get(Property::Text), Some(&AttributeValue::Text(b"Box Select Objects".to_vec())));
    assert_eq!(
        run.style.get(Property::Color),
        Some(&AttributeValue::Color(ColorValue::Named(ColorPalette::Accent)))
    );
    assert!(run.children.is_empty());
}

#[test]
fn unknown_attribute_fails_the_build() {
    let mut cache = ResourceCache::new();
    assert_eq!(
        build_markup("<label glow=\"true\"/>", &mut cache),
        Err(BuildError::TypeResolutionFailed(TypeError::UnknownAttribute(
            b"glow".to_vec(),
            b"label".to_vec()
        )))
    );
}

#[test]
fn unknown_tag_fails_the_build() {
    let mut cache = ResourceCache::new();
    assert_eq!(
        build_markup("<window><button/></window>", &mut cache),
        Err(BuildError::UnknownTag(b"button".to_vec()))
    );
    // The tag is looked at before the attributes.
    assert_eq!(
        build_markup("<button glow=\"1\"/>", &mut cache),
        Err(BuildError::UnknownTag(b"button".to_vec()))
    );
}

#[test]
fn first_failure_in_document_order_wins() {
    let mut cache = ResourceCache::new();
    assert_eq!(
        build_markup("<window><panel><label width=\"x\"/></panel><button/></window>", &mut cache),
        Err(BuildError::TypeResolutionFailed(TypeError::InvalidLength(b"x".to_vec())))
    );
    assert_eq!(
        build_markup("<window height=\"y\"><button/></window>", &mut cache),
        Err(BuildError::TypeResolutionFailed(TypeError::InvalidLength(b"y".to_vec())))
    );
    assert_eq!(
        build_markup("<window>text in a window takes no attribute but text<label color=\"none\"/></window>", &mut cache),
        Err(BuildError::TypeResolutionFailed(TypeError::UnknownColor(b"none".to_vec())))
    );
}

#[test]
fn a_failed_build_leaves_the_cache_alone() {
    let mut cache = ResourceCache::new();
    cache.intern(b"old.ttf");
    let failed = build_markup("<window font=\"new.ttf\"><image src=\"a.png\"/><button/></window>", &mut cache);
    assert_eq!(failed, Err(BuildError::UnknownTag(b"button".to_vec())));
    assert_eq!(cache.len(), 1);
    assert_eq!(cache.lookup(b"new.ttf"), None);
}

#[test]
fn same_font_path_is_one_resource() {
    let mut cache = ResourceCache::new();
    let dom = build_markup(
        "<window><label font=\"fonts/segoeui.ttf\"/><label font=\"fonts/segoeui.ttf\"/><image src=\"grid.png\"/></window>",
        &mut cache,
    )
    .unwrap();
    assert_eq!(
        dom.resource_paths(),
        vec![b"fonts/segoeui.ttf".to_vec(), b"fonts/segoeui.ttf".to_vec(), b"grid.png".to_vec()]
    );
    assert_eq!(cache.len(), 2);
    let font = cache.lookup(b"fonts/segoeui.ttf").unwrap();
    assert_eq!(font, ResourceHandle { index: 0 });
    assert_eq!(cache.lookup(b"grid.png"), Some(ResourceHandle { index: 1 }));
    assert_eq!(cache.intern(b"fonts/segoeui.ttf"), font);
    assert_eq!(cache.len(), 2);
}

#[test]
fn inherited_fonts_are_referenced_by_the_heirs() {
    let mut cache = ResourceCache::new();
    let dom = build_markup("<window font=\"a.ttf\"><label/>x</window>", &mut cache).unwrap();
    assert_eq!(dom.resource_paths(), vec![b"a.ttf".to_vec(), b"a.ttf".to_vec(), b"a.ttf".to_vec()]);
    assert_eq!(cache.len(), 1);
    let none = build_markup("<window><label/></window>", &mut cache).unwrap();
    assert_eq!(none.resource_paths(), Vec::<Vec<u8>>::new());
    assert_eq!(cache.len(), 1);
}

#[test]
fn interning_and_marking() {
    let mut cache = ResourceCache::new();
    assert_eq!(cache.len(), 0);
    let a = cache.intern(b"a.ttf");
    let b = cache.intern(b"b.png");
    assert_eq!(a, ResourceHandle { index: 0 });
    assert_eq!(b, ResourceHandle { index: 1 });
    assert_eq!(cache.intern(b"a.ttf"), a);
    assert_eq!(cache.len(), 2);
    assert_eq!(cache.state(a), Some(ResourceState::Pending));
    assert_eq!(cache.path(b), Some(&b"b.png".to_vec()));
    assert_eq!(cache.state(ResourceHandle { index: 2 }), None);
    assert_eq!(cache.path(ResourceHandle { index: 2 }), None);
    assert!(cache.mark_loaded(b"a.ttf", LoadResult::Loaded));
    assert!(cache.mark_loaded(b"b.png", LoadResult::Failed));
    assert_eq!(cache.state(a), Some(ResourceState::Loaded));
    assert_eq!(cache.state(b), Some(ResourceState::Failed));
    assert_eq!(cache.path(a), Some(&b"a.ttf".to_vec()));
    // A report on a path that was never interned is dropped.
    assert!(!cache.mark_loaded(b"c.png", LoadResult::Loaded));
    assert_eq!(cache.len(), 2);
    assert_eq!(cache.lookup(b"c.png"), None);
    // Interning again does not reset the state.
    assert_eq!(cache.intern(b"a.ttf"), a);
    assert_eq!(cache.state(a), Some(ResourceState::Loaded));
}

#[test]
fn inherit_by_hand() {
    let context = TypeContext::new();
    let mut parent = StyleRecord::new();
    parent.set(Property::Color, AttributeValue::Color(ColorValue::Named(ColorPalette::Accent)));
    parent.set(Property::Width, AttributeValue::Length(LengthUnit::Px, 5));
    let mut own = StyleRecord::new();
    own.set(Property::Height, AttributeValue::Length(LengthUnit::Px, 7));
    let style = inherit(&own, &parent, &context);
    assert!(style.is_complete());
    assert_eq!(style.get(Property::Color), Some(&AttributeValue::Color(ColorValue::Named(ColorPalette::Accent))));
    assert_eq!(style.get(Property::Height), Some(&AttributeValue::Length(LengthUnit::Px, 7)));
    assert_eq!(style.get(Property::Width), Some(&AttributeValue::Length(LengthUnit::Percent, 100)));
    assert_eq!(style.get(Property::FontSize), Some(&AttributeValue::Length(LengthUnit::Px, 18)));
}

#[test]
fn a_copy_of_a_dom_is_the_same_dom() {
    let dom = build_markup("<window><panel color=\"White\">a<label text=\"b\"/></panel></window>", &mut ResourceCache::new()).unwrap();
    assert_eq!(dom.clone(), dom);
}
