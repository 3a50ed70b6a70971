use graphite::layout_abstract_types::AttributeValue;
use graphite::layout_abstract_types::Property;
use graphite::layout_abstract_types::TypeContext;
use graphite::layout_abstract_types::TypeError;
use graphite::layout_attribute_parser::ParseError;
use graphite::layout_system::build_window;
use graphite::layout_system::LayoutSystem;
use graphite::layout_system::OrchestratorError;
use graphite::resource_cache::LoadResult;
use graphite::resource_cache::ResourceCache;
use graphite::resource_cache::ResourceState;
use graphite::source_provider::FetchedSources;
use graphite::source_provider::IoError;
use graphite::window_dom::BuildError;

fn sources(list: &[(&str, Result<&str, &str>)]) -> FetchedSources {
    let mut fetched = FetchedSources::new();
    for (source_id, outcome) in list {
        let outcome = match outcome {
            Ok(markup) => Ok(markup.as_bytes().to_vec()),
            Err(message) => Err(IoError { message: message.as_bytes().to_vec() }),
        };
        fetched.record(source_id.as_bytes(), outcome);
    }
    fetched
}

#[test]
fn registering_twice_is_refused() {
    let mut layout = LayoutSystem::new();
    assert_eq!(layout.window_count(), 0);
    assert_eq!(layout.register_window(b"window", b"main"), Ok(()));
    assert_eq!(layout.register_window(b"tools", b"main"), Ok(()));
    assert_eq!(layout.register_window(b"window", b"other"), Err(OrchestratorError::DuplicateName));
    assert_eq!(layout.window_count(), 2);
    let first = layout.window(0).unwrap();
    assert_eq!(first.name, b"window".to_vec());
    assert_eq!(first.source_id, b"main".to_vec());
    assert_eq!(first.dom, None);
    assert_eq!(layout.window(1).unwrap().name, b"tools".to_vec());
    assert!(layout.window(2).is_none());
}

#[test]
fn no_dom_before_the_first_build() {
    let mut layout = LayoutSystem::new();
    layout.register_window(b"window", b"main").unwrap();
    assert_eq!(layout.get_dom(b"window"), None);
    assert_eq!(layout.get_dom(b"nowhere"), None);
}

#[test]
fn build_all_publishes_every_window() {
    let mut layout = LayoutSystem::new();
    layout.register_window(b"A", b"a.xml").unwrap();
    layout.register_window(b"B", b"b.xml").unwrap();
    let fetched = sources(&[
        ("a.xml", Ok("<window><label text=\"a\"/></window>")),
        ("b.xml", Ok("<window font=\"f.ttf\"><image src=\"i.png\"/></window>")),
    ]);
    assert_eq!(layout.build_all(&fetched), Ok(()));
    assert_eq!(layout.get_dom(b"A").unwrap().children[0].text, Some(b"a".to_vec()));
    assert_eq!(layout.get_dom(b"B").unwrap().children[0].tag, b"image".to_vec());
    assert_eq!(layout.resources().len(), 2);
    assert!(layout.resources().lookup(b"f.ttf").is_some());
    assert!(layout.resources().lookup(b"i.png").is_some());
}

#[test]
fn one_bad_window_does_not_block_the_others() {
    let mut layout = LayoutSystem::new();
    layout.register_window(b"A", b"a.xml").unwrap();
    layout.register_window(b"B", b"b.xml").unwrap();
    let fetched = sources(&[
        ("a.xml", Ok("<window><label text=\"a\"/></window>")),
        ("b.xml", Ok("<window><panel></window>")),
    ]);
    assert_eq!(
        layout.build_all(&fetched),
        Err(vec![(
            b"B".to_vec(),
            BuildError::MarkupRejected(ParseError::MismatchedTag(b"panel".to_vec(), b"window".to_vec()))
        )])
    );
    assert!(layout.get_dom(b"A").is_some());
    assert_eq!(layout.get_dom(b"B"), None);
}

#[test]
fn a_bad_window_before_a_good_one() {
    let mut layout = LayoutSystem::new();
    layout.register_window(b"B", b"b.xml").unwrap();
    layout.register_window(b"A", b"a.xml").unwrap();
    let fetched = sources(&[
        ("a.xml", Ok("<window/>")),
        ("b.xml", Ok("<label glow=\"true\"/>")),
    ]);
    assert_eq!(
        layout.build_all(&fetched),
        Err(vec![(
            b"B".to_vec(),
            BuildError::TypeResolutionFailed(TypeError::UnknownAttribute(b"glow".to_vec(), b"label".to_vec()))
        )])
    );
    assert!(layout.get_dom(b"A").is_some());
    assert_eq!(layout.get_dom(b"B"), None);
}

#[test]
fn a_failed_rebuild_keeps_the_published_dom() {
    let mut layout = LayoutSystem::new();
    layout.register_window(b"A", b"a.xml").unwrap();
    layout.register_window(b"B", b"b.xml").unwrap();
    let good = sources(&[
        ("a.xml", Ok("<window/>")),
        ("b.xml", Ok("<window><label text=\"first\"/></window>")),
    ]);
    assert_eq!(layout.build_all(&good), Ok(()));
    let published = layout.get_dom(b"B").unwrap().clone();
    let bad = sources(&[
        ("a.xml", Ok("<window><panel/></window>")),
        ("b.xml", Ok("<window><button/></window>")),
    ]);
    assert_eq!(
        layout.build_all(&bad),
        Err(vec![(b"B".to_vec(), BuildError::UnknownTag(b"button".to_vec()))])
    );
    assert_eq!(layout.get_dom(b"B"), Some(&published));
    assert_eq!(layout.get_dom(b"A").unwrap().children.len(), 1);
}

#[test]
fn building_twice_gives_the_same_doms() {
    let mut layout = LayoutSystem::new();
    layout.register_window(b"A", b"a.xml").unwrap();
    layout.register_window(b"B", b"b.xml").unwrap();
    layout.register_window(b"C", b"c.xml").unwrap();
    let fetched = sources(&[
        ("a.xml", Ok("<window font=\"f.ttf\"><panel color=\"Accent\">Hello<label text=\"a\"/></panel></window>")),
        ("b.xml", Ok("<window><image src=\"i.png\"/><image src=\"i.png\"/></window>")),
        ("c.xml", Ok("<window>")),
    ]);
    let first = layout.build_all(&fetched);
    let a = layout.get_dom(b"A").unwrap().clone();
    let b = layout.get_dom(b"B").unwrap().clone();
    let resources = layout.resources().len();
    let second = layout.build_all(&fetched);
    assert_eq!(first, second);
    assert_eq!(second, Err(vec![(b"C".to_vec(), BuildError::MarkupRejected(ParseError::UnexpectedEnd))]));
    assert_eq!(layout.get_dom(b"A"), Some(&a));
    assert_eq!(layout.get_dom(b"B"), Some(&b));
    assert_eq!(layout.get_dom(b"C"), None);
    assert_eq!(layout.resources().len(), resources);
    assert_eq!(resources, 2);
}

#[test]
fn fetch_failures_are_listed() {
    let mut layout = LayoutSystem::new();
    layout.register_window(b"A", b"a.xml").unwrap();
    layout.register_window(b"B", b"b.xml").unwrap();
    layout.register_window(b"C", b"c.xml").unwrap();
    let fetched = sources(&[("a.xml", Err("no such file")), ("c.xml", Ok("<window/>"))]);
    assert_eq!(
        layout.build_all(&fetched),
        Err(vec![
            (b"A".to_vec(), BuildError::SourceUnavailable(IoError { message: b"no such file".to_vec() })),
            (b"B".to_vec(), BuildError::SourceMissing),
        ])
    );
    assert!(layout.get_dom(b"C").is_some());
}

#[test]
fn the_last_fetch_of_a_source_counts() {
    let fetched = sources(&[("a", Ok("<window/>")), ("b", Err("gone")), ("a", Ok("<panel/>"))]);
    assert_eq!(fetched.get(b"a"), Some(&Ok(b"<panel/>".to_vec())));
    assert_eq!(fetched.get(b"b"), Some(&Err(IoError { message: b"gone".to_vec() })));
    assert_eq!(fetched.get(b"c"), None);
    let mut layout = LayoutSystem::new();
    layout.register_window(b"w", b"a").unwrap();
    assert_eq!(layout.build_all(&fetched), Ok(()));
    assert_eq!(layout.get_dom(b"w").unwrap().tag, b"panel".to_vec());
}

#[test]
fn windows_may_share_a_source() {
    let mut layout = LayoutSystem::new();
    layout.register_window(b"left", b"main").unwrap();
    layout.register_window(b"right", b"main").unwrap();
    assert_eq!(layout.build_all(&sources(&[("main", Ok("<window font=\"f.ttf\"/>"))])), Ok(()));
    assert_eq!(layout.get_dom(b"left"), layout.get_dom(b"right"));
    assert_eq!(layout.resources().len(), 1);
}

#[test]
fn an_empty_layout_builds() {
    let mut layout = LayoutSystem::new();
    assert_eq!(layout.build_all(&FetchedSources::new()), Ok(()));
}

#[test]
fn load_reports_reach_the_cache() {
    let mut layout = LayoutSystem::new();
    layout.register_window(b"w", b"main").unwrap();
    layout.build_all(&sources(&[("main", Ok("<window font=\"f.ttf\"/>"))])).unwrap();
    let handle = layout.resources().lookup(b"f.ttf").unwrap();
    assert_eq!(layout.resources().state(handle), Some(ResourceState::Pending));
    assert!(layout.mark_loaded(b"f.ttf", LoadResult::Loaded));
    assert_eq!(layout.resources().state(handle), Some(ResourceState::Loaded));
    assert!(!layout.mark_loaded(b"g.ttf", LoadResult::Failed));
    assert!(layout.get_dom(b"w").is_some());
}

#[test]
fn one_window_from_one_fetch() {
    let context = TypeContext::new();
    let mut cache = ResourceCache::new();
    assert_eq!(build_window(None, &context, &mut cache), Err(BuildError::SourceMissing));
    let failed = Err(IoError { message: b"timeout".to_vec() });
    assert_eq!(
        build_window(Some(&failed), &context, &mut cache),
        Err(BuildError::SourceUnavailable(IoError { message: b"timeout".to_vec() }))
    );
    let broken = Ok(b"<window".to_vec());
    assert_eq!(
        build_window(Some(&broken), &context, &mut cache),
        Err(BuildError::MarkupRejected(ParseError::UnexpectedEnd))
    );
    assert_eq!(cache.len(), 0);
    let fine = Ok(b"<label text=\"hi\" font=\"f.ttf\"/>".to_vec());
    let dom = build_window(Some(&fine), &context, &mut cache).unwrap();
    assert_eq!(dom.style.get(Property::Text), Some(&AttributeValue::Text(b"hi".to_vec())));
    assert_eq!(cache.len(), 1);
}

#[test]
fn one_window_is_rebuilt_alone() {
    let mut layout = LayoutSystem::new();
    layout.register_window(b"A", b"a.xml").unwrap();
    layout.register_window(b"B", b"b.xml").unwrap();
    let first = sources(&[("a.xml", Ok("<window/>")), ("b.xml", Ok("<window/>"))]);
    assert_eq!(layout.build_all(&first), Ok(()));
    let changed = sources(&[
        ("a.xml", Ok("<window><panel/></window>")),
        ("b.xml", Ok("<window><label font=\"f.ttf\"/></window>")),
    ]);
    assert_eq!(layout.rebuild_window(b"B", &changed), Some(Ok(())));
    assert_eq!(layout.get_dom(b"A").unwrap().children.len(), 0);
    assert_eq!(layout.get_dom(b"B").unwrap().children.len(), 1);
    assert_eq!(layout.resources().len(), 1);
    assert_eq!(layout.rebuild_window(b"C", &changed), None);
    let broken = sources(&[("b.xml", Ok("<window><label></window>"))]);
    assert_eq!(
        layout.rebuild_window(b"B", &broken),
        Some(Err(BuildError::MarkupRejected(ParseError::MismatchedTag(b"label".to_vec(), b"window".to_vec()))))
    );
    assert_eq!(layout.get_dom(b"B").unwrap().children.len(), 1);
    assert_eq!(layout.rebuild_window(b"A", &broken), Some(Err(BuildError::SourceMissing)));
    assert_eq!(layout.get_dom(b"A").unwrap().children.len(), 0);
}
