use zi::component::template::hash_container;
use zi::{
    Bindings, Canvas, Component, ComponentExt, ComponentId, ComponentKey, ComponentLink, Container,
    FlexBasis, FlexDirection, Item, Laid, Layout, LayoutNode, Position, Rect, ShouldRender, Size,
};

const LABEL: u64 = 7;

fn frame(x: usize, y: usize, width: usize, height: usize) -> Rect {
    Rect::new(Position::new(x, y), Size::new(width, height))
}

fn label(text: &'static str) -> Layout<&'static str> {
    Layout::component(LABEL, text)
}

fn frames_and_texts(found: &[Laid<'_, &'static str>]) -> Vec<(Rect, &'static str)> {
    found
        .iter()
        .map(|leaf| match leaf {
            Laid::Component { frame, template, .. } => (*frame, template.properties),
            Laid::Canvas { frame, .. } => (*frame, "canvas"),
        })
        .collect()
}

#[test]
fn the_leaves_of_a_column_come_in_the_declared_order() {
    let layout = Layout::column(vec![
        Item::fixed(2, label("title")),
        Item::auto(label("body")),
        Item::fixed(1, Layout::canvas(Canvas::new(Size::new(3, 1)))),
    ]);
    let found = layout.crawl(frame(1, 1, 20, 10), 0);
    assert_eq!(
        frames_and_texts(&found),
        vec![
            (frame(1, 1, 20, 2), "title"),
            (frame(1, 3, 20, 7), "body"),
            (frame(1, 10, 20, 1), "canvas"),
        ]
    );
}

#[test]
fn a_reversed_row_is_walked_from_its_last_item() {
    let layout = Layout::row_reverse(vec![
        Item::fixed(4, label("first")),
        Item::auto(label("second")),
    ]);
    let found = layout.crawl(frame(0, 0, 10, 3), 0);
    assert_eq!(
        frames_and_texts(&found),
        vec![(frame(0, 0, 6, 3), "second"), (frame(6, 0, 4, 3), "first")]
    );
}

#[test]
fn containers_within_containers_share_the_region_of_their_item() {
    let layout = Layout::row(vec![
        Item::fixed(5, label("side")),
        Item::auto(Layout::column(vec![
            Item::auto(label("upper")),
            Item::auto(label("lower")),
        ])),
    ]);
    let found = layout.crawl(frame(0, 0, 15, 7), 0);
    assert_eq!(
        frames_and_texts(&found),
        vec![
            (frame(0, 0, 5, 7), "side"),
            (frame(5, 0, 10, 4), "upper"),
            (frame(5, 4, 10, 3), "lower"),
        ]
    );
}

#[test]
fn a_leaf_is_named_after_its_place_kind_and_key() {
    let layout = Layout::column(vec![
        Item::auto(label("plain")),
        Item::auto(Layout::component_with_key(LABEL, ComponentKey::from_usize(3), "keyed")),
    ]);
    let found = layout.crawl(frame(0, 0, 4, 4), 11);
    let ids: Vec<ComponentId> = found
        .iter()
        .map(|leaf| match leaf {
            Laid::Component { id, .. } => *id,
            Laid::Canvas { .. } => panic!("the layout declares no canvas"),
        })
        .collect();
    let inside = hash_container(11);
    assert_eq!(
        ids,
        vec![
            ComponentId::generate(inside, LABEL, None),
            ComponentId::generate(inside, LABEL, Some(ComponentKey::from_usize(3))),
        ]
    );
    assert_ne!(ids[0], ids[1]);
    assert_eq!(ids[0].kind(), LABEL);
    assert_eq!(ids[0].position(), ids[0].id);
}

#[test]
fn identities_tell_places_kinds_and_keys_apart() {
    let here = ComponentId::generate(1, LABEL, None);
    assert_eq!(here, ComponentId::generate(1, LABEL, None));
    assert_ne!(here, ComponentId::generate(2, LABEL, None));
    assert_ne!(here, ComponentId::generate(1, LABEL + 1, None));
    assert_ne!(here, ComponentId::generate(1, LABEL, Some(ComponentKey(0))));
    assert_ne!(hash_container(1), 1);
    assert_ne!(hash_container(1), hash_container(2));
    assert_eq!(hash_container(1), hash_container(1));
}

#[test]
fn keys_are_made_of_numbers_and_of_texts() {
    assert_eq!(ComponentKey::from_usize(9).value(), 9);
    assert_eq!(ComponentKey::from(9usize), ComponentKey(9));
    assert_eq!(ComponentKey::from("left"), ComponentKey::from_text("left"));
    assert_ne!(ComponentKey::from_text("left"), ComponentKey::from_text("right"));
}

#[test]
fn builders_make_the_containers_they_are_named_after() {
    let mut container: Container<&'static str> = Container::empty(FlexDirection::Row);
    container.push(Item::fixed(2, label("a")));
    container.push(Item::auto(label("b")));
    assert_eq!(container.children.len(), 2);
    assert!(container.children[0].flex == FlexBasis::Fixed(2));
    assert!(container.children[1].flex == FlexBasis::Auto);
    assert!(container.direction == FlexDirection::Row);
    assert!(Container::<()>::column(vec![]).direction == FlexDirection::Column);
    assert!(Container::<()>::column_reverse(vec![]).direction == FlexDirection::ColumnReverse);
    assert!(Container::<()>::row(vec![]).direction == FlexDirection::Row);
    assert!(Container::<()>::row_reverse(vec![]).direction == FlexDirection::RowReverse);
    let layout: Layout<&'static str> = container.into();
    assert!(matches!(layout.0, LayoutNode::Container(_)));
    let canvas: Layout<()> = Canvas::new(Size::new(2, 2)).into();
    assert!(matches!(canvas.0, LayoutNode::Canvas(_)));
}

struct Gauge;

impl Component for Gauge {
    type Message = ();
    type Properties = u8;

    fn create(_: &u8, _: Rect, _: ComponentLink<()>) -> Self {
        Gauge
    }

    fn view(&self) -> Layout<u8> {
        Layout::canvas(Canvas::new(Size::new(1, 1)))
    }

    fn kind(_: &u8) -> u64 {
        42
    }
    fn change(&mut self, _: &u8) -> ShouldRender {
        ShouldRender::No
    }

    fn resize(&mut self, _: Rect) -> ShouldRender {
        ShouldRender::No
    }

    fn update(&mut self, _: ()) -> ShouldRender {
        ShouldRender::No
    }

    fn bindings(&self, _: &mut Bindings<Self>) {}

    fn tick(&self) -> Option<()> {
        None
    }
}

#[test]
fn a_component_is_declared_with_its_kind() {
    match Gauge::with(5).0 {
        LayoutNode::Component(template) => {
            assert_eq!(template.kind, 42);
            assert_eq!(template.key, None);
            assert_eq!(template.properties, 5);
        }
        _ => panic!("a component was declared"),
    }
    match Gauge::with_key(ComponentKey(1), 6).0 {
        LayoutNode::Component(template) => {
            assert_eq!(template.kind, 42);
            assert_eq!(template.key, Some(ComponentKey(1)));
            assert_eq!(template.properties, 6);
        }
        _ => panic!("a component was declared"),
    }
    let item = Gauge::item_with(FlexBasis::Fixed(3), 7);
    assert!(item.flex == FlexBasis::Fixed(3));
    assert!(matches!(item.node.0, LayoutNode::Component(_)));
    let keyed = Gauge::item_with_key(FlexBasis::Auto, ComponentKey(2), 8);
    assert!(keyed.flex == FlexBasis::Auto);
    match keyed.node.0 {
        LayoutNode::Component(template) => assert_eq!(template.key, Some(ComponentKey(2))),
        _ => panic!("a component was declared"),
    }
}
