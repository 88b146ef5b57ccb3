//! Flex layout: how a container shares its room among its items.

use vstd::prelude::*;

use crate::component::flex::{region_of, span_of, split_frame};
use crate::component::template::{container_position, hash_container, identity};
use crate::component::template::{ComponentId, ComponentKey};
use crate::terminal::canvas::Canvas;
use crate::terminal::{Rect, Size};

verus! {

/// How much room an item takes along the main axis of its container.
#[derive(Clone, Copy, Debug, PartialEq, Eq, Hash, Structural)]
pub enum FlexBasis {
    /// An equal share of what the fixed items leave.
    Auto,
    /// That many cells, or what is left of the container if it is less.
    Fixed(usize),
}

/// The main axis of a container and the order in which its items are placed.
#[derive(Clone, Copy, Debug, PartialEq, Eq, Hash, Structural)]
pub enum FlexDirection {
    Column,
    ColumnReverse,
    Row,
    RowReverse,
}

impl FlexDirection {
    /// Whether the items are placed from the last to the first.
    pub open spec fn reversed(self) -> bool {
        self is ColumnReverse || self is RowReverse
    }

    /// Whether the main axis is horizontal.
    pub open spec fn horizontal(self) -> bool {
        self is Row || self is RowReverse
    }

    /// The extent of a region along the main axis.
    pub open spec fn main_extent(self, size: Size) -> usize {
        if self.horizontal() {
            size.width
        } else {
            size.height
        }
    }

    #[inline]
    pub fn is_reversed(&self) -> (yes: bool)
        ensures
            yes == self.reversed(),
    {
        match self {
            FlexDirection::Column | FlexDirection::Row => false,
            FlexDirection::ColumnReverse | FlexDirection::RowReverse => true,
        }
    }

    /// Tells whether the main axis is horizontal.
    #[inline]
    pub fn is_horizontal(&self) -> (yes: bool)
        ensures
            yes == self.horizontal(),
    {
        match self {
            FlexDirection::Row | FlexDirection::RowReverse => true,
            FlexDirection::Column | FlexDirection::ColumnReverse => false,
        }
    }

    /// The extent of a region along the main axis.
    #[inline]
    pub fn dimension(self, size: Size) -> (extent: usize)
        ensures
            extent == self.main_extent(size),
    {
        match self {
            FlexDirection::Row => size.width,
            FlexDirection::RowReverse => size.width,
            FlexDirection::Column => size.height,
            FlexDirection::ColumnReverse => size.height,
        }
    }
}

/// The stretch of the main axis that one item was given.
#[derive(Clone, Copy, Debug, PartialEq, Eq, Structural)]
pub struct Span {
    pub offset: usize,
    pub size: usize,
}

/// The declaration of a component: its kind, the key that tells it from its
/// siblings of the same kind, if it has one, and the properties that it is
/// created with.
pub struct Template<P> {
    pub kind: u64,
    pub key: Option<ComponentKey>,
    pub properties: P,
}

/// A node of a layout tree.
pub enum LayoutNode<P> {
    /// A flex container with its items.
    Container(Box<Container<P>>),
    /// A component.
    Component(Template<P>),
    /// Cells that are rendered already.
    Canvas(Canvas),
}

/// A layout tree: what a component shows, as a tree of containers with
/// components and canvases at its leaves.
pub struct Layout<P>(pub LayoutNode<P>);

/// A flex container with a direction and items.
pub struct Container<P> {
    pub children: Vec<Item<P>>,
    pub direction: FlexDirection,
}

/// A layout tree inside a container, with the room it asks for along the
/// main axis.
pub struct Item<P> {
    pub node: Layout<P>,
    pub flex: FlexBasis,
}

impl<P> Item<P> {
    /// An item that shares what the fixed items leave with the other items
    /// of its kind.
    #[inline]
    pub fn auto(layout: Layout<P>) -> (item: Self)
        ensures
            item.node == layout,
            item.flex == FlexBasis::Auto,
    {
        Item { node: layout, flex: FlexBasis::Auto }
    }

    /// An item of a fixed size.
    #[inline]
    pub fn fixed(size: usize, layout: Layout<P>) -> (item: Self)
        ensures
            item.node == layout,
            item.flex == FlexBasis::Fixed(size),
    {
        Item { node: layout, flex: FlexBasis::Fixed(size) }
    }
}

impl<P> Container<P> {
    /// A container with the given direction and items.
    #[inline]
    pub fn new(direction: FlexDirection, items: Vec<Item<P>>) -> (container: Self)
        ensures
            container.direction == direction,
            container.children == items,
    {
        Container { children: items, direction }
    }

    /// A container with the given direction and no items.
    #[inline]
    pub fn empty(direction: FlexDirection) -> (container: Self)
        ensures
            container.direction == direction,
            container.children@ == Seq::<Item<P>>::empty(),
    {
        Container { children: Vec::new(), direction }
    }

    /// Adds an item after the others.
    #[inline]
    pub fn push(&mut self, item: Item<P>)
        ensures
            final(self).direction == old(self).direction,
            final(self).children@ == old(self).children@.push(item),
    {
        self.children.push(item);
    }

    /// A container that places its items from top to bottom.
    #[inline]
    pub fn column(items: Vec<Item<P>>) -> (container: Self)
        ensures
            container.direction == FlexDirection::Column,
            container.children == items,
    {
        Self::new(FlexDirection::Column, items)
    }

    /// A container that places its items from bottom to top.
    #[inline]
    pub fn column_reverse(items: Vec<Item<P>>) -> (container: Self)
        ensures
            container.direction == FlexDirection::ColumnReverse,
            container.children == items,
    {
        Self::new(FlexDirection::ColumnReverse, items)
    }

    /// A container that places its items from left to right.
    #[inline]
    pub fn row(items: Vec<Item<P>>) -> (container: Self)
        ensures
            container.direction == FlexDirection::Row,
            container.children == items,
    {
        Self::new(FlexDirection::Row, items)
    }

    /// A container that places its items from right to left.
    #[inline]
    pub fn row_reverse(items: Vec<Item<P>>) -> (container: Self)
        ensures
            container.direction == FlexDirection::RowReverse,
            container.children == items,
    {
        Self::new(FlexDirection::RowReverse, items)
    }
}

impl<P> From<Canvas> for Layout<P> {
    fn from(canvas: Canvas) -> (layout: Self) {
        Layout(LayoutNode::Canvas(canvas))
    }
}

impl<P> vstd::std_specs::convert::FromSpecImpl<Canvas> for Layout<P> {
    open spec fn obeys_from_spec() -> bool {
        true
    }

    open spec fn from_spec(canvas: Canvas) -> Self {
        Layout(LayoutNode::Canvas(canvas))
    }
}

impl<P> From<Container<P>> for Layout<P> {
    fn from(container: Container<P>) -> (layout: Self) {
        Layout(LayoutNode::Container(Box::new(container)))
    }
}

impl<P> vstd::std_specs::convert::FromSpecImpl<Container<P>> for Layout<P> {
    open spec fn obeys_from_spec() -> bool {
        true
    }

    open spec fn from_spec(container: Container<P>) -> Self {
        Layout(LayoutNode::Container(Box::new(container)))
    }
}

impl<P> Layout<P> {
    /// The layout that is one component of the given kind.
    #[inline]
    pub fn component(kind: u64, properties: P) -> (layout: Self)
        ensures
            layout.0 == LayoutNode::Component(Template { kind, key: None, properties }),
    {
        Layout(LayoutNode::Component(Template { kind, key: None, properties }))
    }

    /// The layout that is one component of the given kind, told from its
    /// siblings of the same kind by `key`.
    #[inline]
    pub fn component_with_key(kind: u64, key: ComponentKey, properties: P) -> (layout: Self)
        ensures
            layout.0 == LayoutNode::Component(Template { kind, key: Some(key), properties }),
    {
        Layout(LayoutNode::Component(Template { kind, key: Some(key), properties }))
    }

    /// The layout that is one canvas.
    #[inline]
    pub fn canvas(canvas: Canvas) -> (layout: Self)
        ensures
            layout.0 == LayoutNode::<P>::Canvas(canvas),
    {
        Layout(LayoutNode::Canvas(canvas))
    }

    /// The layout that is one container.
    #[inline]
    pub fn from_container(container: Container<P>) -> (layout: Self)
        ensures
            layout.0 == LayoutNode::Container(Box::new(container)),
    {
        Layout(LayoutNode::Container(Box::new(container)))
    }

    /// The layout that is a container with the given direction and items.
    #[inline]
    pub fn container(direction: FlexDirection, items: Vec<Item<P>>) -> (layout: Self)
        ensures
            layout.0 == LayoutNode::Container(
                Box::new(Container { children: items, direction }),
            ),
    {
        Self::from_container(Container::new(direction, items))
    }

    /// The layout that places the items from top to bottom.
    #[inline]
    pub fn column(items: Vec<Item<P>>) -> (layout: Self)
        ensures
            layout.0 == LayoutNode::Container(
                Box::new(Container { children: items, direction: FlexDirection::Column }),
            ),
    {
        Self::from_container(Container::column(items))
    }

    /// The layout that places the items from bottom to top.
    #[inline]
    pub fn column_reverse(items: Vec<Item<P>>) -> (layout: Self)
        ensures
            layout.0 == LayoutNode::Container(
                Box::new(Container { children: items, direction: FlexDirection::ColumnReverse }),
            ),
    {
        Self::from_container(Container::column_reverse(items))
    }

    /// The layout that places the items from left to right.
    #[inline]
    pub fn row(items: Vec<Item<P>>) -> (layout: Self)
        ensures
            layout.0 == LayoutNode::Container(
                Box::new(Container { children: items, direction: FlexDirection::Row }),
            ),
    {
        Self::from_container(Container::row(items))
    }

    /// The layout that places the items from right to left.
    #[inline]
    pub fn row_reverse(items: Vec<Item<P>>) -> (layout: Self)
        ensures
            layout.0 == LayoutNode::Container(
                Box::new(Container { children: items, direction: FlexDirection::RowReverse }),
            ),
    {
        Self::from_container(Container::row_reverse(items))
    }
}

/// A leaf of a layout tree with the region that the tree gives it.
pub enum Laid<'a, P> {
    /// A component, with the identity that its place in the tree gives it.
    Component { frame: Rect, id: ComponentId, template: &'a Template<P> },
    /// A canvas.
    Canvas { frame: Rect, canvas: &'a Canvas },
}

impl<'a, P> Laid<'a, P> {
    /// The region that the leaf was given.
    pub open spec fn region(self) -> Rect {
        match self {
            Laid::Component { frame, .. } => frame,
            Laid::Canvas { frame, .. } => frame,
        }
    }
}

/// The bases of the items of a container.
pub open spec fn bases_of<P>(children: Seq<Item<P>>) -> Seq<FlexBasis> {
    Seq::new(children.len(), |i: int| children[i].flex)
}

/// The region of `frame` that a container gives to the item declared at `i`.
pub open spec fn item_frame<P>(
    frame: Rect,
    direction: FlexDirection,
    children: Seq<Item<P>>,
    i: int,
) -> Rect {
    region_of(
        frame,
        direction,
        span_of(direction.main_extent(frame.size) as nat, direction, bases_of(children), i),
    )
}

/// The item that a container serves at the given turn: the items come in
/// the declared order, or from the last to the first.
pub open spec fn served(direction: FlexDirection, len: int, turn: int) -> int {
    if direction.reversed() {
        len - 1 - turn
    } else {
        turn
    }
}

/// The leaves of a layout tree that is laid out in `frame`, in the order in
/// which they are reached. `position` is the hash of the place of the tree.
pub open spec fn laid_out<'a, P>(node: &'a LayoutNode<P>, frame: Rect, position: u64) -> Seq<
    Laid<'a, P>,
>
    decreases node, 1int, 0int,
{
    match node {
        LayoutNode::Component(template) => seq![
            Laid::Component {
                frame,
                id: identity(position, template.kind, template.key),
                template,
            },
        ],
        LayoutNode::Canvas(canvas) => seq![Laid::Canvas { frame, canvas }],
        LayoutNode::Container(container) => laid_out_items(
            node,
            frame,
            container_position(position),
            container.children@.len() as int,
        ),
    }
}

/// The leaves of the items that a container serves in its first `turns`
/// turns.
pub open spec fn laid_out_items<'a, P>(
    node: &'a LayoutNode<P>,
    frame: Rect,
    position: u64,
    turns: int,
) -> Seq<Laid<'a, P>>
    decreases node, 0int, turns,
{
    match node {
        LayoutNode::Container(container) => {
            if turns <= 0 || turns > container.children@.len() {
                Seq::empty()
            } else {
                let i = served(container.direction, container.children@.len() as int, turns - 1);
                laid_out_items(node, frame, position, turns - 1) + laid_out(
                    &container.children@[i].node.0,
                    item_frame(frame, container.direction, container.children@, i),
                    position,
                )
            }
        },
        _ => Seq::empty(),
    }
}

/// The bases of the items of a container.
fn collect_bases<P>(children: &Vec<Item<P>>) -> (bases: Vec<FlexBasis>)
    ensures
        bases@ == bases_of(children@),
{
    let mut bases: Vec<FlexBasis> = Vec::new();
    let mut i: usize = 0;
    while i < children.len()
        invariant
            i <= children@.len(),
            bases@.len() == i,
            forall|j: int| 0 <= j < i ==> bases@[j] == children@[j].flex,
        decreases children@.len() - i,
    {
        bases.push(children[i].flex);
        i = i + 1;
    }
    assert(bases@ =~= bases_of(children@));
    bases
}

impl<P> LayoutNode<P> {
    /// Lays the tree out in `frame` and appends its leaves to `found`, in
    /// the order in which they are reached, each with the region that the
    /// tree gives it. `position_hash` is the hash of the place of the tree.
    pub fn crawl<'a>(
        &'a self,
        frame: Rect,
        position_hash: u64,
        found: &mut Vec<Laid<'a, P>>,
    )
        requires
            frame.representable(),
        ensures
            final(found)@ == old(found)@ + laid_out(self, frame, position_hash),
            forall|k: int|
                old(found)@.len() <= k < final(found)@.len() ==> {
                    &&& (#[trigger] final(found)@[k]).region().representable()
                    &&& frame.encloses(final(found)@[k].region())
                },
        decreases self,
    {
        match self {
            LayoutNode::Component(template) => {
                let id = ComponentId::generate(position_hash, template.kind, template.key);
                found.push(Laid::Component { frame, id, template });
                assert(found@ =~= old(found)@ + laid_out(self, frame, position_hash));
            },
            LayoutNode::Canvas(canvas) => {
                found.push(Laid::Canvas { frame, canvas });
                assert(found@ =~= old(found)@ + laid_out(self, frame, position_hash));
            },
            LayoutNode::Container(container) => {
                let position = hash_container(position_hash);
                let len = container.children.len();
                let bases = collect_bases(&container.children);
                let frames = split_frame(frame, container.direction, bases.as_slice());
                let reversed = container.direction.is_reversed();
                let mut turn: usize = 0;
                assert(found@ =~= old(found)@ + laid_out_items(self, frame, position, 0));
                while turn < len
                    invariant
                        turn <= len,
                        len == container.children@.len(),
                        self == LayoutNode::Container(*container),
                        reversed == container.direction.reversed(),
                        position == container_position(position_hash),
                        frames@.len() == len,
                        forall|i: int|
                            0 <= i < len ==> frames@[i] == item_frame(
                                frame,
                                container.direction,
                                container.children@,
                                i,
                            ),
                        forall|i: int|
                            0 <= i < len ==> (#[trigger] frames@[i]).representable()
                                && frame.encloses(frames@[i]),
                        old(found)@.len() <= found@.len(),
                        forall|k: int|
                            old(found)@.len() <= k < found@.len() ==> {
                                &&& (#[trigger] found@[k]).region().representable()
                                &&& frame.encloses(found@[k].region())
                            },
                        found@ == old(found)@ + laid_out_items(
                            self,
                            frame,
                            position,
                            turn as int,
                        ),
                    decreases len - turn,
                {
                    let i = if reversed {
                        len - 1 - turn
                    } else {
                        turn
                    };
                    let ghost before = found@;
                    container.children[i].node.0.crawl(frames[i], position, found);
                    proof {
                        let step = laid_out(
                            &container.children@[i as int].node.0,
                            frames@[i as int],
                            position,
                        );
                        assert(laid_out_items(self, frame, position, turn as int + 1)
                            == laid_out_items(self, frame, position, turn as int) + step);
                        assert(found@ =~= old(found)@ + laid_out_items(
                            self,
                            frame,
                            position,
                            turn as int + 1,
                        ));
                    }
                    turn = turn + 1;
                }
            },
        }
    }
}

impl<P> Layout<P> {
    /// The leaves of the layout laid out in `frame`, in the order in which
    /// they are reached, each with the region that the layout gives it.
    pub fn crawl<'a>(&'a self, frame: Rect, position_hash: u64) -> (found: Vec<Laid<'a, P>>)
        requires
            frame.representable(),
        ensures
            found@ == laid_out(&self.0, frame, position_hash),
            forall|k: int|
                0 <= k < found@.len() ==> {
                    &&& (#[trigger] found@[k]).region().representable()
                    &&& frame.encloses(found@[k].region())
                },
    {
        let mut found: Vec<Laid<'a, P>> = Vec::new();
        self.0.crawl(frame, position_hash, &mut found);
        assert(found@ =~= laid_out(&self.0, frame, position_hash));
        found
    }
}

} // verus!
