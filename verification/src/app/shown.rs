//! What the screen shows after a walk of the tree.
//!
//! A walk copies the canvases that the root shows to the screen, then takes
//! up the components that the root shows, the last one first, and does the
//! same with what each of them shows. What a cell of the screen holds in
//! the end is what the last canvas that covers it has put there.

use vstd::prelude::*;

use crate::app::mounted::{distinct, lemma_mounted_at, mounted_at, MountedComponent};
use crate::app::orderly::{Pending, seen, walked_through};
use crate::component::Component;
use crate::component::layout::{Laid, laid_out, Layout, LayoutNode};
use crate::component::template::ComponentId;
use crate::terminal::{Position, Rect, Size};
use crate::terminal::canvas::{Canvas, Textel};

verus! {

/// What the cell in column `x` of row `y` of a screen of the given extent
/// holds once the canvases among the first `upto` leaves were copied to it,
/// one after the other: what the last canvas that covers the cell holds
/// there, or `under`, which is what the cell held.
pub open spec fn painted_cell<'a, P>(
    extent: Size,
    under: Option<Textel>,
    laid: Seq<Laid<'a, P>>,
    upto: int,
    x: int,
    y: int,
) -> Option<Textel>
    decreases upto,
{
    if upto <= 0 {
        under
    } else {
        match laid[upto - 1] {
            Laid::Canvas { frame, canvas } => if Canvas::covered(
                extent,
                canvas.extent(),
                frame,
                x,
                y,
            ) {
                canvas.cell(x - frame.origin.x, y - frame.origin.y)
            } else {
                painted_cell(extent, under, laid, upto - 1, x, y)
            },
            Laid::Component { .. } => painted_cell(extent, under, laid, upto - 1, x, y),
        }
    }
}

/// The components among the first `upto` leaves, in the order of the
/// leaves, each with the region that it is to be walked in.
pub open spec fn awaited<'a, P>(laid: Seq<Laid<'a, P>>, upto: int) -> Seq<Pending>
    decreases upto,
{
    if upto <= 0 {
        Seq::empty()
    } else {
        match laid[upto - 1] {
            Laid::Component { frame, id, .. } => awaited(laid, upto - 1).push(
                Pending { id, frame },
            ),
            Laid::Canvas { .. } => awaited(laid, upto - 1),
        }
    }
}

/// Every component that is put down for the leaves is among the leaves.
pub proof fn lemma_awaited_leaf<'a, P>(laid: Seq<Laid<'a, P>>, upto: int, m: int)
    requires
        0 <= upto <= laid.len(),
        0 <= m < awaited(laid, upto).len(),
    ensures
        exists|k: int|
            0 <= k < upto && (#[trigger] laid[k] matches Laid::Component { id, .. } && id == awaited(
                laid,
                upto,
            )[m].id),
    decreases upto,
{
    if upto > 0 {
        let rest = awaited(laid, upto - 1);
        if m < rest.len() {
            lemma_awaited_leaf(laid, upto - 1, m);
            let k = choose|k: int|
                0 <= k < upto - 1 && (#[trigger] laid[k] matches Laid::Component { id, .. } && id
                    == rest[m].id);
            assert(awaited(laid, upto)[m] == rest[m]);
            assert(laid[k] matches Laid::Component { id, .. } && id == awaited(laid, upto)[m].id);
        } else {
            assert(laid[upto - 1] matches Laid::Component { id, .. } && id == awaited(
                laid,
                upto,
            )[m].id);
        }
    }
}

/// Whether the components that were put down as still to be walked from the
/// place `from` on are new to the walk: none was reached before, the table
/// then being `before`, and no two of them are the same.
pub open spec fn fresh_entries<ComponentT: Component>(
    before: Seq<MountedComponent<ComponentT>>,
    pending: Seq<Pending>,
    from: int,
    generation: usize,
) -> bool {
    &&& forall|k: int|
        from <= k < pending.len() && 0 <= k ==> !seen(before, generation, (#[trigger] pending[k]).id)
    &&& forall|a: int, b: int|
        from <= a < b < pending.len() && 0 <= a ==> (#[trigger] pending[a]).id != (
        #[trigger] pending[b]).id
}

/// Whether the cell in column `x` of row `y` lies in the region.
pub open spec fn inside(frame: Rect, x: int, y: int) -> bool {
    frame.origin.x <= x < frame.right() && frame.origin.y <= y < frame.bottom()
}

/// Whether the cell in column `x` of row `y` lies in none of the regions
/// in which the components `first` are to be walked.
pub open spec fn beside(first: Seq<Pending>, x: int, y: int) -> bool {
    forall|k: int| 0 <= k < first.len() ==> !inside((#[trigger] first[k]).frame, x, y)
}

/// Whether the region lies within the region of one of the components
/// `first`.
pub open spec fn within(first: Seq<Pending>, frame: Rect) -> bool {
    exists|m: int| 0 <= m < first.len() && (#[trigger] first[m]).frame.encloses(frame)
}

/// Whether every one of `pending` is to be walked within the region of one
/// of the components `first`.
#[verifier::opaque]
pub open spec fn all_within(first: Seq<Pending>, pending: Seq<Pending>) -> bool {
    forall|k: int| 0 <= k < pending.len() ==> within(first, (#[trigger] pending[k]).frame)
}

/// Whether one of the leaves has the region.
pub open spec fn from_leaves<'a, P>(laid: Seq<Laid<'a, P>>, frame: Rect) -> bool {
    exists|m: int| 0 <= m < laid.len() && (#[trigger] laid[m]).region() == frame
}

/// Canvases paint within their regions: a cell outside the region that
/// encloses the regions of all leaves is left as it was.
pub proof fn lemma_unpainted<'a, P>(
    extent: Size,
    under: Option<Textel>,
    laid: Seq<Laid<'a, P>>,
    upto: int,
    frame: Rect,
    x: int,
    y: int,
)
    requires
        0 <= upto <= laid.len(),
        forall|k: int| 0 <= k < laid.len() ==> frame.encloses((#[trigger] laid[k]).region()),
        !inside(frame, x, y),
    ensures
        painted_cell(extent, under, laid, upto, x, y) == under,
    decreases upto,
{
    if upto > 0 {
        lemma_unpainted(extent, under, laid, upto - 1, frame, x, y);
        assert(frame.encloses(laid[upto - 1].region()));
    }
}

/// What the leaves of a component paint and put down stays within the
/// regions of the components `first`, where the component is walked within
/// one of them.
pub proof fn lemma_beside_step<'a, P>(
    first: Seq<Pending>,
    waiting: Seq<Pending>,
    pending: Seq<Pending>,
    laid: Seq<Laid<'a, P>>,
    extent: Size,
    under: Option<Textel>,
    x: int,
    y: int,
)
    requires
        waiting.len() > 0,
        all_within(first, waiting),
        forall|k: int|
            0 <= k < laid.len() ==> waiting.last().frame.encloses((#[trigger] laid[k]).region()),
        forall|k: int| 0 <= k < waiting.len() - 1 ==> #[trigger] pending[k] == waiting[k],
        waiting.len() - 1 <= pending.len(),
        forall|k: int|
            waiting.len() - 1 <= k < pending.len() ==> from_leaves(laid, (#[trigger] pending[k]).frame),
    ensures
        all_within(first, pending),
        beside(first, x, y) ==> painted_cell(extent, under, laid, laid.len() as int, x, y) == under,
{
    reveal(all_within);
    let entry = waiting.last();
    assert(within(first, waiting[waiting.len() - 1].frame));
    let m = choose|m: int| 0 <= m < first.len() && (#[trigger] first[m]).frame.encloses(entry.frame);
    assert forall|k: int| 0 <= k < pending.len() implies within(
        first,
        (#[trigger] pending[k]).frame,
    ) by {
        if k < waiting.len() - 1 {
            assert(within(first, waiting[k].frame));
        } else {
            let at = choose|at: int|
                0 <= at < laid.len() && (#[trigger] laid[at]).region() == pending[k].frame;
            assert(entry.frame.encloses(laid[at].region()));
            assert(first[m].frame.encloses(pending[k].frame));
        }
    }
    if beside(first, x, y) {
        assert(!inside(first[m].frame, x, y));
        lemma_unpainted(extent, under, laid, laid.len() as int, entry.frame, x, y);
    }
}

/// Whether `screen` holds, in the cells that lie in no region of the
/// components `first`, what the canvases among the leaves `laid` have put
/// there, and where none has, what the screen `before` held.
#[verifier::opaque]
pub open spec fn beside_painted<'a, P>(
    first: Seq<Pending>,
    before: Canvas,
    screen: Canvas,
    laid: Seq<Laid<'a, P>>,
) -> bool {
    forall|x: int, y: int|
        before.has(x, y) && beside(first, x, y) ==> #[trigger] screen.cell(x, y) == painted_cell(
            before.extent(),
            before.cell(x, y),
            laid,
            laid.len() as int,
            x,
            y,
        )
}

/// The root was gone through: its canvases are painted, and its components
/// are to be walked in their regions.
pub proof fn lemma_beside_start<'a, P>(
    first: Seq<Pending>,
    before: Canvas,
    screen: Canvas,
    laid: Seq<Laid<'a, P>>,
)
    requires
        forall|x: int, y: int|
            before.has(x, y) ==> #[trigger] screen.cell(x, y) == painted_cell(
                before.extent(),
                before.cell(x, y),
                laid,
                laid.len() as int,
                x,
                y,
            ),
    ensures
        beside_painted(first, before, screen, laid),
        all_within(first, first),
{
    reveal(beside_painted);
    reveal(all_within);
    assert forall|k: int| 0 <= k < first.len() implies within(first, (#[trigger] first[k]).frame) by {
        assert(first[k].frame.encloses(first[k].frame));
    }
}

/// A component was taken up and what it shows gone through: the cells
/// beside the components that the root shows are as they were.
pub proof fn lemma_beside_walk<'a, 'b, P>(
    first: Seq<Pending>,
    waiting: Seq<Pending>,
    pending: Seq<Pending>,
    laid: Seq<Laid<'a, P>>,
    before: Canvas,
    shown: Canvas,
    screen: Canvas,
    root_laid: Seq<Laid<'b, P>>,
)
    requires
        beside_painted(first, before, shown, root_laid),
        all_within(first, waiting),
        waiting.len() > 0,
        shown.extent() == before.extent(),
        forall|x: int, y: int|
            shown.has(x, y) ==> #[trigger] screen.cell(x, y) == painted_cell(
                shown.extent(),
                shown.cell(x, y),
                laid,
                laid.len() as int,
                x,
                y,
            ),
        forall|k: int|
            0 <= k < laid.len() ==> waiting.last().frame.encloses((#[trigger] laid[k]).region()),
        forall|k: int| 0 <= k < waiting.len() - 1 ==> #[trigger] pending[k] == waiting[k],
        waiting.len() - 1 <= pending.len(),
        forall|k: int|
            waiting.len() - 1 <= k < pending.len() ==> from_leaves(laid, (#[trigger] pending[k]).frame),
    ensures
        beside_painted(first, before, screen, root_laid),
        all_within(first, pending),
{
    reveal(beside_painted);
    reveal(all_within);
    lemma_beside_step(first, waiting, pending, laid, shown.extent(), None, 0, 0);
    assert forall|x: int, y: int| before.has(x, y) && beside(first, x, y) implies #[trigger] screen.cell(
        x,
        y,
    ) == painted_cell(
        before.extent(),
        before.cell(x, y),
        root_laid,
        root_laid.len() as int,
        x,
        y,
    ) by {
        lemma_beside_step(first, waiting, pending, laid, shown.extent(), shown.cell(x, y), x, y);
        assert(shown.has(x, y));
    }
}

/// The layout that the component that goes by `id` holds.
pub open spec fn layout_of<ComponentT: Component>(
    components: Seq<MountedComponent<ComponentT>>,
    id: ComponentId,
) -> Option<Layout<ComponentT::Properties>> {
    components[mounted_at(components, id)].layout
}

/// The leaves of what a component that is to be walked shows, laid out in
/// the region that it is to be walked in.
pub open spec fn leaves_of<'a, ComponentT: Component>(
    components: Seq<MountedComponent<ComponentT>>,
    entry: Pending,
) -> Seq<Laid<'a, ComponentT::Properties>> {
    match layout_of(components, entry.id) {
        Some(layout) => laid_out(&layout.0, entry.frame, entry.id.id),
        None => Seq::empty(),
    }
}

/// What is still to be walked once the last of `pending` was taken up: the
/// others, and after them the components that it shows.
pub open spec fn queue_step<ComponentT: Component>(
    components: Seq<MountedComponent<ComponentT>>,
    pending: Seq<Pending>,
) -> Seq<Pending> {
    if pending.len() == 0 {
        pending
    } else {
        let laid = leaves_of(components, pending.last());
        pending.drop_last() + awaited(laid, laid.len() as int)
    }
}

/// What is still to be walked once `steps` components were taken up, one
/// after the other, beginning with `pending`.
pub open spec fn queue_after<ComponentT: Component>(
    components: Seq<MountedComponent<ComponentT>>,
    pending: Seq<Pending>,
    steps: nat,
) -> Seq<Pending>
    decreases steps,
{
    if steps == 0 {
        pending
    } else {
        queue_step(components, queue_after(components, pending, (steps - 1) as nat))
    }
}

/// What a cell holds once the last of `pending` was taken up: what the last
/// canvas that it shows and that covers the cell holds there, or `under`.
pub open spec fn cell_step<ComponentT: Component>(
    components: Seq<MountedComponent<ComponentT>>,
    extent: Size,
    pending: Seq<Pending>,
    under: Option<Textel>,
    x: int,
    y: int,
) -> Option<Textel> {
    if pending.len() == 0 {
        under
    } else {
        let laid = leaves_of(components, pending.last());
        painted_cell(extent, under, laid, laid.len() as int, x, y)
    }
}

/// What a cell holds once `steps` components were taken up, one after the
/// other, beginning with `pending`.
pub open spec fn cell_after<ComponentT: Component>(
    components: Seq<MountedComponent<ComponentT>>,
    extent: Size,
    pending: Seq<Pending>,
    under: Option<Textel>,
    steps: nat,
    x: int,
    y: int,
) -> Option<Textel>
    decreases steps,
{
    if steps == 0 {
        under
    } else {
        cell_step(
            components,
            extent,
            queue_after(components, pending, (steps - 1) as nat),
            cell_after(components, extent, pending, under, (steps - 1) as nat, x, y),
            x,
            y,
        )
    }
}

/// The components that the root shows, in the order of its leaves.
pub open spec fn shown_first<P>(root: Layout<P>, frame: Rect) -> Seq<Pending> {
    awaited(laid_out(&root.0, frame, 0), laid_out(&root.0, frame, 0).len() as int)
}

/// What the cell in column `x` of row `y` of a screen of the given extent
/// holds after a walk of the tree that took up `steps` components: what the
/// last canvas that the walk came by and that covers the cell holds there,
/// or `under`, which is what the cell held before the walk.
pub open spec fn shown_cell<ComponentT: Component>(
    root: Layout<ComponentT::Properties>,
    frame: Rect,
    components: Seq<MountedComponent<ComponentT>>,
    extent: Size,
    under: Option<Textel>,
    steps: nat,
    x: int,
    y: int,
) -> Option<Textel> {
    cell_after(
        components,
        extent,
        shown_first(root, frame),
        painted_cell(
            extent,
            under,
            laid_out(&root.0, frame, 0),
            laid_out(&root.0, frame, 0).len() as int,
            x,
            y,
        ),
        steps,
        x,
        y,
    )
}

/// What a cell of the screen `before` holds when a walk begins: nothing, if
/// the screen was emptied before the walk.
pub open spec fn under(emptied: bool, before: Canvas, x: int, y: int) -> Option<Textel> {
    if emptied {
        None
    } else {
        before.cell(x, y)
    }
}

/// Whether `screen` is what a walk of the tree leaves of the screen `before`
/// once it has taken up `steps` components and none is left to take up.
/// `emptied` tells whether the screen was given a new extent, and thereby
/// emptied, before the walk.
pub open spec fn screen_shows<ComponentT: Component>(
    screen: Canvas,
    before: Canvas,
    emptied: bool,
    root: Layout<ComponentT::Properties>,
    components: Seq<MountedComponent<ComponentT>>,
    steps: nat,
) -> bool {
    let frame = Rect { origin: Position { x: 0, y: 0 }, size: screen.extent() };
    &&& queue_after(components, shown_first(root, frame), steps).len() == 0
    &&& forall|x: int, y: int|
        screen.has(x, y) ==> #[trigger] screen.cell(x, y) == shown_cell(
            root,
            frame,
            components,
            screen.extent(),
            under(emptied, before, x, y),
            steps,
            x,
            y,
        )
}

/// Whether `screen` holds what the canvases that the root shows have put
/// there, and around them what the screen `before` held, in every cell that
/// lies in no region of a component that the root shows. `emptied` tells
/// whether the screen was given a new extent, and thereby emptied, before
/// the walk.
pub open spec fn root_painted<P>(
    screen: Canvas,
    before: Canvas,
    emptied: bool,
    root: Layout<P>,
) -> bool {
    let frame = Rect { origin: Position { x: 0, y: 0 }, size: screen.extent() };
    forall|x: int, y: int|
        screen.has(x, y) && beside(shown_first(root, frame), x, y) ==> #[trigger] screen.cell(x, y)
            == painted_cell(
            screen.extent(),
            under(emptied, before, x, y),
            laid_out(&root.0, frame, 0),
            laid_out(&root.0, frame, 0).len() as int,
            x,
            y,
        )
}

/// Whether two tables hold the same layout for the component that is taken
/// up next.
pub open spec fn agree_at<ComponentT: Component>(
    first: Seq<MountedComponent<ComponentT>>,
    second: Seq<MountedComponent<ComponentT>>,
    pending: Seq<Pending>,
) -> bool {
    pending.len() > 0 ==> layout_of(first, pending.last().id) == layout_of(
        second,
        pending.last().id,
    )
}

/// Whether two tables hold the same layout for each of the first `steps`
/// components that a walk takes up.
pub open spec fn agree_along<ComponentT: Component>(
    first: Seq<MountedComponent<ComponentT>>,
    second: Seq<MountedComponent<ComponentT>>,
    pending: Seq<Pending>,
    steps: nat,
) -> bool {
    forall|j: nat|
        j < steps ==> agree_at(first, second, #[trigger] queue_after(first, pending, j))
}

/// A walk depends on the table only through the layouts of the components
/// that it takes up.
pub proof fn lemma_same_walk<ComponentT: Component>(
    first: Seq<MountedComponent<ComponentT>>,
    second: Seq<MountedComponent<ComponentT>>,
    pending: Seq<Pending>,
    steps: nat,
)
    requires
        agree_along(first, second, pending, steps),
    ensures
        queue_after(first, pending, steps) == queue_after(second, pending, steps),
    decreases steps,
{
    if steps > 0 {
        let before = (steps - 1) as nat;
        assert(agree_along(first, second, pending, before));
        lemma_same_walk(first, second, pending, before);
        assert(agree_at(first, second, queue_after(first, pending, before)));
    }
}

/// What a walk shows depends on the table only through the layouts of the
/// components that it takes up.
pub proof fn lemma_same_cell<ComponentT: Component>(
    first: Seq<MountedComponent<ComponentT>>,
    second: Seq<MountedComponent<ComponentT>>,
    extent: Size,
    pending: Seq<Pending>,
    under: Option<Textel>,
    steps: nat,
    x: int,
    y: int,
)
    requires
        agree_along(first, second, pending, steps),
    ensures
        cell_after(first, extent, pending, under, steps, x, y) == cell_after(
            second,
            extent,
            pending,
            under,
            steps,
            x,
            y,
        ),
    decreases steps,
{
    if steps > 0 {
        let before = (steps - 1) as nat;
        assert(agree_along(first, second, pending, before));
        lemma_same_cell(first, second, extent, pending, under, before, x, y);
        lemma_same_walk(first, second, pending, before);
        assert(agree_at(first, second, queue_after(first, pending, before)));
    }
}

/// Whether the walk with the given number has walked what the component
/// that goes by `id` shows.
pub open spec fn walked_id<ComponentT: Component>(
    components: Seq<MountedComponent<ComponentT>>,
    generation: usize,
    id: ComponentId,
) -> bool {
    exists|i: int|
        0 <= i < components.len() && (#[trigger] components[i]).id == id && walked_through(
            components[i],
            generation,
        )
}

/// Whether there is a component to take up, and the walk with the given
/// number has walked what it shows.
pub open spec fn walked_at<ComponentT: Component>(
    components: Seq<MountedComponent<ComponentT>>,
    generation: usize,
    pending: Seq<Pending>,
) -> bool {
    pending.len() > 0 && walked_id(components, generation, pending.last().id)
}

/// Whether the walk with the given number has walked what each of the first
/// `steps` components shows that a walk takes up, beginning with `pending`.
pub open spec fn walked_along<ComponentT: Component>(
    components: Seq<MountedComponent<ComponentT>>,
    pending: Seq<Pending>,
    generation: usize,
    steps: nat,
) -> bool {
    forall|j: nat|
        j < steps ==> walked_at(components, generation, #[trigger] queue_after(components, pending, j))
}

/// Whether the walk with the given number is done once it has taken up
/// `steps` components: it has walked what each of them shows, and none is
/// left to take up.
pub open spec fn walk_done<ComponentT: Component>(
    root: Layout<ComponentT::Properties>,
    frame: Rect,
    components: Seq<MountedComponent<ComponentT>>,
    generation: usize,
    steps: nat,
) -> bool {
    &&& walked_along(components, shown_first(root, frame), generation, steps)
    &&& queue_after(components, shown_first(root, frame), steps).len() == 0
}

/// Whether one of `components` goes by `id` and holds `layout`.
pub open spec fn holds_layout<ComponentT: Component>(
    components: Seq<MountedComponent<ComponentT>>,
    id: ComponentId,
    layout: Option<Layout<ComponentT::Properties>>,
) -> bool {
    exists|i: int|
        0 <= i < components.len() && (#[trigger] components[i]).id == id && components[i].layout
            == layout
}

/// A walk goes the same way in a table that holds the components that were
/// walked with the layouts that they had.
pub proof fn lemma_walk_kept<ComponentT: Component>(
    before: Seq<MountedComponent<ComponentT>>,
    after: Seq<MountedComponent<ComponentT>>,
    pending: Seq<Pending>,
    generation: usize,
    steps: nat,
)
    requires
        distinct(before),
        distinct(after),
        walked_along(before, pending, generation, steps),
        forall|w: int|
            0 <= w < before.len() && walked_through(#[trigger] before[w], generation)
                ==> holds_layout(after, before[w].id, before[w].layout),
    ensures
        agree_along(before, after, pending, steps),
{
    assert forall|j: nat| j < steps implies agree_at(
        before,
        after,
        #[trigger] queue_after(before, pending, j),
    ) by {
        let queue = queue_after(before, pending, j);
        assert(walked_at(before, generation, queue));
        let id = queue.last().id;
        let w = choose|w: int|
            0 <= w < before.len() && (#[trigger] before[w]).id == id && walked_through(
                before[w],
                generation,
            );
        lemma_mounted_at(before, w);
        assert(holds_layout(after, before[w].id, before[w].layout));
        let v = choose|v: int|
            0 <= v < after.len() && (#[trigger] after[v]).id == id && after[v].layout
                == before[w].layout;
        lemma_mounted_at(after, v);
    }
}

/// What holds in the course of a walk that reaches no component twice,
/// once it has taken up `steps` components: `pending` is what is still to
/// be walked; what each component shows that was taken up was walked; and
/// the components that are still to be walked are different ones, of which
/// none was walked.
pub open spec fn pictured<ComponentT: Component>(
    root: Layout<ComponentT::Properties>,
    frame: Rect,
    components: Seq<MountedComponent<ComponentT>>,
    pending: Seq<Pending>,
    generation: usize,
    steps: nat,
) -> bool {
    &&& queue_after(components, shown_first(root, frame), steps) == pending
    &&& walked_along(components, shown_first(root, frame), generation, steps)
    &&& forall|a: int, b: int|
        0 <= a < b < pending.len() ==> (#[trigger] pending[a]).id != (#[trigger] pending[b]).id
    &&& forall|k: int|
        0 <= k < pending.len() ==> !walked_id(components, generation, (#[trigger] pending[k]).id)
}

/// Taking up a component, in a walk that reaches no component twice.
///
/// `earlier` is the table and `waiting` what was to be walked before the
/// component at `i` was taken up; `after` and `pending` are what they have
/// become once what the component shows was gone through.
pub proof fn lemma_pictured_step<ComponentT: Component>(
    root: Layout<ComponentT::Properties>,
    frame: Rect,
    earlier: Seq<MountedComponent<ComponentT>>,
    after: Seq<MountedComponent<ComponentT>>,
    waiting: Seq<Pending>,
    pending: Seq<Pending>,
    generation: usize,
    steps: nat,
    i: int,
)
    requires
        pictured(root, frame, earlier, waiting, generation, steps),
        distinct(earlier),
        distinct(after),
        waiting.len() > 0,
        0 <= i < earlier.len() <= after.len(),
        earlier[i].id == waiting.last().id,
        forall|k: int|
            0 <= k < waiting.len() ==> seen(earlier, generation, (#[trigger] waiting[k]).id),
        forall|w: int|
            0 <= w < earlier.len() && (#[trigger] earlier[w]).generation == generation
                ==> earlier[w].reached == generation,
        forall|w: int| 0 <= w < earlier.len() ==> (#[trigger] after[w]).id == earlier[w].id,
        forall|w: int|
            0 <= w < earlier.len() && w != i && (#[trigger] earlier[w]).reached == generation
                ==> after[w] == earlier[w],
        forall|w: int|
            0 <= w < earlier.len() && w != i ==> (#[trigger] after[w]).generation
                == earlier[w].generation,
        forall|w: int| earlier.len() <= w < after.len() ==> (#[trigger] after[w]).layout is None,
        walked_through(after[i], generation),
        pending == queue_step(after, waiting),
        fresh_entries(earlier, pending, waiting.len() - 1, generation),
    ensures
        pictured(root, frame, after, pending, generation, steps + 1),
        agree_along(earlier, after, shown_first(root, frame), steps),
{
    let first = shown_first(root, frame);
    // The component that is taken up was not walked before.
    assert(!walked_id(earlier, generation, waiting[waiting.len() - 1].id));
    assert forall|w: int|
        0 <= w < earlier.len() && walked_through(
            #[trigger] earlier[w],
            generation,
        ) implies holds_layout(after, earlier[w].id, earlier[w].layout) by {
        assert(w != i);
        assert(after[w] == earlier[w]);
    }
    lemma_walk_kept(earlier, after, first, generation, steps);
    assert forall|j: nat| j <= steps implies #[trigger] queue_after(after, first, j)
        == queue_after(earlier, first, j) by {
        assert(agree_along(earlier, after, first, j));
        lemma_same_walk(earlier, after, first, j);
    }
    assert(queue_after(after, first, steps) == waiting);
    assert(queue_after(after, first, steps + 1) == queue_step(after, waiting));
    assert forall|j: nat| j < steps + 1 implies walked_at(
        after,
        generation,
        #[trigger] queue_after(after, first, j),
    ) by {
        if j < steps {
            let queue = queue_after(earlier, first, j);
            assert(queue_after(after, first, j) == queue);
            assert(walked_at(earlier, generation, queue));
            let w = choose|w: int|
                0 <= w < earlier.len() && (#[trigger] earlier[w]).id == queue.last().id
                    && walked_through(earlier[w], generation);
            assert(w != i);
            assert(after[w] == earlier[w]);
        } else {
            assert(after[i].id == waiting.last().id);
        }
    }
    let kept = waiting.len() - 1;
    assert forall|k: int| 0 <= k < pending.len() implies !walked_id(
        after,
        generation,
        (#[trigger] pending[k]).id,
    ) by {
        let id = pending[k].id;
        if walked_id(after, generation, id) {
            let w = choose|w: int|
                0 <= w < after.len() && (#[trigger] after[w]).id == id && walked_through(
                    after[w],
                    generation,
                );
            assert(w < earlier.len());
            if k < kept {
                assert(pending[k] == waiting[k]);
                assert(waiting[k].id != waiting[kept].id);
                assert(w != i);
                assert(earlier[w].generation == generation);
                assert(after[w] == earlier[w]);
                assert(walked_id(earlier, generation, waiting[k].id));
            } else {
                // A component that is put down was not reached before.
                assert(!seen(earlier, generation, id));
                if w == i {
                    assert(seen(earlier, generation, waiting[kept].id));
                    let at = choose|at: int|
                        0 <= at < earlier.len() && (#[trigger] earlier[at]).id == waiting[kept].id
                            && earlier[at].reached == generation;
                    assert(earlier[at].id == id);
                } else {
                    assert(earlier[w].generation == generation);
                    assert(earlier[w].id == id && earlier[w].reached == generation);
                }
            }
        }
    }
    assert forall|a: int, b: int| 0 <= a < b < pending.len() implies (#[trigger] pending[a]).id != (
    #[trigger] pending[b]).id by {
        if b < kept {
            assert(pending[a] == waiting[a] && pending[b] == waiting[b]);
        } else if a < kept {
            assert(pending[a] == waiting[a]);
            assert(seen(earlier, generation, waiting[a].id));
            assert(!seen(earlier, generation, pending[b].id));
        }
    }
}

/// What a cell holds once one more component was taken up, where the walk
/// went the same way in the table `earlier` as it does in `after`.
pub proof fn lemma_shown_step<ComponentT: Component>(
    root: Layout<ComponentT::Properties>,
    frame: Rect,
    earlier: Seq<MountedComponent<ComponentT>>,
    after: Seq<MountedComponent<ComponentT>>,
    waiting: Seq<Pending>,
    extent: Size,
    under: Option<Textel>,
    steps: nat,
    x: int,
    y: int,
)
    requires
        agree_along(earlier, after, shown_first(root, frame), steps),
        queue_after(earlier, shown_first(root, frame), steps) == waiting,
    ensures
        shown_cell(root, frame, after, extent, under, steps + 1, x, y) == cell_step(
            after,
            extent,
            waiting,
            shown_cell(root, frame, earlier, extent, under, steps, x, y),
            x,
            y,
        ),
{
    let first = shown_first(root, frame);
    let base = painted_cell(
        extent,
        under,
        laid_out(&root.0, frame, 0),
        laid_out(&root.0, frame, 0).len() as int,
        x,
        y,
    );
    lemma_same_walk(earlier, after, first, steps);
    lemma_same_cell(earlier, after, extent, first, base, steps, x, y);
    assert(cell_after(after, extent, first, base, steps + 1, x, y) == cell_step(
        after,
        extent,
        queue_after(after, first, steps),
        cell_after(after, extent, first, base, steps, x, y),
        x,
        y,
    ));
}

/// A tree that is one canvas shows the canvas, cut to the region and to the
/// screen, and what the screen held around it.
pub proof fn canvas_alone_is_shown<ComponentT: Component>(
    canvas: Canvas,
    frame: Rect,
    components: Seq<MountedComponent<ComponentT>>,
    extent: Size,
    under: Option<Textel>,
    x: int,
    y: int,
)
    ensures
        shown_first(Layout::<ComponentT::Properties>(LayoutNode::Canvas(canvas)), frame).len() == 0,
        shown_cell(Layout(LayoutNode::Canvas(canvas)), frame, components, extent, under, 0, x, y)
            == if Canvas::covered(extent, canvas.extent(), frame, x, y) {
            canvas.cell(x - frame.origin.x, y - frame.origin.y)
        } else {
            under
        },
{
    let root = Layout::<ComponentT::Properties>(LayoutNode::Canvas(canvas));
    let laid = laid_out(&root.0, frame, 0);
    assert(laid.len() == 1);
    assert(laid[0] matches Laid::Canvas { frame: at, canvas: held } && at == frame && *held == canvas);
    assert(awaited(laid, 0) =~= Seq::<Pending>::empty());
    assert(awaited(laid, 1) == awaited(laid, 0));
    assert(painted_cell(extent, under, laid, 0, x, y) == under);
}

} // verus!
