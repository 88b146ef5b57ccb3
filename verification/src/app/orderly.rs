//! Walks that reach no component twice, and what they leave behind.

use vstd::prelude::*;

use crate::app::mounted::{distinct, MountedComponent};
use crate::app::settled::{all_placed, at_rest, placed, rooted, settled, shown_within, shows};
use crate::app::walk::extends;
use crate::component::Component;
use crate::component::layout::{Laid, laid_out, Layout};
use crate::component::template::ComponentId;
use crate::terminal::Rect;
use crate::terminal::canvas::Canvas;

verus! {

/// A component that a walk of the tree has reached and whose own layout is
/// still to be walked, in the region given to the component.
#[derive(Clone, Copy, Debug, PartialEq, Eq, Structural)]
pub struct Pending {
    pub id: ComponentId,
    pub frame: Rect,
}

/// Whether the walk with the given number reached the component that goes
/// by `id`.
pub open spec fn seen<ComponentT: Component>(
    components: Seq<MountedComponent<ComponentT>>,
    generation: usize,
    id: ComponentId,
) -> bool {
    exists|i: int|
        0 <= i < components.len() && (#[trigger] components[i]).id == id && components[i].reached
            == generation
}

/// Whether every one of `pending` from the place `from` on is a mounted
/// component in its region.
pub open spec fn pending_placed<ComponentT: Component>(
    components: Seq<MountedComponent<ComponentT>>,
    pending: Seq<Pending>,
    from: int,
) -> bool {
    forall|k: int|
        from <= k < pending.len() ==> placed(
            components,
            (#[trigger] pending[k]).id,
            pending[k].frame,
        )
}

/// Whether every component among the leaves `laid` was reached by the walk
/// with the given number.
pub open spec fn all_seen<'a, ComponentT: Component>(
    components: Seq<MountedComponent<ComponentT>>,
    generation: usize,
    laid: Seq<Laid<'a, ComponentT::Properties>>,
) -> bool {
    forall|k: int|
        0 <= k < laid.len() ==> match #[trigger] laid[k] {
            Laid::Component { id, .. } => seen(components, generation, id),
            Laid::Canvas { .. } => true,
        }
}

/// Whether one of `pending` from the place `from` on is for the component
/// that goes by `id`.
pub open spec fn awaits(pending: Seq<Pending>, from: int, id: ComponentId) -> bool {
    exists|k: int| from <= k < pending.len() && 0 <= k && (#[trigger] pending[k]).id == id
}

/// Whether the component at `i` was reached by the walk with the given
/// number before the stretch of the walk that began with the table
/// `before`.
pub open spec fn seen_before<ComponentT: Component>(
    before: Seq<MountedComponent<ComponentT>>,
    generation: usize,
    i: int,
) -> bool {
    0 <= i < before.len() && before[i].reached == generation
}

/// What a stretch of a walk that reaches no component twice does to the
/// table `before` and to what was still to be walked, the stretch being
/// over the leaves `laid`: the components that were reached before stay as
/// they are; every component that it reaches is among the leaves, is put
/// down as still to be walked, and is where the layout puts it.
pub open spec fn fresh_stretch<'a, ComponentT: Component>(
    before: Seq<MountedComponent<ComponentT>>,
    after: Seq<MountedComponent<ComponentT>>,
    pending: Seq<Pending>,
    from: int,
    generation: usize,
    laid: Seq<Laid<'a, ComponentT::Properties>>,
) -> bool {
    &&& forall|i: int|
        #[trigger] seen_before(before, generation, i) ==> i < after.len() && after[i] == before[i]
    &&& forall|i: int|
        0 <= i < after.len() && (#[trigger] after[i]).reached == generation && !seen_before(
            before,
            generation,
            i,
        ) ==> shows(laid, after[i].id)
    &&& all_placed(after, laid)
    &&& all_seen(after, generation, laid)
    &&& pending_placed(after, pending, from)
    &&& forall|k: int|
        from <= k < pending.len() && 0 <= k ==> seen(after, generation, (#[trigger] pending[k]).id)
    &&& before.len() <= after.len()
    &&& forall|i: int|
        0 <= i < after.len() ==> if i < before.len() {
            (#[trigger] after[i]).generation == before[i].generation && after[i].layout
                == before[i].layout && after[i].id == before[i].id
        } else {
            after[i].layout is None
        }
}

/// A leaf that is among the first leaves of a layout is among its leaves.
pub proof fn lemma_shows_more<'a, P>(laid: Seq<Laid<'a, P>>, k: int, id: ComponentId)
    requires
        0 <= k <= laid.len(),
        shows(laid.take(k), id),
    ensures
        forall|more: int| k <= more <= laid.len() ==> shows(#[trigger] laid.take(more), id),
{
    let shorter = laid.take(k);
    let at = choose|at: int|
        0 <= at < shorter.len() && match #[trigger] shorter[at] {
            Laid::Component { id: found, .. } => found == id,
            Laid::Canvas { .. } => false,
        };
    assert forall|more: int| k <= more <= laid.len() implies shows(
        #[trigger] laid.take(more),
        id,
    ) by {
        assert(laid.take(more)[at] == shorter[at]);
    }
}

/// One step of a stretch of a walk that reaches no component twice: the
/// leaf `k` is a canvas.
pub proof fn lemma_fresh_canvas<'a, ComponentT: Component>(
    before: Seq<MountedComponent<ComponentT>>,
    after: Seq<MountedComponent<ComponentT>>,
    pending: Seq<Pending>,
    from: int,
    generation: usize,
    laid: Seq<Laid<'a, ComponentT::Properties>>,
    k: int,
)
    requires
        0 <= k < laid.len(),
        laid[k] is Canvas,
        fresh_stretch(before, after, pending, from, generation, laid.take(k)),
    ensures
        fresh_stretch(before, after, pending, from, generation, laid.take(k + 1)),
{
    let shorter = laid.take(k);
    let longer = laid.take(k + 1);
    assert forall|i: int|
        0 <= i < after.len() && (#[trigger] after[i]).reached == generation && !seen_before(
            before,
            generation,
            i,
        ) implies shows(longer, after[i].id) by {
        lemma_shows_more(laid, k, after[i].id);
    }
    assert forall|j: int| 0 <= j < longer.len() implies match #[trigger] longer[j] {
        Laid::Component { id: shown, frame: region, .. } => placed(after, shown, region),
        Laid::Canvas { .. } => true,
    } by {
        if j < k {
            assert(longer[j] == shorter[j]);
        } else {
            assert(longer[j] == laid[k]);
        }
    }
    assert forall|j: int| 0 <= j < longer.len() implies match #[trigger] longer[j] {
        Laid::Component { id: shown, .. } => seen(after, generation, shown),
        Laid::Canvas { .. } => true,
    } by {
        if j < k {
            assert(longer[j] == shorter[j]);
        } else {
            assert(longer[j] == laid[k]);
        }
    }
    assert(all_placed(after, longer));
    assert(all_seen(after, generation, longer));
}

/// One step of a stretch of a walk that reaches no component twice: the
/// component at the leaf `k` is reached for the first time.
pub proof fn lemma_fresh_visit<'a, ComponentT: Component>(
    before: Seq<MountedComponent<ComponentT>>,
    earlier: Seq<MountedComponent<ComponentT>>,
    after: Seq<MountedComponent<ComponentT>>,
    waiting: Seq<Pending>,
    pending: Seq<Pending>,
    from: int,
    generation: usize,
    id: ComponentId,
    frame: Rect,
    laid: Seq<Laid<'a, ComponentT::Properties>>,
    k: int,
)
    requires
        0 <= k < laid.len(),
        laid[k] matches Laid::Component { id: found, frame: region, .. } && found == id && region
            == frame,
        0 <= from <= waiting.len(),
        pending == waiting.push(Pending { id, frame }),
        distinct(earlier),
        distinct(after),
        before.len() <= earlier.len(),
        fresh_stretch(before, earlier, waiting, from, generation, laid.take(k)),
        // What reaching the component for the first time does.
        earlier.len() <= after.len() <= earlier.len() + 1,
        forall|i: int|
            0 <= i < earlier.len() ==> (#[trigger] after[i]).id == earlier[i].id && if earlier[i].id
                == id {
                earlier[i].reached != generation
            } else {
                after[i] == earlier[i]
            },
        exists|i: int|
            0 <= i < after.len() && (#[trigger] after[i]).id == id && after[i].frame == frame
                && after[i].reached == generation,
        after.len() == earlier.len() + 1 ==> after.last().id == id && after.last().layout is None,
        forall|i: int|
            0 <= i < earlier.len() ==> (#[trigger] after[i]).generation == earlier[i].generation
                && after[i].layout == earlier[i].layout,
    ensures
        fresh_stretch(before, after, pending, from, generation, laid.take(k + 1)),
{
    assert forall|i: int| 0 <= i < after.len() implies if i < before.len() {
        (#[trigger] after[i]).generation == before[i].generation && after[i].layout
            == before[i].layout && after[i].id == before[i].id
    } else {
        after[i].layout is None
    } by {
        if i < earlier.len() {
            assert(after[i].generation == earlier[i].generation);
            if i < before.len() {
                assert(earlier[i].generation == before[i].generation);
            } else {
                assert(earlier[i].layout is None);
            }
        }
    }
    let shorter = laid.take(k);
    let longer = laid.take(k + 1);
    let at = choose|i: int|
        0 <= i < after.len() && (#[trigger] after[i]).id == id && after[i].frame == frame
            && after[i].reached == generation;
    // A component that was reached stays as it is: it is not the one that
    // is reached now.
    assert forall|i: int| 0 <= i < earlier.len() && earlier[i].reached == generation implies (
    #[trigger] after[i]) == earlier[i] by {}
    assert forall|i: int| #[trigger] seen_before(before, generation, i) implies i < after.len()
        && after[i] == before[i] by {
        assert(earlier[i] == before[i]);
    }
    assert forall|i: int|
        0 <= i < after.len() && (#[trigger] after[i]).reached == generation && !seen_before(
            before,
            generation,
            i,
        ) implies shows(longer, after[i].id) by {
        if after[i].id == id {
            assert(longer[k] == laid[k]);
        } else {
            assert(i < earlier.len()) by {
                if i >= earlier.len() {
                    assert(after.last().id == id);
                }
            }
            assert(earlier[i] == after[i]);
            lemma_shows_more(laid, k, after[i].id);
        }
    }
    assert forall|j: int| 0 <= j < longer.len() implies match #[trigger] longer[j] {
        Laid::Component { id: shown, frame: region, .. } => placed(after, shown, region) && seen(
            after,
            generation,
            shown,
        ),
        Laid::Canvas { .. } => true,
    } by {
        if j < k {
            assert(longer[j] == shorter[j]);
            match shorter[j] {
                Laid::Component { id: shown, frame: region, .. } => {
                    assert(placed(earlier, shown, region));
                    assert(seen(earlier, generation, shown));
                    let held = choose|i: int|
                        0 <= i < earlier.len() && (#[trigger] earlier[i]).id == shown
                            && earlier[i].frame == region;
                    let marked = choose|i: int|
                        0 <= i < earlier.len() && (#[trigger] earlier[i]).id == shown
                            && earlier[i].reached == generation;
                    if held < marked {
                        assert(earlier[held].id != earlier[marked].id);
                    } else if marked < held {
                        assert(earlier[marked].id != earlier[held].id);
                    }
                    assert(after[held] == earlier[held]);
                },
                Laid::Canvas { .. } => {},
            }
        } else {
            assert(longer[j] == laid[k]);
            assert(after[at].id == id);
        }
    }
    assert forall|j: int| from <= j < pending.len() implies placed(
        after,
        (#[trigger] pending[j]).id,
        pending[j].frame,
    ) && seen(after, generation, pending[j].id) by {
        if j < waiting.len() {
            assert(pending[j] == waiting[j]);
            assert(placed(earlier, waiting[j].id, waiting[j].frame));
            assert(seen(earlier, generation, waiting[j].id));
            let held = choose|i: int|
                0 <= i < earlier.len() && (#[trigger] earlier[i]).id == waiting[j].id
                    && earlier[i].frame == waiting[j].frame;
            let marked = choose|i: int|
                0 <= i < earlier.len() && (#[trigger] earlier[i]).id == waiting[j].id
                    && earlier[i].reached == generation;
            if held < marked {
                assert(earlier[held].id != earlier[marked].id);
            } else if marked < held {
                assert(earlier[marked].id != earlier[held].id);
            }
            assert(after[held] == earlier[held]);
        } else {
            assert(after[at].id == id);
        }
    }
}

/// Whether the walk with the given number has walked what the component
/// shows.
pub open spec fn walked_through<ComponentT: Component>(
    component: MountedComponent<ComponentT>,
    generation: usize,
) -> bool {
    component.generation == generation && component.layout is Some
}

/// What the component shows, laid out in its region.
pub open spec fn shown_by<'a, ComponentT: Component>(
    component: &'a MountedComponent<ComponentT>,
) -> Seq<Laid<'a, ComponentT::Properties>> {
    laid_out(&component.layout->Some_0.0, component.frame, component.id.id)
}

/// Whether the root shows the component that goes by `id`, itself or
/// through at most `depth` components that the walk with the given number
/// has walked.
pub open spec fn shown_through<ComponentT: Component>(
    root: Layout<ComponentT::Properties>,
    frame: Rect,
    components: Seq<MountedComponent<ComponentT>>,
    generation: usize,
    id: ComponentId,
    depth: nat,
) -> bool
    decreases depth,
{
    if depth == 0 {
        shows(laid_out(&root.0, frame, 0), id)
    } else {
        ||| shown_through(root, frame, components, generation, id, (depth - 1) as nat)
        ||| exists|i: int|
            0 <= i < components.len() && walked_through(#[trigger] components[i], generation)
                && shown_through(
                root,
                frame,
                components,
                generation,
                components[i].id,
                (depth - 1) as nat,
            ) && shows(shown_by(&components[i]), id)
    }
}

/// Whether the root shows the component that goes by `id`, itself or
/// through components that the walk with the given number has walked.
pub open spec fn traced<ComponentT: Component>(
    root: Layout<ComponentT::Properties>,
    frame: Rect,
    components: Seq<MountedComponent<ComponentT>>,
    generation: usize,
    id: ComponentId,
) -> bool {
    exists|depth: nat| shown_through(root, frame, components, generation, id, depth)
}

/// Whether the component at `i` rests: it does not ask to be rendered, and
/// every component that it shows was reached by the walk and is where it
/// puts it.
pub open spec fn rests<ComponentT: Component>(
    components: Seq<MountedComponent<ComponentT>>,
    generation: usize,
    i: int,
) -> bool {
    &&& !components[i].should_render
    &&& all_placed(components, shown_by(&components[i]))
    &&& all_seen(components, generation, shown_by(&components[i]))
}

/// What holds in the course of a walk for as long as it reaches no
/// component twice: the components that are still to be walked are in the
/// regions in which they are to be walked; the components that were walked
/// rest; every component that was reached is shown, by the root or through
/// components that were walked; and what the root shows was reached and is
/// where the root puts it.
pub open spec fn orderly<ComponentT: Component>(
    root: Layout<ComponentT::Properties>,
    frame: Rect,
    components: Seq<MountedComponent<ComponentT>>,
    pending: Seq<Pending>,
    generation: usize,
) -> bool {
    &&& pending_placed(components, pending, 0)
    &&& forall|i: int|
        0 <= i < components.len() && walked_through(#[trigger] components[i], generation)
            ==> rests(components, generation, i)
    &&& forall|i: int|
        0 <= i < components.len() && (#[trigger] components[i]).reached == generation ==> traced(
            root,
            frame,
            components,
            generation,
            components[i].id,
        )
    &&& all_placed(components, laid_out(&root.0, frame, 0))
    &&& all_seen(components, generation, laid_out(&root.0, frame, 0))
    &&& forall|i: int|
        0 <= i < components.len() && (#[trigger] components[i]).reached == generation
            ==> walked_through(components[i], generation) || awaits(
            pending,
            0,
            components[i].id,
        )
}

/// Whether the components of `before` that the walk with the given number
/// reached are in `after`, each at its place, under its identity, in its
/// region and reached.
pub open spec fn stay<ComponentT: Component>(
    before: Seq<MountedComponent<ComponentT>>,
    after: Seq<MountedComponent<ComponentT>>,
    generation: usize,
) -> bool {
    forall|w: int|
        0 <= w < before.len() && (#[trigger] before[w]).reached == generation ==> w < after.len()
            && after[w].id == before[w].id && after[w].frame == before[w].frame && after[w].reached
            == generation
}

/// Components that were reached and are where a layout puts them are so
/// still where the components that were reached stay.
pub proof fn lemma_places_stay<'a, ComponentT: Component>(
    before: Seq<MountedComponent<ComponentT>>,
    after: Seq<MountedComponent<ComponentT>>,
    generation: usize,
    laid: Seq<Laid<'a, ComponentT::Properties>>,
)
    requires
        distinct(before),
        stay(before, after, generation),
        all_placed(before, laid),
        all_seen(before, generation, laid),
    ensures
        all_placed(after, laid),
        all_seen(after, generation, laid),
{
    assert forall|k: int| 0 <= k < laid.len() implies match #[trigger] laid[k] {
        Laid::Component { id, frame, .. } => placed(after, id, frame) && seen(
            after,
            generation,
            id,
        ),
        Laid::Canvas { .. } => true,
    } by {
        match laid[k] {
            Laid::Component { id, frame, .. } => {
                assert(placed(before, id, frame));
                assert(seen(before, generation, id));
                let held = choose|i: int|
                    0 <= i < before.len() && (#[trigger] before[i]).id == id && before[i].frame
                        == frame;
                let marked = choose|i: int|
                    0 <= i < before.len() && (#[trigger] before[i]).id == id && before[i].reached
                        == generation;
                if held < marked {
                    assert(before[held].id != before[marked].id);
                } else if marked < held {
                    assert(before[marked].id != before[held].id);
                }
                assert(after[held].id == id && after[held].frame == frame && after[held].reached
                    == generation);
            },
            Laid::Canvas { .. } => {},
        }
    }
    assert forall|k: int| 0 <= k < laid.len() implies match #[trigger] laid[k] {
        Laid::Component { id, frame, .. } => placed(after, id, frame),
        Laid::Canvas { .. } => true,
    } by {}
    assert forall|k: int| 0 <= k < laid.len() implies match #[trigger] laid[k] {
        Laid::Component { id, .. } => seen(after, generation, id),
        Laid::Canvas { .. } => true,
    } by {}
}

/// What the root shows through components that were walked, it shows still
/// where those components are walked still and show what they showed.
pub proof fn lemma_trace_kept<ComponentT: Component>(
    root: Layout<ComponentT::Properties>,
    frame: Rect,
    before: Seq<MountedComponent<ComponentT>>,
    after: Seq<MountedComponent<ComponentT>>,
    generation: usize,
    id: ComponentId,
    depth: nat,
)
    requires
        forall|q: int|
            0 <= q < before.len() && walked_through(#[trigger] before[q], generation) ==> q
                < after.len() && walked_through(after[q], generation) && after[q].id == before[q].id
                && after[q].frame == before[q].frame && after[q].layout == before[q].layout,
        shown_through(root, frame, before, generation, id, depth),
    ensures
        shown_through(root, frame, after, generation, id, depth),
    decreases depth,
{
    if depth == 0 {
    } else if shown_through(root, frame, before, generation, id, (depth - 1) as nat) {
        lemma_trace_kept(root, frame, before, after, generation, id, (depth - 1) as nat);
    } else {
        let i = choose|i: int|
            0 <= i < before.len() && walked_through(#[trigger] before[i], generation)
                && shown_through(
                root,
                frame,
                before,
                generation,
                before[i].id,
                (depth - 1) as nat,
            ) && shows(shown_by(&before[i]), id);
        lemma_trace_kept(root, frame, before, after, generation, before[i].id, (depth - 1) as nat);
        assert(walked_through(after[i], generation));
        assert(shown_by(&after[i]) == shown_by(&before[i]));
    }
}

/// A walk that has gone through what the root shows without reaching a
/// component twice is orderly.
pub proof fn lemma_orderly_start<ComponentT: Component>(
    root: Layout<ComponentT::Properties>,
    frame: Rect,
    before: Seq<MountedComponent<ComponentT>>,
    after: Seq<MountedComponent<ComponentT>>,
    pending: Seq<Pending>,
    generation: usize,
)
    requires
        forall|i: int|
            0 <= i < before.len() ==> (#[trigger] before[i]).reached < generation
                && before[i].generation < generation,
        fresh_stretch(before, after, pending, 0, generation, laid_out(&root.0, frame, 0)),
        forall|i: int|
            0 <= i < after.len() && (#[trigger] after[i]).reached == generation && !seen_before(
                before,
                generation,
                i,
            ) ==> awaits(pending, 0, after[i].id),
    ensures
        orderly(root, frame, after, pending, generation),
{
    assert forall|i: int|
        0 <= i < after.len() && walked_through(#[trigger] after[i], generation) implies rests(
        after,
        generation,
        i,
    ) by {
        if i < before.len() {
            assert(before[i].generation < generation);
        }
    }
    assert forall|i: int|
        0 <= i < after.len() && (#[trigger] after[i]).reached == generation implies traced(
        root,
        frame,
        after,
        generation,
        after[i].id,
    ) by {
        if i < before.len() {
            assert(before[i].reached < generation);
        }
        assert(!seen_before(before, generation, i));
        assert(shown_through(root, frame, after, generation, after[i].id, 0));
    }
    assert forall|i: int|
        0 <= i < after.len() && (#[trigger] after[i]).reached == generation implies walked_through(
        after[i],
        generation,
    ) || awaits(pending, 0, after[i].id) by {
        if i < before.len() {
            assert(before[i].reached < generation);
        }
        assert(!seen_before(before, generation, i));
    }
}

/// An orderly walk stays orderly when it takes up a component that was
/// still to be walked and goes through what the component shows without
/// reaching a component twice.
pub proof fn lemma_orderly_step<ComponentT: Component>(
    root: Layout<ComponentT::Properties>,
    frame: Rect,
    earlier: Seq<MountedComponent<ComponentT>>,
    standing: Seq<MountedComponent<ComponentT>>,
    walked_on: Seq<MountedComponent<ComponentT>>,
    after: Seq<MountedComponent<ComponentT>>,
    waiting: Seq<Pending>,
    pending: Seq<Pending>,
    generation: usize,
    i: int,
    shown: Layout<ComponentT::Properties>,
)
    requires
        distinct(earlier),
        distinct(walked_on),
        forall|j: int|
            0 <= j < earlier.len() && (#[trigger] earlier[j]).generation == generation
                ==> earlier[j].reached == generation,
        forall|k: int|
            0 <= k < waiting.len() ==> seen(earlier, generation, (#[trigger] waiting[k]).id),
        orderly(root, frame, earlier, waiting, generation),
        waiting.len() > 0,
        0 <= i < earlier.len(),
        earlier[i].id == waiting.last().id,
        // The component is taken up: it is rendered if it has to be, and
        // what it shows is taken out to be walked.
        standing.len() == earlier.len(),
        forall|j: int| 0 <= j < earlier.len() && j != i ==> #[trigger] standing[j] == earlier[j],
        standing[i].id == earlier[i].id,
        standing[i].frame == earlier[i].frame,
        standing[i].reached == earlier[i].reached,
        standing[i].generation == generation,
        !standing[i].should_render,
        standing[i].layout is None,
        earlier[i].layout is Some && !earlier[i].should_render ==> earlier[i].layout == Some(shown),
        // What it shows is gone through.
        fresh_stretch(
            standing,
            walked_on,
            pending,
            waiting.len() - 1,
            generation,
            laid_out(&shown.0, waiting.last().frame, waiting.last().id.id),
        ),
        forall|j: int|
            0 <= j < walked_on.len() && (#[trigger] walked_on[j]).reached == generation
                && !seen_before(standing, generation, j) ==> awaits(
                pending,
                waiting.len() - 1,
                walked_on[j].id,
            ),
        extends(waiting.drop_last(), pending),
        // What it shows is put back.
        after.len() == walked_on.len(),
        forall|j: int| 0 <= j < after.len() && j != i ==> #[trigger] after[j] == walked_on[j],
        after[i] == (MountedComponent { layout: Some(shown), ..walked_on[i] }),
    ensures
        orderly(root, frame, after, pending, generation),
{
    let entry = waiting.last();
    let from = waiting.len() - 1;
    let laid = laid_out(&shown.0, entry.frame, entry.id.id);
    let root_laid = laid_out(&root.0, frame, 0);
    // The component is in the region in which it is walked, and was
    // reached.
    assert(placed(earlier, waiting[from].id, waiting[from].frame));
    let held = choose|h: int|
        0 <= h < earlier.len() && (#[trigger] earlier[h]).id == entry.id && earlier[h].frame
            == entry.frame;
    if held < i {
        assert(earlier[held].id != earlier[i].id);
    } else if i < held {
        assert(earlier[i].id != earlier[held].id);
    }
    assert(seen(earlier, generation, waiting[from].id));
    let marked = choose|h: int|
        0 <= h < earlier.len() && (#[trigger] earlier[h]).id == entry.id && earlier[h].reached
            == generation;
    if marked < i {
        assert(earlier[marked].id != earlier[i].id);
    } else if i < marked {
        assert(earlier[i].id != earlier[marked].id);
    }
    assert(earlier[i].frame == entry.frame && earlier[i].reached == generation);
    assert(seen_before(standing, generation, i));
    assert(walked_on[i] == standing[i]);
    // The components that were reached stay as they are, but for the one
    // that is taken up.
    assert forall|w: int|
        0 <= w < earlier.len() && (#[trigger] earlier[w]).reached == generation && w != i implies w
        < after.len() && after[w] == earlier[w] by {
        assert(standing[w] == earlier[w]);
        assert(seen_before(standing, generation, w));
        assert(walked_on[w] == standing[w]);
        assert(after[w] == walked_on[w]);
    }
    assert(stay(earlier, after, generation)) by {
        assert forall|w: int|
            0 <= w < earlier.len() && (#[trigger] earlier[w]).reached == generation implies w
            < after.len() && after[w].id == earlier[w].id && after[w].frame == earlier[w].frame
            && after[w].reached == generation by {
            if w != i {
                assert(after[w] == earlier[w]);
            }
        }
    }
    assert(stay(walked_on, after, generation)) by {
        assert forall|w: int|
            0 <= w < walked_on.len() && (#[trigger] walked_on[w]).reached == generation implies w
            < after.len() && after[w].id == walked_on[w].id && after[w].frame == walked_on[w].frame
            && after[w].reached == generation by {
            if w != i {
                assert(after[w] == walked_on[w]);
            }
        }
    }
    // What the root shows.
    lemma_places_stay(earlier, after, generation, root_laid);
    // What the component shows.
    lemma_places_stay(walked_on, after, generation, laid);
    assert(shown_by(&after[i]) == laid);
    // What is still to be walked.
    assert forall|k: int| 0 <= k < pending.len() implies placed(
        after,
        (#[trigger] pending[k]).id,
        pending[k].frame,
    ) by {
        if k < from {
            assert(pending[k] == waiting.drop_last()[k]);
            assert(pending[k] == waiting[k]);
            assert(placed(earlier, waiting[k].id, waiting[k].frame));
            assert(seen(earlier, generation, waiting[k].id));
            let h = choose|h: int|
                0 <= h < earlier.len() && (#[trigger] earlier[h]).id == waiting[k].id
                    && earlier[h].frame == waiting[k].frame;
            let m = choose|m: int|
                0 <= m < earlier.len() && (#[trigger] earlier[m]).id == waiting[k].id
                    && earlier[m].reached == generation;
            if h < m {
                assert(earlier[h].id != earlier[m].id);
            } else if m < h {
                assert(earlier[m].id != earlier[h].id);
            }
            assert(after[h].id == waiting[k].id && after[h].frame == waiting[k].frame);
        } else {
            assert(placed(walked_on, pending[k].id, pending[k].frame));
            let h = choose|h: int|
                0 <= h < walked_on.len() && (#[trigger] walked_on[h]).id == pending[k].id
                    && walked_on[h].frame == pending[k].frame;
            if h != i {
                assert(after[h] == walked_on[h]);
            }
            assert(after[h].id == pending[k].id && after[h].frame == pending[k].frame);
        }
    }
    // The components that were walked rest.
    assert forall|j: int|
        0 <= j < after.len() && walked_through(#[trigger] after[j], generation) implies rests(
        after,
        generation,
        j,
    ) by {
        if j != i {
            assert(after[j] == walked_on[j]);
            assert(j < standing.len()) by {
                if j >= standing.len() {
                    assert(walked_on[j].layout is None);
                }
            }
            assert(walked_on[j].generation == standing[j].generation && walked_on[j].layout
                == standing[j].layout);
            assert(standing[j] == earlier[j]);
            assert(walked_through(earlier[j], generation));
            assert(earlier[j].reached == generation);
            assert(after[j] == earlier[j]);
            assert(rests(earlier, generation, j));
            lemma_places_stay(earlier, after, generation, shown_by(&earlier[j]));
        }
    }
    // The component that was taken up is shown.
    assert(traced(root, frame, earlier, generation, earlier[i].id));
    let depth = choose|depth: nat|
        shown_through(root, frame, earlier, generation, earlier[i].id, depth);
    assert forall|q: int|
        0 <= q < earlier.len() && walked_through(#[trigger] earlier[q], generation) implies q
        < after.len() && walked_through(after[q], generation) && after[q].id == earlier[q].id
        && after[q].frame == earlier[q].frame && after[q].layout == earlier[q].layout by {
        assert(earlier[q].reached == generation);
        if q != i {
            assert(after[q] == earlier[q]);
        } else {
            assert(rests(earlier, generation, i));
        }
    }
    lemma_trace_kept(root, frame, earlier, after, generation, earlier[i].id, depth);
    // Every component that was reached is shown.
    assert forall|j: int|
        0 <= j < after.len() && (#[trigger] after[j]).reached == generation implies traced(
        root,
        frame,
        after,
        generation,
        after[j].id,
    ) by {
        assert(after[j].reached == walked_on[j].reached && after[j].id == walked_on[j].id);
        if seen_before(standing, generation, j) {
            assert(earlier[j].reached == generation);
            assert(traced(root, frame, earlier, generation, earlier[j].id));
            let d = choose|d: nat|
                shown_through(root, frame, earlier, generation, earlier[j].id, d);
            lemma_trace_kept(root, frame, earlier, after, generation, earlier[j].id, d);
            assert(after[j].id == earlier[j].id);
        } else {
            assert(shows(laid, walked_on[j].id));
            assert(walked_through(after[i], generation));
            assert(shown_through(root, frame, after, generation, after[j].id, depth + 1));
        }
    }
    // Every component that was reached was walked or is still to be.
    assert forall|j: int|
        0 <= j < after.len() && (#[trigger] after[j]).reached == generation implies walked_through(
        after[j],
        generation,
    ) || awaits(pending, 0, after[j].id) by {
        assert(after[j].reached == walked_on[j].reached && after[j].id == walked_on[j].id);
        if j == i {
        } else if seen_before(standing, generation, j) {
            assert(after[j] == earlier[j]);
            if !walked_through(earlier[j], generation) {
                assert(awaits(waiting, 0, earlier[j].id));
                let k = choose|k: int|
                    0 <= k < waiting.len() && 0 <= k && (#[trigger] waiting[k]).id == earlier[j].id;
                if k == from {
                    if j < i {
                        assert(earlier[j].id != earlier[i].id);
                    } else {
                        assert(earlier[i].id != earlier[j].id);
                    }
                }
                assert(pending[k] == waiting.drop_last()[k]);
                assert(pending[k].id == after[j].id);
            }
        } else {
            assert(awaits(pending, from, walked_on[j].id));
            let k = choose|k: int|
                from <= k < pending.len() && 0 <= k && (#[trigger] pending[k]).id
                    == walked_on[j].id;
            assert(pending[k].id == after[j].id);
        }
    }
}

/// What the root shows through components that were walked, it shows in
/// the table that holds the components that were walked.
pub proof fn lemma_trace_end<ComponentT: Component>(
    root: Layout<ComponentT::Properties>,
    frame: Rect,
    reached: Seq<MountedComponent<ComponentT>>,
    kept: Seq<MountedComponent<ComponentT>>,
    generation: usize,
    id: ComponentId,
    depth: nat,
)
    requires
        forall|q: int|
            0 <= q < reached.len() && walked_through(#[trigger] reached[q], generation)
                ==> kept.contains(reached[q]),
        shown_through(root, frame, reached, generation, id, depth),
    ensures
        shown_within(root, frame, kept, id, depth),
    decreases depth,
{
    if depth == 0 {
    } else if shown_through(root, frame, reached, generation, id, (depth - 1) as nat) {
        lemma_trace_end(root, frame, reached, kept, generation, id, (depth - 1) as nat);
    } else {
        let i = choose|i: int|
            0 <= i < reached.len() && walked_through(#[trigger] reached[i], generation)
                && shown_through(
                root,
                frame,
                reached,
                generation,
                reached[i].id,
                (depth - 1) as nat,
            ) && shows(shown_by(&reached[i]), id);
        lemma_trace_end(root, frame, reached, kept, generation, reached[i].id, (depth - 1) as nat);
        assert(kept.contains(reached[i]));
        let j = choose|j: int| 0 <= j < kept.len() && kept[j] == reached[i];
        assert(shown_within(root, frame, kept, kept[j].id, (depth - 1) as nat));
        assert(shows(laid_out(&kept[j].layout->Some_0.0, kept[j].frame, kept[j].id.id), id));
    }
}

/// Components that were reached and are where a layout puts them are so in
/// the table that holds the components that were reached.
pub proof fn lemma_places_end<'a, ComponentT: Component>(
    reached: Seq<MountedComponent<ComponentT>>,
    kept: Seq<MountedComponent<ComponentT>>,
    generation: usize,
    laid: Seq<Laid<'a, ComponentT::Properties>>,
)
    requires
        distinct(reached),
        forall|w: int|
            0 <= w < reached.len() && (#[trigger] reached[w]).reached == generation
                ==> kept.contains(reached[w]),
        all_placed(reached, laid),
        all_seen(reached, generation, laid),
    ensures
        all_placed(kept, laid),
{
    assert forall|k: int| 0 <= k < laid.len() implies match #[trigger] laid[k] {
        Laid::Component { id, frame, .. } => placed(kept, id, frame),
        Laid::Canvas { .. } => true,
    } by {
        match laid[k] {
            Laid::Component { id, frame, .. } => {
                assert(placed(reached, id, frame));
                assert(seen(reached, generation, id));
                let held = choose|i: int|
                    0 <= i < reached.len() && (#[trigger] reached[i]).id == id && reached[i].frame
                        == frame;
                let marked = choose|i: int|
                    0 <= i < reached.len() && (#[trigger] reached[i]).id == id
                        && reached[i].reached == generation;
                if held < marked {
                    assert(reached[held].id != reached[marked].id);
                } else if marked < held {
                    assert(reached[marked].id != reached[held].id);
                }
                assert(kept.contains(reached[held]));
                let j = choose|j: int| 0 <= j < kept.len() && kept[j] == reached[held];
                assert(kept[j].id == id && kept[j].frame == frame);
            },
            Laid::Canvas { .. } => {},
        }
    }
}

/// An orderly walk that has come to its end leaves the tree settled, with
/// every component shown, once the components that it did not reach are
/// dropped.
pub proof fn lemma_orderly_end<ComponentT: Component>(
    root: Layout<ComponentT::Properties>,
    frame: Rect,
    reached: Seq<MountedComponent<ComponentT>>,
    kept: Seq<MountedComponent<ComponentT>>,
    generation: usize,
)
    requires
        distinct(reached),
        orderly(root, frame, reached, Seq::<Pending>::empty(), generation),
        forall|i: int|
            0 <= i < reached.len() && (#[trigger] reached[i]).generation == generation
                ==> reached[i].reached == generation,
        forall|j: int| 0 <= j < kept.len() ==> (#[trigger] kept[j]).generation == generation,
        forall|j: int| 0 <= j < kept.len() ==> reached.contains(#[trigger] kept[j]),
        forall|i: int|
            0 <= i < reached.len() && (#[trigger] reached[i]).generation == generation
                ==> kept.contains(reached[i]),
    ensures
        settled(root, frame, kept),
        rooted(root, frame, kept),
{
    let nothing = Seq::<Pending>::empty();
    // A component that was reached was walked, and is kept.
    assert forall|w: int|
        0 <= w < reached.len() && (#[trigger] reached[w]).reached == generation implies walked_through(
        reached[w],
        generation,
    ) && kept.contains(reached[w]) by {
        if !walked_through(reached[w], generation) {
            assert(awaits(nothing, 0, reached[w].id));
        }
    }
    lemma_places_end(reached, kept, generation, laid_out(&root.0, frame, 0));
    assert forall|j: int| 0 <= j < kept.len() implies at_rest(kept, j) by {
        assert(reached.contains(kept[j]));
        let w = choose|w: int| 0 <= w < reached.len() && reached[w] == kept[j];
        assert(reached[w].generation == generation);
        assert(reached[w].reached == generation);
        assert(walked_through(reached[w], generation));
        assert(rests(reached, generation, w));
        lemma_places_end(reached, kept, generation, shown_by(&reached[w]));
    }
    assert forall|j: int| 0 <= j < kept.len() implies exists|depth: nat|
        shown_within(root, frame, kept, (#[trigger] kept[j]).id, depth) by {
        assert(reached.contains(kept[j]));
        let w = choose|w: int| 0 <= w < reached.len() && reached[w] == kept[j];
        assert(reached[w].generation == generation);
        assert(reached[w].reached == generation);
        assert(traced(root, frame, reached, generation, reached[w].id));
        let depth = choose|depth: nat|
            shown_through(root, frame, reached, generation, reached[w].id, depth);
        lemma_trace_end(root, frame, reached, kept, generation, reached[w].id, depth);
    }
}

} // verus!
