//! The flex engine: sharing a stretch of cells among items along one axis.
//!
//! Fixed items are served first come, first served, each clipped to what is
//! left. What the fixed items leave is divided equally among the stretched
//! items; the cells that an equal division cannot place go, one each, to the
//! first stretched items.

use vstd::prelude::*;

use vstd::arithmetic::div_mod::{lemma_fundamental_div_mod, lemma_mod_pos_bound};
use vstd::arithmetic::mul::lemma_mul_inequality;

use crate::component::layout::{FlexBasis, FlexDirection, Span};
use crate::terminal::{Position, Rect, Size};

verus! {

/// What the fixed items among the first `k` ask for, in all.
pub open spec fn fixed_before(bases: Seq<FlexBasis>, k: int) -> nat
    decreases k,
{
    if k <= 0 {
        0
    } else {
        fixed_before(bases, k - 1) + match bases[k - 1] {
            FlexBasis::Fixed(size) => size as nat,
            FlexBasis::Auto => 0,
        }
    }
}

/// How many of the first `k` items are stretched.
pub open spec fn autos_before(bases: Seq<FlexBasis>, k: int) -> nat
    decreases k,
{
    if k <= 0 {
        0
    } else {
        autos_before(bases, k - 1) + match bases[k - 1] {
            FlexBasis::Fixed(_) => 0nat,
            FlexBasis::Auto => 1nat,
        }
    }
}

/// What all the fixed items ask for.
pub open spec fn fixed_total(bases: Seq<FlexBasis>) -> nat {
    fixed_before(bases, bases.len() as int)
}

/// How many items are stretched.
pub open spec fn auto_count(bases: Seq<FlexBasis>) -> nat {
    autos_before(bases, bases.len() as int)
}

/// What the fixed items leave for the stretched ones.
pub open spec fn stretched_budget(total: nat, bases: Seq<FlexBasis>) -> nat {
    if fixed_total(bases) <= total {
        (total - fixed_total(bases)) as nat
    } else {
        0
    }
}

/// What every stretched item gets at least.
pub open spec fn stretched_size(total: nat, bases: Seq<FlexBasis>) -> nat {
    if auto_count(bases) > 0 {
        stretched_budget(total, bases) / auto_count(bases)
    } else {
        0
    }
}

/// How many stretched items get one cell more than the others.
pub open spec fn stretched_spare(total: nat, bases: Seq<FlexBasis>) -> nat {
    if auto_count(bases) > 0 {
        stretched_budget(total, bases) % auto_count(bases)
    } else {
        0
    }
}

/// The size given to the item at `i`, the items being served in the order of
/// `bases`.
pub open spec fn share(total: nat, bases: Seq<FlexBasis>, i: int) -> nat
    decreases i, 1int,
{
    match bases[i] {
        FlexBasis::Auto => stretched_size(total, bases) + if autos_before(bases, i)
            < stretched_spare(total, bases) {
            1nat
        } else {
            0nat
        },
        FlexBasis::Fixed(size) => {
            let left = total - used(total, bases, i);
            if size <= left {
                size as nat
            } else if left >= 0 {
                left as nat
            } else {
                0
            }
        },
    }
}

/// The room taken by the items before `i`, which is where the item at `i`
/// starts.
pub open spec fn used(total: nat, bases: Seq<FlexBasis>, i: int) -> nat
    decreases i, 0int,
{
    if i <= 0 {
        0
    } else {
        used(total, bases, i - 1) + share(total, bases, i - 1)
    }
}

/// The room given to the stretched items among the first `k`.
pub open spec fn stretched_before(total: nat, bases: Seq<FlexBasis>, k: int) -> nat {
    let autos = autos_before(bases, k);
    let spare = stretched_spare(total, bases);
    autos * stretched_size(total, bases) + if autos <= spare {
        autos
    } else {
        spare
    }
}

/// The smaller of two numbers.
pub open spec fn at_most(a: nat, b: nat) -> nat {
    if a <= b {
        a
    } else {
        b
    }
}

/// The order in which a container serves its items: the declared order, or
/// its reverse.
pub open spec fn traversal(direction: FlexDirection, bases: Seq<FlexBasis>) -> Seq<FlexBasis> {
    if direction.reversed() {
        Seq::new(bases.len(), |j: int| bases[bases.len() - 1 - j])
    } else {
        bases
    }
}

/// The place in the order of service of the item declared at `i`.
pub open spec fn turn(direction: FlexDirection, len: int, i: int) -> int {
    if direction.reversed() {
        len - 1 - i
    } else {
        i
    }
}

/// The span of the item declared at `i`.
pub open spec fn span_of(total: nat, direction: FlexDirection, bases: Seq<FlexBasis>, i: int)
    -> Span {
    let order = traversal(direction, bases);
    let j = turn(direction, bases.len() as int, i);
    Span { offset: used(total, order, j) as usize, size: share(total, order, j) as usize }
}

/// The region of `frame` that a span along the main axis stands for.
pub open spec fn region_of(frame: Rect, direction: FlexDirection, span: Span) -> Rect {
    if direction.horizontal() {
        Rect {
            origin: Position { x: (frame.origin.x + span.offset) as usize, y: frame.origin.y },
            size: Size { width: span.size, height: frame.size.height },
        }
    } else {
        Rect {
            origin: Position { x: frame.origin.x, y: (frame.origin.y + span.offset) as usize },
            size: Size { width: frame.size.width, height: span.size },
        }
    }
}

/// Counts over a longer prefix are not smaller, and no prefix holds more
/// stretched items than items.
pub proof fn lemma_prefix_counts(bases: Seq<FlexBasis>, j: int, k: int)
    requires
        0 <= j <= k,
    ensures
        fixed_before(bases, j) <= fixed_before(bases, k),
        autos_before(bases, j) <= autos_before(bases, k),
        autos_before(bases, k) <= k,
    decreases k,
{
    if k > 0 {
        if j < k {
            lemma_prefix_counts(bases, j, k - 1);
        } else {
            lemma_prefix_counts(bases, k - 1, k - 1);
        }
    }
}

/// The stretched items never get more than the fixed items leave, and all
/// of it once every one of them is served.
pub proof fn lemma_stretched_within_budget(total: nat, bases: Seq<FlexBasis>, k: int)
    requires
        0 <= k <= bases.len(),
    ensures
        stretched_before(total, bases, k) <= stretched_budget(total, bases),
        auto_count(bases) > 0 ==> stretched_before(total, bases, bases.len() as int)
            == stretched_budget(total, bases),
        auto_count(bases) == 0 ==> stretched_before(total, bases, k) == 0,
{
    let count = auto_count(bases) as int;
    let budget = stretched_budget(total, bases) as int;
    let each = stretched_size(total, bases) as int;
    let spare = stretched_spare(total, bases) as int;
    let autos = autos_before(bases, k) as int;
    lemma_prefix_counts(bases, k, bases.len() as int);
    if count > 0 {
        lemma_fundamental_div_mod(budget, count);
        lemma_mod_pos_bound(budget, count);
        lemma_mul_inequality(autos, count, each);
        assert(count * each == count * (budget / count));
        assert(autos * each <= count * each);
    } else {
        assert(autos == 0);
        assert(autos * each == 0);
    }
}

/// Where the item at `k` starts, in closed form: what the fixed items before
/// it were given, which is what they asked for as far as the total goes, and
/// what the stretched items before it were given. It never lies beyond the
/// total.
pub proof fn lemma_used_closed_form(total: nat, bases: Seq<FlexBasis>, k: int)
    requires
        0 <= k <= bases.len(),
    ensures
        used(total, bases, k) == at_most(fixed_before(bases, k), total) + stretched_before(
            total,
            bases,
            k,
        ),
        used(total, bases, k) <= total,
    decreases k,
{
    let len = bases.len() as int;
    lemma_prefix_counts(bases, k, len);
    lemma_stretched_within_budget(total, bases, k);
    let budget = stretched_budget(total, bases) as int;
    let each = stretched_size(total, bases) as int;
    let spare = stretched_spare(total, bases) as int;
    if fixed_total(bases) > total {
        let count = auto_count(bases) as int;
        if count > 0 {
            assert(0int / count == 0);
            assert(0int % count == 0);
        }
        assert(each == 0 && spare == 0);
    }
    if k > 0 {
        let p = k - 1;
        lemma_used_closed_form(total, bases, p);
        lemma_prefix_counts(bases, p, k);
        lemma_stretched_within_budget(total, bases, p);
        let autos = autos_before(bases, p) as int;
        let before = used(total, bases, p) as int;
        assert(used(total, bases, k) == before + share(total, bases, p));
        match bases[p] {
            FlexBasis::Auto => {
                assert(autos_before(bases, k) == autos + 1);
                assert(fixed_before(bases, k) == fixed_before(bases, p));
                assert((autos + 1) * each == autos * each + each) by (nonlinear_arith);
                assert(share(total, bases, p) == each + if autos < spare {
                    1int
                } else {
                    0int
                });
                assert(stretched_before(total, bases, k) == stretched_before(total, bases, p)
                    + share(total, bases, p));
            },
            FlexBasis::Fixed(size) => {
                assert(autos_before(bases, k) == autos);
                assert(fixed_before(bases, k) == fixed_before(bases, p) + size);
                assert(stretched_before(total, bases, k) == stretched_before(total, bases, p));
                if fixed_total(bases) > total {
                    assert(autos * each == 0) by (nonlinear_arith)
                        requires
                            each == 0,
                    ;
                    assert(stretched_before(total, bases, p) == 0);
                } else {
                    assert(fixed_before(bases, k) + stretched_before(total, bases, p) <= total);
                    assert(share(total, bases, p) == size);
                }
            },
        }
    } else {
        assert(autos_before(bases, k) * each == 0) by (nonlinear_arith)
            requires
                autos_before(bases, k) == 0,
        ;
    }
}

/// The partition is exact. Where an item is stretched, or the fixed items
/// ask for the whole stretch or more, the sizes add up to the total: no cell
/// is left over and none is given twice. Where every item is fixed and they
/// ask for less, the sizes add up to what they ask for.
pub proof fn flex_partition_is_exact(total: nat, bases: Seq<FlexBasis>)
    ensures
        auto_count(bases) > 0 || fixed_total(bases) >= total ==> used(
            total,
            bases,
            bases.len() as int,
        ) == total,
        auto_count(bases) == 0 ==> used(total, bases, bases.len() as int) == at_most(
            fixed_total(bases),
            total,
        ),
{
    let len = bases.len() as int;
    lemma_used_closed_form(total, bases, len);
    lemma_stretched_within_budget(total, bases, len);
}

/// The spans follow one another without a gap or an overlap: the first
/// starts at zero, each of the others where the one before it ends, and none
/// ends beyond the total.
pub proof fn flex_spans_are_contiguous(total: nat, bases: Seq<FlexBasis>, i: int)
    requires
        0 <= i < bases.len(),
    ensures
        used(total, bases, 0) == 0,
        used(total, bases, i + 1) == used(total, bases, i) + share(total, bases, i),
        used(total, bases, i) <= used(total, bases, i + 1) <= total,
{
    lemma_used_closed_form(total, bases, i + 1);
}

/// Fixed items come before stretched ones: where the fixed items ask for the
/// whole stretch or more, every stretched item gets nothing.
pub proof fn flex_fixed_items_starve_stretched(total: nat, bases: Seq<FlexBasis>, i: int)
    requires
        0 <= i < bases.len(),
        bases[i] is Auto,
        fixed_total(bases) >= total,
    ensures
        share(total, bases, i) == 0,
{
    let count = auto_count(bases) as int;
    lemma_prefix_counts(bases, i + 1, bases.len() as int);
    assert(count > 0);
    assert(0int / count == 0);
    assert(0int % count == 0);
}

/// A fixed item gets what it asks for wherever the fixed items together ask
/// for no more than the total.
pub proof fn flex_fixed_items_are_honoured(total: nat, bases: Seq<FlexBasis>, i: int)
    requires
        0 <= i < bases.len(),
        bases[i] is Fixed,
        fixed_total(bases) <= total,
    ensures
        share(total, bases, i) == bases[i]->Fixed_0,
{
    lemma_used_closed_form(total, bases, i);
    lemma_used_closed_form(total, bases, i + 1);
    lemma_prefix_counts(bases, i + 1, bases.len() as int);
    lemma_stretched_within_budget(total, bases, i);
}

/// A sidebar keeps its width: of a fixed item followed by a stretched one,
/// in a row or a column that has room for the fixed one, the fixed item
/// gets what it asks for, at the start, and the stretched item all the
/// rest, however much that is.
pub proof fn sidebar_keeps_its_size(total: nat, size: usize, direction: FlexDirection)
    requires
        !direction.reversed(),
        size <= total <= usize::MAX,
    ensures
        span_of(total, direction, seq![FlexBasis::Fixed(size), FlexBasis::Auto], 0) == (Span {
            offset: 0,
            size,
        }),
        span_of(total, direction, seq![FlexBasis::Fixed(size), FlexBasis::Auto], 1) == (Span {
            offset: size,
            size: (total - size) as usize,
        }),
{
    let bases = seq![FlexBasis::Fixed(size), FlexBasis::Auto];
    assert(fixed_before(bases, 0) == 0);
    assert(fixed_before(bases, 1) == size);
    assert(fixed_before(bases, 2) == size);
    assert(autos_before(bases, 0) == 0);
    assert(autos_before(bases, 1) == 0);
    assert(autos_before(bases, 2) == 1);
    assert(stretched_budget(total, bases) == total - size);
    assert(stretched_size(total, bases) == total - size);
    assert(stretched_spare(total, bases) == 0) by {
        assert((total - size) % 1 == 0);
    }
    assert(used(total, bases, 0) == 0);
    assert(share(total, bases, 0) == size);
    assert(used(total, bases, 1) == size);
    assert(share(total, bases, 1) == total - size);
}

/// Shares a stretch of `total_size` cells among items with the given bases.
///
/// The result holds one span for each item, in the order in which the items
/// are declared. A reversed direction serves the items from the last to the
/// first, so that the last item is given the stretch that starts at zero;
/// the offsets still count from the start of the axis.
pub fn split(total_size: usize, direction: FlexDirection, bases: &[FlexBasis]) -> (spans: Vec<
    Span,
>)
    ensures
        spans@.len() == bases@.len(),
        forall|i: int|
            0 <= i < bases@.len() ==> spans@[i] == span_of(
                total_size as nat,
                direction,
                bases@,
                i,
            ),
{
    let n = bases.len();
    let reversed = direction.is_reversed();
    let ghost total = total_size as nat;
    let ghost order = traversal(direction, bases@);

    // What the fixed items leave, and how many items share it.
    let mut budget = total_size;
    let mut count: usize = 0;
    let mut i: usize = 0;
    while i < n
        invariant
            i <= n,
            n == bases@.len(),
            order == traversal(direction, bases@),
            order.len() == n,
            reversed == direction.reversed(),
            count == autos_before(order, i as int),
            count <= i,
            budget == if fixed_before(order, i as int) <= total_size {
                total_size - fixed_before(order, i as int)
            } else {
                0
            },
        decreases n - i,
    {
        let index = if reversed {
            n - 1 - i
        } else {
            i
        };
        assert(order[i as int] == bases@[index as int]);
        match bases[index] {
            FlexBasis::Auto => {
                count = count + 1;
            },
            FlexBasis::Fixed(size) => {
                budget = budget.saturating_sub(size);
            },
        }
        i = i + 1;
    }
    let each = if count > 0 {
        budget / count
    } else {
        0
    };
    let mut spare = if count > 0 {
        budget % count
    } else {
        0
    };
    assert(each == stretched_size(total, order));
    assert(spare == stretched_spare(total, order));

    // Serve the items in order.
    let mut placed: Vec<Span> = Vec::new();
    let mut remaining = total_size;
    i = 0;
    while i < n
        invariant
            i <= n,
            n == bases@.len(),
            order == traversal(direction, bases@),
            order.len() == n,
            reversed == direction.reversed(),
            total == total_size,
            each == stretched_size(total, order),
            spare == stretched_spare(total, order) - at_most(
                autos_before(order, i as int),
                stretched_spare(total, order),
            ),
            remaining == total_size - used(total, order, i as int),
            placed@.len() == i,
            forall|j: int|
                0 <= j < i ==> placed@[j] == (Span {
                    offset: used(total, order, j) as usize,
                    size: share(total, order, j) as usize,
                }),
        decreases n - i,
    {
        let index = if reversed {
            n - 1 - i
        } else {
            i
        };
        assert(order[i as int] == bases@[index as int]);
        proof {
            lemma_used_closed_form(total, order, i as int);
            lemma_used_closed_form(total, order, i as int + 1);
        }
        assert(used(total, order, i as int + 1) == used(total, order, i as int) + share(
            total,
            order,
            i as int,
        ));
        let offset = total_size - remaining;
        let size = match bases[index] {
            FlexBasis::Auto => {
                if spare > 0 {
                    spare = spare - 1;
                    each + 1
                } else {
                    each
                }
            },
            FlexBasis::Fixed(size) => {
                if size <= remaining {
                    size
                } else {
                    remaining
                }
            },
        };
        assert(size == share(total, order, i as int));
        remaining = remaining - size;
        placed.push(Span { offset, size });
        i = i + 1;
    }
    if !reversed {
        return placed;
    }
    // Hand the spans back in the declared order.
    let mut spans: Vec<Span> = Vec::new();
    let mut k: usize = 0;
    while k < n
        invariant
            k <= n,
            n == bases@.len(),
            placed@.len() == n,
            spans@.len() == k,
            forall|j: int| 0 <= j < k ==> spans@[j] == placed@[n - 1 - j],
        decreases n - k,
    {
        spans.push(placed[n - 1 - k]);
        k = k + 1;
    }
    spans
}

/// Lays the items of a container out in `frame`: shares the main axis of the
/// frame among them and gives each the full extent of the other axis.
///
/// The result holds one region for each item, in the declared order. Every
/// region lies inside `frame`.
pub fn split_frame(frame: Rect, direction: FlexDirection, bases: &[FlexBasis]) -> (frames: Vec<
    Rect,
>)
    requires
        frame.representable(),
    ensures
        frames@.len() == bases@.len(),
        forall|i: int|
            0 <= i < bases@.len() ==> frames@[i] == region_of(
                frame,
                direction,
                span_of(direction.main_extent(frame.size) as nat, direction, bases@, i),
            ),
        forall|i: int|
            0 <= i < bases@.len() ==> frame.encloses(#[trigger] frames@[i])
                && frames@[i].representable(),
{
    let total_size = direction.dimension(frame.size);
    let spans = split(total_size, direction, bases);
    let horizontal = direction.is_horizontal();
    let n = spans.len();
    let mut frames: Vec<Rect> = Vec::new();
    let mut i: usize = 0;
    while i < n
        invariant
            i <= n,
            n == bases@.len(),
            n == spans@.len(),
            frame.representable(),
            horizontal == direction.horizontal(),
            total_size == direction.main_extent(frame.size),
            forall|j: int|
                0 <= j < n ==> spans@[j] == span_of(total_size as nat, direction, bases@, j),
            frames@.len() == i,
            forall|j: int|
                0 <= j < i ==> frames@[j] == region_of(
                    frame,
                    direction,
                    span_of(total_size as nat, direction, bases@, j),
                ),
            forall|j: int|
                0 <= j < i ==> frame.encloses(#[trigger] frames@[j]) && frames@[j].representable(),
        decreases n - i,
    {
        let span = spans[i];
        proof {
            lemma_span_within(total_size as nat, direction, bases@, i as int);
        }
        let rect = if horizontal {
            Rect::new(
                Position::new(frame.origin.x + span.offset, frame.origin.y),
                Size::new(span.size, frame.size.height),
            )
        } else {
            Rect::new(
                Position::new(frame.origin.x, frame.origin.y + span.offset),
                Size::new(frame.size.width, span.size),
            )
        };
        frames.push(rect);
        i = i + 1;
    }
    frames
}

/// No span reaches beyond the total, in either order of service.
pub proof fn lemma_span_within(total: nat, direction: FlexDirection, bases: Seq<FlexBasis>, i: int)
    requires
        0 <= i < bases.len(),
        total <= usize::MAX,
    ensures
        span_of(total, direction, bases, i).offset + span_of(total, direction, bases, i).size
            <= total,
        span_of(total, direction, bases, i).offset == used(
            total,
            traversal(direction, bases),
            turn(direction, bases.len() as int, i),
        ),
        span_of(total, direction, bases, i).size == share(
            total,
            traversal(direction, bases),
            turn(direction, bases.len() as int, i),
        ),
{
    let order = traversal(direction, bases);
    let j = turn(direction, bases.len() as int, i);
    lemma_used_closed_form(total, order, j);
    lemma_used_closed_form(total, order, j + 1);
}

} // verus!
