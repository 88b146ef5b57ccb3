use zi::component::flex::{split, split_frame};
use zi::{FlexBasis, FlexDirection, Position, Rect, Size, Span};

fn sizes(spans: &[Span]) -> Vec<usize> {
    spans.iter().map(|span| span.size).collect()
}

fn offsets(spans: &[Span]) -> Vec<usize> {
    spans.iter().map(|span| span.offset).collect()
}

#[test]
fn fixed_items_are_served_before_stretched_ones() {
    let bases = [FlexBasis::Fixed(5), FlexBasis::Auto, FlexBasis::Auto];
    let spans = split(10, FlexDirection::Row, &bases);
    assert_eq!(sizes(&spans), vec![5, 3, 2]);
    assert_eq!(offsets(&spans), vec![0, 5, 8]);
}

#[test]
fn split_of_nothing_is_empty() {
    assert_eq!(split(10, FlexDirection::Column, &[]), vec![]);
}

#[test]
fn split_frame_of_a_row_keeps_the_height() {
    let frame = Rect::new(Position::new(2, 3), Size::new(10, 4));
    let frames = split_frame(frame, FlexDirection::Row, &[FlexBasis::Fixed(5), FlexBasis::Auto]);
    assert_eq!(
        frames,
        vec![
            Rect::new(Position::new(2, 3), Size::new(5, 4)),
            Rect::new(Position::new(7, 3), Size::new(5, 4)),
        ]
    );
}

fn total(spans: &[Span]) -> usize {
    spans.iter().map(|span| span.size).sum()
}

fn contiguous(spans: &[Span]) -> bool {
    let mut end = 0;
    for span in spans {
        if span.offset != end {
            return false;
        }
        end += span.size;
    }
    true
}

#[test]
fn sizes_add_up_to_the_total_where_an_item_stretches() {
    let cases: Vec<(usize, Vec<FlexBasis>)> = vec![
        (10, vec![FlexBasis::Auto]),
        (10, vec![FlexBasis::Auto, FlexBasis::Auto, FlexBasis::Auto]),
        (0, vec![FlexBasis::Auto, FlexBasis::Fixed(3)]),
        (7, vec![FlexBasis::Fixed(2), FlexBasis::Auto, FlexBasis::Fixed(2), FlexBasis::Auto]),
        (7, vec![FlexBasis::Fixed(20), FlexBasis::Auto]),
        (usize::MAX, vec![FlexBasis::Fixed(usize::MAX), FlexBasis::Fixed(usize::MAX), FlexBasis::Auto]),
        (usize::MAX, vec![FlexBasis::Auto, FlexBasis::Auto]),
    ];
    for (size, bases) in cases {
        for direction in [FlexDirection::Row, FlexDirection::Column] {
            let spans = split(size, direction, &bases);
            assert_eq!(spans.len(), bases.len());
            assert_eq!(total(&spans), size);
            assert!(contiguous(&spans));
        }
    }
}

#[test]
fn the_cells_that_cannot_be_shared_equally_go_to_the_first_stretched_items() {
    let spans = split(11, FlexDirection::Row, &[FlexBasis::Auto, FlexBasis::Auto, FlexBasis::Auto]);
    assert_eq!(sizes(&spans), vec![4, 4, 3]);
    assert_eq!(offsets(&spans), vec![0, 4, 8]);
}

#[test]
fn fixed_items_starve_stretched_ones() {
    let bases = [FlexBasis::Auto, FlexBasis::Fixed(7), FlexBasis::Fixed(7)];
    let spans = split(10, FlexDirection::Row, &bases);
    assert_eq!(sizes(&spans), vec![0, 7, 3]);
    assert_eq!(offsets(&spans), vec![0, 0, 7]);
}

#[test]
fn fixed_items_alone_may_leave_room() {
    let spans = split(10, FlexDirection::Column, &[FlexBasis::Fixed(3), FlexBasis::Fixed(4)]);
    assert_eq!(sizes(&spans), vec![3, 4]);
    assert_eq!(offsets(&spans), vec![0, 3]);
}

#[test]
fn a_reversed_direction_serves_the_last_item_first() {
    let bases = [FlexBasis::Fixed(5), FlexBasis::Auto, FlexBasis::Auto];
    let spans = split(10, FlexDirection::RowReverse, &bases);
    // The stretched items are served first: the last gets the spare cell
    // and the start of the axis.
    assert_eq!(sizes(&spans), vec![5, 2, 3]);
    assert_eq!(offsets(&spans), vec![5, 3, 0]);

    let frame = Rect::new(Position::new(1, 1), Size::new(4, 10));
    let frames = split_frame(frame, FlexDirection::ColumnReverse, &bases);
    assert_eq!(
        frames,
        vec![
            Rect::new(Position::new(1, 6), Size::new(4, 5)),
            Rect::new(Position::new(1, 4), Size::new(4, 2)),
            Rect::new(Position::new(1, 1), Size::new(4, 3)),
        ]
    );
}

#[test]
fn directions_know_their_axis() {
    assert!(!FlexDirection::Row.is_reversed());
    assert!(FlexDirection::RowReverse.is_reversed());
    assert!(!FlexDirection::Column.is_reversed());
    assert!(FlexDirection::ColumnReverse.is_reversed());
    assert_eq!(FlexDirection::Row.dimension(Size::new(3, 4)), 3);
    assert_eq!(FlexDirection::ColumnReverse.dimension(Size::new(3, 4)), 4);
}
