use zi::{Canvas, Colour, Position, Rect, Size, Style, Textel};

fn style() -> Style {
    Style::normal(Colour::black(), Colour::white())
}

fn textel(grapheme: &str) -> Option<Textel> {
    Some(Textel { style: style(), grapheme: grapheme.to_string() })
}

fn row(canvas: &Canvas, y: usize) -> Vec<Option<String>> {
    (0..canvas.size().width)
        .map(|x| canvas.textel(x, y).map(|textel| textel.grapheme.clone()))
        .collect()
}

fn some(grapheme: &str) -> Option<String> {
    Some(grapheme.to_string())
}

#[test]
fn a_new_canvas_is_empty() {
    let canvas = Canvas::new(Size::new(3, 2));
    assert_eq!(canvas.size(), Size::new(3, 2));
    assert_eq!(row(&canvas, 0), vec![None, None, None]);
    assert_eq!(row(&canvas, 1), vec![None, None, None]);
    assert!(canvas.textel(3, 0).is_none());
    assert!(canvas.textel(0, 2).is_none());
}

#[test]
fn a_canvas_without_cells_can_be_made() {
    let mut canvas = Canvas::new(Size::new(0, 7));
    canvas.put(0, 0, textel("x"));
    assert_eq!(canvas.draw_str(0, 0, style(), "abc"), 0);
    assert!(canvas.textel(0, 0).is_none());
}

#[test]
fn put_changes_one_cell() {
    let mut canvas = Canvas::new(Size::new(3, 2));
    canvas.put(1, 1, textel("x"));
    assert_eq!(row(&canvas, 0), vec![None, None, None]);
    assert_eq!(row(&canvas, 1), vec![None, some("x"), None]);
    canvas.put(5, 5, textel("y"));
    assert_eq!(row(&canvas, 1), vec![None, some("x"), None]);
    canvas.clear();
    assert_eq!(row(&canvas, 1), vec![None, None, None]);
}

#[test]
fn resize_gives_another_extent_and_empties() {
    let mut canvas = Canvas::new(Size::new(2, 2));
    canvas.put(0, 0, textel("x"));
    canvas.resize(Size::new(3, 1));
    assert_eq!(canvas.size(), Size::new(3, 1));
    assert_eq!(row(&canvas, 0), vec![None, None, None]);
}

#[test]
fn copy_region_clips_to_the_region_and_to_the_grid() {
    let mut source = Canvas::new(Size::new(3, 2));
    for y in 0..2 {
        for x in 0..3 {
            source.put(x, y, textel(&format!("{}{}", x, y)));
        }
    }
    let mut target = Canvas::new(Size::new(4, 3));
    target.put(0, 0, textel("keep"));
    // The region is narrower than the source, and reaches below the grid.
    target.copy_region(&source, Rect::new(Position::new(2, 2), Size::new(2, 5)));
    assert_eq!(row(&target, 0), vec![some("keep"), None, None, None]);
    assert_eq!(row(&target, 1), vec![None, None, None, None]);
    assert_eq!(row(&target, 2), vec![None, None, some("00"), some("10")]);

    // A region outside the grid changes nothing.
    target.copy_region(&source, Rect::new(Position::new(4, 0), Size::new(2, 2)));
    assert_eq!(row(&target, 0), vec![some("keep"), None, None, None]);

    // The whole source where it fits.
    target.copy_region(&source, Rect::new(Position::new(0, 0), Size::new(10, 10)));
    assert_eq!(row(&target, 0), vec![some("00"), some("10"), some("20"), None]);
    assert_eq!(row(&target, 1), vec![some("01"), some("11"), some("21"), None]);
    assert_eq!(row(&target, 2), vec![None, None, some("00"), some("10")]);
}

#[test]
fn draw_str_draws_cluster_by_cluster() {
    let mut canvas = Canvas::new(Size::new(6, 1));
    // An accent that combines with the letter before it stays with it.
    let columns = canvas.draw_str(1, 0, Style::bold(Colour::black(), Colour::white()), "ae\u{301}o");
    assert_eq!(columns, 3);
    assert_eq!(row(&canvas, 0), vec![None, some("a"), some("e\u{301}"), some("o"), None, None]);
    assert!(canvas.textel(1, 0).unwrap().style.bold);
}

#[test]
fn draw_str_empties_the_cells_behind_a_wide_cluster() {
    let mut canvas = Canvas::new(Size::new(6, 1));
    for x in 0..6 {
        canvas.put(x, 0, textel("."));
    }
    let columns = canvas.draw_str(0, 0, style(), "日本x");
    assert_eq!(columns, 5);
    assert_eq!(row(&canvas, 0), vec![some("日"), None, some("本"), None, some("x"), some(".")]);
}

#[test]
fn draw_str_stops_at_the_cluster_that_does_not_fit() {
    let mut canvas = Canvas::new(Size::new(4, 2));
    let columns = canvas.draw_str(1, 1, style(), "a日本b");
    assert_eq!(columns, 3);
    assert_eq!(row(&canvas, 1), vec![None, some("a"), some("日"), None]);
    assert_eq!(row(&canvas, 0), vec![None, None, None, None]);
    assert_eq!(canvas.draw_str(4, 0, style(), "a"), 0);
    assert_eq!(canvas.draw_str(0, 2, style(), "a"), 0);
}

#[test]
fn draw_graphemes_goes_by_the_widths_it_is_given() {
    let mut canvas = Canvas::new(Size::new(5, 1));
    let clusters = vec!["a".to_string(), "zero".to_string(), "wide".to_string(), "b".to_string()];
    let columns = canvas.draw_graphemes(0, 0, style(), &clusters, &[1, 0, 3, 1]);
    assert_eq!(columns, 5);
    assert_eq!(row(&canvas, 0), vec![some("a"), some("wide"), None, None, some("b")]);
}
