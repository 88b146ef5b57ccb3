use zi::raster::{add_alpha_channel, compute_grid_size, lay_glyph, pack_pixel, Glyph};
use zi::Size;

#[test]
fn the_grid_has_as_many_cells_as_fit_whole() {
    assert_eq!(compute_grid_size(800, 600, 8, 16), Size::new(100, 37));
    assert_eq!(compute_grid_size(7, 15, 8, 16), Size::new(0, 0));
    assert_eq!(compute_grid_size(8, 16, 8, 16), Size::new(1, 1));
}

#[test]
fn every_pixel_gets_its_first_byte_for_alpha() {
    assert_eq!(add_alpha_channel(&[1, 2, 3, 4, 5, 6]), vec![1, 2, 3, 1, 4, 5, 6, 4]);
    assert_eq!(add_alpha_channel(&[]), Vec::<u8>::new());
}

#[test]
fn a_pixel_is_packed_with_red_in_the_lowest_byte() {
    assert_eq!(pack_pixel(0x11, 0x22, 0x33, 0x44), 0x4433_2211);
    assert_eq!(pack_pixel(0, 0, 0, 0), 0);
    assert_eq!(pack_pixel(255, 255, 255, 255), u32::MAX);
}

#[test]
fn a_glyph_is_laid_where_its_bearings_put_it() {
    let glyph = Glyph {
        buffer: vec![1, 2, 3, 4, 5, 6],
        has_alpha: false,
        width: 2,
        height: 1,
        top: 2,
        left: 1,
    };
    let mut cell = vec![9u32; 4 * 4];
    lay_glyph(-1, &glyph, &mut cell, 4);
    let first = pack_pixel(1, 2, 3, 1);
    let second = pack_pixel(4, 5, 6, 4);
    assert_eq!(
        cell,
        vec![
            0, 0, 0, 0, //
            0, first, second, 0, //
            0, 0, 0, 0, //
            0, 0, 0, 0,
        ]
    );
}

#[test]
fn a_glyph_is_cut_at_the_edges_of_the_cell() {
    let glyph = Glyph {
        buffer: vec![
            1, 1, 1, 10, 2, 2, 2, 20, 3, 3, 3, 30, //
            4, 4, 4, 40, 5, 5, 5, 50, 6, 6, 6, 60,
        ],
        has_alpha: true,
        width: 3,
        height: 2,
        top: 1,
        left: 0,
    };
    let mut cell = vec![0u32; 2 * 2];
    lay_glyph(0, &glyph, &mut cell, 2);
    assert_eq!(
        cell,
        vec![0, 0, pack_pixel(1, 1, 1, 10), pack_pixel(2, 2, 2, 20)]
    );
    let mut above = vec![7u32; 2 * 2];
    let tall = Glyph { top: 40, ..glyph };
    lay_glyph(0, &tall, &mut above, 2);
    assert_eq!(
        above,
        vec![
            pack_pixel(1, 1, 1, 10),
            pack_pixel(2, 2, 2, 20),
            pack_pixel(4, 4, 4, 40),
            pack_pixel(5, 5, 5, 50),
        ]
    );
}
