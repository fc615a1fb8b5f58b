use tricolor_dither::dither::{dither, dither_window, Window};
use tricolor_dither::grid::RgbaGrid;
use tricolor_dither::palette::{nearest_index, tone_distance, tri_color_palette, Rgb, Tone, UNIT};
use tricolor_dither::planes::{black_ink, dither_image, red_ink, split_planes};

const BLACK: Rgb = Rgb { r: 0, g: 0, b: 0 };
const WHITE: Rgb = Rgb { r: 255, g: 255, b: 255 };
const RED: Rgb = Rgb { r: 127, g: 0, b: 0 };

fn grid(width: usize, height: usize, pixels: &[[u8; 4]]) -> RgbaGrid {
    let data: Vec<u8> = pixels.iter().flat_map(|p| p.iter().copied()).collect();
    RgbaGrid::from_raw(width, height, data).expect("buffer length matches")
}

fn tone(r: i64, g: i64, b: i64) -> Tone {
    Tone { r: r * UNIT, g: g * UNIT, b: b * UNIT }
}

fn colors(g: &RgbaGrid) -> Vec<Rgb> {
    let d = g.data.clone();
    d.chunks(4).map(|c| Rgb { r: c[0], g: c[1], b: c[2] }).collect()
}

#[test]
fn palette_order_is_black_white_red() {
    assert_eq!(tri_color_palette(), vec![BLACK, WHITE, RED]);
}

#[test]
fn exact_palette_colors_resolve_to_their_index() {
    let pal = tri_color_palette();
    assert_eq!(nearest_index(&pal, tone(0, 0, 0)), 0);
    assert_eq!(nearest_index(&pal, tone(255, 255, 255)), 1);
    assert_eq!(nearest_index(&pal, tone(127, 0, 0)), 2);
}

#[test]
fn nearest_by_squared_distance() {
    let pal = tri_color_palette();
    // (200, 10, 10): black 40200, white 123075, red 5529.
    assert_eq!(nearest_index(&pal, tone(200, 10, 10)), 2);
    // Out-of-range components are not clamped.
    assert_eq!(nearest_index(&pal, tone(-40, -40, -40)), 0);
    assert_eq!(nearest_index(&pal, tone(300, 300, 300)), 1);
}

#[test]
fn tie_keeps_the_earliest_entry() {
    let pal = vec![BLACK, Rgb { r: 2, g: 0, b: 0 }];
    assert_eq!(nearest_index(&pal, tone(1, 0, 0)), 0);
    let pal = vec![Rgb { r: 2, g: 0, b: 0 }, BLACK];
    assert_eq!(nearest_index(&pal, tone(1, 0, 0)), 0);
}

#[test]
fn distance_formula() {
    assert_eq!(tone_distance(tone(200, 10, 10), RED), 5529 * UNIT * UNIT);
    assert_eq!(tone_distance(tone(0, 0, 0), WHITE), 3 * 255 * 255 * UNIT * UNIT);
}

#[test]
fn from_raw_checks_length() {
    assert!(RgbaGrid::from_raw(2, 2, vec![0; 16]).is_some());
    assert!(RgbaGrid::from_raw(2, 2, vec![0; 15]).is_none());
    assert!(RgbaGrid::from_raw(0, 5, vec![]).is_some());
    let g = grid(2, 1, &[[1, 2, 3, 4], [5, 6, 7, 8]]);
    assert_eq!(g.pixel(1, 0), [5, 6, 7, 8]);
    assert_eq!(g.into_raw(), vec![1, 2, 3, 4, 5, 6, 7, 8]);
}

#[test]
fn end_to_end_two_by_two() {
    let input = grid(
        2,
        2,
        &[[255, 255, 255, 255], [0, 0, 0, 255], [127, 0, 0, 255], [200, 10, 10, 255]],
    );
    let q = dither(&input);
    assert_eq!(colors(&q), vec![WHITE, BLACK, RED, RED]);
    assert!(q.data.chunks(4).all(|c| c[3] == 255));

    let planes = dither_image(&input);
    let px = |g: &tricolor_dither::grid::RgbGrid, x: usize, y: usize| g.pixel(x, y);
    assert_eq!(px(&planes.combined, 0, 0), WHITE);
    assert_eq!(px(&planes.combined, 1, 0), BLACK);
    assert_eq!(px(&planes.combined, 0, 1), RED);
    assert_eq!(px(&planes.combined, 1, 1), RED);
    assert_eq!(planes.red_only.into_raw(), vec![255, 255, 255, 255, 255, 255, 0, 0, 0, 0, 0, 0]);
    assert_eq!(planes.black_only.into_raw(), vec![255, 255, 255, 0, 0, 0, 0, 0, 0, 0, 0, 0]);
}

#[test]
fn diffused_error_changes_the_next_pixel() {
    // (60,0,0) goes black and hands 7/32 of +60 red to its right neighbour,
    // which pushes (55,0,0) (alone: black) over to dark red.
    let input = grid(2, 1, &[[60, 0, 0, 255], [55, 0, 0, 255]]);
    assert_eq!(colors(&dither(&input)), vec![BLACK, RED]);
    let alone = grid(1, 1, &[[55, 0, 0, 255]]);
    assert_eq!(colors(&dither(&alone)), vec![BLACK]);
}

#[test]
fn dithering_is_deterministic() {
    let mut pixels = Vec::new();
    for k in 0..48u32 {
        let v = (k * 37 % 256) as u8;
        pixels.push([v, (k * 11 % 256) as u8, (255 - v), 255]);
    }
    let input = grid(8, 6, &pixels);
    let a = dither(&input);
    let b = dither(&input);
    assert_eq!(a.data, b.data);
}

#[test]
fn output_uses_palette_colors_only() {
    let mut pixels = Vec::new();
    for k in 0..100u32 {
        pixels.push([(k * 23 % 256) as u8, (k * 7 % 256) as u8, (k * 51 % 256) as u8, 17]);
    }
    let input = grid(10, 10, &pixels);
    let q = dither(&input);
    assert_eq!(q.data.len(), 400);
    for c in q.data.chunks(4) {
        let p = Rgb { r: c[0], g: c[1], b: c[2] };
        assert!(p == BLACK || p == WHITE || p == RED);
        assert_eq!(c[3], 255);
    }
}

#[test]
fn dimensions_are_preserved() {
    let input = grid(3, 2, &[[10, 20, 30, 255]; 6]);
    let planes = dither_image(&input);
    for g in [&planes.combined, &planes.red_only, &planes.black_only] {
        assert_eq!((g.width(), g.height()), (3, 2));
        assert_eq!(g.data.len(), 18);
    }
}

#[test]
fn empty_image() {
    let input = RgbaGrid::from_raw(0, 0, vec![]).unwrap();
    let q = dither(&input);
    assert_eq!((q.width, q.height, q.data.len()), (0, 0, 0));
}

#[test]
fn single_column_image() {
    let input = grid(1, 3, &[[255, 255, 255, 255], [0, 0, 0, 255], [127, 0, 0, 255]]);
    assert_eq!(colors(&dither(&input)), vec![WHITE, BLACK, RED]);
}

#[test]
fn window_outside_source_gets_checkerboard() {
    let input = grid(1, 1, &[[127, 0, 0, 255]]);
    let pal = tri_color_palette();
    let win = Window { dx: -1, dy: -1, width: 3, height: 2 };
    let q = dither_window(&pal, &input, win);
    assert_eq!((q.width, q.height), (3, 2));
    assert_eq!(colors(&q), vec![WHITE, BLACK, WHITE, BLACK, RED, BLACK]);
}

#[test]
fn plane_rules_on_palette_colors() {
    assert_eq!(red_ink(RED), BLACK);
    assert_eq!(black_ink(RED), BLACK);
    assert_eq!(red_ink(BLACK), WHITE);
    assert_eq!(black_ink(BLACK), BLACK);
    assert_eq!(red_ink(WHITE), WHITE);
    assert_eq!(black_ink(WHITE), WHITE);
}

#[test]
fn split_drops_alpha() {
    let q = grid(3, 1, &[[127, 0, 0, 255], [0, 0, 0, 255], [255, 255, 255, 255]]);
    let planes = split_planes(&q);
    assert_eq!(planes.combined.into_raw(), vec![127, 0, 0, 0, 0, 0, 255, 255, 255]);
    assert_eq!(planes.red_only.into_raw(), vec![0, 0, 0, 255, 255, 255, 255, 255, 255]);
    assert_eq!(planes.black_only.into_raw(), vec![0, 0, 0, 0, 0, 0, 255, 255, 255]);
}
