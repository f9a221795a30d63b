use std::collections::HashMap;

use sortviz::color::{Color, Gradient};
use sortviz::ratio::Ratio;
use sortviz::render::{encoded, max_of, RenderError, Sort};

const BG: [u8; 3] = [0x10, 0x10, 0x10];
const RED: [u8; 3] = [255, 0, 0];
const PURPLE: [u8; 3] = [128, 0, 128];

fn small() -> Sort {
    Sort {
        bar_width: 2,
        height: 4,
        margin: 1,
        margin_top: 1,
        spacing: 1,
        bg_color: Color(0x101010),
        colors: Gradient { colors: vec![Color(0x0000FF), Color(0xFF0000)] },
    }
}

fn full_size() -> Sort {
    Sort {
        bar_width: 8,
        height: 512,
        margin: 24,
        margin_top: 32,
        spacing: 2,
        bg_color: Color(0x1f1f1f),
        colors: Gradient { colors: vec![Color(0x0000FF), Color(0x70AF00), Color(0xFF0000)] },
    }
}

fn row(pixels: [[u8; 3]; 7]) -> Vec<u8> {
    pixels.iter().flat_map(|p| p.iter().copied()).collect()
}

fn decode(bytes: &[u8]) -> (u32, u32, png::ColorType, png::BitDepth, Vec<u8>) {
    let decoder = png::Decoder::new(std::io::Cursor::new(bytes));
    let mut reader = decoder.read_info().unwrap();
    let mut pixels = vec![0; reader.output_buffer_size().unwrap()];
    let info = reader.next_frame(&mut pixels).unwrap();
    pixels.truncate(info.buffer_size());
    (info.width, info.height, info.color_type, info.bit_depth, pixels)
}

#[test]
fn max_of_is_the_largest_value() {
    assert_eq!(max_of(&vec![3, 9, 2, 9, 1]), 9);
    assert_eq!(max_of(&vec![7]), 7);
    assert_eq!(max_of(&vec![0, 0]), 0);
    assert_eq!(max_of(&vec![]), 0);
    assert_eq!(max_of(&vec![1, u32::MAX]), u32::MAX);
}

#[test]
fn canvas_width_counts_margins_gaps_and_bars() {
    // 24*2 + 2*18 + 8*19 = 236
    assert_eq!(full_size().canvas_size(19), Some((236, 576)));
    assert_eq!(small().canvas_size(2), Some((7, 6)));
    assert_eq!(small().canvas_size(1), Some((4, 6)));
}

#[test]
fn canvas_size_needs_a_bar() {
    assert_eq!(small().canvas_size(0), None);
}

#[test]
fn canvas_size_stops_where_the_buffer_would_not_fit() {
    let mut wide = small();
    wide.bar_width = u32::MAX;
    assert_eq!(wide.canvas_size(1), None);
    let mut tall = small();
    tall.margin_top = u32::MAX / 2;
    assert_eq!(tall.canvas_size(1), None);
    // 3 * 1000 * 1_431_655 = 4_294_965_000 fits, one more row does not.
    let mut edge = Sort { bar_width: 1000, height: 1_431_655, margin: 0, margin_top: 0, spacing: 0, ..small() };
    assert_eq!(edge.canvas_size(1), Some((1000, 1_431_655)));
    edge.height = 1_431_656;
    assert_eq!(edge.canvas_size(1), None);
}

#[test]
fn rasterize_draws_margins_gaps_and_bars() {
    let raster = small().rasterize(&vec![1, 2], &HashMap::new()).unwrap();
    assert_eq!((raster.width, raster.height), (7, 6));
    let margin = row([BG; 7]);
    let high = row([BG, BG, BG, BG, RED, RED, BG]);
    let low = row([BG, PURPLE, PURPLE, BG, RED, RED, BG]);
    let expected: Vec<u8> = [&margin, &high, &high, &low, &low, &margin].iter().flat_map(|r| r.iter().copied()).collect();
    assert_eq!(raster.data, expected);
}

#[test]
fn rasterize_blends_a_highlighted_bar_towards_white() {
    let mut highlights = HashMap::new();
    highlights.insert(1, Ratio::new(1, 5).unwrap());
    highlights.insert(0, Ratio::new(1, 2).unwrap());
    let raster = small().rasterize(&vec![1, 2], &highlights).unwrap();
    let light_red = [255, 51, 51];
    let light_purple = [192, 128, 192];
    let margin = row([BG; 7]);
    let high = row([BG, BG, BG, BG, light_red, light_red, BG]);
    let low = row([BG, light_purple, light_purple, BG, light_red, light_red, BG]);
    let expected: Vec<u8> = [&margin, &high, &high, &low, &low, &margin].iter().flat_map(|r| r.iter().copied()).collect();
    assert_eq!(raster.data, expected);
}

#[test]
fn rasterize_ignores_a_highlight_beyond_the_bars() {
    let mut highlights = HashMap::new();
    highlights.insert(5, Ratio::new(1, 2).unwrap());
    let plain = small().rasterize(&vec![1, 2], &HashMap::new()).unwrap();
    let marked = small().rasterize(&vec![1, 2], &highlights).unwrap();
    assert_eq!(plain.data, marked.data);
}

#[test]
fn rasterize_gives_a_bar_of_zero_no_height() {
    let raster = small().rasterize(&vec![0, 2], &HashMap::new()).unwrap();
    let margin = row([BG; 7]);
    let chart = row([BG, BG, BG, BG, RED, RED, BG]);
    let expected: Vec<u8> = [&margin, &chart, &chart, &chart, &chart, &margin].iter().flat_map(|r| r.iter().copied()).collect();
    assert_eq!(raster.data, expected);
}

#[test]
fn rasterize_fills_a_bar_from_the_row_its_value_reaches() {
    // One bar of each height 1..=4 out of 4: bar k is filled in the lowest k rows.
    let cfg = Sort { bar_width: 1, margin: 0, margin_top: 0, spacing: 0, colors: Gradient { colors: vec![Color(0x00FF00)] }, ..small() };
    let raster = cfg.rasterize(&vec![1, 2, 3, 4], &HashMap::new()).unwrap();
    assert_eq!((raster.width, raster.height), (4, 4));
    let g = [0, 255, 0];
    let expected: Vec<u8> = [
        [BG, BG, BG, g],
        [BG, BG, g, g],
        [BG, g, g, g],
        [g, g, g, g],
    ].iter().flat_map(|r| r.iter().flat_map(|p| p.iter().copied())).collect();
    assert_eq!(raster.data, expected);
}

#[test]
fn rasterize_of_a_full_size_chart_has_the_size_of_its_canvas() {
    let list: Vec<u32> = (1..20).collect();
    let raster = full_size().rasterize(&list, &HashMap::new()).unwrap();
    assert_eq!((raster.width, raster.height), (236, 576));
    assert_eq!(raster.data.len(), 236 * 576 * 3);
    // top left corner: margin; bottom row of the chart, first bar: the first stop's neighbourhood.
    assert_eq!(&raster.data[0..3], &[0x1f, 0x1f, 0x1f]);
    let y = 32 + 511;
    let x = 24 + 18 * 10;
    let at = (y * 236 + x) * 3;
    assert_eq!(&raster.data[at..at + 3], &[255, 0, 0]);
    let gap = (y * 236 + 24 + 8) * 3;
    assert_eq!(&raster.data[gap..gap + 3], &[0x1f, 0x1f, 0x1f]);
}

#[test]
fn render_refuses_an_empty_gradient() {
    let cfg = Sort { colors: Gradient { colors: vec![] }, ..small() };
    assert_eq!(cfg.render(&vec![1, 2], HashMap::new()), Err(RenderError::EmptyGradient));
    assert_eq!(cfg.render(&vec![], HashMap::new()), Err(RenderError::EmptyGradient));
}

#[test]
fn render_refuses_a_list_without_a_positive_value() {
    assert_eq!(small().render(&vec![0, 0, 0], HashMap::new()), Err(RenderError::NoPositiveValue));
    assert_eq!(small().render(&vec![], HashMap::new()), Err(RenderError::NoPositiveValue));
}

#[test]
fn render_refuses_a_canvas_that_is_too_large() {
    let cfg = Sort { bar_width: u32::MAX, ..small() };
    assert_eq!(cfg.render(&vec![1, 2], HashMap::new()), Err(RenderError::CanvasTooLarge));
    assert_eq!(cfg.rasterize(&vec![1, 2], &HashMap::new()).err(), Some(RenderError::CanvasTooLarge));
}

#[test]
fn render_reports_what_the_encoder_refuses() {
    // A canvas without width can be held, but not encoded.
    let cfg = Sort { bar_width: 0, margin: 0, spacing: 0, ..small() };
    let raster = cfg.rasterize(&vec![1], &HashMap::new()).unwrap();
    assert_eq!((raster.width, raster.height, raster.data.len()), (0, 6, 0));
    assert_eq!(cfg.render(&vec![1], HashMap::new()), Err(RenderError::Encoding));
}

#[test]
fn render_encodes_the_canvas_as_an_rgb_image() {
    let mut highlights = HashMap::new();
    highlights.insert(0, Ratio::new(3, 10).unwrap());
    let raster = small().rasterize(&vec![1, 2], &highlights).unwrap();
    let bytes = small().render(&vec![1, 2], highlights).unwrap();
    assert_eq!(&bytes[0..8], &[137, 80, 78, 71, 13, 10, 26, 10]);
    assert_ne!(bytes, raster.data);
    let (width, height, color, depth, pixels) = decode(&bytes);
    assert_eq!((width, height), (7, 6));
    assert_eq!(color, png::ColorType::Rgb);
    assert_eq!(depth, png::BitDepth::Eight);
    assert_eq!(pixels, raster.data);
}

#[test]
fn render_of_a_full_size_chart_decodes_to_its_canvas() {
    let list: Vec<u32> = vec![5, 19, 1, 7, 12, 3, 18, 2, 9, 14, 4, 16, 6, 11, 8, 17, 10, 13, 15];
    let mut highlights = HashMap::new();
    highlights.insert(18, Ratio::new(1, 2).unwrap());
    highlights.insert(3, Ratio::new(3, 10).unwrap());
    let raster = full_size().rasterize(&list, &highlights).unwrap();
    let bytes = full_size().render(&list, highlights).unwrap();
    let (width, height, _, _, pixels) = decode(&bytes);
    assert_eq!((width, height), (236, 576));
    assert_eq!(pixels, raster.data);
}

#[test]
fn render_is_the_same_for_the_same_input() {
    let first = small().render(&vec![3, 1, 2], HashMap::new()).unwrap();
    let second = small().render(&vec![3, 1, 2], HashMap::new()).unwrap();
    assert_eq!(first, second);
}

#[test]
fn encoded_keeps_the_bytes_and_names_the_failure() {
    assert_eq!(encoded(Ok(vec![1, 2, 3])), Ok(vec![1, 2, 3]));
    assert_eq!(encoded(Err(png::EncodingError::LimitsExceeded)), Err(RenderError::Encoding));
}
