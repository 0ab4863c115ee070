use dds_converter::coord::{parse_decimal, UvCoord};
use dds_converter::frame::{drop_trailing_blank, is_frame_mostly_black, Frame};
use dds_converter::sprite::{SpriteError, SpriteSheet};
use dds_converter::animation::sprite_animation_frames;

fn coord(text: &str) -> UvCoord {
    let t: Vec<char> = text.chars().collect();
    parse_decimal(&t, 0, t.len()).unwrap()
}

fn solid(width: u32, height: u32, rgba: [u8; 4]) -> Frame {
    let mut data = Vec::new();
    for _ in 0..width * height {
        data.extend_from_slice(&rgba);
    }
    Frame { width, height, data }
}

fn gradient(width: u32, height: u32) -> Frame {
    let mut data = Vec::new();
    for y in 0..height {
        for x in 0..width {
            data.extend_from_slice(&[x as u8, y as u8, 200, 255]);
        }
    }
    Frame { width, height, data }
}

#[test]
fn record_without_bottom_right_gives_no_cell() {
    let text = r#"<Cell topLeft="0,0" topRight="1,0" bottomLeft="0,1" />"#;
    let sheet = SpriteSheet::from_xml_content(text).unwrap();
    assert_eq!(sheet.cells.len(), 0);
}

#[test]
fn first_cell_top_left_is_synthesised() {
    let text = "<Sheet>\n  <Cell topRight=\"1,0\" bottomLeft=\"0,1\" bottomRight=\"1,1\" />\n</Sheet>\n";
    let sheet = SpriteSheet::from_xml_content(text).unwrap();
    assert_eq!(sheet.cells.len(), 1);
    assert_eq!(sheet.cells[0].top_left, (coord("0"), coord("0")));
    assert_eq!(sheet.cells[0].bottom_right, (coord("1"), coord("1")));
}

#[test]
fn malformed_coordinate_fails_the_sheet() {
    let text = "<Cell topLeft=\"0,0\" topRight=\"1,0\" bottomLeft=\"0,1\" bottomRight=\"1,1\" />\n<Cell topLeft=\"a,b\" />";
    assert_eq!(
        SpriteSheet::from_xml_content(text).unwrap_err(),
        SpriteError::MalformedCoordinate { line_index: 1 }
    );
    let three = "<Cell topLeft=\"1,2,3\" />";
    assert_eq!(
        SpriteSheet::from_xml_content(three).unwrap_err(),
        SpriteError::MalformedCoordinate { line_index: 0 }
    );
}

#[test]
fn lines_that_are_not_cell_records_are_ignored() {
    let text = "<Cells>\r\n\t<Cell topLeft=\"0,0\" topRight=\"0.5,0\" bottomLeft=\"0,0.5\" bottomRight=\"0.5,0.5\"/>\r\n<Other topLeft=\"x\"/>\r\n";
    let sheet = SpriteSheet::from_xml_content(text).unwrap();
    assert_eq!(sheet.cells.len(), 1);
    assert_eq!(sheet.cells[0].bottom_right.0.to_pixel(10), 5);
}

#[test]
fn coordinates_scale_and_round_down() {
    assert_eq!(coord("0.16666667").to_pixel(600), 100);
    assert_eq!(coord("0.5").to_pixel(101), 50);
    assert_eq!(coord("2.5").to_pixel(3), 7);
    assert_eq!(coord("-0.5").to_pixel(100), 0);
    assert_eq!(coord("1").to_pixel(100), 100);
    assert_eq!(coord(".25").to_pixel(8), 2);
    assert_eq!(coord("+1.").to_pixel(8), 8);
    assert_eq!(coord("99999999999").to_pixel(2), u32::MAX);
    // The product is taken exactly: 0.8333333 * 6 is just under 5.
    assert_eq!(coord("0.8333333").to_pixel(6), 4);
    for bad in [".", "", "+", "e5", "1e", "1e+", "1.2.3", "0x1", " 1", "infx"] {
        let t: Vec<char> = bad.chars().collect();
        assert!(parse_decimal(&t, 0, t.len()).is_none(), "{bad}");
    }
}

#[test]
fn exponents_move_the_point() {
    assert_eq!(coord("1e-1").to_pixel(100), 10);
    assert_eq!(coord("5E-1").to_pixel(100), 50);
    assert_eq!(coord("0.05e+1").to_pixel(100), 50);
    assert_eq!(coord("25e-2").to_pixel(8), 2);
    assert_eq!(coord("1e3").to_pixel(2), 2000);
    assert_eq!(coord("1e20").to_pixel(2), u32::MAX);
    assert_eq!(coord("0e20").to_pixel(2), 0);
    assert_eq!(coord("1e20").to_pixel(0), 0);
    assert_eq!(coord("1e-30").to_pixel(u32::MAX), 0);
    assert_eq!(coord("123e-12").to_pixel(1_000_000_000), 0);
    assert_eq!(coord("123e-9").to_pixel(1_000_000_000), 123);
    assert_eq!(coord("1e99999999999999999999999999").to_pixel(1), u32::MAX);
    assert_eq!(coord("1e-99999999999999999999999999").to_pixel(u32::MAX), 0);
}

#[test]
fn infinities_saturate_and_nan_is_zero() {
    assert_eq!(coord("inf").to_pixel(10), u32::MAX);
    assert_eq!(coord("+Infinity").to_pixel(10), u32::MAX);
    assert_eq!(coord("-inf").to_pixel(10), 0);
    assert_eq!(coord("inf").to_pixel(0), 0);
    assert_eq!(coord("NaN").to_pixel(10), 0);
}

#[test]
fn exponent_coordinates_are_accepted_in_descriptors() {
    let text = "<Cell topLeft=\"1e-1,0\" topRight=\"5e-1,0\" bottomLeft=\"1e-1,1\" bottomRight=\"5E-1,1E0\" />";
    let sheet = SpriteSheet::from_xml_content(text).unwrap();
    assert_eq!(sheet.cells.len(), 1);
    let frames = sheet.extract_frames(&gradient(10, 4));
    assert_eq!((frames[0].width, frames[0].height), (4, 4));
}

#[test]
fn full_unit_square_gives_whole_texture() {
    let text = "<Cell topLeft=\"0,0\" topRight=\"1,0\" bottomLeft=\"0,1\" bottomRight=\"1,1\" />";
    let sheet = SpriteSheet::from_xml_content(text).unwrap();
    let tex = gradient(100, 100);
    let frames = sheet.extract_frames(&tex);
    assert_eq!(frames.len(), 1);
    assert_eq!(frames[0], tex);
}

#[test]
fn zero_width_quad_gives_no_frame() {
    let text = "<Cell topLeft=\"0.5,0\" topRight=\"0.5,0\" bottomLeft=\"0.5,1\" bottomRight=\"0.5,1\" />\n<Cell topLeft=\"0,0\" topRight=\"0.5,0\" bottomLeft=\"0,0.5\" bottomRight=\"0.5,0.5\" />";
    let sheet = SpriteSheet::from_xml_content(text).unwrap();
    assert_eq!(sheet.cells.len(), 2);
    let frames = sheet.extract_frames(&gradient(10, 10));
    assert_eq!(frames.len(), 1);
    assert_eq!((frames[0].width, frames[0].height), (5, 5));
}

#[test]
fn pixels_outside_the_texture_stay_transparent() {
    let text = "<Cell topLeft=\"0.5,0\" topRight=\"1.5,0\" bottomLeft=\"0.5,0.5\" bottomRight=\"1.5,0.5\" />";
    let sheet = SpriteSheet::from_xml_content(text).unwrap();
    let frames = sheet.extract_frames(&gradient(4, 4));
    assert_eq!((frames[0].width, frames[0].height), (4, 2));
    let px = |x: usize, y: usize| frames[0].data[4 * (y * 4 + x)..4 * (y * 4 + x) + 4].to_vec();
    assert_eq!(px(0, 1), vec![2, 1, 200, 255]);
    assert_eq!(px(1, 0), vec![3, 0, 200, 255]);
    assert_eq!(px(2, 0), vec![0, 0, 0, 0]);
    assert_eq!(px(3, 1), vec![0, 0, 0, 0]);
}

#[test]
fn mostly_black_threshold_is_strict() {
    let mut f = solid(20, 1, [0, 0, 0, 255]);
    assert!(is_frame_mostly_black(&f));
    for b in &mut f.data[0..4] {
        *b = 200;
    }
    // 19 of 20 pixels blank: exactly 95%, which does not exceed the threshold.
    assert!(!is_frame_mostly_black(&f));
    assert!(is_frame_mostly_black(&solid(4, 4, [255, 255, 255, 9])));
    assert!(!is_frame_mostly_black(&solid(4, 4, [10, 0, 0, 255])));
    assert!(!is_frame_mostly_black(&solid(0, 0, [0, 0, 0, 0])));
}

fn frames_with_last(n: usize, last: Frame) -> Vec<Frame> {
    let mut v: Vec<Frame> = (0..n - 1).map(|_| solid(2, 2, [255, 255, 255, 255])).collect();
    v.push(last);
    v
}

#[test]
fn twenty_four_frames_with_blank_last_lose_it() {
    let mut v = frames_with_last(24, solid(2, 2, [0, 0, 0, 255]));
    drop_trailing_blank(&mut v);
    assert_eq!(v.len(), 23);
}

#[test]
fn half_blank_last_frame_is_kept() {
    let mut last = solid(2, 2, [0, 0, 0, 0]);
    for b in &mut last.data[0..8] {
        *b = 255;
    }
    let mut v = frames_with_last(24, last);
    drop_trailing_blank(&mut v);
    assert_eq!(v.len(), 24);
}

#[test]
fn trailing_rule_needs_exactly_twenty_four() {
    for n in [23usize, 25] {
        let mut v = frames_with_last(n, solid(2, 2, [0, 0, 0, 0]));
        drop_trailing_blank(&mut v);
        assert_eq!(v.len(), n);
    }
}

#[test]
fn sprite_animation_applies_the_trailing_rule() {
    let mut text = String::new();
    for i in 0..24 {
        let x0 = format!("{:.2}", 0.04 * i as f64);
        let x1 = format!("{:.2}", 0.04 * (i + 1) as f64);
        text.push_str(&format!(
            "<Cell topLeft=\"{x0},0\" topRight=\"{x1},0\" bottomLeft=\"{x0},1\" bottomRight=\"{x1},1\" />\n"
        ));
    }
    let mut tex = solid(50, 2, [255, 255, 255, 255]);
    for y in 0..2 {
        for x in 46..48 {
            let i = 4 * (y * 50 + x);
            tex.data[i..i + 4].copy_from_slice(&[0, 0, 0, 0]);
        }
    }
    let frames = sprite_animation_frames(&text, &tex).unwrap();
    assert_eq!(frames.len(), 23);
    assert!(frames.iter().all(|f| f.width == 2 && f.height == 2));
}
