use palette_extract::color::{Color, PixelGrid};
use palette_extract::hex::rgba_to_hex;
use palette_extract::palette::img_to_palette;

const RED: Color = Color { r: 255, g: 0, b: 0 };
const BLUE: Color = Color { r: 0, g: 0, b: 255 };

fn solid(width: u32, height: u32, c: Color) -> PixelGrid {
    let n = (width as usize) * (height as usize);
    let mut px = Vec::with_capacity(n);
    for _ in 0..n {
        px.push(c);
    }
    PixelGrid::new(width, height, px).unwrap()
}

#[test]
fn hex_rendering_is_uppercase_six_digits() {
    assert_eq!(rgba_to_hex(Color { r: 247, g: 7, b: 7 }), "#F70707");
    assert_eq!(rgba_to_hex(Color { r: 0, g: 0, b: 0 }), "#000000");
    assert_eq!(rgba_to_hex(Color { r: 255, g: 255, b: 255 }), "#FFFFFF");
    assert_eq!(rgba_to_hex(Color { r: 1, g: 10, b: 171 }), "#010AAB");
}

#[test]
fn grid_rejects_mismatched_buffer() {
    assert!(PixelGrid::new(2, 2, vec![Color { r: 0, g: 0, b: 0 }]).is_none());
    assert!(PixelGrid::new(2, 2, vec![Color { r: 0, g: 0, b: 0 }; 4]).is_some());
}

#[test]
fn get_pixel_reads_row_major() {
    let px = vec![
        Color { r: 1, g: 0, b: 0 },
        Color { r: 2, g: 0, b: 0 },
        Color { r: 3, g: 0, b: 0 },
        Color { r: 4, g: 0, b: 0 },
    ];
    let img = PixelGrid::new(2, 2, px).unwrap();
    assert_eq!(img.get_pixel(0, 0).r, 1);
    assert_eq!(img.get_pixel(1, 0).r, 2);
    assert_eq!(img.get_pixel(0, 1).r, 3);
    assert_eq!(img.get_pixel(1, 1).r, 4);
}

#[test]
fn solid_red_returns_single_bucket_representative() {
    let img = solid(30, 30, RED);
    let palette = img_to_palette(&img, 5);
    assert_eq!(palette, vec!["#F70707".to_string()]);
}

#[test]
fn empty_images_return_empty_palette() {
    for &(w, h) in [(0u32, 0u32), (0, 7), (7, 0)].iter() {
        let img = PixelGrid::new(w, h, Vec::new()).unwrap();
        assert!(img_to_palette(&img, 5).is_empty());
        assert!(img_to_palette(&img, 255).is_empty());
    }
}

#[test]
fn single_pixel_image_returns_its_bucket() {
    // (200, 100, 50) sits in the bucket starting at (192, 96, 48), whose
    // representative is (199, 103, 55)
    let img = solid(1, 1, Color { r: 200, g: 100, b: 50 });
    for &n in [1u8, 2, 25, 255].iter() {
        assert_eq!(img_to_palette(&img, n), vec!["#C76737".to_string()]);
    }
}

#[test]
fn extraction_is_deterministic() {
    let mut px = vec![BLUE; 36];
    px[0] = RED;
    px[3] = Color { r: 10, g: 200, b: 30 };
    let img = PixelGrid::new(6, 6, px).unwrap();
    let first = img_to_palette(&img, 4);
    let second = img_to_palette(&img, 4);
    assert_eq!(first, second);
}

#[test]
fn larger_request_extends_smaller_one() {
    // samples at x in {0, 3, 6}, y = 0: two red, one blue
    let mut px = vec![BLUE; 27];
    px[0] = RED;
    px[3] = RED;
    let img = PixelGrid::new(9, 3, px).unwrap();
    let small = img_to_palette(&img, 1);
    let large = img_to_palette(&img, 3);
    assert_eq!(small.len(), 1);
    assert_eq!(large.len(), 2);
    assert_eq!(small.as_slice(), &large[..1]);
}

#[test]
fn counts_order_most_frequent_first() {
    // two red samples, one blue sample: red first despite blue's smaller
    // bucket position
    let mut px = vec![BLUE; 27];
    px[0] = RED;
    px[3] = RED;
    let img = PixelGrid::new(9, 3, px).unwrap();
    let palette = img_to_palette(&img, 10);
    assert_eq!(palette, vec!["#F70707".to_string(), "#0707F7".to_string()]);
}

#[test]
fn request_beyond_occupied_ranges_returns_all_of_them() {
    let mut px = vec![BLUE; 27];
    px[0] = RED;
    px[3] = RED;
    let img = PixelGrid::new(9, 3, px).unwrap();
    let palette = img_to_palette(&img, 255);
    assert_eq!(palette.len(), 2);
}

#[test]
fn equal_counts_tie_break_by_lower_corner_order() {
    // one red and one blue sample: blue's bucket starts at (0, 0, 240),
    // red's at (240, 0, 0), so blue comes first on a tie
    let mut px = vec![RED; 6];
    px[3] = BLUE;
    let img = PixelGrid::new(6, 1, px).unwrap();
    let palette = img_to_palette(&img, 5);
    assert_eq!(palette, vec!["#0707F7".to_string(), "#F70707".to_string()]);
}

#[test]
fn only_strided_pixels_are_sampled() {
    // 2x2 image: only (0, 0) is on the sampling stride
    let px = vec![
        Color { r: 0, g: 255, b: 0 },
        RED,
        RED,
        RED,
    ];
    let img = PixelGrid::new(2, 2, px).unwrap();
    assert_eq!(img_to_palette(&img, 5), vec!["#07F707".to_string()]);
}

#[test]
fn zero_request_returns_empty_palette() {
    let img = solid(4, 4, RED);
    assert!(img_to_palette(&img, 0).is_empty());
}
