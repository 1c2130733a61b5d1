use palette_extract::color::Color;
use palette_extract::ranges::{
    find_representative_color, generate_color_ranges, is_in_range, ColorRange,
};

#[test]
fn step_sixteen_partitions_exactly() {
    let ranges = generate_color_ranges(16);
    assert_eq!(ranges.len(), 4096);
    let first = &ranges[0];
    assert_eq!(first.lower, Color { r: 0, g: 0, b: 0 });
    assert_eq!(first.upper, Color { r: 15, g: 15, b: 15 });
    assert_eq!(first.representative, Color { r: 7, g: 7, b: 7 });
    let last = &ranges[4095];
    assert_eq!(last.lower, Color { r: 240, g: 240, b: 240 });
    assert_eq!(last.upper, Color { r: 255, g: 255, b: 255 });
    assert_eq!(last.representative, Color { r: 247, g: 247, b: 247 });
    for rg in &ranges {
        assert_eq!(rg.upper.r - rg.lower.r, 15);
        assert_eq!(rg.upper.g - rg.lower.g, 15);
        assert_eq!(rg.upper.b - rg.lower.b, 15);
    }
}

#[test]
fn ranges_are_ordered_row_major_by_start_triple() {
    let ranges = generate_color_ranges(16);
    // position (i * 16 + j) * 16 + k holds the range starting at (16i, 16j, 16k)
    assert_eq!(ranges[1].lower, Color { r: 0, g: 0, b: 16 });
    assert_eq!(ranges[16].lower, Color { r: 0, g: 16, b: 0 });
    assert_eq!(ranges[256].lower, Color { r: 16, g: 0, b: 0 });
    assert_eq!(ranges[(15 * 16 + 2) * 16 + 9].lower, Color { r: 240, g: 32, b: 144 });
}

#[test]
fn every_spot_checked_color_matches_exactly_one_range() {
    let ranges = generate_color_ranges(16);
    let samples: [(u8, u8, u8); 8] = [
        (0, 0, 0),
        (255, 255, 255),
        (255, 0, 0),
        (16, 16, 16),
        (15, 240, 128),
        (247, 7, 7),
        (1, 2, 3),
        (128, 64, 32),
    ];
    for &(r, g, b) in samples.iter() {
        let c = Color { r, g, b };
        let mut hits = 0;
        for rg in &ranges {
            if is_in_range(&c, rg) {
                hits += 1;
            }
        }
        assert_eq!(hits, 1);
    }
}

#[test]
fn red_maps_to_its_bucket() {
    let ranges = generate_color_ranges(16);
    let red = Color { r: 255, g: 0, b: 0 };
    let rg = find_representative_color(&red, &ranges).unwrap();
    assert_eq!(rg.lower, Color { r: 240, g: 0, b: 0 });
    assert_eq!(rg.upper, Color { r: 255, g: 15, b: 15 });
    assert_eq!(rg.representative, Color { r: 247, g: 7, b: 7 });
}

#[test]
fn oversized_step_is_clamped_to_sixty_four() {
    let ranges = generate_color_ranges(200);
    assert_eq!(ranges.len(), 4 * 4 * 4);
    assert_eq!(ranges[0].upper, Color { r: 63, g: 63, b: 63 });
    assert_eq!(ranges[63].lower, Color { r: 192, g: 192, b: 192 });
    assert_eq!(ranges[63].upper, Color { r: 255, g: 255, b: 255 });
}

#[test]
fn truncated_top_range_saturates_at_255() {
    // step 60: starts 0, 60, 120, 180, 240; the top range would end at 299
    // and is clamped to 255
    let ranges = generate_color_ranges(60);
    assert_eq!(ranges.len(), 5 * 5 * 5);
    let last = &ranges[124];
    assert_eq!(last.lower, Color { r: 240, g: 240, b: 240 });
    assert_eq!(last.upper, Color { r: 255, g: 255, b: 255 });
    assert_eq!(last.representative, Color { r: 247, g: 247, b: 247 });
}

#[test]
fn is_in_range_is_inclusive_on_both_corners() {
    let rg = ColorRange {
        lower: Color { r: 16, g: 32, b: 48 },
        upper: Color { r: 31, g: 47, b: 63 },
        representative: Color { r: 23, g: 39, b: 55 },
    };
    assert!(is_in_range(&Color { r: 16, g: 32, b: 48 }, &rg));
    assert!(is_in_range(&Color { r: 31, g: 47, b: 63 }, &rg));
    assert!(is_in_range(&Color { r: 20, g: 40, b: 60 }, &rg));
    assert!(!is_in_range(&Color { r: 15, g: 32, b: 48 }, &rg));
    assert!(!is_in_range(&Color { r: 16, g: 48, b: 48 }, &rg));
    assert!(!is_in_range(&Color { r: 16, g: 32, b: 64 }, &rg));
}

#[test]
fn no_match_returns_none() {
    // an artificial list that misses part of the cube
    let ranges = vec![ColorRange {
        lower: Color { r: 0, g: 0, b: 0 },
        upper: Color { r: 15, g: 15, b: 15 },
        representative: Color { r: 7, g: 7, b: 7 },
    }];
    assert!(find_representative_color(&Color { r: 200, g: 0, b: 0 }, &ranges).is_none());
}
