use screen_streamer::pictures::{
    apply_change, create_variant, generate_realistic_tile, generate_scenario_frame,
    generate_test_frame, generate_test_tile, generate_tile_data, Alteration, Extent, Pattern,
    Scenario,
};

fn pixel(rgba: &[u8], width: usize, x: usize, y: usize) -> &[u8] {
    &rgba[(y * width + x) * 4..][..4]
}

#[test]
fn a_scenario_changes_only_its_areas() {
    let f = generate_scenario_frame(1920, 1080, 3, Scenario::Static);
    assert_eq!(f.len(), 1920 * 1080 * 4);
    assert_eq!(pixel(&f, 1920, 0, 0), [100; 4]);
    assert_eq!(pixel(&f, 1920, 1700, 50), [51, 200, 69, 255]);
    assert_eq!(pixel(&f, 1920, 1899, 79), [51, 200, 69, 255]);
    assert_eq!(pixel(&f, 1920, 1900, 79), [100; 4]);
    assert_eq!(pixel(&f, 1920, 1700, 80), [100; 4]);
}

#[test]
fn each_scenario_has_its_colours() {
    let f = generate_scenario_frame(1920, 1080, 2, Scenario::Moderate);
    assert_eq!(
        pixel(&f, 1920, 250, 310),
        [((250 + 310 + 2) % 256) as u8, 60, ((250 * 310 + 6) % 256) as u8, 255]
    );
    let f = generate_scenario_frame(1920, 1080, 2, Scenario::Active);
    assert_eq!(
        pixel(&f, 1920, 300, 100),
        [((300 + 100 + 10) % 256) as u8, ((600 + 10) % 256) as u8, 100, 255]
    );
    let f = generate_scenario_frame(1920, 1080, 2, Scenario::Video);
    assert_eq!(pixel(&f, 1920, 639, 300), [100; 4]);
    assert_eq!(
        pixel(&f, 1920, 640, 300),
        [((640 + 300 + 14) % 256) as u8, ((1280 + 22) % 256) as u8, ((600 + 26) % 256) as u8, 255]
    );
}

#[test]
fn typed_text_may_go_beyond_the_screen() {
    let f = generate_scenario_frame(210, 305, 0, Scenario::Moderate);
    assert_eq!(pixel(&f, 210, 199, 304), [100; 4]);
    assert_eq!(pixel(&f, 210, 209, 304)[1], 60);
}

#[test]
fn a_test_frame_has_as_many_changes_as_asked_for() {
    let f = generate_test_frame(4, 4, 0, 2);
    assert_eq!(f[..8], [0, 0, 0, 255, 1, 1, 1, 255]);
    assert!(f[8..].iter().all(|&b| b == 100));
    let f = generate_test_frame(4, 1, 1, 3);
    // The third change would reach beyond the end.
    assert_eq!(f[7..15], [1, 2, 3, 255, 2, 3, 4, 255]);
    assert_eq!(f[15], 100);
}

#[test]
fn tiles_are_altered_as_described() {
    let data = generate_tile_data(48, 48, 2);
    assert_eq!(data[..3], [26, 33, 40]);
    let differ = |a: Alteration| {
        let v = create_variant(&data, a);
        data.iter().zip(&v).filter(|(x, y)| x != y).count()
    };
    assert_eq!(differ(Alteration::OnePixel), 1);
    assert_eq!(differ(Alteration::TenPixels), 10);
    assert_eq!(differ(Alteration::Row), 48);
    assert_eq!(differ(Alteration::Half), data.len() / 8);
    assert_eq!(differ(Alteration::Nothing), 0);
    assert_eq!(create_variant(&[1, 2], Alteration::OnePixel), [1, 2]);
    // Ten turns of one byte cancel each other.
    assert_eq!(create_variant(&[7, 2, 2, 2], Alteration::TenPixels), [7, 2, 2, 2]);
}

#[test]
fn patterns_are_exact() {
    let g = generate_test_tile(96, 54, Pattern::Gradient);
    assert_eq!(pixel(&g, 96, 48, 27), [127, 127, 128, 255]);
    let n = generate_test_tile(96, 54, Pattern::Noise);
    assert_eq!(n[4..8], [41, 61, 71, 255]);
    let t = generate_test_tile(96, 54, Pattern::Text);
    assert_eq!(pixel(&t, 96, 3, 11), [255; 4]);
    assert_eq!(pixel(&t, 96, 4, 0), [240, 240, 240, 255]);
    let r = generate_realistic_tile(48, 27, 250);
    assert_eq!(pixel(&r, 48, 7, 3), [1, 253, 4, 255]);
}

#[test]
fn changes_grow_with_their_extent() {
    let mut data = vec![255u8; 16];
    apply_change(&mut data, Extent::Small);
    assert_eq!(data[..2], [0, 255]);
    let mut data = vec![0u8; 16];
    apply_change(&mut data, Extent::Large);
    assert_eq!(data, [1, 0, 0, 0, 0, 0, 0, 0, 1, 0, 0, 0, 0, 0, 0, 0]);
    let mut data = vec![0u8; 2000];
    apply_change(&mut data, Extent::Medium);
    assert_eq!(data.iter().filter(|&&b| b == 1).count(), 10);
    let mut data = vec![0u8; 50];
    apply_change(&mut data, Extent::Medium);
    assert_eq!(data[0], 10, "all ten land on one byte");
}
