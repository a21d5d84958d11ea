use screen_streamer::capture::DamageRegion;
use screen_streamer::frame::Frame;

#[test]
fn new_stores_all_fields_unchanged() {
    let regions = vec![DamageRegion { x: 0, y: 0, width: 5, height: 5 }];
    let frame = Frame::new(vec![1, 2, 3, 4], 10, 20, regions);
    assert_eq!(frame.rgba, vec![1, 2, 3, 4]);
    assert_eq!(frame.width, 10);
    assert_eq!(frame.height, 20);
    assert_eq!(frame.damage_regions.len(), 1);
}

#[test]
fn only_whole_frames_of_sixteen_bit_sides_are_streamable() {
    let frame = |len: usize, width, height| Frame::new(vec![0; len], width, height, vec![]);
    assert!(frame(24, 3, 2).is_streamable());
    assert!(frame(25, 3, 2).is_streamable());
    assert!(!frame(23, 3, 2).is_streamable());
    assert!(!frame(8, 0, 2).is_streamable());
    assert!(!frame(8, 2, 0).is_streamable());
    assert!(!frame(0x10000 * 4, 0x10000, 1).is_streamable());
    assert!(!frame(8, 0xffff, 0xffff).is_streamable());
}
