use screen_streamer::capture::DamageRegion;
use screen_streamer::screencopy::{
    has_linear, modifier, portal_to_rgba, rest_of, to_rgba, CaptureLoop, CopyEvent, DmaShape,
    Progress, ShmShape, Step, DRM_FORMAT_ABGR8888, DRM_FORMAT_ARGB8888, DRM_FORMAT_XBGR8888,
    DRM_FORMAT_XRGB8888, SPA_VIDEO_FORMAT_RGBA,
};

const SHM: ShmShape = ShmShape { width: 4, height: 2, stride: 16, format: Some(1) };
const DMA: DmaShape = DmaShape { width: 4, height: 2, format: DRM_FORMAT_XRGB8888 };

fn shm_event() -> CopyEvent {
    CopyEvent::Buffer { format: Some(1), width: 4, height: 2, stride: 16 }
}

fn dma_event() -> CopyEvent {
    CopyEvent::LinuxDmabuf { format: DRM_FORMAT_XRGB8888, width: 4, height: 2 }
}

/// Asks for a frame and waits for the first events.
fn ask(c: &mut CaptureLoop) {
    assert_eq!(c.next(Progress::Tick { stop: false }), Step::Request);
    assert_eq!(c.next(Progress::Moved), Step::Dispatch);
}

#[test]
fn pixels_are_converted_by_their_format() {
    let bgrx = [1u8, 2, 3, 4];
    let mut dst = vec![9u8; 40];
    for format in [DRM_FORMAT_XRGB8888, DRM_FORMAT_ARGB8888, 0] {
        to_rgba(&bgrx, format, 1, 1, &mut dst);
        assert_eq!(dst, [3, 2, 1, 255]);
    }
    to_rgba(&bgrx, DRM_FORMAT_ABGR8888, 1, 1, &mut dst);
    assert_eq!(dst, [1, 2, 3, 4]);
    to_rgba(&[1, 2, 3, 4, 5, 6, 7, 8, 9], DRM_FORMAT_XBGR8888, 1, 1, &mut dst);
    assert_eq!(dst, [1, 2, 3, 255, 5, 6, 7, 255, 9]);
    portal_to_rgba(&bgrx, SPA_VIDEO_FORMAT_RGBA, 1, 1, &mut dst);
    assert_eq!(dst, [1, 2, 3, 4]);
    portal_to_rgba(&bgrx, 8, 1, 1, &mut dst);
    assert_eq!(dst, [3, 2, 1, 255]);
}

#[test]
fn only_linear_buffers_are_made() {
    assert_eq!(modifier(1, 2), 0x1_0000_0002);
    assert!(has_linear(&vec![(1, 5), (2, 0)], 2));
    assert!(!has_linear(&vec![(1, 5), (2, 0)], 1));
    assert!(!has_linear(&vec![], 1));
}

#[test]
fn shared_memory_is_used_without_a_graphics_card() {
    let mut c = CaptureLoop::new(false, false, vec![]);
    ask(&mut c);
    assert_eq!(c.next(Progress::Moved), Step::Dispatch, "nothing is known yet");
    c.note(shm_event());
    c.note(CopyEvent::Damage(DamageRegion { x: 1, y: 2, width: 3, height: 4 }));
    assert_eq!(c.next(Progress::Moved), Step::MakeShm(SHM));
    assert_eq!(c.next(Progress::Made { ok: true }), Step::CopyShm);
    assert_eq!(c.next(Progress::Moved), Step::Dispatch);
    c.note(CopyEvent::Ready);
    assert_eq!(c.next(Progress::Moved), Step::DeliverShm(SHM));
    let damage = c.take_damage();
    assert_eq!((damage.len(), damage[0].x, damage[0].height), (1, 1, 4));
    assert_eq!(c.next(Progress::Sent), Step::Rest);
    // The buffer serves the next frame of the same size.
    ask(&mut c);
    c.note(shm_event());
    assert_eq!(c.next(Progress::Moved), Step::CopyShm);
    assert!(c.take_damage().is_empty());
}

#[test]
fn a_graphics_card_buffer_is_preferred() {
    let mut c = CaptureLoop::new(true, true, vec![(DRM_FORMAT_XRGB8888, 0)]);
    ask(&mut c);
    c.note(shm_event());
    assert_eq!(c.next(Progress::Moved), Step::Dispatch, "more buffers may be named");
    c.note(dma_event());
    c.note(CopyEvent::BufferDone);
    assert_eq!(c.next(Progress::Moved), Step::MakeDma(DMA));
    assert_eq!(c.next(Progress::Made { ok: true }), Step::CopyDma);
    c.note(CopyEvent::Ready);
    assert_eq!(c.next(Progress::Moved), Step::DeliverDma(DMA));
    assert_eq!(c.next(Progress::ConsumerGone), Step::FailConsumer);
    assert_eq!(c.next(Progress::Tick { stop: false }), Step::Finish);
}

#[test]
fn a_rejected_card_buffer_falls_back_to_shared_memory() {
    let mut c = CaptureLoop::new(true, true, vec![(DRM_FORMAT_XRGB8888, 0)]);
    ask(&mut c);
    c.note(dma_event());
    c.note(CopyEvent::BufferDone);
    c.next(Progress::Moved);
    c.next(Progress::Made { ok: true });
    c.note(CopyEvent::Failed);
    assert_eq!(c.next(Progress::Moved), Step::RequestAgain);
    assert_eq!(c.next(Progress::Moved), Step::Dispatch);
    c.note(shm_event());
    c.note(dma_event());
    c.note(CopyEvent::BufferDone);
    assert_eq!(c.next(Progress::Moved), Step::MakeShm(SHM));
}

#[test]
fn a_card_buffer_that_cannot_be_made_falls_back_at_once() {
    let mut c = CaptureLoop::new(true, true, vec![(DRM_FORMAT_XRGB8888, 0)]);
    ask(&mut c);
    c.note(shm_event());
    c.note(dma_event());
    c.note(CopyEvent::BufferDone);
    c.next(Progress::Moved);
    assert_eq!(c.next(Progress::Made { ok: false }), Step::MakeShm(SHM));
}

#[test]
fn a_frame_without_a_usable_buffer_is_skipped() {
    let mut c = CaptureLoop::new(false, true, vec![]);
    ask(&mut c);
    c.note(CopyEvent::Buffer { format: None, width: 4, height: 2, stride: 16 });
    c.note(CopyEvent::BufferDone);
    assert_eq!(c.next(Progress::Moved), Step::Skip);
    assert_eq!(c.next(Progress::Tick { stop: true }), Step::Finish);
}

#[test]
fn a_failed_frame_ends_the_capture() {
    let mut c = CaptureLoop::new(false, false, vec![]);
    ask(&mut c);
    c.note(CopyEvent::Failed);
    assert_eq!(c.next(Progress::Moved), Step::FailFrame);
    let mut c = CaptureLoop::new(false, false, vec![]);
    ask(&mut c);
    c.note(shm_event());
    c.next(Progress::Moved);
    c.next(Progress::Made { ok: true });
    c.note(CopyEvent::Ready);
    c.note(CopyEvent::Failed);
    assert_eq!(c.next(Progress::Moved), Step::FailFrame);
}

#[test]
fn what_is_left_of_a_frame_is_slept() {
    assert_eq!(rest_of(16, 5), Some(11));
    assert_eq!(rest_of(16, 16), None);
    assert_eq!(rest_of(16, 90), None);
}
