use jpegblit::compositor::{composite_tile, TileGeometry, NATIVE_BPP};
use jpegblit::demo::DemoLoop;
use jpegblit::pixels::pixels_to_le_bytes;
use jpegblit::placement::{pick_origin, Extent};
use jpegblit::session::{DecodeOutcome, DecodeSession, SessionAction, SessionEvent, SessionStage};

fn tile(x: usize, y: usize, width: usize, height: usize) -> TileGeometry {
    TileGeometry::new(x, y, width, height, NATIVE_BPP)
}

#[test]
fn tile_lands_at_image_stride() {
    let mut frame = [0u16; 16];
    composite_tile(&mut frame, 4, tile(1, 1, 2, 2), &[1, 2, 3, 4]);
    let expected: [u16; 16] = [0, 0, 0, 0, 0, 1, 2, 0, 0, 3, 4, 0, 0, 0, 0, 0];
    assert_eq!(frame, expected);
}

#[test]
fn narrow_tile_uses_full_width_not_tile_width() {
    let mut frame = [9u16; 12];
    composite_tile(&mut frame, 4, tile(3, 0, 1, 3), &[5, 6, 7]);
    let expected: [u16; 12] = [9, 9, 9, 5, 9, 9, 9, 6, 9, 9, 9, 7];
    assert_eq!(frame, expected);
}

#[test]
fn tiles_fill_the_image_in_pieces() {
    let mut frame = [0u16; 8];
    composite_tile(&mut frame, 4, tile(0, 0, 2, 2), &[1, 2, 5, 6]);
    composite_tile(&mut frame, 4, tile(2, 0, 2, 2), &[3, 4, 7, 8]);
    assert_eq!(frame, [1, 2, 3, 4, 5, 6, 7, 8]);
}

#[test]
fn out_of_bounds_stops_the_tile() {
    let mut frame = [0u16; 4];
    composite_tile(&mut frame, 2, tile(0, 1, 2, 2), &[1, 2, 3, 4]);
    assert_eq!(frame, [0, 0, 1, 2]);
}

#[test]
fn out_of_bounds_does_not_resume_later_in_tile() {
    // Pixel 2 is past the end; pixel 3 would fall back inside at offset 1,
    // but the tile is abandoned at the first offset out of bounds.
    let mut frame = [0u16; 2];
    composite_tile(&mut frame, 1, tile(0, 0, 3, 2), &[1, 2, 3, 4, 5, 6]);
    assert_eq!(frame, [1, 2]);
}

#[test]
fn huge_origin_writes_nothing() {
    let mut frame = [7u16; 4];
    composite_tile(&mut frame, 2, tile(usize::MAX, 0, 1, 1), &[1]);
    assert_eq!(frame, [7, 7, 7, 7]);
    composite_tile(&mut frame, 2, tile(0, usize::MAX, 1, 1), &[1]);
    assert_eq!(frame, [7, 7, 7, 7]);
    composite_tile(&mut frame, usize::MAX, tile(0, 1, 1, 1), &[1]);
    assert_eq!(frame, [7, 7, 7, 7]);
}

#[test]
fn empty_tile_writes_nothing() {
    let mut frame = [7u16; 4];
    composite_tile(&mut frame, 2, tile(0, 0, 0, 5), &[]);
    assert_eq!(frame, [7, 7, 7, 7]);
}

#[test]
fn other_depth_is_not_copied() {
    let mut frame = [7u16; 4];
    composite_tile(&mut frame, 2, TileGeometry::new(0, 0, 2, 2, 8), &[1, 2, 3, 4]);
    assert_eq!(frame, [7, 7, 7, 7]);
}

#[test]
fn pixels_become_little_endian_bytes() {
    let mut out = [0u8; 6];
    pixels_to_le_bytes(&[0x1234, 0xABCD, 0x00FF], &mut out);
    assert_eq!(out, [0x34, 0x12, 0xCD, 0xAB, 0xFF, 0x00]);
}

#[test]
fn placement_keeps_image_on_display() {
    let display = Extent::new(128, 128);
    let image = Extent::new(64, 64);
    let mut rng = oorandom::Rand32::new(0);
    let mut nonzero = false;
    for _ in 0..1000 {
        let p = pick_origin(&mut rng, display, image);
        assert!(p.x + image.width <= display.width);
        assert!(p.y + image.height <= display.height);
        assert!(p.x < 64 && p.y < 64);
        if p.x != 0 || p.y != 0 {
            nonzero = true;
        }
    }
    assert!(nonzero);
}

#[test]
fn placement_with_one_free_column() {
    let display = Extent::new(65, 70);
    let image = Extent::new(64, 64);
    let mut rng = oorandom::Rand32::new(3);
    for _ in 0..100 {
        let p = pick_origin(&mut rng, display, image);
        assert_eq!(p.x, 0);
        assert!(p.y < 6);
    }
}

#[test]
fn demo_loop_places_inside_display() {
    let mut demo = DemoLoop::new(0, Extent::new(128, 128), Extent::new(64, 64));
    for _ in 0..1000 {
        let p = demo.place_frame();
        assert!(p.x + 64 <= 128 && p.y + 64 <= 128);
    }
}

#[test]
fn led_follows_iteration_parity() {
    let mut demo = DemoLoop::new(0, Extent::new(128, 128), Extent::new(64, 64));
    assert!(!demo.led_on);
    for n in 1..=11u32 {
        let on = demo.finish_iteration();
        assert_eq!(on, n % 2 == 1);
        assert_eq!(demo.led_on, n % 2 == 1);
    }
}

#[test]
fn failed_open_leaves_frame_untouched() {
    let mut frame = [0x1111u16; 4];
    let mut s = DecodeSession::start();
    assert_eq!(s.handle(SessionEvent::OpenReturned(0)), SessionAction::Close);
    s.deliver_tile(&mut frame, 2, tile(0, 0, 2, 2), &[1, 2, 3, 4]);
    assert_eq!(s.handle(SessionEvent::DecodeReturned(1)), SessionAction::Ignore);
    assert_eq!(
        s.handle(SessionEvent::Closed),
        SessionAction::Report(DecodeOutcome::OpenFailed)
    );
    s.deliver_tile(&mut frame, 2, tile(0, 0, 2, 2), &[1, 2, 3, 4]);
    assert_eq!(frame, [0x1111; 4]);
    assert_eq!(s.outcome(), Some(DecodeOutcome::OpenFailed));
}

#[test]
fn failed_decode_keeps_tiles_already_delivered() {
    let mut frame = [0u16; 4];
    let mut s = DecodeSession::start();
    assert_eq!(s.handle(SessionEvent::OpenReturned(1)), SessionAction::Decode);
    s.deliver_tile(&mut frame, 2, tile(0, 0, 2, 1), &[5, 6]);
    assert_eq!(s.handle(SessionEvent::DecodeReturned(0)), SessionAction::Close);
    assert_eq!(s.stage, SessionStage::Closing(DecodeOutcome::DecodeFailed));
    s.deliver_tile(&mut frame, 2, tile(0, 1, 2, 1), &[7, 8]);
    assert_eq!(s.outcome(), None);
    assert_eq!(
        s.handle(SessionEvent::Closed),
        SessionAction::Report(DecodeOutcome::DecodeFailed)
    );
    assert_eq!(frame, [5, 6, 0, 0]);
}

#[test]
fn full_decode_round_trip() {
    let mut frame = [0x5555u16; 4];
    let mut s = DecodeSession::start();
    assert_eq!(s.stage, SessionStage::Opening);
    assert!(!s.accepts_tiles());
    assert_eq!(s.handle(SessionEvent::OpenReturned(1)), SessionAction::Decode);
    assert!(s.accepts_tiles());
    s.deliver_tile(&mut frame, 2, tile(0, 0, 2, 2), &[0x0000, 0xFFFF, 0x00FF, 0xFF00]);
    assert_eq!(s.handle(SessionEvent::DecodeReturned(1)), SessionAction::Close);
    assert_eq!(
        s.handle(SessionEvent::Closed),
        SessionAction::Report(DecodeOutcome::Success)
    );
    assert_eq!(s.outcome(), Some(DecodeOutcome::Success));
    assert_eq!(frame, [0x0000, 0xFFFF, 0x00FF, 0xFF00]);
}

#[test]
fn stray_events_are_ignored() {
    let mut s = DecodeSession::start();
    assert_eq!(s.handle(SessionEvent::Closed), SessionAction::Ignore);
    assert_eq!(s.handle(SessionEvent::DecodeReturned(1)), SessionAction::Ignore);
    assert_eq!(s.stage, SessionStage::Opening);
    assert_eq!(s.handle(SessionEvent::OpenReturned(-3)), SessionAction::Decode);
    assert_eq!(s.handle(SessionEvent::OpenReturned(0)), SessionAction::Ignore);
    assert_eq!(s.stage, SessionStage::Decoding);
}

#[test]
fn placement_draws_x_then_y_from_generator() {
    let display = Extent::new(128, 100);
    let image = Extent::new(64, 64);
    let mut rng = oorandom::Rand32::new(42);
    let mut reference = oorandom::Rand32::new(42);
    for _ in 0..50 {
        let p = pick_origin(&mut rng, display, image);
        let x = reference.rand_range(0..64);
        let y = reference.rand_range(0..36);
        assert_eq!((p.x, p.y), (x, y));
        assert_eq!(rng, reference);
    }
}

#[test]
fn demo_loop_is_seeded_with_its_seed() {
    let mut demo = DemoLoop::new(7, Extent::new(128, 128), Extent::new(64, 64));
    assert_eq!(demo.rng, oorandom::Rand32::new(7));
    let mut reference = oorandom::Rand32::new(7);
    let p = demo.place_frame();
    assert_eq!(p.x, reference.rand_range(0..64));
    assert_eq!(p.y, reference.rand_range(0..64));
    let other = DemoLoop::new(8, Extent::new(128, 128), Extent::new(64, 64));
    assert_ne!(other.rng, oorandom::Rand32::new(7));
}

#[test]
fn redelivered_prefix_leaves_decoded_frame_identical() {
    let left: [u16; 4] = [1, 2, 5, 6];
    let right: [u16; 4] = [3, 4, 7, 8];
    let mut frame = [0u16; 8];
    let mut s = DecodeSession::start();
    s.handle(SessionEvent::OpenReturned(1));
    s.deliver_tile(&mut frame, 4, tile(0, 0, 2, 2), &left);
    s.deliver_tile(&mut frame, 4, tile(2, 0, 2, 2), &right);
    s.handle(SessionEvent::DecodeReturned(1));
    s.handle(SessionEvent::Closed);
    let decoded = frame;
    let mut again = DecodeSession::start();
    again.handle(SessionEvent::OpenReturned(1));
    again.deliver_tile(&mut frame, 4, tile(0, 0, 2, 2), &left);
    assert_eq!(again.handle(SessionEvent::DecodeReturned(0)), SessionAction::Close);
    again.handle(SessionEvent::Closed);
    assert_eq!(again.outcome(), Some(DecodeOutcome::DecodeFailed));
    assert_eq!(frame, decoded);
}
