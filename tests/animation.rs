use ascii_art::config::AsciiConfig;
use ascii_art::frames::{first_frame, next_frame, restore_frame_order, Frame, GifAsciiHandler, PlaybackCursor};
use ascii_art::raster::{Image, Rgb};

fn frame(v: u8, delay_ms: u64) -> Frame {
    Frame { image: Image::solid(4, 4, Rgb { r: v, g: v, b: v }), delay_ms }
}

fn small_config() -> AsciiConfig {
    let mut c = AsciiConfig::default();
    c.width = 2;
    c.height = 2;
    c
}

#[test]
fn every_frame_converted_with_its_delay() {
    let frames = vec![frame(0, 10), frame(255, 20), frame(128, 30)];
    let handler = GifAsciiHandler::new(small_config());
    let (texts, delays) = handler.gif_to_ascii(&frames).unwrap();
    assert_eq!(texts.len(), 3);
    assert_eq!(delays, vec![10, 20, 30]);
    assert_eq!(texts[0], "  \n  \n");
    assert_eq!(texts[1], "$$\n$$\n");
}

#[test]
fn no_frames_no_output() {
    let handler = GifAsciiHandler::new(small_config());
    let (texts, delays) = handler.gif_to_ascii(&Vec::new()).unwrap();
    assert!(texts.is_empty());
    assert!(delays.is_empty());
}

#[test]
fn restore_undoes_any_finishing_order() {
    let delays = vec![40u64, 50, 60, 70];
    let indexed = vec![(2usize, "c"), (0, "a"), (3, "d"), (1, "b")];
    let restored = restore_frame_order(indexed, &delays).unwrap();
    assert_eq!(restored, vec![("a", 40), ("b", 50), ("c", 60), ("d", 70)]);
}

#[test]
fn restore_refuses_missing_or_repeated_indices() {
    let delays = vec![1u64, 2, 3];
    assert!(restore_frame_order(vec![(0usize, 'a'), (0, 'b'), (2, 'c')], &delays).is_none());
    assert!(restore_frame_order(vec![(0usize, 'a'), (1, 'b'), (3, 'c')], &delays).is_none());
    assert!(restore_frame_order(vec![(0usize, 'a'), (1, 'b')], &delays).is_none());
}

#[test]
fn playback_counts_passes() {
    let c = first_frame(2, Some(2)).unwrap();
    assert_eq!(c, PlaybackCursor { pass: 0, frame: 0 });
    let c = next_frame(c, 2, Some(2)).unwrap();
    assert_eq!(c, PlaybackCursor { pass: 0, frame: 1 });
    let c = next_frame(c, 2, Some(2)).unwrap();
    assert_eq!(c, PlaybackCursor { pass: 1, frame: 0 });
    let c = next_frame(c, 2, Some(2)).unwrap();
    assert_eq!(next_frame(c, 2, Some(2)), None);
}

#[test]
fn playback_without_count_loops() {
    let c = PlaybackCursor { pass: 0, frame: 2 };
    assert_eq!(next_frame(c, 3, None), Some(PlaybackCursor { pass: 0, frame: 0 }));
    assert_eq!(first_frame(0, None), None);
    assert_eq!(first_frame(3, Some(0)), None);
}
