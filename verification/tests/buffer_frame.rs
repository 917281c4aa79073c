//! Frames of the buffer pool.

use grumpydb::buffer::frame::BufferFrame;

#[test]
fn test_frame_new_is_free() {
    let frame = BufferFrame::new();
    assert!(frame.is_free());
    assert!(!frame.is_pinned());
    assert!(!frame.dirty);
}

#[test]
fn test_frame_pin_unpin() {
    let mut frame = BufferFrame::new();
    frame.pin();
    assert!(frame.is_pinned());
    assert_eq!(frame.pin_count, 1);

    frame.pin();
    assert_eq!(frame.pin_count, 2);

    frame.unpin(false);
    assert_eq!(frame.pin_count, 1);
    assert!(frame.is_pinned());

    frame.unpin(false);
    assert!(!frame.is_pinned());
}

#[test]
fn test_frame_dirty_tracking() {
    let mut frame = BufferFrame::new();
    frame.pin();
    assert!(!frame.dirty);

    frame.unpin(true);
    assert!(frame.dirty);

    // Dirty flag persists even after re-pin
    frame.pin();
    frame.unpin(false);
    assert!(frame.dirty); // still dirty
}

#[test]
fn test_frame_reset() {
    let mut frame = BufferFrame::new();
    frame.page_id = Some(42);
    frame.pin();
    frame.dirty = true;
    frame.last_accessed = 100;

    frame.reset();
    assert!(frame.is_free());
    assert!(!frame.is_pinned());
    assert!(!frame.dirty);
    assert_eq!(frame.last_accessed, 0);
}
