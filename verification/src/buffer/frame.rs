//! Buffer frame: a single cached page with pin counting and dirty tracking.
//!
//! Each frame holds one page's data in memory along with metadata for the LRU
//! eviction policy (pin count, dirty flag, access counter).

use vstd::prelude::*;

use crate::bytes::zeros;
use crate::page::{Page, PAGE_SIZE};

verus! {

/// A single frame in the buffer pool, holding one cached page.
///
/// - `pin_count > 0` → frame cannot be evicted
/// - `dirty == true` → frame must be flushed before eviction
/// - `page_id == None` → frame is free (available for loading a new page)
#[derive(Debug)]
pub struct BufferFrame {
    /// Raw page data (8 KiB).
    pub data: Page,
    /// Which page is loaded in this frame (`None` = free frame).
    pub page_id: Option<u32>,
    /// Number of active references. Must reach 0 before eviction.
    pub pin_count: u32,
    /// Whether the page has been modified since it was loaded.
    pub dirty: bool,
    /// Monotonic counter for LRU ordering (higher = more recently accessed).
    pub last_accessed: u64,
}

impl BufferFrame {
    /// Creates a new empty (free) frame.
    pub fn new() -> (r: Self)
        ensures
            r.data@ == zeros(8192),
            r.page_id is None,
            r.pin_count == 0,
            !r.dirty,
            r.last_accessed == 0,
    {
        let data: Page = [0u8;PAGE_SIZE];
        assert(data@ =~= zeros(8192));
        BufferFrame { data, page_id: None, pin_count: 0, dirty: false, last_accessed: 0 }
    }

    /// Pins the frame (increments reference count).
    pub fn pin(&mut self)
        requires
            old(self).pin_count < u32::MAX,
        ensures
            *final(self) == (BufferFrame {
                pin_count: (old(self).pin_count + 1) as u32,
                ..*old(self)
            }),
    {
        self.pin_count = self.pin_count + 1;
    }

    /// Unpins the frame (decrements reference count). Optionally marks dirty.
    pub fn unpin(&mut self, dirty: bool)
        requires
            old(self).pin_count > 0,
        ensures
            *final(self) == (BufferFrame {
                pin_count: (old(self).pin_count - 1) as u32,
                dirty: old(self).dirty || dirty,
                ..*old(self)
            }),
    {
        self.pin_count = self.pin_count - 1;
        if dirty {
            self.dirty = true;
        }
    }

    /// Returns true if the frame is pinned (cannot be evicted).
    pub fn is_pinned(&self) -> (r: bool)
        ensures
            r == (self.pin_count > 0),
    {
        self.pin_count > 0
    }

    /// Returns true if the frame is free (no page loaded).
    pub fn is_free(&self) -> (r: bool)
        ensures
            r == (self.page_id is None),
    {
        self.page_id.is_none()
    }

    /// Resets the frame to a free state.
    pub fn reset(&mut self)
        ensures
            *final(self) == (BufferFrame {
                page_id: None,
                pin_count: 0,
                dirty: false,
                last_accessed: 0,
                ..*old(self)
            }),
    {
        self.page_id = None;
        self.pin_count = 0;
        self.dirty = false;
        self.last_accessed = 0;
    }
}

impl Default for BufferFrame {
    fn default() -> (r: Self)
        ensures
            r.data@ == zeros(8192),
            r.page_id is None,
            r.pin_count == 0,
            !r.dirty,
            r.last_accessed == 0,
    {
        BufferFrame::new()
    }
}

} // verus!
