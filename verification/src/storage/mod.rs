use crate::common::{PageId, PAGE_SIZE};
use vstd::prelude::*;

pub mod disk_manager;

verus! {

/// What a frame holds: the page it caches, the page's bytes, and the
/// bookkeeping of the buffer pool.
pub struct PageView {
    /// The page held, or `None` where the frame is unused.
    pub id: Option<PageId>,
    /// The bytes of the page.
    pub data: Seq<u8>,
    /// The number of callers that hold the page.
    pub pin_count: nat,
    /// The bytes in memory may differ from those on disk.
    pub is_dirty: bool,
}

impl PageView {
    /// An unused frame: no page, zeroed bytes, not pinned, clean.
    pub open spec fn unused() -> PageView {
        PageView { id: None, data: zeroes(), pin_count: 0, is_dirty: false }
    }

    /// A page as it stands right after a caller obtained it: zeroed bytes,
    /// pinned once, clean.
    pub open spec fn installed(page_id: PageId) -> PageView {
        PageView { id: Some(page_id), data: zeroes(), pin_count: 1, is_dirty: false }
    }
}

/// `PAGE_SIZE` bytes of zero.
pub open spec fn zeroes() -> Seq<u8> {
    Seq::new(PAGE_SIZE as nat, |i: int| 0u8)
}

/// The contents of one frame of the buffer pool.
pub struct Page {
    id: Option<PageId>,
    data: Vec<u8>,
    pin_count: usize,
    is_dirty: bool,
}

impl View for Page {
    type V = PageView;

    closed spec fn view(&self) -> PageView {
        PageView {
            id: self.id,
            data: self.data@,
            pin_count: self.pin_count as nat,
            is_dirty: self.is_dirty,
        }
    }
}

impl Page {
    /// Creates an unused frame.
    pub fn new() -> (page: Self)
        ensures
            page@ == PageView::unused(),
    {
        let page = Page { id: None, data: vec![0u8; PAGE_SIZE], pin_count: 0, is_dirty: false };
        assert(page@.data =~= zeroes());
        page
    }

    /// Records which page the frame holds.
    pub fn set_page_id(&mut self, id: PageId)
        ensures
            final(self)@ == (PageView { id: Some(id), ..old(self)@ }),
    {
        self.id = Some(id);
    }

    /// Records that the frame holds no page.
    pub fn invalidate_page_id(&mut self)
        ensures
            final(self)@ == (PageView { id: None, ..old(self)@ }),
    {
        self.id = None;
    }

    /// The page that the frame holds, if any.
    pub fn get_page_id(&self) -> (id: Option<PageId>)
        ensures
            id == self@.id,
    {
        self.id
    }

    /// The bytes of the page.
    pub fn data(&self) -> (data: &Vec<u8>)
        ensures
            data@ == self@.data,
    {
        &self.data
    }

    /// The number of callers that hold the page.
    pub fn pin_count(&self) -> (pin_count: usize)
        ensures
            pin_count == self@.pin_count,
    {
        self.pin_count
    }

    /// Whether the bytes in memory may differ from those on disk.
    pub fn is_dirty(&self) -> (is_dirty: bool)
        ensures
            is_dirty == self@.is_dirty,
    {
        self.is_dirty
    }

    /// Replaces the bookkeeping of the frame and keeps its bytes.
    pub(crate) fn set_state(&mut self, id: Option<PageId>, pin_count: usize, is_dirty: bool)
        ensures
            final(self)@ == (PageView {
                id,
                pin_count: pin_count as nat,
                is_dirty,
                data: old(self)@.data,
            }),
    {
        self.id = id;
        self.pin_count = pin_count;
        self.is_dirty = is_dirty;
    }

    /// Replaces the bytes of the frame and returns those it held.
    pub(crate) fn replace_data(&mut self, data: Vec<u8>) -> (previous: Vec<u8>)
        ensures
            previous@ == old(self)@.data,
            final(self)@ == (PageView { data: data@, ..old(self)@ }),
    {
        let mut data = data;
        std::mem::swap(&mut self.data, &mut data);
        data
    }
}

} // verus!
