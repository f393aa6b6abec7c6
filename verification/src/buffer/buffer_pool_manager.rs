use crate::buffer::Replacer;
use crate::common::{FrameId, PageId, PAGE_SIZE};
use crate::storage::{Page, PageView};
use std::collections::HashMap;
use vstd::prelude::*;

verus! {

/// The state of a buffer pool.
pub struct PoolView<R> {
    /// What each frame holds: frame `n` at index `n - 1`.
    pub frames: Seq<PageView>,
    /// The unused frames. The last one is the next to be taken.
    pub free_list: Seq<FrameId>,
    /// The frame of each page that the pool holds.
    pub page_table: Map<PageId, FrameId>,
    /// The state of the replacement policy.
    pub replacer: R,
    /// No page of the pool has an id from this number on, unless the numbers
    /// have run out (`usize::MAX`). New pages are numbered from here.
    pub next_page_id: nat,
}

impl<R> PoolView<R> {
    pub open spec fn capacity(self) -> nat {
        self.frames.len()
    }

    /// What frame `frame_id` holds.
    pub open spec fn frame(self, frame_id: FrameId) -> PageView {
        self.frames[frame_id.0 - 1]
    }

    /// The state of page `page_id`, for a page that the pool holds.
    pub open spec fn page(self, page_id: PageId) -> PageView {
        self.frame(self.page_table[page_id])
    }

    /// The pool with frame `frame_id` holding `page`.
    pub open spec fn with_frame(self, frame_id: FrameId, page: PageView) -> PoolView<R> {
        PoolView { frames: self.frames.update(frame_id.0 - 1, page), ..self }
    }
}

/// A page that left the buffer pool, or is to be written while it stays, with
/// bytes that the data file does not hold yet.
pub struct DirtyPage {
    pub page_id: PageId,
    pub data: Vec<u8>,
}

/// A page and the bytes that are to be written to the data file for it.
pub struct DirtyPageView {
    pub page_id: PageId,
    pub data: Seq<u8>,
}

impl View for DirtyPage {
    type V = DirtyPageView;

    open spec fn view(&self) -> DirtyPageView {
        DirtyPageView { page_id: self.page_id, data: self.data@ }
    }
}

/// The view of a page that may have been evicted.
pub open spec fn evicted_view(evicted: Option<DirtyPage>) -> Option<DirtyPageView> {
    match evicted {
        Some(page) => Some(page@),
        None => None,
    }
}

/// What `fetch_page` found.
pub enum FetchedPage {
    /// The pool held the page already and has pinned it once more. Nothing
    /// is to be read or written.
    Resident { frame_id: FrameId },
    /// The pool did not hold the page. The page now has a frame, pinned once
    /// and filled with zeroes. The caller owes two things, in this order: to
    /// write `evicted`, where there is one, to the data file, and to read the
    /// page from the data file and hand its bytes to `set_page_data`.
    Loading { frame_id: FrameId, evicted: Option<DirtyPage> },
    /// The page cannot be pinned: the pool does not hold it and has neither
    /// an unused frame nor a page that it may evict, or the page has been
    /// pinned `usize::MAX` times. Nothing has changed.
    Unavailable,
}

/// What `new_page` created: a page of zeroes in a frame of its own, pinned
/// once. Where `evicted` holds a page, the caller owes its write to the data
/// file.
pub struct NewPage {
    pub page_id: PageId,
    pub frame_id: FrameId,
    pub evicted: Option<DirtyPage>,
}

/// The buffer pool manager: a fixed number of frames, the table that says
/// which page is in which frame, the list of unused frames, and the
/// replacement policy that picks the page to give up when no frame is unused.
pub struct BufferPoolManagerInstance<T> where T: Replacer {
    replacer: T,
    pages: Vec<Page>,
    free_list: Vec<FrameId>,
    page_table: HashMap<usize, FrameId>,
    next_page_id: usize,
}

impl<T> View for BufferPoolManagerInstance<T> where T: Replacer {
    type V = PoolView<T::V>;

    closed spec fn view(&self) -> PoolView<T::V> {
        PoolView {
            frames: Seq::new(self.pages@.len(), |i: int| self.pages@[i]@),
            free_list: self.free_list@,
            page_table: Map::new(
                |page_id: PageId| self.page_table@.contains_key(page_id.0),
                |page_id: PageId| self.page_table@[page_id.0],
            ),
            replacer: self.replacer@,
            next_page_id: self.next_page_id as nat,
        }
    }
}

impl<T> BufferPoolManagerInstance<T> where T: Replacer {
    /// What holds of every buffer pool between two calls.
    pub open spec fn wf(view: PoolView<T::V>) -> bool {
        &&& Self::wf_free_list(view)
        &&& Self::wf_page_table(view)
        &&& Self::wf_replacer(view)
        &&& forall|i: int|
            0 <= i < view.frames.len() ==> {
                &&& (#[trigger] view.frames[i]).data.len() == PAGE_SIZE
                &&& view.frames[i].pin_count <= usize::MAX
                &&& view.frames[i].id is None ==> view.frames[i].pin_count == 0
                    && !view.frames[i].is_dirty
                &&& view.frames[i].id is Some ==> view.frames[i].id.unwrap().0 < view.next_page_id
                    || view.next_page_id == usize::MAX
            }
        &&& view.next_page_id <= usize::MAX
        &&& view.frames.len() <= usize::MAX
    }

    /// The free list holds the frames without a page, each of them once.
    pub open spec fn wf_free_list(view: PoolView<T::V>) -> bool {
        &&& forall|k: int|
            0 <= k < view.free_list.len() ==> 1 <= (#[trigger] view.free_list[k]).0
                <= view.frames.len() && view.frame(view.free_list[k]).id is None
        &&& forall|k: int, l: int|
            0 <= k < l < view.free_list.len() ==> (#[trigger] view.free_list[k])
                != #[trigger] view.free_list[l]
        &&& forall|i: int|
            0 <= i < view.frames.len() && (#[trigger] view.frames[i]).id is None
                ==> view.free_list.contains(FrameId((i + 1) as usize))
    }

    /// The page table holds the pages that some frame holds, each with its
    /// frame.
    pub open spec fn wf_page_table(view: PoolView<T::V>) -> bool {
        &&& forall|page_id: PageId| #[trigger]
            view.page_table.contains_key(page_id) ==> 1 <= view.page_table[page_id].0
                <= view.frames.len() && view.page(page_id).id == Some(page_id)
        &&& forall|i: int|
            0 <= i < view.frames.len() && (#[trigger] view.frames[i]).id is Some ==> {
                &&& view.page_table.contains_key(view.frames[i].id->0)
                &&& view.page_table[view.frames[i].id->0] == FrameId((i + 1) as usize)
            }
    }

    /// The replacer may evict the frames that hold a page nobody has pinned,
    /// and no others.
    pub open spec fn wf_replacer(view: PoolView<T::V>) -> bool {
        &&& T::capacity(view.replacer) == view.frames.len()
        &&& forall|frame_id: FrameId| #[trigger]
            T::evictable(view.replacer).contains(frame_id) <==> 1 <= frame_id.0
                <= view.frames.len() && view.frame(frame_id).id is Some && view.frame(
                frame_id,
            ).pin_count == 0
    }

    /// The representation invariant. Every pool that `new` returns has it and
    /// every operation keeps it.
    pub closed spec fn inv(&self) -> bool {
        &&& self.replacer.inv()
        &&& Self::wf(self@)
    }

    /// The state of a new pool of `pool_size` frames: every frame unused, the
    /// free list led by frame 1.
    pub open spec fn empty(pool_size: nat, replacer: T::V) -> PoolView<T::V> {
        PoolView {
            frames: Seq::new(pool_size, |i: int| PageView::unused()),
            free_list: Seq::new(pool_size, |k: int| FrameId((pool_size - k) as usize)),
            page_table: Map::empty(),
            replacer,
            next_page_id: 0,
        }
    }

    /// A pool that is in a state between two calls is well formed.
    pub proof fn lemma_inv_wf(&self)
        requires
            self.inv(),
        ensures
            Self::wf(self@),
    {
    }

    /// Creates a pool of `pool_size` unused frames over a replacer for as
    /// many frames, none of which is evictable.
    pub fn new(replacer: T, pool_size: usize) -> (pool: Self)
        requires
            replacer.inv(),
            T::capacity(replacer@) == pool_size,
            T::evictable(replacer@) =~= Set::empty(),
        ensures
            pool.inv(),
            pool@ == Self::empty(pool_size as nat, replacer@),
    {
        let mut pages: Vec<Page> = Vec::new();
        let mut free_list: Vec<FrameId> = Vec::new();
        let mut made: usize = 0;
        while made < pool_size
            invariant
                made <= pool_size,
                pages@.len() == made,
                free_list@.len() == made,
                forall|i: int| 0 <= i < made ==> (#[trigger] pages@[i])@ == PageView::unused(),
                forall|k: int|
                    0 <= k < made ==> #[trigger] free_list@[k] == FrameId((pool_size - k) as usize),
            decreases pool_size - made,
        {
            pages.push(Page::new());
            free_list.push(FrameId(pool_size - made));
            made = made + 1;
        }
        let pool = BufferPoolManagerInstance {
            replacer,
            pages,
            free_list,
            page_table: HashMap::new(),
            next_page_id: 0,
        };
        proof {
            let view = pool@;
            let empty = Self::empty(pool_size as nat, replacer@);
            assert(view.frames =~= empty.frames);
            assert(view.free_list =~= empty.free_list);
            assert(view.page_table =~= empty.page_table);
            assert forall|i: int|
                0 <= i < view.frames.len() && (#[trigger] view.frames[i]).id is None
                    implies view.free_list.contains(FrameId((i + 1) as usize)) by {
                assert(view.free_list[pool_size - (i + 1)] == FrameId((i + 1) as usize));
            }
        }
        pool
    }

    /// A page that the pool does not hold can be given a frame: one is
    /// unused, or some page may be evicted.
    pub open spec fn has_room(view: PoolView<T::V>) -> bool {
        view.free_list.len() > 0 || !T::evictable(view.replacer).is_empty()
    }

    /// The frame that the next page to enter is given, where there is room:
    /// the last of the free list or, with no frame unused, the victim that
    /// the replacer picks.
    pub open spec fn next_frame(view: PoolView<T::V>) -> FrameId {
        if view.free_list.len() > 0 {
            view.free_list.last()
        } else {
            T::victim_choice(view.replacer).unwrap()
        }
    }

    /// The page that leaves when the next page enters, where its bytes have
    /// changed since they were read or last written.
    pub open spec fn evicted(view: PoolView<T::V>) -> Option<DirtyPageView> {
        let leaving = view.frame(Self::next_frame(view));
        if leaving.id is Some && leaving.is_dirty {
            Some(DirtyPageView { page_id: leaving.id.unwrap(), data: leaving.data })
        } else {
            None
        }
    }

    /// The number from which new pages are numbered once page `page_id` is
    /// in the pool.
    pub open spec fn next_page_id_with(next_page_id: nat, page_id: PageId) -> nat {
        if page_id.0 < next_page_id {
            next_page_id
        } else if page_id.0 == usize::MAX {
            usize::MAX as nat
        } else {
            (page_id.0 + 1) as nat
        }
    }

    /// The pool after page `page_id` entered it: the page stands in the next
    /// frame, zeroed, pinned once and clean; the page that the frame held, if
    /// any, is gone from the page table.
    pub open spec fn after_install(view: PoolView<T::V>, page_id: PageId) -> PoolView<T::V> {
        let frame_id = Self::next_frame(view);
        PoolView {
            frames: view.frames.update(frame_id.0 - 1, PageView::installed(page_id)),
            free_list: if view.free_list.len() > 0 {
                view.free_list.drop_last()
            } else {
                view.free_list
            },
            page_table: (match view.frame(frame_id).id {
                Some(leaving) => view.page_table.remove(leaving),
                None => view.page_table,
            }).insert(page_id, frame_id),
            replacer: if view.free_list.len() > 0 {
                view.replacer
            } else {
                T::after_victim(view.replacer)
            },
            next_page_id: Self::next_page_id_with(view.next_page_id, page_id),
        }
    }

    proof fn lemma_install_wf(view: PoolView<T::V>, page_id: PageId)
        requires
            Self::wf(view),
            !view.page_table.contains_key(page_id),
            Self::has_room(view),
            view.free_list.len() == 0 ==> {
                let after = T::after_victim(view.replacer);
                &&& T::evictable(view.replacer).contains(Self::next_frame(view))
                &&& T::capacity(after) == T::capacity(view.replacer)
                &&& T::evictable(after) == T::evictable(view.replacer).remove(
                    Self::next_frame(view),
                )
            },
        ensures
            Self::wf(Self::after_install(view, page_id)),
    {
        let after = Self::after_install(view, page_id);
        let frame_id = Self::next_frame(view);
        let index = frame_id.0 - 1;
        assert(1 <= frame_id.0 <= view.frames.len());
        assert(FrameId((index + 1) as usize) == frame_id);
        assert forall|k: int| 0 <= k < after.free_list.len() implies 1 <= (
        #[trigger] after.free_list[k]).0 <= after.frames.len() && after.frame(
            after.free_list[k],
        ).id is None by {
            assert(after.free_list[k] == view.free_list[k]);
            assert(view.free_list[k] != view.free_list[view.free_list.len() - 1]);
        }
        assert forall|i: int|
            0 <= i < after.frames.len() && (#[trigger] after.frames[i]).id is None
                implies after.free_list.contains(FrameId((i + 1) as usize)) by {
            assert(view.frames[i].id is None);
            let k = choose|k: int|
                0 <= k < view.free_list.len() && view.free_list[k] == FrameId((i + 1) as usize);
            assert(after.free_list[k] == FrameId((i + 1) as usize));
        }
        assert forall|other: PageId| #[trigger]
            after.page_table.contains_key(other) implies 1 <= after.page_table[other].0
                <= after.frames.len() && after.page(other).id == Some(other) by {
            if other != page_id {
                assert(view.page_table.contains_key(other));
                assert(view.page(other).id == Some(other));
            }
        }
        assert forall|i: int|
            0 <= i < after.frames.len() && (#[trigger] after.frames[i]).id is Some implies {
                &&& after.page_table.contains_key(after.frames[i].id->0)
                &&& after.page_table[after.frames[i].id->0] == FrameId((i + 1) as usize)
            } by {
            if i != index {
                assert(view.frames[i].id is Some);
                assert(view.page_table[view.frames[i].id->0] == FrameId((i + 1) as usize));
            }
        }
        Self::lemma_replacer_follows(view, after, frame_id);
    }

    /// The number from which new pages are numbered once page `page_id` is
    /// in the pool.
    fn next_page_id_after(next_page_id: usize, page_id: PageId) -> (next: usize)
        ensures
            next == Self::next_page_id_with(next_page_id as nat, page_id),
    {
        if page_id.0 < next_page_id {
            next_page_id
        } else if page_id.0 == usize::MAX {
            usize::MAX
        } else {
            page_id.0 + 1
        }
    }

    /// Gives page `page_id`, which the pool does not hold, the next frame.
    fn install(&mut self, page_id: PageId) -> (installed: Option<(FrameId, Option<DirtyPage>)>)
        requires
            old(self).inv(),
            !old(self)@.page_table.contains_key(page_id),
        ensures
            final(self).inv(),
            match installed {
                Some((frame_id, evicted)) => {
                    &&& Self::has_room(old(self)@)
                    &&& frame_id == Self::next_frame(old(self)@)
                    &&& evicted_view(evicted) == Self::evicted(old(self)@)
                    &&& final(self)@ == Self::after_install(old(self)@, page_id)
                },
                None => !Self::has_room(old(self)@) && final(self)@ == old(self)@,
            },
    {
        let frame_id = match self.free_list.pop() {
            Some(frame_id) => frame_id,
            None => match self.replacer.victim() {
                Some(frame_id) => frame_id,
                None => {
                    assert(self@ == old(self)@);
                    return None;
                },
            },
        };
        proof {
            if old(self)@.free_list.len() > 0 {
                assert(old(self)@.free_list[old(self)@.free_list.len() - 1] == frame_id);
            }
            assert(frame_id == Self::next_frame(old(self)@));
            assert(1 <= frame_id.0 <= self.pages@.len());
        }
        let index: usize = frame_id.0 - 1;
        let leaving = self.pages[index].get_page_id();
        let was_dirty = self.pages[index].is_dirty();
        let data = self.pages[index].replace_data(vec![0u8; PAGE_SIZE]);
        let evicted = match leaving {
            Some(leaving_id) => {
                self.page_table.remove(&leaving_id.0);
                if was_dirty {
                    Some(DirtyPage { page_id: leaving_id, data })
                } else {
                    None
                }
            },
            None => None,
        };
        self.pages[index].set_state(Some(page_id), 1, false);
        self.page_table.insert(page_id.0, frame_id);
        self.next_page_id = Self::next_page_id_after(self.next_page_id, page_id);
        proof {
            let before = old(self)@;
            let after = Self::after_install(before, page_id);
            assert(before.frames[index as int] == old(self).pages@[index as int]@);
            assert(self@.frames[index as int].data =~= PageView::installed(page_id).data);
            assert(self@.frames =~= after.frames);
            assert(self@.free_list =~= after.free_list);
            assert(self@.page_table =~= after.page_table);
            assert(self@ == after);
            Self::lemma_install_wf(before, page_id);
        }
        Some((frame_id, evicted))
    }

    /// Pins a page for the caller.
    ///
    /// A page that the pool holds is pinned once more, and the replacer is
    /// told that its frame is in use. A page that the pool does not hold is
    /// given a frame: the last of the free list or, where no frame is unused,
    /// that of the victim which the replacer picks. The frame is then zeroed,
    /// pinned once and clean, and the caller owes the disk work that
    /// `FetchedPage::Loading` describes. Where no frame can be had the call
    /// fails at once and changes nothing.
    pub fn fetch_page(&mut self, page_id: PageId) -> (fetched: FetchedPage)
        requires
            old(self).inv(),
        ensures
            final(self).inv(),
            match fetched {
                FetchedPage::Resident { frame_id } => {
                    let page = old(self)@.page(page_id);
                    &&& old(self)@.page_table.contains_key(page_id)
                    &&& frame_id == old(self)@.page_table[page_id]
                    &&& page.pin_count < usize::MAX
                    &&& final(self)@ == (PoolView {
                        replacer: T::after_pin(old(self)@.replacer, frame_id),
                        ..old(self)@.with_frame(
                            frame_id,
                            PageView { pin_count: page.pin_count + 1, ..page },
                        )
                    })
                },
                FetchedPage::Loading { frame_id, evicted } => {
                    &&& !old(self)@.page_table.contains_key(page_id)
                    &&& Self::has_room(old(self)@)
                    &&& frame_id == Self::next_frame(old(self)@)
                    &&& evicted_view(evicted) == Self::evicted(old(self)@)
                    &&& final(self)@ == Self::after_install(old(self)@, page_id)
                },
                FetchedPage::Unavailable => {
                    &&& final(self)@ == old(self)@
                    &&& if old(self)@.page_table.contains_key(page_id) {
                        old(self)@.page(page_id).pin_count == usize::MAX
                    } else {
                        !Self::has_room(old(self)@)
                    }
                },
            },
    {
        match self.frame_of(page_id) {
            Some(frame_id) => {
                let index: usize = frame_id.0 - 1;
                let pin_count: usize = self.pages[index].pin_count();
                if pin_count == usize::MAX {
                    return FetchedPage::Unavailable;
                }
                let is_dirty = self.pages[index].is_dirty();
                self.pages[index].set_state(Some(page_id), pin_count + 1, is_dirty);
                self.replacer.pin(frame_id);
                proof {
                    let before = old(self)@;
                    let page = before.page(page_id);
                    let after = PoolView {
                        replacer: T::after_pin(before.replacer, frame_id),
                        ..before.with_frame(
                            frame_id,
                            PageView { pin_count: page.pin_count + 1, ..page },
                        )
                    };
                    assert(before.frames[index as int] == old(self).pages@[index as int]@);
                    assert(self@.frames =~= after.frames);
                    assert(self@.page_table =~= after.page_table);
                    assert(self@ == after);
                    Self::lemma_same_pages_wf(before, after);
                    Self::lemma_replacer_follows(before, after, frame_id);
                }
                FetchedPage::Resident { frame_id }
            },
            None => {
                match self.install(page_id) {
                    Some((frame_id, evicted)) => FetchedPage::Loading { frame_id, evicted },
                    None => FetchedPage::Unavailable,
                }
            },
        }
    }

    /// A change that leaves every frame with its page keeps the free list
    /// and the page table well formed.
    proof fn lemma_same_pages_wf(view: PoolView<T::V>, after: PoolView<T::V>)
        requires
            Self::wf(view),
            after.free_list == view.free_list,
            after.page_table == view.page_table,
            after.frames.len() == view.frames.len(),
            forall|i: int|
                0 <= i < view.frames.len() ==> (#[trigger] after.frames[i]).id
                    == view.frames[i].id,
        ensures
            Self::wf_free_list(after),
            Self::wf_page_table(after),
    {
        assert forall|k: int| 0 <= k < after.free_list.len() implies 1 <= (
        #[trigger] after.free_list[k]).0 <= after.frames.len() && after.frame(
            after.free_list[k],
        ).id is None by {
            assert(view.frame(view.free_list[k]).id is None);
        }
        assert forall|i: int|
            0 <= i < after.frames.len() && (#[trigger] after.frames[i]).id is None
                implies after.free_list.contains(FrameId((i + 1) as usize)) by {
            assert(view.frames[i].id is None);
        }
        assert forall|other: PageId| #[trigger]
            after.page_table.contains_key(other) implies 1 <= after.page_table[other].0
                <= after.frames.len() && after.page(other).id == Some(other) by {
            assert(view.page(other).id == Some(other));
        }
        assert forall|i: int|
            0 <= i < after.frames.len() && (#[trigger] after.frames[i]).id is Some implies {
                &&& after.page_table.contains_key(after.frames[i].id->0)
                &&& after.page_table[after.frames[i].id->0] == FrameId((i + 1) as usize)
            } by {
            assert(view.frames[i].id is Some);
        }
    }

    /// Creates a page: gives it the next unused number and a frame as
    /// `fetch_page` gives one to a page that the pool does not hold. The page
    /// is zeroed, pinned once and clean, and nothing is to be read for it.
    /// Fails, and changes nothing, where no frame can be had or the page
    /// numbers have run out.
    pub fn new_page(&mut self) -> (created: Option<NewPage>)
        requires
            old(self).inv(),
        ensures
            final(self).inv(),
            match created {
                Some(new_page) => {
                    &&& old(self)@.next_page_id < usize::MAX
                    &&& Self::has_room(old(self)@)
                    &&& new_page.page_id == PageId(old(self)@.next_page_id as usize)
                    &&& !old(self)@.page_table.contains_key(new_page.page_id)
                    &&& new_page.frame_id == Self::next_frame(old(self)@)
                    &&& evicted_view(new_page.evicted) == Self::evicted(old(self)@)
                    &&& final(self)@ == Self::after_install(old(self)@, new_page.page_id)
                },
                None => {
                    &&& final(self)@ == old(self)@
                    &&& old(self)@.next_page_id == usize::MAX || !Self::has_room(old(self)@)
                },
            },
    {
        if self.next_page_id == usize::MAX {
            return None;
        }
        let page_id = PageId(self.next_page_id);
        proof {
            if self@.page_table.contains_key(page_id) {
                assert(self@.page(page_id).id == Some(page_id));
                assert(self@.frames[self@.page_table[page_id].0 - 1].id == Some(page_id));
            }
        }
        match self.install(page_id) {
            Some((frame_id, evicted)) => Some(NewPage { page_id, frame_id, evicted }),
            None => None,
        }
    }

    /// The pool after a caller gave up its hold on page `page_id`.
    pub open spec fn after_unpin_page(
        view: PoolView<T::V>,
        page_id: PageId,
        is_dirty: bool,
    ) -> PoolView<T::V> {
        if view.page_table.contains_key(page_id) {
            let frame_id = view.page_table[page_id];
            let page = view.page(page_id);
            PoolView {
                replacer: if page.pin_count == 1 {
                    T::after_unpin(view.replacer, frame_id)
                } else {
                    view.replacer
                },
                ..view.with_frame(
                    frame_id,
                    PageView {
                        pin_count: if page.pin_count > 0 {
                            (page.pin_count - 1) as nat
                        } else {
                            0
                        },
                        is_dirty: page.is_dirty || is_dirty,
                        ..page
                    },
                )
            }
        } else {
            view
        }
    }

    /// Gives up one hold on a page. With `is_dirty` the caller says that it
    /// changed the page's bytes; the page then stays marked dirty until it is
    /// flushed. When the last hold goes, the replacer is told that the frame
    /// may be evicted.
    ///
    /// Returns `false` where the pool does not hold the page, and also where
    /// nobody holds the page: its pin count then stays 0.
    pub fn unpin_page(&mut self, page_id: PageId, is_dirty: bool) -> (unpinned: bool)
        requires
            old(self).inv(),
        ensures
            final(self).inv(),
            unpinned == (old(self)@.page_table.contains_key(page_id) && old(self)@.page(
                page_id,
            ).pin_count > 0),
            final(self)@ == Self::after_unpin_page(old(self)@, page_id, is_dirty),
    {
        match self.frame_of(page_id) {
            Some(frame_id) => {
                let index: usize = frame_id.0 - 1;
                let pin_count: usize = self.pages[index].pin_count();
                let was_dirty = self.pages[index].is_dirty();
                let remaining: usize = if pin_count > 0 {
                    pin_count - 1
                } else {
                    0
                };
                self.pages[index].set_state(Some(page_id), remaining, was_dirty || is_dirty);
                if pin_count == 1 {
                    self.replacer.unpin(frame_id);
                }
                proof {
                    let before = old(self)@;
                    let after = Self::after_unpin_page(before, page_id, is_dirty);
                    assert(before.frames[index as int] == old(self).pages@[index as int]@);
                    assert(self@.frames =~= after.frames);
                    assert(self@.page_table =~= after.page_table);
                    assert(self@ == after);
                    Self::lemma_same_pages_wf(before, after);
                    Self::lemma_replacer_follows(before, after, frame_id);
                }
                pin_count > 0
            },
            None => {
                false
            },
        }
    }

    /// Hands out the bytes of a page for writing to the data file, whether or
    /// not they have changed, and marks the page clean. Returns `None`, and
    /// changes nothing, where the pool does not hold the page.
    ///
    /// The page counts as flushed from here on. A caller that fails to write
    /// the bytes says so with `mark_dirty`.
    pub fn flush_page(&mut self, page_id: PageId) -> (flushed: Option<Vec<u8>>)
        requires
            old(self).inv(),
        ensures
            final(self).inv(),
            match flushed {
                Some(data) => {
                    let page = old(self)@.page(page_id);
                    &&& old(self)@.page_table.contains_key(page_id)
                    &&& data@ == page.data
                    &&& final(self)@ == old(self)@.with_frame(
                        old(self)@.page_table[page_id],
                        PageView { is_dirty: false, ..page },
                    )
                },
                None => !old(self)@.page_table.contains_key(page_id) && final(self)@ == old(
                    self,
                )@,
            },
    {
        match self.frame_of(page_id) {
            Some(frame_id) => {
                let index: usize = frame_id.0 - 1;
                let data = self.pages[index].data().clone();
                self.set_dirty(page_id, frame_id, false);
                Some(data)
            },
            None => {
                None
            },
        }
    }

    /// Marks a page as differing from the data file, as after a write of its
    /// bytes that failed. Returns `false`, and changes nothing, where the
    /// pool does not hold the page.
    pub fn mark_dirty(&mut self, page_id: PageId) -> (marked: bool)
        requires
            old(self).inv(),
        ensures
            final(self).inv(),
            marked == old(self)@.page_table.contains_key(page_id),
            marked ==> final(self)@ == old(self)@.with_frame(
                old(self)@.page_table[page_id],
                PageView { is_dirty: true, ..old(self)@.page(page_id) },
            ),
            !marked ==> final(self)@ == old(self)@,
    {
        match self.frame_of(page_id) {
            Some(frame_id) => {
                self.set_dirty(page_id, frame_id, true);
                true
            },
            None => {
                false
            },
        }
    }

    /// Sets the dirty flag of a page that the pool holds.
    fn set_dirty(&mut self, page_id: PageId, frame_id: FrameId, is_dirty: bool)
        requires
            old(self).inv(),
            old(self)@.page_table.contains_key(page_id),
            old(self)@.page_table[page_id] == frame_id,
        ensures
            final(self).inv(),
            final(self)@ == old(self)@.with_frame(
                frame_id,
                PageView { is_dirty, ..old(self)@.page(page_id) },
            ),
    {
        let index: usize = frame_id.0 - 1;
        let pin_count: usize = self.pages[index].pin_count();
        self.pages[index].set_state(Some(page_id), pin_count, is_dirty);
        proof {
            let before = old(self)@;
            let after = before.with_frame(frame_id, PageView { is_dirty, ..before.page(page_id) });
            assert(before.frames[index as int] == old(self).pages@[index as int]@);
            assert(self@.frames =~= after.frames);
            assert(self@.page_table =~= after.page_table);
            assert(self@ == after);
            Self::lemma_holds_kept(before, after);
        }
    }

    /// Replaces the bytes of a page by `data`: the bytes read for a page
    /// that `fetch_page` has just given a frame, or those that a holder of
    /// the page has changed. Returns `false`, and changes nothing, unless the
    /// pool holds the page, somebody has it pinned, and `data` is one page
    /// long. The dirty flag stays as it is: who changed the page says so when
    /// unpinning it.
    pub fn set_page_data(&mut self, page_id: PageId, data: Vec<u8>) -> (written: bool)
        requires
            old(self).inv(),
        ensures
            final(self).inv(),
            written == (old(self)@.page_table.contains_key(page_id) && old(self)@.page(
                page_id,
            ).pin_count > 0 && data@.len() == PAGE_SIZE),
            written ==> final(self)@ == old(self)@.with_frame(
                old(self)@.page_table[page_id],
                PageView { data: data@, ..old(self)@.page(page_id) },
            ),
            !written ==> final(self)@ == old(self)@,
    {
        match self.frame_of(page_id) {
            Some(frame_id) => {
                let index: usize = frame_id.0 - 1;
                if self.pages[index].pin_count() == 0 || data.len() != PAGE_SIZE {
                    return false;
                }
                self.pages[index].replace_data(data);
                proof {
                    let before = old(self)@;
                    let after = before.with_frame(
                        frame_id,
                        PageView { data: data@, ..before.page(page_id) },
                    );
                    assert(before.frames[index as int] == old(self).pages@[index as int]@);
                    assert(self@.frames =~= after.frames);
                    assert(self@.page_table =~= after.page_table);
                    assert(self@ == after);
                    Self::lemma_holds_kept(before, after);
                }
                true
            },
            None => {
                false
            },
        }
    }

    /// Removes a page from the pool without writing it: changes that were
    /// not flushed are lost. The frame joins the free list and is the next to
    /// be taken, and the replacer is told that it may no longer be evicted.
    ///
    /// Returns `false`, and changes nothing, where somebody has the page
    /// pinned and also where the pool does not hold the page.
    pub fn delete_page(&mut self, page_id: PageId) -> (deleted: bool)
        requires
            old(self).inv(),
        ensures
            final(self).inv(),
            deleted == (old(self)@.page_table.contains_key(page_id) && old(self)@.page(
                page_id,
            ).pin_count == 0),
            deleted ==> final(self)@ == (PoolView {
                free_list: old(self)@.free_list.push(old(self)@.page_table[page_id]),
                page_table: old(self)@.page_table.remove(page_id),
                replacer: T::after_pin(old(self)@.replacer, old(self)@.page_table[page_id]),
                ..old(self)@.with_frame(
                    old(self)@.page_table[page_id],
                    PageView { id: None, is_dirty: false, ..old(self)@.page(page_id) },
                )
            }),
            !deleted ==> final(self)@ == old(self)@,
    {
        match self.frame_of(page_id) {
            Some(frame_id) => {
                let index: usize = frame_id.0 - 1;
                if self.pages[index].pin_count() > 0 {
                    return false;
                }
                self.page_table.remove(&page_id.0);
                self.pages[index].set_state(None, 0, false);
                self.free_list.push(frame_id);
                self.replacer.pin(frame_id);
                proof {
                    let before = old(self)@;
                    let after = PoolView {
                        free_list: before.free_list.push(frame_id),
                        page_table: before.page_table.remove(page_id),
                        replacer: T::after_pin(before.replacer, frame_id),
                        ..before.with_frame(
                            frame_id,
                            PageView { id: None, is_dirty: false, ..before.page(page_id) },
                        )
                    };
                    assert(before.frames[index as int] == old(self).pages@[index as int]@);
                    assert(self@.frames =~= after.frames);
                    assert(self@.page_table =~= after.page_table);
                    assert(self@ == after);
                    assert(FrameId((index + 1) as usize) == frame_id);
                    assert forall|k: int| 0 <= k < after.free_list.len() implies 1 <= (
                    #[trigger] after.free_list[k]).0 <= after.frames.len() && after.frame(
                        after.free_list[k],
                    ).id is None by {
                        if k < before.free_list.len() {
                            assert(before.frame(before.free_list[k]).id is None);
                        }
                    }
                    assert forall|k: int, l: int|
                        0 <= k < l < after.free_list.len() implies (#[trigger] after.free_list[k])
                        != #[trigger] after.free_list[l] by {
                        assert(before.frame(before.free_list[k]).id is None);
                    }
                    assert forall|i: int|
                        0 <= i < after.frames.len() && (#[trigger] after.frames[i]).id is None
                            implies after.free_list.contains(FrameId((i + 1) as usize)) by {
                        if i == index {
                            assert(after.free_list[after.free_list.len() - 1] == frame_id);
                        } else {
                            assert(before.frames[i].id is None);
                            let k = choose|k: int|
                                0 <= k < before.free_list.len() && before.free_list[k] == FrameId(
                                    (i + 1) as usize,
                                );
                            assert(after.free_list[k] == FrameId((i + 1) as usize));
                        }
                    }
                    assert forall|other: PageId| #[trigger]
                        after.page_table.contains_key(other) implies 1
                        <= after.page_table[other].0 <= after.frames.len() && after.page(other).id
                        == Some(other) by {
                        assert(before.page(other).id == Some(other));
                    }
                    assert forall|i: int|
                        0 <= i < after.frames.len() && (#[trigger] after.frames[i]).id is Some implies {
                            &&& after.page_table.contains_key(after.frames[i].id->0)
                            &&& after.page_table[after.frames[i].id->0] == FrameId(
                                (i + 1) as usize,
                            )
                        } by {
                        assert(before.frames[i].id is Some);
                    }
                    Self::lemma_replacer_follows(before, after, frame_id);
                }
                true
            },
            None => {
                false
            },
        }
    }

    /// The pages that differ from the data file, in the order of their
    /// frames.
    pub open spec fn dirty_pages(frames: Seq<PageView>) -> Seq<DirtyPageView> {
        frames.filter_map(
            |page: PageView|
                if page.id is Some && page.is_dirty {
                    Some(DirtyPageView { page_id: page.id.unwrap(), data: page.data })
                } else {
                    None
                },
        )
    }

    /// Hands out the bytes of every page that differs from the data file, in
    /// the order of the frames, and marks these pages clean. A caller that
    /// fails to write one of them says so with `mark_dirty`.
    pub fn flush_all_pages(&mut self) -> (flushed: Vec<DirtyPage>)
        requires
            old(self).inv(),
        ensures
            final(self).inv(),
            flushed@.map_values(|page: DirtyPage| page@) == Self::dirty_pages(old(self)@.frames),
            final(self)@ == (PoolView {
                frames: Seq::new(
                    old(self)@.frames.len(),
                    |i: int| PageView { is_dirty: false, ..old(self)@.frames[i] },
                ),
                ..old(self)@
            }),
    {
        let mut flushed: Vec<DirtyPage> = Vec::new();
        let count: usize = self.pages.len();
        let mut index: usize = 0;
        let ghost before = old(self)@;
        let ghost pick = |page: PageView|
            if page.id is Some && page.is_dirty {
                Some(DirtyPageView { page_id: page.id.unwrap(), data: page.data })
            } else {
                None
            };
        proof {
            assert(before.frames.take(0) =~= Seq::empty());
            assert(flushed@.map_values(|page: DirtyPage| page@) =~= before.frames.take(
                0,
            ).filter_map(pick));
        }
        while index < count
            invariant
                index <= count,
                count == self.pages@.len(),
                count == before.frames.len(),
                before == old(self)@,
                Self::wf(before),
                self.replacer == old(self).replacer,
                self.free_list == old(self).free_list,
                self.page_table == old(self).page_table,
                self.next_page_id == old(self).next_page_id,
                pick == |page: PageView|
                    if page.id is Some && page.is_dirty {
                        Some(DirtyPageView { page_id: page.id.unwrap(), data: page.data })
                    } else {
                        None
                    },
                forall|i: int|
                    0 <= i < index ==> (#[trigger] self.pages@[i])@ == (PageView {
                        is_dirty: false,
                        ..before.frames[i]
                    }),
                forall|i: int| index <= i < count ==> (#[trigger] self.pages@[i])@ == before.frames[i],
                flushed@.map_values(|page: DirtyPage| page@) == before.frames.take(
                    index as int,
                ).filter_map(pick),
            decreases count - index,
        {
            proof {
                before.frames.lemma_filter_map_take_succ(pick, index as int);
            }
            let ghost collected = flushed@.map_values(|page: DirtyPage| page@);
            if self.pages[index].is_dirty() {
                let page_id = self.pages[index].get_page_id().unwrap();
                let pin_count: usize = self.pages[index].pin_count();
                let data = self.pages[index].data().clone();
                let page = DirtyPage { page_id, data };
                flushed.push(page);
                self.pages[index].set_state(Some(page_id), pin_count, false);
                proof {
                    assert(flushed@.map_values(|page: DirtyPage| page@) =~= collected + seq![
                        page@,
                    ]);
                }
            }
            index = index + 1;
        }
        proof {
            assert(before.frames.take(count as int) =~= before.frames);
            let after = PoolView {
                frames: Seq::new(
                    before.frames.len(),
                    |i: int| PageView { is_dirty: false, ..before.frames[i] },
                ),
                ..before
            };
            assert(self@.frames =~= after.frames);
            assert(self@ == after);
            Self::lemma_holds_kept(before, after);
        }
        flushed
    }

    /// Takes back a page that was evicted and could not be written: the page
    /// enters the last frame of the free list with the bytes it left with,
    /// dirty and not pinned, and the replacer is told that the frame may be
    /// evicted. Where the pool holds the page already, has no unused frame,
    /// or the bytes are not one page long, nothing changes and the page is
    /// handed back.
    pub fn restore_page(&mut self, page: DirtyPage) -> (restored: Result<FrameId, DirtyPage>)
        requires
            old(self).inv(),
        ensures
            final(self).inv(),
            restored is Ok <==> !old(self)@.page_table.contains_key(page.page_id) && old(
                self,
            )@.free_list.len() > 0 && page.data@.len() == PAGE_SIZE,
            match restored {
                Ok(frame_id) => {
                    &&& frame_id == old(self)@.free_list.last()
                    &&& final(self)@ == (PoolView {
                        free_list: old(self)@.free_list.drop_last(),
                        page_table: old(self)@.page_table.insert(page.page_id, frame_id),
                        replacer: T::after_unpin(old(self)@.replacer, frame_id),
                        next_page_id: Self::next_page_id_with(
                            old(self)@.next_page_id,
                            page.page_id,
                        ),
                        ..old(self)@.with_frame(
                            frame_id,
                            PageView {
                                id: Some(page.page_id),
                                data: page.data@,
                                pin_count: 0,
                                is_dirty: true,
                            },
                        )
                    })
                },
                Err(returned) => returned == page && final(self)@ == old(self)@,
            },
    {
        if self.page_table.contains_key(&page.page_id.0) || self.free_list.len() == 0
            || page.data.len() != PAGE_SIZE {
            assert(old(self)@.page_table.contains_key(page.page_id)
                == self.page_table@.contains_key(page.page_id.0));
            return Err(page);
        }
        assert(!old(self)@.page_table.contains_key(page.page_id));
        let frame_id = self.free_list.pop().unwrap();
        proof {
            assert(old(self)@.free_list[old(self)@.free_list.len() - 1] == frame_id);
        }
        let index: usize = frame_id.0 - 1;
        let DirtyPage { page_id, data } = page;
        self.pages[index].replace_data(data);
        self.pages[index].set_state(Some(page_id), 0, true);
        self.page_table.insert(page_id.0, frame_id);
        self.next_page_id = Self::next_page_id_after(self.next_page_id, page_id);
        self.replacer.unpin(frame_id);
        proof {
            let before = old(self)@;
            let after = PoolView {
                free_list: before.free_list.drop_last(),
                page_table: before.page_table.insert(page_id, frame_id),
                replacer: T::after_unpin(before.replacer, frame_id),
                next_page_id: Self::next_page_id_with(before.next_page_id, page_id),
                ..before.with_frame(
                    frame_id,
                    PageView { id: Some(page_id), data: data@, pin_count: 0, is_dirty: true },
                )
            };
            assert(self@.frames =~= after.frames);
            assert(self@.free_list =~= after.free_list);
            assert(self@.page_table =~= after.page_table);
            assert(self@ == after);
            let installed = Self::after_install(before, page_id);
            Self::lemma_install_wf(before, page_id);
            assert(after.free_list == installed.free_list);
            assert(after.page_table =~= installed.page_table);
            assert forall|i: int| 0 <= i < after.frames.len() implies (
            #[trigger] after.frames[i]).id == installed.frames[i].id by {}
            let relabelled = PoolView { frames: after.frames, ..installed };
            Self::lemma_same_pages_wf(installed, relabelled);
            Self::lemma_replacer_follows(before, after, frame_id);
        }
        Ok(frame_id)
    }

    /// The replacer's part of well-formedness where the evictable frames
    /// have changed as the holds on frame `frame_id` have, and the holds on
    /// the other frames are as they were.
    proof fn lemma_replacer_follows(
        view: PoolView<T::V>,
        after: PoolView<T::V>,
        frame_id: FrameId,
    )
        requires
            Self::wf_replacer(view),
            1 <= frame_id.0 <= view.frames.len(),
            after.frames.len() == view.frames.len(),
            forall|i: int|
                0 <= i < view.frames.len() && i != frame_id.0 - 1 ==> (
                #[trigger] after.frames[i]).id is Some == view.frames[i].id is Some
                    && after.frames[i].pin_count == view.frames[i].pin_count,
            T::capacity(after.replacer) == T::capacity(view.replacer),
            if after.frame(frame_id).id is Some && after.frame(frame_id).pin_count == 0 {
                T::evictable(after.replacer) =~= T::evictable(view.replacer).insert(frame_id)
            } else {
                T::evictable(after.replacer) =~= T::evictable(view.replacer).remove(frame_id)
            },
        ensures
            Self::wf_replacer(after),
    {
        assert forall|other: FrameId| #[trigger]
            T::evictable(after.replacer).contains(other) <==> 1 <= other.0 <= after.frames.len()
                && after.frame(other).id is Some && after.frame(other).pin_count == 0 by {
            assert(T::evictable(view.replacer).contains(other) <==> 1 <= other.0
                <= view.frames.len() && view.frame(other).id is Some && view.frame(
                other,
            ).pin_count == 0);
        }
    }

    /// A change to the bytes and the dirty flags of pages keeps the pool
    /// well formed.
    proof fn lemma_holds_kept(view: PoolView<T::V>, after: PoolView<T::V>)
        requires
            Self::wf(view),
            after.free_list == view.free_list,
            after.page_table == view.page_table,
            after.replacer == view.replacer,
            after.next_page_id == view.next_page_id,
            after.frames.len() == view.frames.len(),
            forall|i: int|
                0 <= i < view.frames.len() ==> {
                    &&& (#[trigger] after.frames[i]).id == view.frames[i].id
                    &&& after.frames[i].pin_count == view.frames[i].pin_count
                    &&& after.frames[i].data.len() == PAGE_SIZE
                    &&& after.frames[i].id is None ==> !after.frames[i].is_dirty
                },
        ensures
            Self::wf(after),
    {
        Self::lemma_same_pages_wf(view, after);
        assert forall|other: FrameId| #[trigger]
            T::evictable(after.replacer).contains(other) <==> 1 <= other.0 <= after.frames.len()
                && after.frame(other).id is Some && after.frame(other).pin_count == 0 by {
            assert(T::evictable(view.replacer).contains(other) <==> 1 <= other.0
                <= view.frames.len() && view.frame(other).id is Some && view.frame(
                other,
            ).pin_count == 0);
        }
    }

    /// The frame that holds a page.
    fn frame_of(&self, page_id: PageId) -> (found: Option<FrameId>)
        requires
            self.inv(),
        ensures
            found is Some <==> self@.page_table.contains_key(page_id),
            found is Some ==> found.unwrap() == self@.page_table[page_id] && 1
                <= found.unwrap().0 <= self.pages@.len(),
    {
        match self.page_table.get(&page_id.0) {
            Some(frame_id) => {
                assert(self@.page_table.contains_key(page_id));
                Some(*frame_id)
            },
            None => None,
        }
    }

    /// With every frame pinned no further page can enter: `fetch_page` of a
    /// page that the pool does not hold and `new_page` fail, and leave the
    /// pool as it is.
    pub proof fn lemma_all_pinned_leaves_no_room(view: PoolView<T::V>)
        requires
            Self::wf(view),
            forall|i: int| 0 <= i < view.frames.len() ==> (#[trigger] view.frames[i]).pin_count > 0,
        ensures
            !Self::has_room(view),
    {
        if view.free_list.len() > 0 {
            assert(view.frame(view.free_list[0]).id is None);
        }
        assert forall|frame_id: FrameId| !T::evictable(view.replacer).contains(frame_id) by {
            if T::evictable(view.replacer).contains(frame_id) {
                assert(view.frames[frame_id.0 - 1].pin_count > 0);
            }
        }
        assert(T::evictable(view.replacer) =~= Set::empty());
    }

    /// The number of frames.
    pub fn pool_size(&self) -> (pool_size: usize)
        requires
            self.inv(),
        ensures
            pool_size == self@.capacity(),
    {
        self.pages.len()
    }

    /// The frame that holds a page and the page's state, or `None` where the
    /// pool does not hold the page.
    pub fn page(&self, page_id: PageId) -> (found: Option<(FrameId, &Page)>)
        requires
            self.inv(),
        ensures
            match found {
                Some((frame_id, page)) => self@.page_table.contains_key(page_id) && frame_id
                    == self@.page_table[page_id] && page@ == self@.page(page_id),
                None => !self@.page_table.contains_key(page_id),
            },
    {
        match self.page_table.get(&page_id.0) {
            Some(frame_id) => {
                assert(self@.page_table.contains_key(page_id));
                Some((*frame_id, &self.pages[frame_id.0 - 1]))
            },
            None => None,
        }
    }
}

} // verus!
