use buffer_pool::buffer::buffer_pool_manager::{
    BufferPoolManagerInstance, DirtyPage, FetchedPage, NewPage,
};
use buffer_pool::buffer::clock_replacer::ClockReplacer;
use buffer_pool::common::{FrameId, PageId, PAGE_SIZE};

fn pool(size: usize) -> BufferPoolManagerInstance<ClockReplacer> {
    BufferPoolManagerInstance::new(ClockReplacer::new(size), size)
}

fn bytes(value: u8) -> Vec<u8> {
    vec![value; PAGE_SIZE]
}

/// Fetches a page that the pool does not hold and expects a clean frame.
fn load(pool: &mut BufferPoolManagerInstance<ClockReplacer>, id: usize, value: u8) -> FrameId {
    match pool.fetch_page(PageId(id)) {
        FetchedPage::Loading { frame_id, evicted: None } => {
            assert!(pool.set_page_data(PageId(id), bytes(value)));
            frame_id
        }
        _ => panic!("page {} did not get a clean frame", id),
    }
}

#[test]
fn new_pool_holds_nothing() {
    let pool = pool(3);
    assert_eq!(pool.pool_size(), 3);
    assert!(pool.page(PageId(0)).is_none());
}

#[test]
fn fetch_of_absent_page_takes_frames_in_order() {
    let mut pool = pool(3);
    assert_eq!(load(&mut pool, 10, 1), FrameId(1));
    assert_eq!(load(&mut pool, 11, 2), FrameId(2));
    assert_eq!(load(&mut pool, 12, 3), FrameId(3));
    let (frame_id, page) = pool.page(PageId(11)).unwrap();
    assert_eq!(frame_id, FrameId(2));
    assert_eq!(page.get_page_id(), Some(PageId(11)));
    assert_eq!(page.pin_count(), 1);
    assert!(!page.is_dirty());
    assert_eq!(page.data(), &bytes(2));
}

#[test]
fn fetched_page_is_zeroed_until_its_bytes_arrive() {
    let mut pool = pool(1);
    assert!(matches!(
        pool.fetch_page(PageId(4)),
        FetchedPage::Loading { frame_id: FrameId(1), evicted: None }
    ));
    let (_, page) = pool.page(PageId(4)).unwrap();
    assert_eq!(page.data(), &bytes(0));
}

#[test]
fn fetch_of_resident_page_pins_it_again_and_asks_for_no_read() {
    let mut pool = pool(2);
    load(&mut pool, 7, 9);
    assert!(matches!(
        pool.fetch_page(PageId(7)),
        FetchedPage::Resident { frame_id: FrameId(1) }
    ));
    let (_, page) = pool.page(PageId(7)).unwrap();
    assert_eq!(page.pin_count(), 2);
    assert_eq!(page.data(), &bytes(9));
    // the second frame is still unused
    assert_eq!(load(&mut pool, 8, 1), FrameId(2));
}

#[test]
fn fetch_fails_when_every_frame_is_pinned_and_changes_nothing() {
    let mut pool = pool(2);
    load(&mut pool, 1, 1);
    load(&mut pool, 2, 2);
    assert!(matches!(pool.fetch_page(PageId(3)), FetchedPage::Unavailable));
    assert!(pool.new_page().is_none());
    assert!(pool.page(PageId(3)).is_none());
    for (id, value) in [(1usize, 1u8), (2, 2)] {
        let (_, page) = pool.page(PageId(id)).unwrap();
        assert_eq!(page.pin_count(), 1);
        assert_eq!(page.data(), &bytes(value));
    }
    // a resident page can still be fetched
    assert!(matches!(pool.fetch_page(PageId(1)), FetchedPage::Resident { .. }));
}

#[test]
fn unpinned_clean_page_is_evicted_without_write_back() {
    let mut pool = pool(2);
    load(&mut pool, 1, 1);
    load(&mut pool, 2, 2);
    assert!(pool.unpin_page(PageId(1), false));
    match pool.fetch_page(PageId(3)) {
        FetchedPage::Loading { frame_id, evicted } => {
            assert_eq!(frame_id, FrameId(1));
            assert!(evicted.is_none());
        }
        _ => panic!("no frame"),
    }
    assert!(pool.page(PageId(1)).is_none());
    assert_eq!(pool.page(PageId(3)).unwrap().0, FrameId(1));
}

#[test]
fn unpinned_dirty_page_is_handed_out_for_write_back() {
    let mut pool = pool(1);
    load(&mut pool, 5, 0);
    assert!(pool.set_page_data(PageId(5), bytes(42)));
    assert!(pool.unpin_page(PageId(5), true));
    match pool.fetch_page(PageId(6)) {
        FetchedPage::Loading { frame_id, evicted: Some(page) } => {
            assert_eq!(frame_id, FrameId(1));
            assert_eq!(page.page_id, PageId(5));
            assert_eq!(page.data, bytes(42));
        }
        _ => panic!("the dirty page was not handed out"),
    }
    let (_, page) = pool.page(PageId(6)).unwrap();
    assert_eq!(page.data(), &bytes(0));
    assert!(!page.is_dirty());
    assert_eq!(page.pin_count(), 1);
}

#[test]
fn victims_follow_the_clock() {
    let mut pool = pool(3);
    load(&mut pool, 1, 1);
    load(&mut pool, 2, 2);
    load(&mut pool, 3, 3);
    assert!(pool.unpin_page(PageId(2), false));
    assert!(pool.unpin_page(PageId(3), false));
    assert!(pool.unpin_page(PageId(1), false));
    // the hand starts at frame 1, whatever the order of the unpins
    assert_eq!(load(&mut pool, 4, 4), FrameId(1));
    assert_eq!(load(&mut pool, 5, 5), FrameId(2));
    assert_eq!(load(&mut pool, 6, 6), FrameId(3));
}

#[test]
fn unpin_reports_pages_that_are_absent_or_not_pinned() {
    let mut pool = pool(2);
    assert!(!pool.unpin_page(PageId(1), false));
    load(&mut pool, 1, 1);
    assert!(pool.unpin_page(PageId(1), false));
    assert!(!pool.unpin_page(PageId(1), false));
    assert_eq!(pool.page(PageId(1)).unwrap().1.pin_count(), 0);
}

#[test]
fn unpin_never_clears_the_dirty_flag() {
    let mut pool = pool(2);
    load(&mut pool, 1, 1);
    assert!(matches!(pool.fetch_page(PageId(1)), FetchedPage::Resident { .. }));
    assert!(pool.unpin_page(PageId(1), true));
    assert!(pool.unpin_page(PageId(1), false));
    let (_, page) = pool.page(PageId(1)).unwrap();
    assert!(page.is_dirty());
    assert_eq!(page.pin_count(), 0);
}

#[test]
fn page_with_one_pin_left_is_not_evicted() {
    let mut pool = pool(1);
    load(&mut pool, 1, 1);
    assert!(matches!(pool.fetch_page(PageId(1)), FetchedPage::Resident { .. }));
    assert!(pool.unpin_page(PageId(1), false));
    assert!(matches!(pool.fetch_page(PageId(2)), FetchedPage::Unavailable));
    assert!(pool.unpin_page(PageId(1), false));
    assert!(matches!(pool.fetch_page(PageId(2)), FetchedPage::Loading { .. }));
}

#[test]
fn flush_hands_out_the_bytes_and_marks_the_page_clean() {
    let mut pool = pool(2);
    load(&mut pool, 1, 0);
    assert!(pool.set_page_data(PageId(1), bytes(7)));
    assert!(pool.unpin_page(PageId(1), true));
    assert_eq!(pool.flush_page(PageId(1)), Some(bytes(7)));
    assert!(!pool.page(PageId(1)).unwrap().1.is_dirty());
    // a clean page is flushed as well
    assert_eq!(pool.flush_page(PageId(1)), Some(bytes(7)));
    assert_eq!(pool.flush_page(PageId(2)), None);
}

#[test]
fn mark_dirty_puts_the_flag_back() {
    let mut pool = pool(1);
    load(&mut pool, 1, 3);
    assert!(pool.flush_page(PageId(1)).is_some());
    assert!(pool.mark_dirty(PageId(1)));
    assert!(pool.page(PageId(1)).unwrap().1.is_dirty());
    assert!(!pool.mark_dirty(PageId(2)));
}

#[test]
fn flush_all_hands_out_the_dirty_pages_in_frame_order() {
    let mut pool = pool(3);
    load(&mut pool, 30, 1);
    load(&mut pool, 20, 2);
    load(&mut pool, 10, 3);
    assert!(pool.unpin_page(PageId(10), true));
    assert!(pool.unpin_page(PageId(20), false));
    assert!(pool.unpin_page(PageId(30), true));
    let flushed = pool.flush_all_pages();
    assert_eq!(flushed.len(), 2);
    assert_eq!(flushed[0].page_id, PageId(30));
    assert_eq!(flushed[0].data, bytes(1));
    assert_eq!(flushed[1].page_id, PageId(10));
    assert_eq!(flushed[1].data, bytes(3));
    for id in [10usize, 20, 30] {
        assert!(!pool.page(PageId(id)).unwrap().1.is_dirty());
    }
    assert!(pool.flush_all_pages().is_empty());
}

#[test]
fn new_page_is_zeroed_pinned_and_numbered_upwards() {
    let mut pool = pool(2);
    let NewPage { page_id, frame_id, evicted } = pool.new_page().unwrap();
    assert_eq!(page_id, PageId(0));
    assert_eq!(frame_id, FrameId(1));
    assert!(evicted.is_none());
    let (_, page) = pool.page(page_id).unwrap();
    assert_eq!(page.data(), &bytes(0));
    assert_eq!(page.pin_count(), 1);
    assert!(!page.is_dirty());
    let second = pool.new_page().unwrap();
    assert_eq!(second.page_id, PageId(1));
    assert_eq!(second.frame_id, FrameId(2));
}

#[test]
fn new_page_is_numbered_above_every_page_that_was_fetched() {
    let mut pool = pool(3);
    load(&mut pool, 41, 1);
    load(&mut pool, 7, 1);
    assert_eq!(pool.new_page().unwrap().page_id, PageId(42));
}

#[test]
fn new_page_fails_when_the_numbers_have_run_out() {
    let mut pool = pool(2);
    load(&mut pool, usize::MAX, 1);
    assert!(pool.new_page().is_none());
    assert_eq!(load(&mut pool, 3, 1), FrameId(2));
}

#[test]
fn new_page_hands_out_the_dirty_victim() {
    let mut pool = pool(1);
    let first = pool.new_page().unwrap();
    assert!(pool.set_page_data(first.page_id, bytes(5)));
    assert!(pool.unpin_page(first.page_id, true));
    let second = pool.new_page().unwrap();
    assert_eq!(second.page_id, PageId(1));
    let evicted = second.evicted.unwrap();
    assert_eq!(evicted.page_id, PageId(0));
    assert_eq!(evicted.data, bytes(5));
}

#[test]
fn delete_of_pinned_page_fails_and_changes_nothing() {
    let mut pool = pool(2);
    load(&mut pool, 1, 6);
    assert!(!pool.delete_page(PageId(1)));
    let (frame_id, page) = pool.page(PageId(1)).unwrap();
    assert_eq!(frame_id, FrameId(1));
    assert_eq!(page.pin_count(), 1);
    assert_eq!(page.data(), &bytes(6));
    // the free list still leads with frame 2
    assert_eq!(load(&mut pool, 2, 1), FrameId(2));
}

#[test]
fn delete_of_absent_page_reports_failure() {
    let mut pool = pool(2);
    assert!(!pool.delete_page(PageId(9)));
}

#[test]
fn delete_frees_the_frame_and_discards_changes() {
    let mut pool = pool(2);
    load(&mut pool, 1, 1);
    load(&mut pool, 2, 2);
    assert!(pool.unpin_page(PageId(1), true));
    assert!(pool.delete_page(PageId(1)));
    assert!(pool.page(PageId(1)).is_none());
    assert!(pool.flush_all_pages().is_empty());
    // the frame is unused again: no page leaves for the next one
    match pool.fetch_page(PageId(3)) {
        FetchedPage::Loading { frame_id, evicted } => {
            assert_eq!(frame_id, FrameId(1));
            assert!(evicted.is_none());
        }
        _ => panic!("no frame"),
    }
}

#[test]
fn deleted_frame_is_not_offered_as_victim() {
    let mut pool = pool(2);
    load(&mut pool, 1, 1);
    load(&mut pool, 2, 2);
    assert!(pool.unpin_page(PageId(1), false));
    assert!(pool.delete_page(PageId(1)));
    assert_eq!(load(&mut pool, 3, 3), FrameId(1));
    assert!(matches!(pool.fetch_page(PageId(4)), FetchedPage::Unavailable));
}

#[test]
fn set_page_data_needs_a_pinned_page_and_a_full_buffer() {
    let mut pool = pool(2);
    assert!(!pool.set_page_data(PageId(1), bytes(1)));
    load(&mut pool, 1, 1);
    assert!(!pool.set_page_data(PageId(1), vec![2u8; PAGE_SIZE - 1]));
    assert!(pool.unpin_page(PageId(1), false));
    assert!(!pool.set_page_data(PageId(1), bytes(2)));
    assert_eq!(pool.page(PageId(1)).unwrap().1.data(), &bytes(1));
}

#[test]
fn restore_page_takes_back_a_page_whose_write_failed() {
    let mut pool = pool(1);
    load(&mut pool, 1, 0);
    assert!(pool.set_page_data(PageId(1), bytes(8)));
    assert!(pool.unpin_page(PageId(1), true));
    let evicted = match pool.fetch_page(PageId(2)) {
        FetchedPage::Loading { evicted: Some(page), .. } => page,
        _ => panic!("the dirty page was not handed out"),
    };
    // the write failed: the requested page goes, the evicted one returns
    assert!(pool.unpin_page(PageId(2), false));
    assert!(pool.delete_page(PageId(2)));
    assert_eq!(pool.restore_page(evicted).ok(), Some(FrameId(1)));
    let (_, page) = pool.page(PageId(1)).unwrap();
    assert_eq!(page.data(), &bytes(8));
    assert!(page.is_dirty());
    assert_eq!(page.pin_count(), 0);
    // and may be evicted again
    assert!(matches!(
        pool.fetch_page(PageId(3)),
        FetchedPage::Loading { evicted: Some(_), .. }
    ));
}

#[test]
fn restore_page_hands_the_page_back_when_it_cannot_enter() {
    let mut pool = pool(1);
    load(&mut pool, 1, 1);
    let no_frame = pool.restore_page(DirtyPage { page_id: PageId(2), data: bytes(2) });
    assert_eq!(no_frame.err().map(|page| page.page_id), Some(PageId(2)));
    let mut pool = self::pool(2);
    load(&mut pool, 1, 1);
    let resident = pool.restore_page(DirtyPage { page_id: PageId(1), data: bytes(2) });
    assert!(resident.is_err());
    let short = pool.restore_page(DirtyPage { page_id: PageId(2), data: vec![0u8; 3] });
    assert_eq!(short.err().map(|page| page.data.len()), Some(3));
}

#[test]
fn pool_without_frames_has_no_room() {
    let mut pool = pool(0);
    assert!(matches!(pool.fetch_page(PageId(0)), FetchedPage::Unavailable));
    assert!(pool.new_page().is_none());
    assert!(pool.flush_all_pages().is_empty());
}
