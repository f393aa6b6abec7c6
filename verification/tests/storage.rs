use buffer_pool::common::{PageId, PAGE_SIZE};
use buffer_pool::storage::disk_manager::{
    log_file_name, open_attempts, page_offset, transfer_offset, DiskFile, DiskManagerError,
    OpenMode,
};
use buffer_pool::storage::Page;

#[test]
fn new_page_frame_is_unused() {
    let page = Page::new();
    assert_eq!(page.get_page_id(), None);
    assert_eq!(page.pin_count(), 0);
    assert!(!page.is_dirty());
    assert_eq!(page.data(), &vec![0u8; PAGE_SIZE]);
}

#[test]
fn page_id_is_set_and_invalidated() {
    let mut page = Page::new();
    page.set_page_id(PageId(12));
    assert_eq!(page.get_page_id(), Some(PageId(12)));
    page.set_page_id(PageId(13));
    assert_eq!(page.get_page_id(), Some(PageId(13)));
    page.invalidate_page_id();
    assert_eq!(page.get_page_id(), None);
    assert_eq!(page.data().len(), PAGE_SIZE);
}

#[test]
fn page_size_is_4096() {
    assert_eq!(PAGE_SIZE, 4096);
}

#[test]
fn log_file_name_replaces_the_extension() {
    assert_eq!(log_file_name("test.db").ok(), Some("test.log".to_string()));
    assert_eq!(log_file_name("a.b.c").ok(), Some("a.b.log".to_string()));
    assert_eq!(log_file_name("data.").ok(), Some("data.log".to_string()));
    assert_eq!(log_file_name(".db").ok(), Some(".log".to_string()));
    assert_eq!(log_file_name("dir.d/file.db").ok(), Some("dir.d/file.log".to_string()));
}

#[test]
fn log_file_name_handles_characters_of_several_bytes() {
    assert_eq!(log_file_name("données.db").ok(), Some("données.log".to_string()));
    assert_eq!(log_file_name("a.数据").ok(), Some("a.log".to_string()));
}

#[test]
fn log_file_name_refuses_a_name_without_extension() {
    assert!(matches!(log_file_name("test"), Err(DiskManagerError::InvalidFile)));
    assert!(matches!(log_file_name(""), Err(DiskManagerError::InvalidFile)));
}

#[test]
fn io_error_becomes_disk_manager_error() {
    let error = std::io::Error::new(std::io::ErrorKind::UnexpectedEof, "short file");
    match DiskManagerError::from(error) {
        DiskManagerError::Io(inner) => {
            assert_eq!(inner.kind(), std::io::ErrorKind::UnexpectedEof)
        }
        DiskManagerError::InvalidFile => panic!("wrong variant"),
    }
}

#[test]
fn page_offset_is_id_times_page_size() {
    assert_eq!(page_offset(PageId(0)), Some(0));
    assert_eq!(page_offset(PageId(1)), Some(4096));
    assert_eq!(page_offset(PageId(3)), Some(12288));
    assert_eq!(page_offset(PageId(1_000_000)), Some(4_096_000_000));
}

#[test]
fn page_offset_refuses_pages_beyond_the_addressable_file() {
    let last = (u64::MAX / 4096 - 1) as usize;
    assert_eq!(page_offset(PageId(last)), Some(last as u64 * 4096));
    if usize::BITS == 64 {
        assert_eq!(page_offset(PageId(last + 1)), None);
        assert_eq!(page_offset(PageId(usize::MAX)), None);
    }
}

#[test]
fn transfer_moves_exactly_one_page() {
    assert_eq!(transfer_offset(PageId(2), PAGE_SIZE), Some(8192));
    assert_eq!(transfer_offset(PageId(2), PAGE_SIZE - 1), None);
    assert_eq!(transfer_offset(PageId(2), PAGE_SIZE + 1), None);
    assert_eq!(transfer_offset(PageId(2), 0), None);
}

#[test]
fn files_are_opened_as_they_exist_and_else_created() {
    assert_eq!(
        open_attempts(DiskFile::Data),
        vec![
            OpenMode { read: true, write: true, append: false, create_new: false },
            OpenMode { read: true, write: true, append: false, create_new: true },
        ]
    );
    assert_eq!(
        open_attempts(DiskFile::Log),
        vec![
            OpenMode { read: true, write: false, append: true, create_new: false },
            OpenMode { read: true, write: false, append: true, create_new: true },
        ]
    );
}
