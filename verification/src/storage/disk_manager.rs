use crate::common::{PageId, PAGE_SIZE};
use vstd::prelude::*;
use vstd::std_specs::convert::FromSpecImpl;
use vstd::string::{StrSliceExecFns, StringExecFns};

verus! {

/// An error of the operating system, carried through as it came.
#[verifier::external_type_specification]
#[verifier::external_body]
pub struct ExIoError(std::io::Error);

/// Why the disk manager could not be set up, or could not read or write.
pub enum DiskManagerError {
    /// The name of the data file has no extension to replace.
    InvalidFile,
    /// The operating system refused an operation on a file.
    Io(std::io::Error),
}

impl From<std::io::Error> for DiskManagerError {
    fn from(err: std::io::Error) -> (error: Self) {
        DiskManagerError::Io(err)
    }
}

impl FromSpecImpl<std::io::Error> for DiskManagerError {
    open spec fn obeys_from_spec() -> bool {
        true
    }

    open spec fn from_spec(err: std::io::Error) -> Self {
        DiskManagerError::Io(err)
    }
}

/// The index of the last `.` of `name`, or -1 where it has none.
pub open spec fn last_dot(name: Seq<char>) -> int
    decreases name.len(),
{
    if name.len() == 0 {
        -1
    } else if name.last() == '.' {
        name.len() - 1
    } else {
        last_dot(name.drop_last())
    }
}

/// The name of the log file that belongs to a data file: the data file's name
/// with `.log` in place of its extension.
pub open spec fn spec_log_file_name(db_file_name: Seq<char>) -> Seq<char> {
    db_file_name.subrange(0, last_dot(db_file_name)) + seq!['.', 'l', 'o', 'g']
}

/// `last_dot` is the greatest index that holds a `.`.
pub proof fn lemma_last_dot(name: Seq<char>)
    ensures
        -1 <= last_dot(name) < name.len(),
        last_dot(name) >= 0 ==> name[last_dot(name)] == '.',
        forall|i: int| last_dot(name) < i < name.len() ==> name[i] != '.',
    decreases name.len(),
{
    if name.len() > 0 && name.last() != '.' {
        let front = name.drop_last();
        lemma_last_dot(front);
        assert forall|i: int| last_dot(name) < i < name.len() implies name[i] != '.' by {
            if i < front.len() {
                assert(front[i] == name[i]);
            }
        }
    }
}

/// Derives the name of the log file from the name of the data file. A name
/// without a `.` has no extension and is refused.
pub fn log_file_name(db_file_name: &str) -> (result: Result<String, DiskManagerError>)
    ensures
        last_dot(db_file_name@) < 0 ==> result is Err && result->Err_0 is InvalidFile,
        last_dot(db_file_name@) >= 0 ==> result is Ok && result->Ok_0@ == spec_log_file_name(
            db_file_name@,
        ),
{
    let length: usize = db_file_name.unicode_len();
    let mut position: usize = length;
    proof {
        assert(db_file_name@.subrange(0, length as int) =~= db_file_name@);
    }
    while position > 0
        invariant
            position <= length,
            length == db_file_name@.len(),
            last_dot(db_file_name@) == last_dot(db_file_name@.subrange(0, position as int)),
        decreases position,
    {
        let ghost prefix = db_file_name@.subrange(0, position as int);
        proof {
            assert(prefix.drop_last() =~= db_file_name@.subrange(0, position - 1));
        }
        if db_file_name.get_char(position - 1) == '.' {
            let stem = db_file_name.substring_char(0, position - 1);
            let name = String::from_str(stem).concat(".log");
            proof {
                reveal_strlit(".log");
                assert(".log"@ =~= seq!['.', 'l', 'o', 'g']);
            }
            return Ok(name);
        }
        position = position - 1;
    }
    Err(DiskManagerError::InvalidFile)
}

/// The byte at which a page starts in the data file, or `None` where the page
/// does not lie within the first `u64::MAX` bytes.
pub open spec fn spec_page_offset(page_id: PageId) -> Option<u64> {
    if page_id.0 * PAGE_SIZE + PAGE_SIZE <= u64::MAX {
        Some((page_id.0 * PAGE_SIZE) as u64)
    } else {
        None
    }
}

/// The byte at which a page starts in the data file.
pub fn page_offset(page_id: PageId) -> (offset: Option<u64>)
    ensures
        offset == spec_page_offset(page_id),
{
    let PageId(id) = page_id;
    let limit: u64 = u64::MAX / 4096 - 1;
    if id as u64 <= limit {
        Some(id as u64 * 4096)
    } else {
        None
    }
}

/// The byte at which a buffer is read or written as a page. A transfer moves
/// exactly one page: a buffer of another length is refused.
pub fn transfer_offset(page_id: PageId, buffer_len: usize) -> (offset: Option<u64>)
    ensures
        offset == if buffer_len == PAGE_SIZE {
            spec_page_offset(page_id)
        } else {
            None
        },
{
    if buffer_len == PAGE_SIZE {
        page_offset(page_id)
    } else {
        None
    }
}

/// One of the two files of the disk manager.
#[derive(PartialEq, Eq, Structural, Copy, Clone, Debug)]
pub enum DiskFile {
    /// The data file, an array of pages.
    Data,
    /// The log file, which only grows.
    Log,
}

/// How a file is opened.
#[derive(PartialEq, Eq, Structural, Copy, Clone, Debug)]
pub struct OpenMode {
    pub read: bool,
    /// Writes go where the file was positioned.
    pub write: bool,
    /// Writes go to the end of the file.
    pub append: bool,
    /// The file must not exist yet and is created.
    pub create_new: bool,
}

/// The mode in which a file is opened: both files for reading, the data file
/// for writing at any position, the log file for appending.
pub open spec fn spec_open_mode(file: DiskFile, create_new: bool) -> OpenMode {
    OpenMode { read: true, write: file is Data, append: file is Log, create_new }
}

/// The ways in which the disk manager tries to open a file, in this order:
/// as a file that exists, then as a new file. The first that succeeds
/// stands; where both fail, the error of the second is reported.
pub fn open_attempts(file: DiskFile) -> (attempts: Vec<OpenMode>)
    ensures
        attempts@ == seq![spec_open_mode(file, false), spec_open_mode(file, true)],
{
    let (write, append) = match file {
        DiskFile::Data => (true, false),
        DiskFile::Log => (false, true),
    };
    let mut attempts: Vec<OpenMode> = Vec::new();
    attempts.push(OpenMode { read: true, write, append, create_new: false });
    attempts.push(OpenMode { read: true, write, append, create_new: true });
    assert(attempts@ =~= seq![spec_open_mode(file, false), spec_open_mode(file, true)]);
    attempts
}

} // verus!
