//! Virtual file system: file descriptions, seeking, absolute paths, and the
//! root file system mounted from a cpio archive.
use vstd::prelude::*;

pub mod cpio;
pub mod initfs;
pub mod permissions;

use crate::filesystem::initfs::{InitFsDevice, InitFsDriver};

verus! {

#[derive(Debug)]
pub enum Error {
    /// No file system driver matches the requested type.
    NoMatchingDriverFound,
    /// The driver does not support the operation.
    OperationNotSupported,
    /// The file system is not valid (bad magic or similar).
    InvalidFilesystem,
    /// The file description does not match the expected type or is not valid.
    InvalidFileDescription,
    /// The requested file could not be found.
    FileNotFound,
    /// No more data to read.
    EndOfFile,
}

#[derive(Debug, PartialEq, Eq, Structural, Copy, Clone)]
pub enum OpenMode {
    Read,
    Write,
    Append,
    ReadWrite,
    ReadAppend,
}

#[derive(Debug, PartialEq, Eq, Structural, Clone, Copy)]
pub enum FileType {
    Directory,
    RegularFile,
    SymbolicLink,
    CharDevice,
    BlockDevice,
    Fifo,
    Socket,
}

/// An open file.
#[derive(Debug)]
pub struct FileDescription {
    pub filetype: FileType,
    pub mode: u32,
    pub user_id: u32,
    pub group_id: u32,
    pub size: usize,
    pub(crate) inode_number: u64,
    pub(crate) block_offset: usize,
    pub(crate) read_offset: usize,
}

impl FileDescription {
    /// Offset of the next byte to read.
    pub closed spec fn spec_read_offset(&self) -> usize {
        self.read_offset
    }

    /// Offset of the file's archive record.
    pub closed spec fn spec_block_offset(&self) -> usize {
        self.block_offset
    }

    pub closed spec fn spec_inode_number(&self) -> u64 {
        self.inode_number
    }

    pub closed spec fn spec_filetype(&self) -> FileType {
        self.filetype
    }

    pub closed spec fn spec_mode(&self) -> u32 {
        self.mode
    }

    pub closed spec fn spec_user_id(&self) -> u32 {
        self.user_id
    }

    pub closed spec fn spec_group_id(&self) -> u32 {
        self.group_id
    }

    pub closed spec fn spec_size(&self) -> usize {
        self.size
    }

    pub fn read_offset(&self) -> (offset: usize)
        ensures
            offset == self.spec_read_offset(),
    {
        self.read_offset
    }
}

pub enum SeekMode {
    Start(usize),
    CurrentPosition(usize),
    End,
}

/// The offset that a seek asks for.
pub open spec fn requested_offset(file: FileDescription, seek_mode: SeekMode) -> int {
    match seek_mode {
        SeekMode::Start(offset) => offset as int,
        SeekMode::CurrentPosition(offset) => file.spec_read_offset() + offset,
        SeekMode::End => file.spec_size() as int,
    }
}

/// What a seek answers and how it changes the description: past the end of
/// the file it fails and changes nothing; otherwise the read offset becomes
/// the requested one and nothing else changes.
pub open spec fn seek_result(
    file: FileDescription,
    seek_mode: SeekMode,
    new_file: FileDescription,
    result: Result<(), Error>,
) -> bool {
    &&& requested_offset(file, seek_mode) > file.spec_size() ==> (result matches Err(
        Error::EndOfFile,
    )) && new_file == file
    &&& requested_offset(file, seek_mode) <= file.spec_size() ==> {
        &&& result is Ok
        &&& new_file.spec_read_offset() == requested_offset(file, seek_mode)
        &&& new_file.spec_size() == file.spec_size()
        &&& new_file.spec_filetype() == file.spec_filetype()
        &&& new_file.spec_mode() == file.spec_mode()
        &&& new_file.spec_user_id() == file.spec_user_id()
        &&& new_file.spec_group_id() == file.spec_group_id()
        &&& new_file.spec_block_offset() == file.spec_block_offset()
        &&& new_file.spec_inode_number() == file.spec_inode_number()
    }
}

/// Seeking from the current position moves the read offset forward by the
/// given amount while that stays within the file, so seeking by 0 leaves it
/// where it was; seeking from the start puts it at the given offset, and
/// seeking to the end puts it at the file's size.
pub proof fn law_seek_moves_the_read_offset(
    file: FileDescription,
    n: usize,
    new_current: FileDescription,
    current: Result<(), Error>,
    new_start: FileDescription,
    start: Result<(), Error>,
    new_end: FileDescription,
    end: Result<(), Error>,
)
    requires
        seek_result(file, SeekMode::CurrentPosition(n), new_current, current),
        seek_result(file, SeekMode::Start(n), new_start, start),
        seek_result(file, SeekMode::End, new_end, end),
    ensures
        file.spec_read_offset() + n <= file.spec_size() ==> current is Ok
            && new_current.spec_read_offset() == file.spec_read_offset() + n,
        file.spec_read_offset() + n > file.spec_size() ==> current is Err && new_current == file,
        n == 0 && file.spec_read_offset() <= file.spec_size() ==> new_current.spec_read_offset()
            == file.spec_read_offset(),
        n <= file.spec_size() ==> start is Ok && new_start.spec_read_offset() == n,
        n > file.spec_size() ==> start is Err && new_start == file,
        end is Ok && new_end.spec_read_offset() == file.spec_size(),
{
}

/// Two seeks from the current position land where one seek by their sum
/// lands, when both stay within the file.
pub proof fn law_relative_seeks_add_up(
    file: FileDescription,
    a: usize,
    b: usize,
    mid: FileDescription,
    r1: Result<(), Error>,
    last: FileDescription,
    r2: Result<(), Error>,
)
    requires
        seek_result(file, SeekMode::CurrentPosition(a), mid, r1),
        seek_result(mid, SeekMode::CurrentPosition(b), last, r2),
        file.spec_read_offset() + a + b <= file.spec_size(),
    ensures
        r1 is Ok,
        r2 is Ok,
        last.spec_read_offset() == file.spec_read_offset() + a + b,
        last.spec_size() == file.spec_size(),
{
}

/// The file system mounted at the root.
pub struct VirtualFileSystem {
    rootfs: Option<InitFsDevice>,
}

impl VirtualFileSystem {
    /// Whether a root file system is mounted.
    pub closed spec fn is_mounted(&self) -> bool {
        self.rootfs is Some
    }

    /// The archive that backs the root file system.
    pub closed spec fn root_data(&self) -> Seq<u8> {
        self.rootfs.unwrap().spec_data()
    }

    pub fn new() -> (vfs: Self)
        ensures
            !vfs.is_mounted(),
    {
        Self { rootfs: None }
    }

    /// Mounts the root file system from a cpio archive.
    pub fn mount_rootfs(&mut self, data: &'static [u8]) -> (result: Result<(), Error>)
        requires
            cpio::cpio_entry_in_bounds(data@),
        ensures
            result is Ok <==> initfs::mountable(data@),
            result is Ok ==> final(self).is_mounted() && final(self).root_data() == data@,
            result is Err ==> (result matches Err(Error::InvalidFilesystem)) && *final(self)
                == *old(self),
    {
        let driver = InitFsDriver::new();
        match driver.mount_from_static_data(data) {
            Ok(device) => {
                self.rootfs = Some(device);
                Ok(())
            },
            Err(e) => Err(e),
        }
    }

    /// Opens `path` on the root file system.
    pub fn open(&self, path: &str, mode: OpenMode) -> (result: Result<FileDescription, Error>)
        requires
            self.is_mounted(),
            initfs::lookup_in_bounds(self.root_data(), 0, initfs::strip_leading_slash(path@)),
        ensures
            mode != OpenMode::Read ==> (result matches Err(Error::OperationNotSupported)),
            mode == OpenMode::Read ==> initfs::open_result(
                self.root_data(),
                initfs::strip_leading_slash(path@),
                result,
            ),
    {
        match &self.rootfs {
            Some(fs) => fs.open(path, mode),
            None => Err(Error::NoMatchingDriverFound),
        }
    }

    /// Reads from `fd` into `buffer`.
    pub fn read(&self, fd: &mut FileDescription, buffer: &mut [u8]) -> (result: Result<
        usize,
        Error,
    >)
        requires
            self.is_mounted(),
            initfs::read_in_bounds(self.root_data(), *old(fd), old(buffer)@.len()),
        ensures
            initfs::read_result(
                self.root_data(),
                *old(fd),
                *final(fd),
                old(buffer)@,
                final(buffer)@,
                result,
            ),
    {
        match &self.rootfs {
            Some(fs) => fs.read(fd, buffer),
            None => Err(Error::NoMatchingDriverFound),
        }
    }

    /// Moves the read offset of `file`.
    pub fn fseek(file: &mut FileDescription, seek_mode: SeekMode) -> (result: Result<(), Error>)
        requires
            seek_mode matches SeekMode::CurrentPosition(offset) ==> old(file).spec_read_offset()
                + offset <= usize::MAX,
        ensures
            seek_result(*old(file), seek_mode, *final(file), result),
    {
        let requested_offset = match seek_mode {
            SeekMode::Start(offset) => offset,
            SeekMode::CurrentPosition(offset) => file.read_offset + offset,
            SeekMode::End => file.size,
        };

        if requested_offset > file.size {
            return Err(Error::EndOfFile);
        }

        file.read_offset = requested_offset;
        Ok(())
    }

    /// Closes `fd`.
    pub fn close(&self, fd: FileDescription) {
        match &self.rootfs {
            Some(fs) => fs.close(fd),
            None => {},
        }
    }
}

/// Whether `c` has the Unicode `White_Space` property: tab, line feed,
/// vertical tab, form feed, carriage return, space, next line, no-break
/// space, ogham space mark, the spaces from en quad to hair space, line
/// separator, paragraph separator, narrow no-break space, medium
/// mathematical space and ideographic space.
pub open spec fn is_white_space(c: char) -> bool {
    let u = c as u32;
    ||| 0x09 <= u <= 0x0D
    ||| u == 0x20
    ||| u == 0x85
    ||| u == 0xA0
    ||| u == 0x1680
    ||| 0x2000 <= u <= 0x200A
    ||| u == 0x2028
    ||| u == 0x2029
    ||| u == 0x202F
    ||| u == 0x205F
    ||| u == 0x3000
}

/// `s` without its leading white space.
pub open spec fn trim_start_white(s: Seq<char>) -> Seq<char>
    decreases s.len(),
{
    if s.len() > 0 && is_white_space(s[0]) {
        trim_start_white(s.drop_first())
    } else {
        s
    }
}

/// `s` without its trailing white space.
pub open spec fn trim_end_white(s: Seq<char>) -> Seq<char>
    decreases s.len(),
{
    if s.len() > 0 && is_white_space(s.last()) {
        trim_end_white(s.drop_last())
    } else {
        s
    }
}

/// `s` without its leading and trailing white space.
pub open spec fn trimmed(s: Seq<char>) -> Seq<char> {
    trim_end_white(trim_start_white(s))
}

/// `str::trim`: the slice with leading and trailing white space removed,
/// where white space is what has the Unicode `White_Space` property, as the
/// standard library documents.
#[verifier::external_body]
fn trim(s: &str) -> (t: &str)
    ensures
        t@ == trimmed(s@),
{
    s.trim()
}

/// `s` without its leading `c` characters.
pub open spec fn trim_start_char(s: Seq<char>, c: char) -> Seq<char>
    decreases s.len(),
{
    if s.len() > 0 && s[0] == c {
        trim_start_char(s.skip(1), c)
    } else {
        s
    }
}

/// `s` without its trailing `c` characters.
pub open spec fn trim_end_char(s: Seq<char>, c: char) -> Seq<char>
    decreases s.len(),
{
    if s.len() > 0 && s.last() == c {
        trim_end_char(s.drop_last(), c)
    } else {
        s
    }
}

/// `str::trim_start_matches` with a character pattern: all leading
/// occurrences of `c` removed, as the standard library documents.
#[verifier::external_body]
fn trim_start_matches(s: &str, c: char) -> (t: &str)
    ensures
        t@ == trim_start_char(s@, c),
{
    s.trim_start_matches(c)
}

/// `str::trim_end_matches` with a character pattern: all trailing
/// occurrences of `c` removed.
#[verifier::external_body]
fn trim_end_matches(s: &str, c: char) -> (t: &str)
    ensures
        t@ == trim_end_char(s@, c),
{
    s.trim_end_matches(c)
}

/// Index of the first `c` in `s`, or -1.
pub open spec fn find_char(s: Seq<char>, c: char) -> int
    decreases s.len(),
{
    if s.len() == 0 {
        -1
    } else if s[0] == c {
        0
    } else {
        let r = find_char(s.skip(1), c);
        if r < 0 {
            -1
        } else {
            r + 1
        }
    }
}

proof fn lemma_find_char_bounds(s: Seq<char>, c: char)
    ensures
        -1 <= find_char(s, c) < s.len(),
        find_char(s, c) >= 0 ==> s[find_char(s, c)] == c,
    decreases s.len(),
{
    if s.len() > 0 && s[0] != c {
        lemma_find_char_bounds(s.skip(1), c);
    }
}

/// `str::split_once` with a character pattern: the parts before and after
/// the first occurrence of `c`.
#[verifier::external_body]
fn split_once(s: &str, c: char) -> (parts: Option<(&str, &str)>)
    ensures
        parts is Some <==> find_char(s@, c) >= 0,
        parts matches Some((a, b)) ==> a@ == s@.take(find_char(s@, c)) && b@ == s@.skip(
            find_char(s@, c) + 1,
        ),
{
    s.split_once(c)
}

/// The non-empty `/`-separated components of `s`.
pub open spec fn path_components(s: Seq<char>) -> Seq<Seq<char>>
    decreases s.len(),
{
    if s.len() == 0 {
        seq![]
    } else {
        let i = find_char(s, '/');
        if i < 0 || i >= s.len() {
            seq![s]
        } else if i == 0 {
            path_components(s.skip(i + 1))
        } else {
            seq![s.take(i)] + path_components(s.skip(i + 1))
        }
    }
}

/// An absolute path.
pub struct Path<'a> {
    path: &'a str,
}

/// The path text kept for `string` after trimming, or `None` when it is not
/// absolute.
pub open spec fn path_text(string: Seq<char>) -> Option<Seq<char>> {
    let t = trimmed(string);
    if t.len() > 0 && t[0] == '/' {
        Some(trim_end_char(trim_start_char(t, '/'), '/'))
    } else {
        None
    }
}

impl<'a> Path<'a> {
    /// The path without leading and trailing separators.
    pub closed spec fn text(&self) -> Seq<char> {
        self.path@
    }

    /// Builds an absolute path. Fails on a string that, once trimmed, does
    /// not start with `/`.
    pub fn try_from(string: &'a str) -> (result: Result<Self, ()>)
        ensures
            result is Ok <==> path_text(string@) is Some,
            result matches Ok(p) ==> p.text() == path_text(string@).unwrap(),
    {
        let string = trim(string);
        if strip_prefix_slash(string).is_none() {
            return Err(());
        }
        let path = trim_end_matches(trim_start_matches(string, '/'), '/');
        Ok(Self { path })
    }

    /// Iterator over the path components.
    pub fn iter(&self) -> (iter: PathIter<'a>)
        ensures
            iter.rest() == self.text(),
    {
        PathIter { path: self.path }
    }

    /// The path components, in order.
    pub fn components(&self) -> (components: Vec<&'a str>)
        ensures
            components@.len() == path_components(self.text()).len(),
            forall|i: int| 0 <= i < components@.len() ==> #[trigger] components@[i]@ == path_components(self.text())[i],
    {
        let mut iter = self.iter();
        let mut components: Vec<&'a str> = Vec::new();
        let ghost all = path_components(self.text());
        loop
            invariant
                all == path_components(self.text()),
                all == components@.map_values(|c: &'a str| c@) + path_components(iter.rest()),
            ensures
                all == components@.map_values(|c: &'a str| c@),
            decreases iter.rest().len(),
        {
            let ghost before = iter.rest();
            match iter.next() {
                Some(component) => {
                    proof {
                        assert(components@.push(component).map_values(|c: &'a str| c@) =~= components@.map_values(|c: &'a str| c@).push(component@));
                        assert(all =~= components@.push(component).map_values(|c: &'a str| c@) + path_components(iter.rest()));
                    }
                    components.push(component);
                },
                None => {
                    proof {
                        assert(all =~= components@.map_values(|c: &'a str| c@));
                    }
                    break;
                },
            }
        }
        assert(components@.len() == all.len());
        components
    }
}

fn strip_prefix_slash(s: &str) -> (rest: Option<&str>)
    ensures
        rest is Some <==> (s@.len() > 0 && s@[0] == '/'),
{
    crate::strings::strip_prefix_char(s, '/')
}

/// Iterator over the components of a [`Path`].
pub struct PathIter<'a> {
    path: &'a str,
}

impl<'a> PathIter<'a> {
    /// The text that is left to split.
    pub closed spec fn rest(&self) -> Seq<char> {
        self.path@
    }

    /// The next non-empty component.
    pub fn next(&mut self) -> (component: Option<&'a str>)
        ensures
            component is None ==> path_components(old(self).rest()) == Seq::<Seq<char>>::empty()
                && path_components(final(self).rest()) == Seq::<Seq<char>>::empty(),
            component matches Some(c) ==> path_components(old(self).rest()) == seq![c@]
                + path_components(final(self).rest()),
            component is Some ==> final(self).rest().len() < old(self).rest().len(),
    {
        if self.path.is_empty() {
            proof {
                assert(path_components(self.path@) =~= Seq::<Seq<char>>::empty());
            }
            return None;
        }
        let ghost start = self.path@;
        loop
            invariant
                start == old(self).rest(),
                path_components(start) == path_components(self.path@),
                self.path@.len() <= start.len(),
                start.len() > 0,
            decreases self.path@.len(),
        {
            let ghost s = self.path@;
            proof {
                lemma_find_char_bounds(s, '/');
            }
            match split_once(self.path, '/') {
                Some((component, path)) => {
                    let ghost i = find_char(s, '/');
                    self.path = path;
                    if component.is_empty() {
                        proof {
                            assert(i == 0);
                            assert(path_components(s) == path_components(s.skip(i + 1)));
                        }
                        continue;
                    }
                    proof {
                        assert(path_components(s) == seq![s.take(i)] + path_components(s.skip(i + 1)));
                    }
                    return Some(component);
                },
                None => {
                    if !self.path.is_empty() {
                        let component = self.path;
                        let empty = "";
                        proof {
                            reveal_strlit("");
                            assert(path_components(s) == seq![s]);
                        }
                        self.path = empty;
                        proof {
                            assert(self.path@.len() == 0);
                            assert(path_components(self.path@) =~= Seq::<Seq<char>>::empty());
                            assert(seq![component@] + path_components(self.path@) =~= seq![s]);
                        }
                        return Some(component);
                    }
                    proof {
                        assert(path_components(self.path@) =~= Seq::<Seq<char>>::empty());
                    }
                    return None;
                },
            }
        }
    }
}

} // verus!
