//! RAM file system backed by a cpio archive that is loaded with the kernel;
//! used as the root file system. Records are expected in depth-first order.
use vstd::prelude::*;

use crate::filesystem::cpio::{
    self, align4, cpio_entry_in_bounds, cpio_field, cpio_name, cpio_namesize, cpio_rest_parses,
    cpio_sizes_parse, trailer_name, CpioHeader, FILESIZE, HEADER_SIZE_BYTES, INODE, MODE, UID, GID,
};
use crate::filesystem::permissions::{
    S_IFBLK, S_IFCHR, S_IFDIR, S_IFIFO, S_IFLNK, S_IFMT, S_IFREG, S_IFSOCK,
};
use crate::filesystem::{Error, FileDescription, FileType, OpenMode};
use crate::strings::{str_eq, strip_prefix_char};

verus! {

/// The file type encoded in a mode.
pub open spec fn filetype_from_mode(mode: u32) -> Option<FileType> {
    let t = mode & 0o0170000u32;
    if t == 0o0010000u32 {
        Some(FileType::Fifo)
    } else if t == 0o0040000u32 {
        Some(FileType::Directory)
    } else if t == 0o0100000u32 {
        Some(FileType::RegularFile)
    } else if t == 0o0020000u32 {
        Some(FileType::CharDevice)
    } else if t == 0o0060000u32 {
        Some(FileType::BlockDevice)
    } else if t == 0o0120000u32 {
        Some(FileType::SymbolicLink)
    } else if t == 0o0140000u32 {
        Some(FileType::Socket)
    } else {
        None
    }
}

/// `path` without one leading `/`.
pub open spec fn strip_leading_slash(path: Seq<char>) -> Seq<char> {
    if path.len() > 0 && path[0] == '/' {
        path.skip(1)
    } else {
        path
    }
}

/// The entry at `offset` parses completely.
pub open spec fn entry_ok(data: Seq<u8>, offset: int) -> bool {
    &&& 0 <= offset <= data.len()
    &&& cpio_entry_in_bounds(data.skip(offset))
    &&& cpio_sizes_parse(data.skip(offset))
    &&& cpio_rest_parses(data.skip(offset))
}

/// Distance from the entry at `offset` to the next one.
pub open spec fn next_offset(data: Seq<u8>, offset: int) -> int {
    let d = data.skip(offset);
    align4(
        align4(HEADER_SIZE_BYTES + cpio_namesize(d)) + cpio_field(d, FILESIZE as int).unwrap()
            as int,
    )
}

/// Walking the archive from `offset` in search of `path` only meets
/// entries that parse, and stops at the trailer or at `path`.
pub open spec fn lookup_in_bounds(data: Seq<u8>, offset: int, path: Seq<char>) -> bool
    decreases data.len() - offset,
{
    &&& entry_ok(data, offset)
    &&& (cpio_name(data.skip(offset)) == trailer_name() || cpio_name(data.skip(offset)) == path
        || (offset + next_offset(data, offset) <= data.len() && next_offset(data, offset) > 0
        && lookup_in_bounds(data, offset + next_offset(data, offset), path)))
}

/// One step of the walk: the entry at `offset` parses, and unless it is the
/// trailer or `path`, the walk goes on at the next entry with the same answer.
proof fn lemma_lookup_step(data: Seq<u8>, offset: int, path: Seq<char>)
    requires
        lookup_in_bounds(data, offset, path),
    ensures
        entry_ok(data, offset),
        cpio_name(data.skip(offset)) == trailer_name() ==> find_entry(data, offset, path) is None,
        cpio_name(data.skip(offset)) != trailer_name() && cpio_name(data.skip(offset)) == path
            ==> find_entry(data, offset, path) == Some(offset),
        cpio_name(data.skip(offset)) != trailer_name() && cpio_name(data.skip(offset)) != path
            ==> {
            &&& offset + next_offset(data, offset) <= data.len()
            &&& next_offset(data, offset) > 0
            &&& lookup_in_bounds(data, offset + next_offset(data, offset), path)
            &&& find_entry(data, offset, path) == find_entry(
                data,
                offset + next_offset(data, offset),
                path,
            )
        },
{
}

/// Offset of the entry named `path`, searching from `offset`.
pub open spec fn find_entry(data: Seq<u8>, offset: int, path: Seq<char>) -> Option<int>
    decreases data.len() - offset,
{
    if !entry_ok(data, offset) || cpio_name(data.skip(offset)) == trailer_name() {
        None
    } else if cpio_name(data.skip(offset)) == path {
        Some(offset)
    } else if offset + next_offset(data, offset) <= data.len() && next_offset(data, offset) > 0 {
        find_entry(data, offset + next_offset(data, offset), path)
    } else {
        None
    }
}

/// The description of the file recorded at `offset`, which is `fd`.
pub open spec fn describes(fd: FileDescription, data: Seq<u8>, offset: int) -> bool {
    let d = data.skip(offset);
    &&& filetype_from_mode(cpio_field(d, MODE as int).unwrap()) == Some(fd.spec_filetype())
    &&& fd.spec_block_offset() == offset
    &&& fd.spec_inode_number() == cpio_field(d, INODE as int).unwrap() as u64
    &&& fd.spec_mode() == cpio_field(d, MODE as int).unwrap()
    &&& fd.spec_group_id() == cpio_field(d, GID as int).unwrap()
    &&& fd.spec_user_id() == cpio_field(d, UID as int).unwrap()
    &&& fd.spec_size() == cpio_field(d, FILESIZE as int).unwrap() as usize
    &&& fd.spec_read_offset() == 0
}

/// What opening `path` for reading answers.
pub open spec fn open_result(data: Seq<u8>, path: Seq<char>, result: Result<FileDescription, Error>) -> bool {
    match find_entry(data, 0, path) {
        None => result matches Err(Error::FileNotFound),
        Some(offset) => match filetype_from_mode(cpio_field(data.skip(offset), MODE as int).unwrap()) {
            None => result matches Err(Error::FileNotFound),
            Some(_) => result matches Ok(fd) && describes(fd, data, offset),
        },
    }
}

/// Offset in the archive of the first data byte of the file of `fd`.
pub open spec fn file_data_start(data: Seq<u8>, fd: FileDescription) -> int {
    fd.spec_block_offset() + align4(HEADER_SIZE_BYTES + cpio_namesize(data.skip(fd.spec_block_offset() as int)))
}

/// Reading `buffer_len` bytes through `fd` stays inside the archive.
pub open spec fn read_in_bounds(data: Seq<u8>, fd: FileDescription, buffer_len: nat) -> bool {
    &&& entry_ok(data, fd.spec_block_offset() as int)
    &&& cpio_name(data.skip(fd.spec_block_offset() as int)) != trailer_name()
    &&& file_data_start(data, fd) <= usize::MAX
    &&& fd.spec_read_offset() <= fd.spec_size() ==> {
        &&& buffer_len <= fd.spec_size() - fd.spec_read_offset()
        &&& file_data_start(data, fd) + fd.spec_read_offset() + buffer_len <= data.len()
    }
}

/// What a read answers and how it changes the description and the buffer.
pub open spec fn read_result(
    data: Seq<u8>,
    fd: FileDescription,
    new_fd: FileDescription,
    buffer: Seq<u8>,
    new_buffer: Seq<u8>,
    result: Result<usize, Error>,
) -> bool {
    if fd.spec_read_offset() > fd.spec_size() {
        &&& result matches Err(Error::EndOfFile)
        &&& new_fd == fd
        &&& new_buffer == buffer
    } else {
        let start = file_data_start(data, fd) + fd.spec_read_offset();
        &&& result == Ok::<usize, Error>(buffer.len() as usize)
        &&& new_buffer == data.subrange(start, start + buffer.len())
        &&& new_fd.spec_read_offset() == fd.spec_read_offset() + buffer.len()
        &&& new_fd.spec_size() == fd.spec_size()
        &&& new_fd.spec_filetype() == fd.spec_filetype()
        &&& new_fd.spec_mode() == fd.spec_mode()
        &&& new_fd.spec_user_id() == fd.spec_user_id()
        &&& new_fd.spec_group_id() == fd.spec_group_id()
        &&& new_fd.spec_block_offset() == fd.spec_block_offset()
        &&& new_fd.spec_inode_number() == fd.spec_inode_number()
    }
}

/// The contents of the file of `fd`: its `size` bytes of data in the
/// archive, after its record's header and name.
pub open spec fn file_contents(data: Seq<u8>, fd: FileDescription) -> Seq<u8> {
    data.subrange(file_data_start(data, fd), file_data_start(data, fd) + fd.spec_size())
}

/// A read hands out the file's bytes from the read offset on and moves the
/// offset past them, so two reads in a row hand out consecutive stretches
/// of the file: together, the bytes from the first read offset on.
pub proof fn law_reads_follow_the_file(
    data: Seq<u8>,
    fd0: FileDescription,
    fd1: FileDescription,
    fd2: FileDescription,
    buffer0: Seq<u8>,
    read0: Seq<u8>,
    r0: Result<usize, Error>,
    buffer1: Seq<u8>,
    read1: Seq<u8>,
    r1: Result<usize, Error>,
)
    requires
        read_in_bounds(data, fd0, buffer0.len()),
        read_result(data, fd0, fd1, buffer0, read0, r0),
        read_in_bounds(data, fd1, buffer1.len()),
        read_result(data, fd1, fd2, buffer1, read1, r1),
        fd0.spec_read_offset() <= fd0.spec_size(),
        file_data_start(data, fd0) + fd0.spec_size() <= data.len(),
    ensures
        r0 == Ok::<usize, Error>(buffer0.len() as usize),
        read0 == file_contents(data, fd0).subrange(
            fd0.spec_read_offset() as int,
            fd0.spec_read_offset() + buffer0.len(),
        ),
        fd1.spec_read_offset() == fd0.spec_read_offset() + buffer0.len(),
        r1 == Ok::<usize, Error>(buffer1.len() as usize),
        read0 + read1 == file_contents(data, fd0).subrange(
            fd0.spec_read_offset() as int,
            fd0.spec_read_offset() + buffer0.len() + buffer1.len(),
        ),
        fd2.spec_read_offset() == fd0.spec_read_offset() + buffer0.len() + buffer1.len(),
{
    let s = file_data_start(data, fd0);
    let o = fd0.spec_read_offset() as int;
    assert(file_data_start(data, fd1) == s);
    assert(read0 =~= file_contents(data, fd0).subrange(o, o + buffer0.len()));
    assert(read0 + read1 =~= file_contents(data, fd0).subrange(o, o + buffer0.len() + buffer1.len()));
}

/// Whether two answers to an open are the same: the same error, or
/// descriptions of the same file at the same offset.
pub open spec fn same_open_answer(a: Result<FileDescription, Error>, b: Result<FileDescription, Error>) -> bool {
    match (a, b) {
        (Ok(x), Ok(y)) => {
            &&& x.spec_block_offset() == y.spec_block_offset()
            &&& x.spec_inode_number() == y.spec_inode_number()
            &&& x.spec_filetype() == y.spec_filetype()
            &&& x.spec_mode() == y.spec_mode()
            &&& x.spec_user_id() == y.spec_user_id()
            &&& x.spec_group_id() == y.spec_group_id()
            &&& x.spec_size() == y.spec_size()
            &&& x.spec_read_offset() == y.spec_read_offset()
        },
        (Err(x), Err(y)) => x == y,
        _ => false,
    }
}

/// Paths name archive entries without their leading `/`: opening
/// "/" + `name` answers what the entry named `name` answers, finding it
/// whenever the archive holds it with a known file type, and for a name
/// that does not start with `/`, opening "/" + `name` and opening `name`
/// give the same answer.
pub proof fn law_absolute_paths_name_archive_entries(
    data: Seq<u8>,
    name: Seq<char>,
    absolute: Result<FileDescription, Error>,
    relative: Result<FileDescription, Error>,
)
    requires
        open_result(data, strip_leading_slash(seq!['/'] + name), absolute),
        open_result(data, strip_leading_slash(name), relative),
    ensures
        open_result(data, name, absolute),
        forall|offset: int|
            find_entry(data, 0, name) == Some(offset) && (#[trigger] filetype_from_mode(
                cpio_field(data.skip(offset), MODE as int).unwrap(),
            )) is Some ==> (absolute matches Ok(fd) && describes(fd, data, offset)),
        (name.len() == 0 || name[0] != '/') ==> same_open_answer(absolute, relative),
{
    assert((seq!['/'] + name).skip(1) =~= name);
}

/// An archive can be mounted when its first entry parses and is not the
/// trailer.
pub open spec fn mountable(data: Seq<u8>) -> bool {
    &&& cpio_sizes_parse(data)
    &&& cpio_rest_parses(data)
    &&& cpio_name(data) != trailer_name()
}

/// A mounted cpio archive.
pub struct InitFsDevice {
    data: &'static [u8],
}

impl InitFsDevice {
    /// The archive.
    pub closed spec fn spec_data(&self) -> Seq<u8> {
        self.data@
    }

    fn new(data: &'static [u8]) -> (device: Self)
        ensures
            device.spec_data() == data@,
    {
        Self { data }
    }

    fn filetype_from_cpio_hdr(&self, header: &CpioHeader) -> (result: Result<FileType, Error>)
        ensures
            match filetype_from_mode(header.mode) {
                Some(t) => result == Ok::<FileType, Error>(t),
                None => result matches Err(Error::InvalidFileDescription),
            },
    {
        let t = header.mode & S_IFMT;
        if t == S_IFIFO {
            Ok(FileType::Fifo)
        } else if t == S_IFDIR {
            Ok(FileType::Directory)
        } else if t == S_IFREG {
            Ok(FileType::RegularFile)
        } else if t == S_IFCHR {
            Ok(FileType::CharDevice)
        } else if t == S_IFBLK {
            Ok(FileType::BlockDevice)
        } else if t == S_IFLNK {
            Ok(FileType::SymbolicLink)
        } else if t == S_IFSOCK {
            Ok(FileType::Socket)
        } else {
            Err(Error::InvalidFileDescription)
        }
    }

    fn find_node(&self, path: &str) -> (node: Option<FileDescription>)
        requires
            lookup_in_bounds(self.data@, 0, strip_leading_slash(path@)),
        ensures
            match find_entry(self.data@, 0, strip_leading_slash(path@)) {
                None => node is None,
                Some(offset) => match filetype_from_mode(
                    cpio_field(self.data@.skip(offset), MODE as int).unwrap(),
                ) {
                    None => node is None,
                    Some(_) => node matches Some(fd) && describes(fd, self.data@, offset),
                },
            },
    {
        let name = match strip_prefix_char(path, '/') {
            Some(rest) => rest,
            None => path,
        };
        let ghost target = strip_leading_slash(path@);
        assert(name@ == target);
        let mut offset: usize = 0;
        loop
            invariant
                name@ == target,
                target == strip_leading_slash(path@),
                lookup_in_bounds(self.data@, offset as int, target),
                find_entry(self.data@, offset as int, target) == find_entry(self.data@, 0, target),
            decreases self.data@.len() - offset,
        {
            proof {
                lemma_lookup_step(self.data@, offset as int, target);
            }
            let entry_data = &self.data[offset..self.data.len()];
            assert(entry_data@ == self.data@.skip(offset as int));
            match cpio::parse_entry(entry_data) {
                Ok(Some(entry)) => {
                    if str_eq(entry.name, name) {
                        let filetype = match self.filetype_from_cpio_hdr(&entry) {
                            Ok(t) => t,
                            Err(_) => {
                                return None;
                            },
                        };
                        return Some(
                            FileDescription {
                                block_offset: offset,
                                inode_number: entry.inode as u64,
                                filetype,
                                mode: entry.mode,
                                group_id: entry.gid,
                                user_id: entry.uid,
                                size: entry.filesize as usize,
                                read_offset: 0,
                            },
                        );
                    }
                    assert(next_offset(self.data@, offset as int) == entry.next_entry_offset);
                    offset = offset + entry.next_entry_offset;
                },
                Ok(None) => {
                    return None;
                },
                Err(_) => {
                    return None;
                },
            }
        }
    }

    pub fn open(&self, path: &str, mode: OpenMode) -> (result: Result<FileDescription, Error>)
        requires
            lookup_in_bounds(self.spec_data(), 0, strip_leading_slash(path@)),
        ensures
            mode != OpenMode::Read ==> (result matches Err(Error::OperationNotSupported)),
            mode == OpenMode::Read ==> open_result(self.spec_data(), strip_leading_slash(path@), result),
    {
        if mode != OpenMode::Read {
            return Err(Error::OperationNotSupported);
        }
        match self.find_node(path) {
            Some(fd) => Ok(fd),
            None => Err(Error::FileNotFound),
        }
    }

    pub fn read(&self, fd: &mut FileDescription, buffer: &mut [u8]) -> (result: Result<usize, Error>)
        requires
            read_in_bounds(self.spec_data(), *old(fd), old(buffer)@.len()),
        ensures
            read_result(self.spec_data(), *old(fd), *final(fd), old(buffer)@, final(buffer)@, result),
    {
        let entry_data = &self.data[fd.block_offset..self.data.len()];
        assert(entry_data@ == self.data@.skip(fd.block_offset as int));
        let header = match cpio::parse_entry(entry_data) {
            Ok(Some(header)) => header,
            _ => {
                return Err(Error::InvalidFileDescription);
            },
        };
        let data_offset = fd.block_offset + header.data_offset;

        if fd.read_offset > fd.size {
            return Err(Error::EndOfFile);
        }

        let available_bytes = fd.size - fd.read_offset;

        let copy_size = if buffer.len() > available_bytes {
            available_bytes
        } else {
            buffer.len()
        };

        let offset = data_offset + fd.read_offset;
        let data_len = self.data.len();
        let mut i: usize = 0;
        while i < copy_size
            invariant
                copy_size == old(buffer)@.len(),
                buffer@.len() == old(buffer)@.len(),
                offset + copy_size <= self.data@.len(),
                data_len == self.data@.len(),
                i <= copy_size,
                forall|j: int| 0 <= j < i ==> buffer@[j] == self.data@[offset + j],
            decreases copy_size - i,
        {
            buffer[i] = self.data[offset + i];
            i = i + 1;
        }
        assert(buffer@ =~= self.data@.subrange(offset as int, offset + copy_size));

        fd.read_offset = fd.read_offset + copy_size;
        Ok(copy_size)
    }

    pub fn close(&self, fd: FileDescription) {
    }
}

/// Driver that mounts [`InitFsDevice`]s.
pub struct InitFsDriver {}

impl InitFsDriver {
    pub fn new() -> Self {
        InitFsDriver {  }
    }

    /// Mounting from a source path is not supported by this driver.
    pub fn mount(&self, target_path: &str, source_path: Option<&str>, options: &str) -> (result:
        Result<InitFsDevice, Error>)
        ensures
            result matches Err(Error::OperationNotSupported),
    {
        Err(Error::OperationNotSupported)
    }

    /// Mounts the archive in `data`; the first entry must parse and must not
    /// be the trailer.
    pub fn mount_from_static_data(&self, data: &'static [u8]) -> (result: Result<
        InitFsDevice,
        Error,
    >)
        requires
            cpio_entry_in_bounds(data@),
        ensures
            result is Ok <==> mountable(data@),
            result matches Ok(device) ==> device.spec_data() == data@,
            result is Err ==> (result matches Err(Error::InvalidFilesystem)),
    {
        match cpio::parse_entry(data) {
            Ok(Some(_)) => Ok(InitFsDevice::new(data)),
            Ok(None) => Err(Error::InvalidFilesystem),
            Err(_) => Err(Error::InvalidFilesystem),
        }
    }
}

} // verus!
