//! File mode bits.
use vstd::prelude::*;

verus! {

// User
pub const S_IREAD: u32 = 0o400;
pub const S_IWRITE: u32 = 0o200;
pub const S_IEXEC: u32 = 0o100;

pub const S_IRUSR: u32 = 0o400;
pub const S_IWUSR: u32 = 0o200;
pub const S_IXUSR: u32 = 0o100;
pub const S_IRWXU: u32 = 0o700;

// Group
pub const S_IRGRP: u32 = 0o040;
pub const S_IWGRP: u32 = 0o020;
pub const S_IXGRP: u32 = 0o010;
pub const S_IRWXG: u32 = 0o070;

// Others
pub const S_IROTH: u32 = 0o004;
pub const S_IWOTH: u32 = 0o002;
pub const S_IXOTH: u32 = 0o001;
pub const S_IRWXO: u32 = 0o007;

/// Set user id.
pub const S_ISUID: u32 = 0o4000;
/// Set group id.
pub const S_ISGID: u32 = 0o2000;
/// Sticky bit.
pub const S_ISVTX: u32 = 0o1000;

/// File type mask.
pub const S_IFMT: u32 = 0o0170000;
/// FIFO type.
pub const S_IFIFO: u32 = 0o0010000;
/// Character device type.
pub const S_IFCHR: u32 = 0o0020000;
/// Directory type.
pub const S_IFDIR: u32 = 0o0040000;
/// Block device type.
pub const S_IFBLK: u32 = 0o0060000;
/// Regular file type.
pub const S_IFREG: u32 = 0o0100000;
/// Symbolic link type.
pub const S_IFLNK: u32 = 0o0120000;
/// Socket type.
pub const S_IFSOCK: u32 = 0o0140000;

} // verus!
