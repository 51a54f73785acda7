//! What a listing shows of a file or directory.
use vstd::prelude::*;

verus! {

/// One line of a directory listing.
pub struct DiscEntry {
    pub name: String,
    pub is_dir: bool,
    pub lba: u32,
    pub size: u32,
    pub size_bytes: u32,
    pub modified: String,
    pub deleted: bool,
    pub is_xa: bool,
}

/// The contents of a listing line.
#[verifier::ext_equal]
pub struct EntryView {
    pub name: Seq<char>,
    pub is_dir: bool,
    pub lba: u32,
    pub size: u32,
    pub size_bytes: u32,
    pub modified: Seq<char>,
    pub deleted: bool,
    pub is_xa: bool,
}

impl View for DiscEntry {
    type V = EntryView;

    open spec fn view(&self) -> EntryView {
        EntryView {
            name: self.name@,
            is_dir: self.is_dir,
            lba: self.lba,
            size: self.size,
            size_bytes: self.size_bytes,
            modified: self.modified@,
            deleted: self.deleted,
            is_xa: self.is_xa,
        }
    }
}

/// The contents of the lines of a listing.
pub open spec fn listing(v: Seq<DiscEntry>) -> Seq<EntryView> {
    Seq::new(v.len(), |i: int| v[i]@)
}

/// The line for a directory of which nothing but the name is known.
pub open spec fn dir_line(name: Seq<char>) -> EntryView {
    EntryView {
        name,
        is_dir: true,
        lba: 0,
        size: 0,
        size_bytes: 0,
        modified: seq![],
        deleted: false,
        is_xa: false,
    }
}

/// The line for a file.
pub open spec fn file_line(name: Seq<char>, lba: u32, size: u32, modified: Seq<char>) -> EntryView {
    EntryView {
        name,
        is_dir: false,
        lba,
        size,
        size_bytes: size,
        modified,
        deleted: false,
        is_xa: false,
    }
}

/// A 64-bit size as a 32-bit field shows it: the largest value where it does not fit.
pub open spec fn clamped(n: int) -> u32 {
    if n > u32::MAX {
        u32::MAX
    } else {
        n as u32
    }
}

/// The line for a directory of which nothing but the name is known.
pub fn dir_entry(name: String) -> (r: DiscEntry)
    ensures
        r@ == dir_line(name@),
{
    DiscEntry {
        name,
        is_dir: true,
        lba: 0,
        size: 0,
        size_bytes: 0,
        modified: String::new(),
        deleted: false,
        is_xa: false,
    }
}

/// The line for a file.
pub fn file_entry(name: String, lba: u32, size: u32, modified: String) -> (r: DiscEntry)
    ensures
        r@ == file_line(name@, lba, size, modified@),
{
    DiscEntry {
        name,
        is_dir: false,
        lba,
        size,
        size_bytes: size,
        modified,
        deleted: false,
        is_xa: false,
    }
}

/// A 64-bit size as a 32-bit field shows it.
pub fn clamp_u32(n: u64) -> (r: u32)
    ensures
        r == clamped(n as int),
{
    if n > 0xffff_ffff {
        0xffff_ffff
    } else {
        n as u32
    }
}

} // verus!
