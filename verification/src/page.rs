//! Page layout constants and page type codes.

use vstd::prelude::*;

verus! {

/// Default page size in bytes (4KB).
pub const PAGE_SIZE: usize = 4096;

/// Magic number identifying thunder database files ("THND" in ASCII).
pub const MAGIC: u32 = 0x54_48_4E_44;

/// Current database file format version.
pub const VERSION: u32 = 1;

/// Page identifier type.
pub type PageId = u64;

/// Page types used in the database file.
#[derive(Debug, Clone, Copy, PartialEq, Eq, Structural)]
pub enum PageType {
    /// Meta page containing database metadata.
    Meta,
    /// Freelist page tracking free pages.
    Freelist,
    /// Branch page (internal ordered-index node).
    Branch,
    /// Leaf page (key-value pairs).
    Leaf,
}

impl PageType {
    /// The on-disk code of this page type.
    pub fn code(self) -> (r: u8)
        ensures
            r == self.code_spec(),
    {
        match self {
            PageType::Meta => 1,
            PageType::Freelist => 2,
            PageType::Branch => 3,
            PageType::Leaf => 4,
        }
    }

    /// The on-disk code, as a specification-level function.
    pub open spec fn code_spec(self) -> u8 {
        match self {
            PageType::Meta => 1,
            PageType::Freelist => 2,
            PageType::Branch => 3,
            PageType::Leaf => 4,
        }
    }
}

} // verus!
