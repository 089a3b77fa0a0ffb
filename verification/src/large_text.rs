//! Large files kept as a B-tree of fixed-size buffers, each summarised by
//! how many bytes of content and how many line feeds it holds.
use crate::btree::BTree;
use crate::info::{BTreeInfo, BTreeItem};
use vstd::prelude::*;

verus! {

/// `a + b`, wrapping around at the size of `usize`.
pub open spec fn wrap_add(a: usize, b: usize) -> usize {
    if a + b > usize::MAX {
        (a + b - usize::MAX - 1) as usize
    } else {
        (a + b) as usize
    }
}

/// `a + b`, wrapping around at the size of `usize`.
fn wrapping_add(a: usize, b: usize) -> (r: usize)
    ensures
        r == wrap_add(a, b),
{
    if a <= usize::MAX - b {
        a + b
    } else {
        a - (usize::MAX - b) - 1
    }
}

/// A large file: whether it is the active one, where its cursor is, and its
/// text.
pub struct LargeFile {
    pub active: bool,
    pub file_cursor: usize,
    pub text: BTree<BufferView>,
}

/// A buffer of up to 4096 bytes of a file, with how many of them are
/// content and how many line feeds are among them.
pub struct BufferView {
    pub begin: Box<[u8; 4096]>,
    pub content_size: u16,
    pub newline_count: u16,
}

/// The summary of buffers: how many bytes of content and how many line
/// feeds they hold.
#[derive(Clone, Copy, Debug, PartialEq, Eq, Structural)]
pub struct BufferInfo {
    pub content_size: usize,
    pub newline_count: usize,
}

impl BufferInfo {
    /// How many bytes of content.
    pub fn content(self) -> (r: usize)
        ensures
            r == self.content_size,
    {
        self.content_size
    }

    /// How many line feeds.
    pub fn newlines(self) -> (r: usize)
        ensures
            r == self.newline_count,
    {
        self.newline_count
    }
}

impl BTreeInfo for BufferInfo {
    open spec fn spec_add(self, other: Self) -> Self {
        BufferInfo {
            content_size: wrap_add(self.content_size, other.content_size),
            newline_count: wrap_add(self.newline_count, other.newline_count),
        }
    }

    open spec fn spec_zero() -> Self {
        BufferInfo { content_size: 0, newline_count: 0 }
    }

    proof fn lemma_add_assoc(a: Self, b: Self, c: Self) {
    }

    proof fn lemma_add_comm(a: Self, b: Self) {
    }

    proof fn lemma_add_zero(a: Self) {
    }

    fn add(self, other: Self) -> (r: Self) {
        BufferInfo {
            content_size: wrapping_add(self.content_size, other.content_size),
            newline_count: wrapping_add(self.newline_count, other.newline_count),
        }
    }

    fn zero() -> (r: Self) {
        BufferInfo { content_size: 0, newline_count: 0 }
    }
}

impl BTreeItem for BufferView {
    type Info = BufferInfo;

    open spec fn spec_info(&self) -> BufferInfo {
        BufferInfo {
            content_size: self.content_size as usize,
            newline_count: self.newline_count as usize,
        }
    }

    fn get_info(&self) -> (r: BufferInfo) {
        BufferInfo {
            content_size: self.content_size as usize,
            newline_count: self.newline_count as usize,
        }
    }
}

} // verus!
