//! Directory entries: what a scan reports of a filesystem node, and the
//! entry that a listing returns for it.

use vstd::prelude::*;
use crate::sort::arranged;
use crate::text::text_of;

verus! {

/// One filesystem node of a listing.
#[derive(Debug, Clone, PartialEq, Eq)]
pub struct DirectoryEntry {
    /// Base name; never starts with a dot.
    pub name: String,
    /// Full path.
    pub path: String,
    /// Whether the node is a directory.
    pub is_dir: bool,
    /// Length in bytes; 0 for a directory.
    pub size: u64,
    /// Lowercase extension of an audio file; absent for a directory.
    pub extension: Option<String>,
    /// Time of the last change in seconds since the epoch, where known.
    pub modified_time: Option<i64>,
}

/// The mathematical value of a `DirectoryEntry`.
pub ghost struct EntryView {
    pub name: Seq<char>,
    pub path: Seq<char>,
    pub is_dir: bool,
    pub size: u64,
    pub extension: Option<Seq<char>>,
    pub modified_time: Option<i64>,
}

impl View for DirectoryEntry {
    type V = EntryView;

    open spec fn view(&self) -> EntryView {
        EntryView {
            name: self.name@,
            path: self.path@,
            is_dir: self.is_dir,
            size: self.size,
            extension: text_of(self.extension),
            modified_time: self.modified_time,
        }
    }
}

/// The values of a sequence of entries.
pub open spec fn entry_views(entries: Seq<DirectoryEntry>) -> Seq<EntryView> {
    Seq::new(entries.len(), |i: int| entries[i]@)
}

/// What enumerating a directory reports of one child.
#[derive(Debug, Clone, PartialEq, Eq)]
pub struct Child {
    /// Base name.
    pub name: String,
    /// Full path.
    pub path: String,
    /// Whether the child is a directory.
    pub is_dir: bool,
    /// Length in bytes, as the filesystem reports it.
    pub size: u64,
    /// Time of the last change in whole seconds after the epoch, where
    /// the filesystem gives one.
    pub modified_secs: Option<u64>,
}

/// Seconds after the epoch as a signed count, wrapping modulo 2^64.
pub open spec fn signed_seconds(secs: u64) -> i64 {
    if secs <= i64::MAX as u64 {
        secs as i64
    } else {
        (secs - 0x1_0000_0000_0000_0000) as i64
    }
}

/// The signed form of an optional count of seconds.
pub open spec fn signed_time(secs: Option<u64>) -> Option<i64> {
    match secs {
        Some(s) => Some(signed_seconds(s)),
        None => None,
    }
}

/// Converts a count of seconds after the epoch to a signed count.
pub fn epoch_seconds(secs: u64) -> (r: i64)
    ensures
        r == signed_seconds(secs),
{
    if secs <= 0x7fff_ffff_ffff_ffff {
        secs as i64
    } else {
        let low: u64 = secs - 0x8000_0000_0000_0000;
        (low as i64) + i64::MIN
    }
}

impl DirectoryEntry {
    /// A second entry with the same value.
    pub fn duplicate(&self) -> (r: DirectoryEntry)
        ensures
            r@ == self@,
    {
        let extension = match &self.extension {
            Some(e) => Some(e.clone()),
            None => None,
        };
        DirectoryEntry {
            name: self.name.clone(),
            path: self.path.clone(),
            is_dir: self.is_dir,
            size: self.size,
            extension,
            modified_time: self.modified_time,
        }
    }
}

/// The entries of `entries` in the arrangement `order`.
pub fn arrange(entries: &Vec<DirectoryEntry>, order: &Vec<usize>) -> (out: Vec<DirectoryEntry>)
    requires
        forall|k: int| 0 <= k < order@.len() ==> (#[trigger] order@[k] as int) < entries@.len(),
    ensures
        entry_views(out@) == arranged(entry_views(entries@), order@),
{
    let mut out: Vec<DirectoryEntry> = Vec::new();
    let mut k: usize = 0;
    while k < order.len()
        invariant
            k <= order.len(),
            out@.len() == k,
            forall|j: int| 0 <= j < order@.len() ==> (#[trigger] order@[j] as int) < entries@.len(),
            forall|j: int| 0 <= j < k ==> (#[trigger] out@[j])@ == entries@[order@[j] as int]@,
        decreases order.len() - k,
    {
        out.push(entries[order[k]].duplicate());
        k += 1;
    }
    assert(entry_views(out@) =~= arranged(entry_views(entries@), order@));
    out
}

} // verus!
