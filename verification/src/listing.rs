//! One-level directory listing: the visible directories of a scan, then its
//! visible audio files, each group in ascending order of lowercase name.

use vstd::prelude::*;
use crate::entry::{
    arrange, entry_views, epoch_seconds, signed_time, Child, DirectoryEntry, EntryView,
};
use crate::formats::{is_audio_extension, is_audio_file};
use crate::sort::{
    comes_before, is_stable_order, lemma_sorted_positions, sorted_positions, stable_order,
    stable_sorted, texts,
};
use crate::text::{
    chars_of, extension_of, file_extension, is_hidden, is_hidden_name, lowercase, lowercased,
    text_le,
};

verus! {

/// One step of enumerating a directory.
#[derive(Debug, Clone, PartialEq, Eq)]
pub enum ScanStep {
    /// A child was read, together with its metadata.
    Found(Child),
    /// The next child could not be read.
    EntryFailed(String),
    /// A child was read, but not its metadata.
    MetadataFailed(String),
}

/// Why a listing failed. Each variant carries the cause as text.
#[derive(Debug, Clone, PartialEq, Eq)]
pub enum ListError {
    /// The directory could not be enumerated.
    ReadDirectory(String),
    /// A child of the directory could not be read.
    ReadEntry(String),
    /// The metadata of a child could not be read.
    ReadMetadata(String),
}

/// Whether `error` is the failure that `step` reports.
pub open spec fn reports(error: ListError, step: ScanStep) -> bool {
    match step {
        ScanStep::Found(_) => false,
        ScanStep::EntryFailed(cause) => error matches ListError::ReadEntry(d) && d@ == cause@,
        ScanStep::MetadataFailed(cause) => error matches ListError::ReadMetadata(d) && d@
            == cause@,
    }
}

impl ListError {
    /// The text of the message for this error.
    pub open spec fn message_text(&self) -> Seq<char> {
        match self {
            ListError::ReadDirectory(cause) => "Failed to read directory: "@ + cause@,
            ListError::ReadEntry(cause) => "Failed to read entry: "@ + cause@,
            ListError::ReadMetadata(cause) => "Failed to read metadata: "@ + cause@,
        }
    }

    /// The message for this error: what failed, then the cause.
    pub fn message(&self) -> (r: String)
        ensures
            r@ == self.message_text(),
    {
        match self {
            ListError::ReadDirectory(cause) => "Failed to read directory: ".to_owned().concat(
                cause.as_str(),
            ),
            ListError::ReadEntry(cause) => "Failed to read entry: ".to_owned().concat(
                cause.as_str(),
            ),
            ListError::ReadMetadata(cause) => "Failed to read metadata: ".to_owned().concat(
                cause.as_str(),
            ),
        }
    }
}

/// The text of the message for the failure that `step` reports.
pub open spec fn failure_text(step: ScanStep) -> Seq<char> {
    match step {
        ScanStep::Found(_) => Seq::empty(),
        ScanStep::EntryFailed(cause) => "Failed to read entry: "@ + cause@,
        ScanStep::MetadataFailed(cause) => "Failed to read metadata: "@ + cause@,
    }
}

/// The step at `i` failed, and none before it did.
pub open spec fn fails_first_at(steps: Seq<ScanStep>, i: int) -> bool {
    &&& 0 <= i < steps.len()
    &&& !(steps[i] is Found)
    &&& forall|j: int| 0 <= j < i ==> #[trigger] steps[j] is Found
}

/// Whether a child is listed as a directory.
pub open spec fn shown_as_dir(child: Child) -> bool {
    !is_hidden_name(child.name@) && child.is_dir
}

/// Whether a child is listed as an audio file.
pub open spec fn shown_as_file(child: Child) -> bool {
    &&& !is_hidden_name(child.name@)
    &&& !child.is_dir
    &&& extension_of(child.name@) matches Some(ext) && is_audio_extension(lowercased(ext))
}

/// The entry listed for a directory.
pub open spec fn dir_entry(child: Child) -> EntryView {
    EntryView {
        name: child.name@,
        path: child.path@,
        is_dir: true,
        size: 0,
        extension: None,
        modified_time: signed_time(child.modified_secs),
    }
}

/// The entry listed for an audio file.
pub open spec fn file_entry(child: Child) -> EntryView {
    EntryView {
        name: child.name@,
        path: child.path@,
        is_dir: false,
        size: child.size,
        extension: Some(lowercased(extension_of(child.name@)->0)),
        modified_time: signed_time(child.modified_secs),
    }
}

/// The children found by `steps` that are listed as directories, in order.
pub open spec fn shown_dirs(steps: Seq<ScanStep>) -> Seq<Child>
    decreases steps.len(),
{
    if steps.len() == 0 {
        Seq::empty()
    } else {
        let front = shown_dirs(steps.drop_last());
        match steps.last() {
            ScanStep::Found(child) if shown_as_dir(child) => front.push(child),
            _ => front,
        }
    }
}

/// The children found by `steps` that are listed as audio files, in order.
pub open spec fn shown_files(steps: Seq<ScanStep>) -> Seq<Child>
    decreases steps.len(),
{
    if steps.len() == 0 {
        Seq::empty()
    } else {
        let front = shown_files(steps.drop_last());
        match steps.last() {
            ScanStep::Found(child) if shown_as_file(child) => front.push(child),
            _ => front,
        }
    }
}

/// The sort keys of a group of children: their lowercase names.
pub open spec fn name_keys(children: Seq<Child>) -> Seq<Seq<char>> {
    Seq::new(children.len(), |i: int| lowercased(children[i].name@))
}

/// The entries of a group of directories.
pub open spec fn dir_entries(children: Seq<Child>) -> Seq<EntryView> {
    Seq::new(children.len(), |i: int| dir_entry(children[i]))
}

/// The entries of a group of audio files.
pub open spec fn file_entries(children: Seq<Child>) -> Seq<EntryView> {
    Seq::new(children.len(), |i: int| file_entry(children[i]))
}

/// The listing of a scan without failures: its directories in ascending
/// order of lowercase name, then its audio files in the same order; entries
/// with equal keys stay in the order of the scan.
pub open spec fn listing(steps: Seq<ScanStep>) -> Seq<EntryView> {
    stable_sorted(dir_entries(shown_dirs(steps)), name_keys(shown_dirs(steps))) + stable_sorted(
        file_entries(shown_files(steps)),
        name_keys(shown_files(steps)),
    )
}

/// A scan has one first failure at most, and with one not every step found
/// a child.
proof fn lemma_first_failure(steps: Seq<ScanStep>, i: int)
    requires
        fails_first_at(steps, i),
    ensures
        forall|k: int| #[trigger] fails_first_at(steps, k) ==> k == i,
        !(forall|k: int| 0 <= k < steps.len() ==> #[trigger] steps[k] is Found),
{
    assert(!(steps[i] is Found));
    assert forall|k: int| #[trigger] fails_first_at(steps, k) implies k == i by {
        if k < i {
            assert(steps[k] is Found);
        } else if i < k {
            assert(steps[i] is Found);
        }
    }
}

/// Adding a child to a group adds its key and its entry at the end.
proof fn lemma_group_push(children: Seq<Child>, child: Child)
    ensures
        name_keys(children.push(child)) == name_keys(children).push(lowercased(child.name@)),
        dir_entries(children.push(child)) == dir_entries(children).push(dir_entry(child)),
        file_entries(children.push(child)) == file_entries(children).push(file_entry(child)),
{
    assert(name_keys(children.push(child)) =~= name_keys(children).push(
        lowercased(child.name@),
    ));
    assert(dir_entries(children.push(child)) =~= dir_entries(children).push(dir_entry(child)));
    assert(file_entries(children.push(child)) =~= file_entries(children).push(
        file_entry(child),
    ));
}

/// Adding an entry and its key to the collected ones adds their values at
/// the end.
proof fn lemma_collected_push(
    entries: Seq<DirectoryEntry>,
    entry: DirectoryEntry,
    keys: Seq<Vec<char>>,
    key: Vec<char>,
)
    ensures
        entry_views(entries.push(entry)) == entry_views(entries).push(entry@),
        texts(keys.push(key)) == texts(keys).push(key@),
{
    assert(entry_views(entries.push(entry)) =~= entry_views(entries).push(entry@));
    assert(texts(keys.push(key)) =~= texts(keys).push(key@));
}

/// The signed time of the last change of a child, where it has one.
fn modified_time_of(child: &Child) -> (r: Option<i64>)
    ensures
        r == signed_time(child.modified_secs),
{
    match child.modified_secs {
        Some(secs) => Some(epoch_seconds(secs)),
        None => None,
    }
}

/// Lists the children that the steps of a scan found: the first failed step
/// fails the whole listing; steps without one are listed in full.
pub fn list_children(steps: &Vec<ScanStep>) -> (r: Result<Vec<DirectoryEntry>, ListError>)
    ensures
        (forall|i: int| 0 <= i < steps@.len() ==> #[trigger] steps@[i] is Found) ==> (r matches Ok(
            list,
        ) && entry_views(list@) == listing(steps@)),
        forall|i: int| #[trigger]
            fails_first_at(steps@, i) ==> (r matches Err(e) && reports(e, steps@[i])),
{
    let mut dirs: Vec<DirectoryEntry> = Vec::new();
    let mut dir_keys: Vec<Vec<char>> = Vec::new();
    let mut files: Vec<DirectoryEntry> = Vec::new();
    let mut file_keys: Vec<Vec<char>> = Vec::new();
    let mut i: usize = 0;
    assert(steps@.take(0) =~= Seq::empty());
    while i < steps.len()
        invariant
            i <= steps.len(),
            forall|j: int| 0 <= j < i ==> #[trigger] steps@[j] is Found,
            entry_views(dirs@) =~= dir_entries(shown_dirs(steps@.take(i as int))),
            texts(dir_keys@) =~= name_keys(shown_dirs(steps@.take(i as int))),
            entry_views(files@) =~= file_entries(shown_files(steps@.take(i as int))),
            texts(file_keys@) =~= name_keys(shown_files(steps@.take(i as int))),
        decreases steps.len() - i,
    {
        let ghost before = steps@.take(i as int);
        let ghost after = steps@.take(i + 1);
        assert(after.drop_last() =~= before);
        assert(after.last() == steps@[i as int]);
        match &steps[i] {
            ScanStep::EntryFailed(cause) => {
                let error = ListError::ReadEntry(cause.clone());
                proof {
                    lemma_first_failure(steps@, i as int);
                    assert(reports(error, steps@[i as int]));
                }
                return Err(error);
            },
            ScanStep::MetadataFailed(cause) => {
                let error = ListError::ReadMetadata(cause.clone());
                proof {
                    lemma_first_failure(steps@, i as int);
                    assert(reports(error, steps@[i as int]));
                }
                return Err(error);
            },
            ScanStep::Found(child) => {
                proof {
                    assert(shown_dirs(after) == if shown_as_dir(*child) {
                        shown_dirs(before).push(*child)
                    } else {
                        shown_dirs(before)
                    });
                    assert(shown_files(after) == if shown_as_file(*child) {
                        shown_files(before).push(*child)
                    } else {
                        shown_files(before)
                    });
                }
                if !is_hidden(child.name.as_str()) {
                    if child.is_dir {
                        let key = chars_of(lowercase(child.name.as_str()).as_str());
                        let entry = DirectoryEntry {
                            name: child.name.clone(),
                            path: child.path.clone(),
                            is_dir: true,
                            size: 0,
                            extension: None,
                            modified_time: modified_time_of(child),
                        };
                        proof {
                            assert(entry@ == dir_entry(*child));
                            lemma_group_push(shown_dirs(before), *child);
                            lemma_collected_push(dirs@, entry, dir_keys@, key);
                        }
                        dirs.push(entry);
                        dir_keys.push(key);
                    } else {
                        match file_extension(child.name.as_str()) {
                            Some(ext) => {
                                if is_audio_file(ext.as_str()) {
                                    let key = chars_of(lowercase(child.name.as_str()).as_str());
                                    let entry = DirectoryEntry {
                                        name: child.name.clone(),
                                        path: child.path.clone(),
                                        is_dir: false,
                                        size: child.size,
                                        extension: Some(lowercase(ext.as_str())),
                                        modified_time: modified_time_of(child),
                                    };
                                    proof {
                                        assert(entry@ == file_entry(*child));
                                        lemma_group_push(shown_files(before), *child);
                                        lemma_collected_push(files@, entry, file_keys@, key);
                                    }
                                    files.push(entry);
                                    file_keys.push(key);
                                }
                            },
                            None => {},
                        }
                    }
                }
            },
        }
        i += 1;
    }
    assert(steps@.take(i as int) =~= steps@);
    let dir_order = stable_order(&dir_keys);
    let file_order = stable_order(&file_keys);
    assert(entry_views(dirs@).len() == texts(dir_keys@).len());
    assert(entry_views(files@).len() == texts(file_keys@).len());
    let mut out = arrange(&dirs, &dir_order);
    let mut tail = arrange(&files, &file_order);
    let ghost head_views = entry_views(out@);
    let ghost tail_views = entry_views(tail@);
    out.append(&mut tail);
    assert(entry_views(out@) =~= head_views + tail_views);
    Ok(out)
}

/// Lists a directory from what a scan of it gave.
///
/// `scan` is the cause where the directory could not be enumerated at all,
/// else one step per child, in the order in which the children came. The
/// result is the listing, or the message of the failure to enumerate or of
/// the first failed step.
pub fn read_directory(scan: Result<Vec<ScanStep>, String>) -> (r: Result<
    Vec<DirectoryEntry>,
    String,
>)
    ensures
        match scan {
            Err(cause) => r matches Err(message) && message@ == "Failed to read directory: "@
                + cause@,
            Ok(steps) => {
                &&& (forall|i: int| 0 <= i < steps@.len() ==> #[trigger] steps@[i] is Found) ==> (r matches Ok(
                    list,
                ) && entry_views(list@) == listing(steps@))
                &&& forall|i: int| #[trigger]
                    fails_first_at(steps@, i) ==> (r matches Err(message) && message@
                        == failure_text(steps@[i]))
            },
        },
{
    match scan {
        Err(cause) => Err(ListError::ReadDirectory(cause).message()),
        Ok(steps) => match list_children(&steps) {
            Ok(list) => Ok(list),
            Err(error) => Err(error.message()),
        },
    }
}

/// Every child of a shown group is shown, and a group is no longer than
/// the scan.
pub proof fn lemma_shown_groups(steps: Seq<ScanStep>)
    ensures
        shown_dirs(steps).len() <= steps.len(),
        shown_files(steps).len() <= steps.len(),
        forall|k: int| 0 <= k < shown_dirs(steps).len() ==> shown_as_dir(#[trigger] shown_dirs(steps)[k]),
        forall|k: int| 0 <= k < shown_files(steps).len() ==> shown_as_file(#[trigger] shown_files(steps)[k]),
    decreases steps.len(),
{
    if steps.len() > 0 {
        lemma_shown_groups(steps.drop_last());
    }
}

/// The listing holds the sorted directories, then the sorted files: each
/// entry is that of a shown child, placed by the stable order of the keys.
proof fn lemma_listing_parts(steps: Seq<ScanStep>)
    requires
        steps.len() <= usize::MAX,
    ensures
        listing(steps).len() == shown_dirs(steps).len() + shown_files(steps).len(),
        is_stable_order(sorted_positions(name_keys(shown_dirs(steps))), name_keys(shown_dirs(steps))),
        is_stable_order(sorted_positions(name_keys(shown_files(steps))), name_keys(shown_files(steps))),
        forall|k: int| 0 <= k < shown_dirs(steps).len() ==> #[trigger] listing(steps)[k] == dir_entry(
            shown_dirs(steps)[sorted_positions(name_keys(shown_dirs(steps)))[k] as int],
        ),
        forall|k: int| shown_dirs(steps).len() <= k < listing(steps).len() ==> #[trigger] listing(steps)[k] == file_entry(
            shown_files(steps)[sorted_positions(name_keys(shown_files(steps)))[k - shown_dirs(steps).len()] as int],
        ),
{
    lemma_shown_groups(steps);
    lemma_sorted_positions(name_keys(shown_dirs(steps)));
    lemma_sorted_positions(name_keys(shown_files(steps)));
}

/// No listed entry has a name that starts with a dot.
pub proof fn lemma_listing_hides_dot_names(steps: Seq<ScanStep>)
    requires
        steps.len() <= usize::MAX,
    ensures
        forall|k: int| 0 <= k < listing(steps).len() ==> !is_hidden_name(#[trigger] listing(steps)[k].name),
{
    lemma_shown_groups(steps);
    lemma_listing_parts(steps);
}

/// A listed directory has size 0 and no extension; a listed file has an
/// admitted audio extension, in lowercase.
pub proof fn lemma_listing_files_are_audio(steps: Seq<ScanStep>)
    requires
        steps.len() <= usize::MAX,
    ensures
        forall|k: int| 0 <= k < listing(steps).len() ==> match (#[trigger] listing(steps)[k]).extension {
            Some(ext) => !listing(steps)[k].is_dir && is_audio_extension(ext),
            None => listing(steps)[k].is_dir && listing(steps)[k].size == 0,
        },
{
    lemma_shown_groups(steps);
    lemma_listing_parts(steps);
}

/// All listed directories stand before all listed files.
pub proof fn lemma_listing_dirs_first(steps: Seq<ScanStep>)
    requires
        steps.len() <= usize::MAX,
    ensures
        forall|a: int, b: int| 0 <= a < b < listing(steps).len() && (#[trigger] listing(steps)[b]).is_dir
            ==> (#[trigger] listing(steps)[a]).is_dir,
{
    lemma_shown_groups(steps);
    lemma_listing_parts(steps);
}

/// Among the listed directories, and among the listed files, lowercase
/// names ascend.
pub proof fn lemma_listing_ascends(steps: Seq<ScanStep>)
    requires
        steps.len() <= usize::MAX,
    ensures
        forall|a: int, b: int| 0 <= a < b < listing(steps).len() && (#[trigger] listing(steps)[a]).is_dir
            == (#[trigger] listing(steps)[b]).is_dir ==> text_le(
            lowercased(listing(steps)[a].name),
            lowercased(listing(steps)[b].name),
        ),
{
    lemma_shown_groups(steps);
    lemma_listing_parts(steps);
    let dirs = shown_dirs(steps);
    let files = shown_files(steps);
    let dir_order = sorted_positions(name_keys(dirs));
    let file_order = sorted_positions(name_keys(files));
    assert forall|a: int, b: int| 0 <= a < b < listing(steps).len() && (#[trigger] listing(steps)[a]).is_dir
        == (#[trigger] listing(steps)[b]).is_dir implies text_le(
        lowercased(listing(steps)[a].name),
        lowercased(listing(steps)[b].name),
    ) by {
        if b < dirs.len() {
            assert(comes_before(name_keys(dirs), dir_order[a] as int, dir_order[b] as int));
        } else if a >= dirs.len() {
            let fa = a - dirs.len();
            let fb = b - dirs.len();
            assert(comes_before(name_keys(files), file_order[fa] as int, file_order[fb] as int));
        }
    }
}

/// Whether `entry` is the entry of a child that the scan found and that is
/// shown as a directory or as an audio file.
pub open spec fn shows_a_child(steps: Seq<ScanStep>, entry: EntryView) -> bool {
    exists|child: Child|
        {
            &&& #[trigger] steps.contains(ScanStep::Found(child))
            &&& {
                ||| shown_as_dir(child) && entry == dir_entry(child)
                ||| shown_as_file(child) && entry == file_entry(child)
            }
        }
}

/// Every listed entry is that of a child of the scan that is shown as a
/// directory or as an audio file.
pub proof fn lemma_listing_shows_children(steps: Seq<ScanStep>)
    requires
        steps.len() <= usize::MAX,
    ensures
        forall|k: int| 0 <= k < listing(steps).len() ==> shows_a_child(steps, #[trigger] listing(steps)[k]),
{
    lemma_shown_groups(steps);
    lemma_shown_from_scan(steps);
    lemma_listing_parts(steps);
    let dirs = shown_dirs(steps);
    let files = shown_files(steps);
    let dir_order = sorted_positions(name_keys(dirs));
    let file_order = sorted_positions(name_keys(files));
    assert forall|k: int| 0 <= k < listing(steps).len() implies shows_a_child(
        steps,
        #[trigger] listing(steps)[k],
    ) by {
        if k < dirs.len() {
            let child = dirs[dir_order[k] as int];
            assert(dirs.contains(child));
            assert(steps.contains(ScanStep::Found(child)));
        } else {
            let child = files[file_order[k - dirs.len()] as int];
            assert(files.contains(child));
            assert(steps.contains(ScanStep::Found(child)));
        }
    }
}

/// Every child that the scan found and that is shown as a directory or as an
/// audio file has its entry in the listing.
pub proof fn lemma_listing_holds_every_shown(steps: Seq<ScanStep>, child: Child)
    requires
        steps.len() <= usize::MAX,
        steps.contains(ScanStep::Found(child)),
    ensures
        shown_as_dir(child) ==> listing(steps).contains(dir_entry(child)),
        shown_as_file(child) ==> listing(steps).contains(file_entry(child)),
{
    lemma_shown_groups(steps);
    lemma_scan_to_shown(steps, child);
    lemma_listing_parts(steps);
    let dirs = shown_dirs(steps);
    let files = shown_files(steps);
    let dir_order = sorted_positions(name_keys(dirs));
    let file_order = sorted_positions(name_keys(files));
    if shown_as_dir(child) {
        let j = choose|j: int| 0 <= j < dirs.len() && dirs[j] == child;
        assert(dir_order.contains(j as usize));
        let k = choose|k: int| 0 <= k < dir_order.len() && dir_order[k] == j as usize;
        assert(listing(steps)[k] == dir_entry(child));
    }
    if shown_as_file(child) {
        let j = choose|j: int| 0 <= j < files.len() && files[j] == child;
        assert(file_order.contains(j as usize));
        let k = choose|k: int| 0 <= k < file_order.len() && file_order[k] == j as usize;
        assert(listing(steps)[k + dirs.len()] == file_entry(child));
    }
}

/// Every child of a shown group was found by the scan.
proof fn lemma_shown_from_scan(steps: Seq<ScanStep>)
    ensures
        forall|child: Child| #[trigger]
            shown_dirs(steps).contains(child) ==> steps.contains(ScanStep::Found(child)),
        forall|child: Child| #[trigger]
            shown_files(steps).contains(child) ==> steps.contains(ScanStep::Found(child)),
    decreases steps.len(),
{
    if steps.len() > 0 {
        let front = steps.drop_last();
        let n = steps.len() - 1;
        lemma_shown_from_scan(front);
        assert forall|child: Child| #[trigger] shown_dirs(steps).contains(child) implies steps.contains(
            ScanStep::Found(child),
        ) by {
            let k = choose|k: int| 0 <= k < shown_dirs(steps).len() && shown_dirs(steps)[k] == child;
            if k < shown_dirs(front).len() {
                assert(shown_dirs(front)[k] == child);
                assert(shown_dirs(front).contains(child));
                let j = choose|j: int| 0 <= j < front.len() && front[j] == ScanStep::Found(child);
                assert(steps[j] == ScanStep::Found(child));
            } else {
                assert(steps[n] == ScanStep::Found(child));
            }
        }
        assert forall|child: Child| #[trigger] shown_files(steps).contains(child) implies steps.contains(
            ScanStep::Found(child),
        ) by {
            let k = choose|k: int|
                0 <= k < shown_files(steps).len() && shown_files(steps)[k] == child;
            if k < shown_files(front).len() {
                assert(shown_files(front)[k] == child);
                assert(shown_files(front).contains(child));
                let j = choose|j: int| 0 <= j < front.len() && front[j] == ScanStep::Found(child);
                assert(steps[j] == ScanStep::Found(child));
            } else {
                assert(steps[n] == ScanStep::Found(child));
            }
        }
    }
}

/// A child that the scan found stands in the group in which it is shown.
proof fn lemma_scan_to_shown(steps: Seq<ScanStep>, child: Child)
    requires
        steps.contains(ScanStep::Found(child)),
    ensures
        shown_as_dir(child) ==> shown_dirs(steps).contains(child),
        shown_as_file(child) ==> shown_files(steps).contains(child),
    decreases steps.len(),
{
    let front = steps.drop_last();
    let n = steps.len() - 1;
    if steps[n] == ScanStep::Found(child) {
        if shown_as_dir(child) {
            assert(shown_dirs(steps)[shown_dirs(front).len() as int] == child);
        }
        if shown_as_file(child) {
            assert(shown_files(steps)[shown_files(front).len() as int] == child);
        }
    } else {
        let j = choose|j: int| 0 <= j < steps.len() && steps[j] == ScanStep::Found(child);
        assert(front[j] == ScanStep::Found(child));
        lemma_scan_to_shown(front, child);
        if shown_as_dir(child) {
            let k = choose|k: int| 0 <= k < shown_dirs(front).len() && shown_dirs(front)[k] == child;
            assert(shown_dirs(steps)[k] == child);
        }
        if shown_as_file(child) {
            let k = choose|k: int|
                0 <= k < shown_files(front).len() && shown_files(front)[k] == child;
            assert(shown_files(steps)[k] == child);
        }
    }
}

} // verus!
