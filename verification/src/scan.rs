//! What a scan of a directory tree found, and what the policy reads of it.
//!
//! The walk itself is done by the caller. Each entry it met is handed over as
//! an [`Entry`]; the functions here keep the regular files that carry the
//! wanted extension and turn those whose age is known into [`FileRecord`]s.

use vstd::prelude::*;
use crate::extension::{chars_have_extension, chars_of, has_extension};

verus! {

/// When an entry was last modified, as far as the scan could tell.
#[derive(Clone, Copy, Debug, PartialEq, Eq, Structural)]
pub enum ModifiedTime {
    /// The metadata of the entry could not be read.
    Unreadable,
    /// The entry claims a time before 1970-01-01T00:00:00Z.
    BeforeEpoch,
    /// Whole seconds between 1970-01-01T00:00:00Z and the last modification.
    SinceEpoch(u64),
}

/// One entry met while walking the tree.
#[derive(Clone, Debug, PartialEq, Eq)]
pub struct Entry {
    /// Path of the entry, as it will be reported and removed.
    pub path: String,
    /// Last component of the path; empty when the path has none.
    pub file_name: String,
    /// Whether the entry is a regular file: no directory, symbolic link or
    /// special file.
    pub is_file: bool,
    /// Last modification of the entry.
    pub modified: ModifiedTime,
}

/// An [`Entry`] as contracts see it.
pub struct EntryView {
    pub path: Seq<char>,
    pub file_name: Seq<char>,
    pub is_file: bool,
    pub modified: ModifiedTime,
}

impl View for Entry {
    type V = EntryView;

    open spec fn view(&self) -> EntryView {
        EntryView {
            path: self.path@,
            file_name: self.file_name@,
            is_file: self.is_file,
            modified: self.modified,
        }
    }
}

impl DeepView for Entry {
    type V = EntryView;

    open spec fn deep_view(&self) -> EntryView {
        self@
    }
}

/// A file of the wanted kind together with its age.
#[derive(Clone, Debug, PartialEq, Eq)]
pub struct FileRecord {
    /// Path of the file.
    pub path: String,
    /// Last modification, in whole seconds since 1970-01-01T00:00:00Z.
    pub modified_epoch_seconds: u64,
}

/// A [`FileRecord`] as contracts see it.
pub struct RecordView {
    pub path: Seq<char>,
    pub modified: nat,
}

impl View for FileRecord {
    type V = RecordView;

    open spec fn view(&self) -> RecordView {
        RecordView { path: self.path@, modified: self.modified_epoch_seconds as nat }
    }
}

impl DeepView for FileRecord {
    type V = RecordView;

    open spec fn deep_view(&self) -> RecordView {
        self@
    }
}

/// Whether an entry is a regular file whose name carries `extension`.
pub open spec fn is_wanted(entry: EntryView, extension: Seq<char>) -> bool {
    entry.is_file && has_extension(entry.file_name, extension)
}

/// The test [`is_wanted`] for a fixed extension.
pub open spec fn wanted(extension: Seq<char>) -> spec_fn(EntryView) -> bool {
    |entry: EntryView| is_wanted(entry, extension)
}

/// The regular files among `entries` that carry `extension`, in the order of
/// the scan.
pub open spec fn matching(entries: Seq<EntryView>, extension: Seq<char>) -> Seq<EntryView> {
    entries.filter(wanted(extension))
}

/// The record of an entry whose age is known; an entry whose metadata could
/// not be read, or whose time lies before 1970, has none.
pub open spec fn record_of(entry: EntryView) -> Option<RecordView> {
    match entry.modified {
        ModifiedTime::SinceEpoch(seconds) => Some(
            RecordView { path: entry.path, modified: seconds as nat },
        ),
        _ => None,
    }
}

/// The records of those `files` whose age is known, in the same order.
pub open spec fn timed_records(files: Seq<EntryView>) -> Seq<RecordView> {
    files.filter_map(|entry: EntryView| record_of(entry))
}

/// Decides [`is_wanted`] for an extension held as characters.
fn entry_is_wanted(entry: &Entry, extension: &Vec<char>) -> (r: bool)
    ensures
        r == is_wanted(entry@, extension@),
{
    if !entry.is_file {
        return false;
    }
    let name = chars_of(entry.file_name.as_str());
    chars_have_extension(&name, extension)
}

/// Keeps the regular files that carry `file_extension`, in the order of the
/// scan.
pub fn get_files_with_extension(entries: &Vec<Entry>, file_extension: &str) -> (files: Vec<Entry>)
    ensures
        files.deep_view() == matching(entries.deep_view(), file_extension@),
{
    let extension = chars_of(file_extension);
    let ghost all = entries.deep_view();
    let mut files: Vec<Entry> = Vec::new();
    let mut i: usize = 0;
    proof {
        reveal(Seq::filter);
    }
    while i < entries.len()
        invariant
            i <= entries.len(),
            all == entries.deep_view(),
            extension@ == file_extension@,
            files.deep_view() == matching(all.take(i as int), file_extension@),
        decreases entries.len() - i,
    {
        let entry = &entries[i];
        proof {
            assert(all.take(i + 1) =~= all.take(i as int).push(entry@));
            all.take(i as int).lemma_filter_push(entry@, wanted(file_extension@));
        }
        if entry_is_wanted(entry, &extension) {
            let kept = Entry {
                path: entry.path.clone(),
                file_name: entry.file_name.clone(),
                is_file: entry.is_file,
                modified: entry.modified,
            };
            files.push(kept);
        }
        i += 1;
    }
    assert(all.take(i as int) =~= all);
    files
}

/// Counts the regular files that carry `file_extension`.
pub fn get_count_of_files(entries: &Vec<Entry>, file_extension: &str) -> (count: usize)
    ensures
        count == matching(entries.deep_view(), file_extension@).len(),
{
    let extension = chars_of(file_extension);
    let ghost all = entries.deep_view();
    let mut count: usize = 0;
    let mut i: usize = 0;
    proof {
        reveal(Seq::filter);
    }
    while i < entries.len()
        invariant
            i <= entries.len(),
            all == entries.deep_view(),
            extension@ == file_extension@,
            count <= i,
            count == matching(all.take(i as int), file_extension@).len(),
        decreases entries.len() - i,
    {
        let entry = &entries[i];
        proof {
            assert(all.take(i + 1) =~= all.take(i as int).push(entry@));
            all.take(i as int).lemma_filter_push(entry@, wanted(file_extension@));
        }
        if entry_is_wanted(entry, &extension) {
            count += 1;
        }
        i += 1;
    }
    assert(all.take(i as int) =~= all);
    count
}

/// Reads the age of each file: a file whose age is known gives a record, any
/// other file is left out.
pub fn read_ages(files: &Vec<Entry>) -> (records: Vec<FileRecord>)
    ensures
        records.deep_view() == timed_records(files.deep_view()),
{
    let ghost all = files.deep_view();
    let ghost to_record = |entry: EntryView| record_of(entry);
    let mut records: Vec<FileRecord> = Vec::new();
    let mut i: usize = 0;
    while i < files.len()
        invariant
            i <= files.len(),
            all == files.deep_view(),
            to_record == |entry: EntryView| record_of(entry),
            records.deep_view() == all.take(i as int).filter_map(to_record),
        decreases files.len() - i,
    {
        let entry = &files[i];
        proof {
            all.lemma_filter_map_take_succ(to_record, i as int);
        }
        match entry.modified {
            ModifiedTime::SinceEpoch(seconds) => {
                records.push(
                    FileRecord { path: entry.path.clone(), modified_epoch_seconds: seconds },
                );
            },
            _ => {},
        }
        i += 1;
    }
    assert(all.take(i as int) =~= all);
    records
}

} // verus!
