//! The retention policy: which files may be removed.
//!
//! The files are ordered from the newest to the oldest. The first `min_files`
//! of that order are kept whatever their age. Of the others, those modified
//! before the cutoff, `keep_days` days before now, are selected for removal.

use vstd::prelude::*;
use crate::clock::current_epoch_seconds;
use crate::config::{default_extension, extension_or_default, keep_days_valid, ConfigError};
use crate::guarantees::lemma_selection_empty_below_floor;
use crate::order::{newest_first, newest_first_order, picked, positions_within};
use crate::scan::{
    get_count_of_files, get_files_with_extension, matching, read_ages, timed_records, Entry,
    EntryView, FileRecord, RecordView,
};

verus! {

/// Seconds in one day.
pub const SECONDS_PER_DAY: i64 = 86_400;

/// The instant `keep_days` days before `now`, in seconds since 1970; a file
/// modified before it is old enough to be removed.
pub open spec fn cutoff_epoch(now: int, keep_days: int) -> int {
    now - keep_days * SECONDS_PER_DAY
}

/// The test "modified before `cutoff`".
pub open spec fn older_than(cutoff: int) -> spec_fn(RecordView) -> bool {
    |record: RecordView| record.modified < cutoff
}

/// What stands behind the first `min_files` records of `sorted`.
pub open spec fn beyond_floor(sorted: Seq<RecordView>, min_files: nat) -> Seq<RecordView> {
    if min_files <= sorted.len() {
        sorted.skip(min_files as int)
    } else {
        Seq::empty()
    }
}

/// The records selected for removal, from the newest to the oldest: those
/// that are not among the `min_files` newest and were modified before
/// `cutoff`.
pub open spec fn selected_records(records: Seq<RecordView>, min_files: nat, cutoff: int) -> Seq<
    RecordView,
> {
    beyond_floor(newest_first(records), min_files).filter(older_than(cutoff))
}

/// The test "modified at `cutoff` or later".
pub open spec fn not_older_than(cutoff: int) -> spec_fn(RecordView) -> bool {
    |record: RecordView| record.modified >= cutoff
}

/// The first `min_files` records of `sorted`, or all of them where there are
/// fewer.
pub open spec fn within_floor(sorted: Seq<RecordView>, min_files: nat) -> Seq<RecordView> {
    if min_files <= sorted.len() {
        sorted.take(min_files as int)
    } else {
        sorted
    }
}

/// The records that the selection leaves, from the newest to the oldest: the
/// `min_files` newest, and of the others those modified at `cutoff` or later.
pub open spec fn kept_records(records: Seq<RecordView>, min_files: nat, cutoff: int) -> Seq<
    RecordView,
> {
    within_floor(newest_first(records), min_files) + beyond_floor(
        newest_first(records),
        min_files,
    ).filter(not_older_than(cutoff))
}

/// The paths of `records`, in the same order.
pub open spec fn paths_of(records: Seq<RecordView>) -> Seq<Seq<char>> {
    records.map_values(|record: RecordView| record.path)
}

/// The paths selected for removal among `records`.
pub open spec fn selection(records: Seq<RecordView>, min_files: nat, cutoff: int) -> Seq<
    Seq<char>,
> {
    paths_of(selected_records(records, min_files, cutoff))
}

/// The paths selected for removal among the entries of a scan, at the time
/// `now`.
pub open spec fn policy_selection(
    entries: Seq<EntryView>,
    extension: Seq<char>,
    min_files: nat,
    keep_days: int,
    now: int,
) -> Seq<Seq<char>> {
    selection(
        timed_records(matching(entries, extension)),
        min_files,
        cutoff_epoch(now, keep_days),
    )
}

/// The instant `keep_days` days before `now`, both in seconds since 1970.
pub fn cutoff_before(now: i64, keep_days: i64) -> (cutoff: i128)
    ensures
        cutoff == cutoff_epoch(now as int, keep_days as int),
{
    let days: i128 = keep_days as i128;
    let day: i128 = SECONDS_PER_DAY as i128;
    assert(-0x8000_0000_0000_0000 * 86_400 <= days * day <= 0x8000_0000_0000_0000 * 86_400)
        by (nonlinear_arith)
        requires
            -0x8000_0000_0000_0000 <= days < 0x8000_0000_0000_0000,
            day == 86_400,
    ;
    now as i128 - days * day
}

/// Selects the paths to remove among `records` at the time `now`, given in
/// seconds since 1970. A retention window shorter than one day is refused.
pub fn select_expired(records: &Vec<FileRecord>, min_files: u16, keep_days: i64, now: i64) -> (r:
    Result<Vec<String>, ConfigError>)
    ensures
        r is Ok <==> keep_days_valid(keep_days as int),
        r matches Err(e) ==> e == ConfigError::KeepDaysNotPositive,
        r matches Ok(paths) ==> paths.deep_view() == selection(
            records.deep_view(),
            min_files as nat,
            cutoff_epoch(now as int, keep_days as int),
        ),
{
    if keep_days < 1 {
        return Err(ConfigError::KeepDaysNotPositive);
    }
    let cutoff: i128 = cutoff_before(now, keep_days);
    let order = newest_first_order(records);
    let ghost sorted = newest_first(records.deep_view());
    let ghost too_old = older_than(cutoff as int);
    let mut paths: Vec<String> = Vec::new();
    let floor: usize = min_files as usize;
    if floor >= order.len() {
        proof {
            reveal(Seq::filter);
        }
        return Ok(paths);
    }
    let mut k: usize = floor;
    proof {
        reveal(Seq::filter);
    }
    while k < order.len()
        invariant
            floor <= k <= order@.len(),
            order@.len() == records@.len(),
            positions_within(order@, records@.len()),
            sorted == picked(records.deep_view(), order@),
            too_old == older_than(cutoff as int),
            paths.deep_view() == paths_of(sorted.subrange(floor as int, k as int).filter(too_old)),
        decreases order@.len() - k,
    {
        let record = &records[order[k]];
        let ghost before = paths.deep_view();
        let ghost seen = sorted.subrange(floor as int, k as int);
        proof {
            assert(sorted.subrange(floor as int, k + 1) =~= seen.push(record@));
            seen.lemma_filter_push(record@, too_old);
        }
        if (record.modified_epoch_seconds as i128) < cutoff {
            paths.push(record.path.clone());
            assert(paths.deep_view() =~= before.push(record@.path));
        }
        k += 1;
    }
    Ok(paths)
}

/// Selects the paths to remove among the entries of a scan at the time
/// `now`, given in seconds since 1970. A retention window shorter than one
/// day is refused. The selection depends on nothing but the arguments: the
/// same scan, settings and time give the same paths in the same order.
pub fn find_expired_files(
    entries: &Vec<Entry>,
    file_extension: &str,
    min_files: u16,
    keep_days: i64,
    now: i64,
) -> (r: Result<Vec<String>, ConfigError>)
    ensures
        r is Ok <==> keep_days_valid(keep_days as int),
        r matches Err(e) ==> e == ConfigError::KeepDaysNotPositive,
        r matches Ok(paths) ==> paths.deep_view() == policy_selection(
            entries.deep_view(),
            file_extension@,
            min_files as nat,
            keep_days as int,
            now as int,
        ),
        r matches Ok(paths) ==> (matching(entries.deep_view(), file_extension@).len()
            <= min_files ==> paths@.len() == 0),
{
    if keep_days < 1 {
        return Err(ConfigError::KeepDaysNotPositive);
    }
    let count = get_count_of_files(entries, file_extension);
    if count > min_files as usize {
        let files = get_files_with_extension(entries, file_extension);
        let records = read_ages(&files);
        select_expired(&records, min_files, keep_days, now)
    } else {
        proof {
            lemma_selection_empty_below_floor(
                entries.deep_view(),
                file_extension@,
                min_files as nat,
                keep_days as int,
                now as int,
            );
        }
        Ok(Vec::new())
    }
}

/// Whether `paths` is what the policy selects at some time of the clock.
pub open spec fn selected_at_some_time(
    paths: Seq<Seq<char>>,
    entries: Seq<EntryView>,
    extension: Seq<char>,
    min_files: nat,
    keep_days: int,
) -> bool {
    exists|now: i64|
        paths == #[trigger] policy_selection(
            entries,
            extension,
            min_files,
            keep_days,
            now as int,
        )
}

/// Selects the paths to remove among the entries of a scan, at the time that
/// the clock shows when the function is called. Where no extension is given,
/// `mp4` is looked for. A retention window shorter than one day is refused,
/// and the clock is then not read.
pub fn find_mp4s_that_are_older_max_age(
    entries: &Vec<Entry>,
    file_extension: Option<String>,
    min_files: u16,
    keep_days: i64,
) -> (r: Result<Vec<String>, ConfigError>)
    ensures
        r is Ok <==> keep_days_valid(keep_days as int),
        r matches Err(e) ==> e == ConfigError::KeepDaysNotPositive,
        r matches Ok(paths) ==> selected_at_some_time(
            paths.deep_view(),
            entries.deep_view(),
            extension_or_default(file_extension),
            min_files as nat,
            keep_days as int,
        ),
        r matches Ok(paths) ==> (matching(
            entries.deep_view(),
            extension_or_default(file_extension),
        ).len() <= min_files ==> paths@.len() == 0),
{
    if keep_days < 1 {
        return Err(ConfigError::KeepDaysNotPositive);
    }
    let extension = match file_extension {
        Some(extension) => extension,
        None => default_extension(),
    };
    let now = current_epoch_seconds();
    find_expired_files(entries, extension.as_str(), min_files, keep_days, now)
}

} // verus!
