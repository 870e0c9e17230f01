//! What the policy guarantees, whatever the scan found.

use vstd::prelude::*;
use crate::order::{
    insert_point, lemma_inserted_at_point, lemma_newest_first_len, lemma_newest_first_ordered,
    lemma_newest_first_permutes, newest_first,
};
use crate::policy::{
    beyond_floor, cutoff_epoch, kept_records, not_older_than, older_than, paths_of,
    policy_selection, selected_records, selection, within_floor,
};
use crate::scan::{
    is_wanted, matching, record_of, timed_records, wanted, EntryView, ModifiedTime, RecordView,
};

verus! {

/// The records that are at least as new as a record modified at `seconds`.
pub open spec fn at_least_as_new(records: Seq<RecordView>, seconds: nat) -> Seq<RecordView> {
    records.filter(not_older_than(seconds as int))
}

/// A selected record stands in the newest-first order at a position that the
/// floor does not cover.
proof fn lemma_selected_position(records: Seq<RecordView>, min_files: nat, cutoff: int, k: int)
        -> (position: int)
    requires
        0 <= k < selected_records(records, min_files, cutoff).len(),
    ensures
        min_files <= position < records.len(),
        newest_first(records)[position] == selected_records(records, min_files, cutoff)[k],
        selected_records(records, min_files, cutoff)[k].modified < cutoff,
{
    let sorted = newest_first(records);
    let rest = beyond_floor(sorted, min_files);
    let chosen = selected_records(records, min_files, cutoff);
    lemma_newest_first_len(records);
    rest.lemma_filter_pred(older_than(cutoff), k);
    rest.lemma_filter_contains_rev(older_than(cutoff), chosen[k]);
    let q = choose|q: int| 0 <= q < rest.len() && rest[q] == chosen[k];
    min_files + q
}

/// Every record of [`newest_first`] is one of the records given.
proof fn lemma_newest_first_member(records: Seq<RecordView>, position: int)
    requires
        0 <= position < newest_first(records).len(),
    ensures
        records.contains(newest_first(records)[position]),
{
    let sorted = newest_first(records);
    lemma_newest_first_permutes(records);
    vstd::seq_lib::to_multiset_contains(sorted, sorted[position]);
    vstd::seq_lib::to_multiset_contains(records, sorted[position]);
}

/// Ordering does not change how many records pass a test.
proof fn lemma_newest_first_counts(records: Seq<RecordView>, test: spec_fn(RecordView) -> bool)
    ensures
        newest_first(records).filter(test).len() == records.filter(test).len(),
    decreases records.len(),
{
    if records.len() > 0 {
        let front = records.drop_last();
        let last = records.last();
        let sorted = newest_first(front);
        lemma_newest_first_counts(front, test);
        lemma_inserted_at_point(sorted, last);
        let point = insert_point(sorted, last) as int;
        let before = sorted.subrange(0, point);
        let behind = sorted.subrange(point, sorted.len() as int);
        assert(sorted =~= before + behind);
        Seq::filter_distributes_over_add(before, behind, test);
        Seq::filter_distributes_over_add(before.push(last), behind, test);
        before.lemma_filter_push(last, test);
        front.lemma_filter_push(last, test);
        assert(front.push(last) =~= records);
    }
}

/// A test that every record passes keeps them all.
proof fn lemma_filter_keeps_all(records: Seq<RecordView>, test: spec_fn(RecordView) -> bool)
    requires
        forall|i: int| 0 <= i < records.len() ==> test(#[trigger] records[i]),
    ensures
        records.filter(test) == records,
    decreases records.len(),
{
    reveal(Seq::filter);
    if records.len() > 0 {
        lemma_filter_keeps_all(records.drop_last(), test);
    }
}

/// While there are no more than `min_files` records, none is selected,
/// however old they are.
pub proof fn lemma_nothing_selected_below_floor(
    records: Seq<RecordView>,
    min_files: nat,
    cutoff: int,
)
    requires
        records.len() <= min_files,
    ensures
        selected_records(records, min_files, cutoff) == Seq::<RecordView>::empty(),
        selection(records, min_files, cutoff) == Seq::<Seq<char>>::empty(),
{
    lemma_newest_first_len(records);
    reveal(Seq::filter);
}

/// The floor holds: the selection leaves at least `min_files` records, or
/// all of them where there are fewer.
pub proof fn lemma_floor_survives(records: Seq<RecordView>, min_files: nat, cutoff: int)
    ensures
        selection(records, min_files, cutoff).len() == selected_records(
            records,
            min_files,
            cutoff,
        ).len(),
        records.len() >= min_files ==> selected_records(records, min_files, cutoff).len()
            + min_files <= records.len(),
        records.len() <= min_files ==> selected_records(records, min_files, cutoff).len() == 0,
{
    lemma_newest_first_len(records);
    beyond_floor(newest_first(records), min_files).lemma_filter_len(older_than(cutoff));
    if records.len() <= min_files {
        lemma_nothing_selected_below_floor(records, min_files, cutoff);
    }
}

/// Every selected record is one of the records given and was modified
/// before the cutoff.
pub proof fn lemma_selected_are_expired(records: Seq<RecordView>, min_files: nat, cutoff: int)
    ensures
        forall|k: int|
            0 <= k < selected_records(records, min_files, cutoff).len() ==> {
                &&& records.contains(#[trigger] selected_records(records, min_files, cutoff)[k])
                &&& selected_records(records, min_files, cutoff)[k].modified < cutoff
            },
{
    let chosen = selected_records(records, min_files, cutoff);
    assert forall|k: int| 0 <= k < chosen.len() implies {
        &&& records.contains(#[trigger] chosen[k])
        &&& chosen[k].modified < cutoff
    } by {
        let position = lemma_selected_position(records, min_files, cutoff, k);
        lemma_newest_first_len(records);
        lemma_newest_first_member(records, position);
    }
}

/// Whether `path` is the path of one of `records` that was modified before
/// `cutoff`.
pub open spec fn names_expired_record(records: Seq<RecordView>, path: Seq<char>, cutoff: int)
    -> bool {
    exists|j: int|
        0 <= j < records.len() && (#[trigger] records[j]).path == path && records[j].modified
            < cutoff
}

/// Every selected path is the path of a record modified before the cutoff.
pub proof fn lemma_selected_paths_are_expired(
    records: Seq<RecordView>,
    min_files: nat,
    cutoff: int,
)
    ensures
        forall|i: int|
            0 <= i < selection(records, min_files, cutoff).len() ==> names_expired_record(
                records,
                #[trigger] selection(records, min_files, cutoff)[i],
                cutoff,
            ),
{
    let chosen = selected_records(records, min_files, cutoff);
    let paths = selection(records, min_files, cutoff);
    lemma_selected_are_expired(records, min_files, cutoff);
    assert forall|i: int| 0 <= i < paths.len() implies names_expired_record(
        records,
        #[trigger] paths[i],
        cutoff,
    ) by {
        let j = choose|j: int| 0 <= j < records.len() && records[j] == chosen[i];
        assert(records[j].path == paths[i]);
    }
}

/// A record is selected only if more than `min_files` of the records,
/// itself among them, are at least as new as it is.
pub proof fn lemma_selected_behind_floor(records: Seq<RecordView>, min_files: nat, cutoff: int)
    ensures
        forall|k: int|
            0 <= k < selected_records(records, min_files, cutoff).len() ==> at_least_as_new(
                records,
                (#[trigger] selected_records(records, min_files, cutoff)[k]).modified,
            ).len() > min_files,
{
    let chosen = selected_records(records, min_files, cutoff);
    let sorted = newest_first(records);
    assert forall|k: int| 0 <= k < chosen.len() implies at_least_as_new(
        records,
        (#[trigger] chosen[k]).modified,
    ).len() > min_files by {
        let position = lemma_selected_position(records, min_files, cutoff, k);
        let test = not_older_than(chosen[k].modified as int);
        lemma_newest_first_len(records);
        lemma_newest_first_ordered(records);
        lemma_newest_first_counts(records, test);
        let upto = sorted.subrange(0, position + 1);
        let behind = sorted.subrange(position + 1, sorted.len() as int);
        assert(sorted =~= upto + behind);
        Seq::filter_distributes_over_add(upto, behind, test);
        assert forall|i: int| 0 <= i < upto.len() implies test(#[trigger] upto[i]) by {
            assert(sorted[i].modified >= sorted[position].modified);
        }
        lemma_filter_keeps_all(upto, test);
    }
}

/// Every record passes a test or fails it: the records that are modified
/// before `cutoff` and those that are not make up the whole.
proof fn lemma_split_by_age(records: Seq<RecordView>, cutoff: int)
    ensures
        records.filter(not_older_than(cutoff)).to_multiset().add(
            records.filter(older_than(cutoff)).to_multiset(),
        ) == records.to_multiset(),
    decreases records.len(),
{
    broadcast use {vstd::seq_lib::group_to_multiset_ensures, vstd::multiset::group_multiset_axioms};

    reveal(Seq::filter);
    if records.len() == 0 {
        assert(records.filter(not_older_than(cutoff)).to_multiset().add(
            records.filter(older_than(cutoff)).to_multiset(),
        ) =~= records.to_multiset());
    } else {
        let front = records.drop_last();
        let last = records.last();
        lemma_split_by_age(front, cutoff);
        front.lemma_filter_push(last, not_older_than(cutoff));
        front.lemma_filter_push(last, older_than(cutoff));
        assert(front.push(last) =~= records);
        assert(records.filter(not_older_than(cutoff)).to_multiset().add(
            records.filter(older_than(cutoff)).to_multiset(),
        ) =~= front.to_multiset().insert(last));
    }
}

/// Every record is either kept or selected: the records that the selection
/// leaves and those that it takes are, together, the records given.
pub proof fn lemma_kept_or_selected(records: Seq<RecordView>, min_files: nat, cutoff: int)
    ensures
        kept_records(records, min_files, cutoff).to_multiset().add(
            selected_records(records, min_files, cutoff).to_multiset(),
        ) == records.to_multiset(),
        kept_records(records, min_files, cutoff).len() + selected_records(
            records,
            min_files,
            cutoff,
        ).len() == records.len(),
{
    broadcast use vstd::multiset::group_multiset_axioms;

    let sorted = newest_first(records);
    let front = within_floor(sorted, min_files);
    let rest = beyond_floor(sorted, min_files);
    let kept = kept_records(records, min_files, cutoff);
    let chosen = selected_records(records, min_files, cutoff);
    lemma_newest_first_permutes(records);
    lemma_split_by_age(rest, cutoff);
    assert(sorted =~= front + rest);
    vstd::seq_lib::lemma_multiset_commutative(front, rest);
    vstd::seq_lib::lemma_multiset_commutative(front, rest.filter(not_older_than(cutoff)));
    assert(kept.to_multiset().add(chosen.to_multiset()) =~= records.to_multiset());
    vstd::seq_lib::to_multiset_len(kept);
    vstd::seq_lib::to_multiset_len(chosen);
    vstd::seq_lib::to_multiset_len(records);
}

/// Unless no more than `min_files` records are kept, every kept record was
/// modified at the cutoff or later.
proof fn lemma_kept_are_few_or_young(records: Seq<RecordView>, min_files: nat, cutoff: int)
    ensures
        kept_records(records, min_files, cutoff).len() <= min_files || forall|i: int|
            0 <= i < kept_records(records, min_files, cutoff).len() ==> (
            #[trigger] kept_records(records, min_files, cutoff)[i]).modified >= cutoff,
{
    let sorted = newest_first(records);
    let rest = beyond_floor(sorted, min_files);
    let young = rest.filter(not_older_than(cutoff));
    let kept = kept_records(records, min_files, cutoff);
    lemma_newest_first_ordered(records);
    if kept.len() > min_files {
        rest.lemma_filter_pred(not_older_than(cutoff), 0);
        assert(young.contains(young[0]));
        rest.lemma_filter_contains_rev(not_older_than(cutoff), young[0]);
        let q = choose|q: int| 0 <= q < rest.len() && rest[q] == young[0];
        assert forall|i: int| 0 <= i < kept.len() implies (#[trigger] kept[i]).modified
            >= cutoff by {
            if i < min_files {
                assert(kept[i] == sorted[i]);
                assert(sorted[i].modified >= sorted[min_files + q].modified);
            } else {
                rest.lemma_filter_pred(not_older_than(cutoff), i - min_files);
                assert(kept[i] == young[i - min_files]);
            }
        }
    }
}

/// One pass is enough: once the selected files are gone, a second pass at
/// the same time over what is left, in whatever order a scan finds it,
/// selects nothing.
pub proof fn lemma_second_pass_selects_nothing(
    records: Seq<RecordView>,
    left_over: Seq<RecordView>,
    min_files: nat,
    cutoff: int,
)
    requires
        left_over.to_multiset() == kept_records(records, min_files, cutoff).to_multiset(),
    ensures
        selected_records(left_over, min_files, cutoff) == Seq::<RecordView>::empty(),
        selection(left_over, min_files, cutoff) == Seq::<Seq<char>>::empty(),
{
    let kept = kept_records(records, min_files, cutoff);
    let again = selected_records(left_over, min_files, cutoff);
    lemma_kept_are_few_or_young(records, min_files, cutoff);
    vstd::seq_lib::to_multiset_len(kept);
    vstd::seq_lib::to_multiset_len(left_over);
    if left_over.len() <= min_files {
        lemma_nothing_selected_below_floor(left_over, min_files, cutoff);
    } else {
        lemma_selected_are_expired(left_over, min_files, cutoff);
        if again.len() > 0 {
            assert(left_over.contains(again[0]));
            vstd::seq_lib::to_multiset_contains(left_over, again[0]);
            vstd::seq_lib::to_multiset_contains(kept, again[0]);
            let i = choose|i: int| 0 <= i < kept.len() && kept[i] == again[0];
            assert(kept[i].modified >= cutoff);
        }
        assert(again =~= Seq::<RecordView>::empty());
        assert(selection(left_over, min_files, cutoff) =~= Seq::<Seq<char>>::empty());
    }
}

/// Ordering rearranges the paths and no more.
proof fn lemma_newest_first_paths(records: Seq<RecordView>)
    ensures
        paths_of(newest_first(records)).to_multiset() == paths_of(records).to_multiset(),
    decreases records.len(),
{
    broadcast use vstd::seq_lib::group_to_multiset_ensures;

    if records.len() > 0 {
        let front = records.drop_last();
        let last = records.last();
        let sorted = newest_first(front);
        lemma_newest_first_paths(front);
        lemma_inserted_at_point(sorted, last);
        let point = insert_point(sorted, last) as int;
        assert(paths_of(sorted.insert(point, last)) =~= paths_of(sorted).insert(
            point,
            last.path,
        ));
        assert(paths_of(records) =~= paths_of(front).push(last.path));
    }
}

/// Where no two records share a path, the paths of the `min_files` newest
/// records are never selected, however old those records are.
pub proof fn lemma_newest_are_kept(
    records: Seq<RecordView>,
    min_files: nat,
    cutoff: int,
    position: int,
)
    requires
        paths_of(records).no_duplicates(),
        0 <= position < min_files,
        position < records.len(),
    ensures
        !selection(records, min_files, cutoff).contains(newest_first(records)[position].path),
{
    let sorted = newest_first(records);
    let chosen = selected_records(records, min_files, cutoff);
    let paths = selection(records, min_files, cutoff);
    lemma_newest_first_len(records);
    lemma_newest_first_paths(records);
    paths_of(records).lemma_multiset_has_no_duplicates();
    paths_of(sorted).lemma_multiset_has_no_duplicates_conv();
    if paths.contains(sorted[position].path) {
        let k = choose|k: int| 0 <= k < paths.len() && paths[k] == sorted[position].path;
        let other = lemma_selected_position(records, min_files, cutoff, k);
        assert(paths_of(sorted)[other] == paths_of(sorted)[position]);
    }
}

/// While no more than `min_files` files carry the extension, nothing is
/// selected, however old the files are.
pub proof fn lemma_selection_empty_below_floor(
    entries: Seq<EntryView>,
    extension: Seq<char>,
    min_files: nat,
    keep_days: int,
    now: int,
)
    requires
        matching(entries, extension).len() <= min_files,
    ensures
        policy_selection(entries, extension, min_files, keep_days, now) == Seq::<
            Seq<char>,
        >::empty(),
{
    let files = matching(entries, extension);
    lemma_timed_records_len(files);
    lemma_nothing_selected_below_floor(
        timed_records(files),
        min_files,
        cutoff_epoch(now, keep_days),
    );
}

/// No more records than files.
pub proof fn lemma_timed_records_len(files: Seq<EntryView>)
    ensures
        timed_records(files).len() <= files.len(),
    decreases files.len(),
{
    if files.len() > 0 {
        lemma_timed_records_len(files.drop_last());
    }
}

/// Every record comes from a file whose age is known.
proof fn lemma_timed_records_source(files: Seq<EntryView>, k: int) -> (j: int)
    requires
        0 <= k < timed_records(files).len(),
    ensures
        0 <= j < files.len(),
        record_of(files[j]) == Some(timed_records(files)[k]),
    decreases files.len(),
{
    let front = files.drop_last();
    if k < timed_records(front).len() {
        lemma_timed_records_source(front, k)
    } else {
        files.len() - 1
    }
}

/// Whether `path` is the path of a regular file among `entries` that carries
/// `extension` and was last modified, by its own metadata, before `cutoff`.
pub open spec fn names_expired_file(
    entries: Seq<EntryView>,
    extension: Seq<char>,
    path: Seq<char>,
    cutoff: int,
) -> bool {
    exists|j: int|
        0 <= j < entries.len() && is_wanted(#[trigger] entries[j], extension) && entries[j].path
            == path && (entries[j].modified matches ModifiedTime::SinceEpoch(seconds) && seconds
            < cutoff)
}

/// Every selected path is the path of a regular file found by the scan that
/// carries the extension and was last modified before the cutoff. A file
/// whose age is unknown is never selected.
pub proof fn lemma_selected_come_from_scan(
    entries: Seq<EntryView>,
    extension: Seq<char>,
    min_files: nat,
    keep_days: int,
    now: int,
)
    ensures
        forall|i: int|
            0 <= i < policy_selection(entries, extension, min_files, keep_days, now).len()
                ==> names_expired_file(
                entries,
                extension,
                #[trigger] policy_selection(entries, extension, min_files, keep_days, now)[i],
                cutoff_epoch(now, keep_days),
            ),
{
    let files = matching(entries, extension);
    let records = timed_records(files);
    let cutoff = cutoff_epoch(now, keep_days);
    let chosen = selected_records(records, min_files, cutoff);
    let paths = policy_selection(entries, extension, min_files, keep_days, now);
    lemma_selected_are_expired(records, min_files, cutoff);
    assert forall|i: int| 0 <= i < paths.len() implies names_expired_file(
        entries,
        extension,
        #[trigger] paths[i],
        cutoff,
    ) by {
        let k = choose|k: int| 0 <= k < records.len() && records[k] == chosen[i];
        let f = lemma_timed_records_source(files, k);
        entries.lemma_filter_pred(wanted(extension), f);
        entries.lemma_filter_contains_rev(wanted(extension), files[f]);
        let j = choose|j: int| 0 <= j < entries.len() && entries[j] == files[f];
        assert(is_wanted(entries[j], extension) && entries[j].path == paths[i]);
    }
}

} // verus!
