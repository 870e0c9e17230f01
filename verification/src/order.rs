//! Ordering records from the newest to the oldest.
//!
//! The order is stable: records of equal age stay in the order in which they
//! were given. It is therefore a function of the records alone.

use vstd::prelude::*;
use crate::scan::{FileRecord, RecordView};

verus! {

/// `sorted` with `record` put behind every record that is at least as new.
pub open spec fn inserted(sorted: Seq<RecordView>, record: RecordView) -> Seq<RecordView>
    decreases sorted.len(),
{
    if sorted.len() == 0 {
        seq![record]
    } else if sorted[0].modified >= record.modified {
        seq![sorted[0]] + inserted(sorted.drop_first(), record)
    } else {
        seq![record] + sorted
    }
}

/// The records from the newest to the oldest, those of equal age in the order
/// in which `records` holds them.
pub open spec fn newest_first(records: Seq<RecordView>) -> Seq<RecordView>
    decreases records.len(),
{
    if records.len() == 0 {
        Seq::empty()
    } else {
        inserted(newest_first(records.drop_last()), records.last())
    }
}

/// Whether no record of `records` stands before a newer one.
pub open spec fn is_newest_first(records: Seq<RecordView>) -> bool {
    forall|i: int, j: int|
        0 <= i <= j < records.len() ==> records[i].modified >= records[j].modified
}

/// The two sequences interleaved from the front, taking from `left` as long
/// as its first record is at least as new as the first of `right`.
pub closed spec fn merged(left: Seq<RecordView>, right: Seq<RecordView>) -> Seq<RecordView>
    decreases left.len() + right.len(),
{
    if left.len() == 0 {
        right
    } else if right.len() == 0 {
        left
    } else if left[0].modified >= right[0].modified {
        seq![left[0]] + merged(left.drop_first(), right)
    } else {
        seq![right[0]] + merged(left, right.drop_first())
    }
}

/// Inserting a record makes the sequence one longer.
pub proof fn lemma_inserted_len(sorted: Seq<RecordView>, record: RecordView)
    ensures
        inserted(sorted, record).len() == sorted.len() + 1,
    decreases sorted.len(),
{
    if sorted.len() > 0 && sorted[0].modified >= record.modified {
        lemma_inserted_len(sorted.drop_first(), record);
    }
}

/// Ordering keeps the number of records.
pub proof fn lemma_newest_first_len(records: Seq<RecordView>)
    ensures
        newest_first(records).len() == records.len(),
    decreases records.len(),
{
    if records.len() > 0 {
        lemma_newest_first_len(records.drop_last());
        lemma_inserted_len(newest_first(records.drop_last()), records.last());
    }
}

/// Inserting a record into the right half before interleaving, or into the
/// whole after it, comes to the same.
proof fn lemma_merged_inserted(left: Seq<RecordView>, right: Seq<RecordView>, record: RecordView)
    ensures
        merged(left, inserted(right, record)) == inserted(merged(left, right), record),
    decreases left.len() + right.len(),
{
    let with_record = inserted(right, record);
    let both = merged(left, right);
    lemma_inserted_len(right, record);
    if left.len() > 0 {
        if right.len() == 0 {
            if left[0].modified >= record.modified {
                lemma_merged_inserted(left.drop_first(), right, record);
                assert(merged(left.drop_first(), right) =~= left.drop_first());
            } else {
                assert(merged(left, with_record.drop_first()) == left);
            }
        } else if right[0].modified >= record.modified {
            assert(with_record.drop_first() =~= inserted(right.drop_first(), record));
            if left[0].modified >= right[0].modified {
                lemma_merged_inserted(left.drop_first(), right, record);
                assert(both.drop_first() =~= merged(left.drop_first(), right));
            } else {
                lemma_merged_inserted(left, right.drop_first(), record);
                assert(both.drop_first() =~= merged(left, right.drop_first()));
            }
        } else {
            assert(with_record.drop_first() =~= right);
            if left[0].modified >= record.modified {
                lemma_merged_inserted(left.drop_first(), right, record);
                assert(both.drop_first() =~= merged(left.drop_first(), right));
            }
        }
    }
}

/// Interleaving two ordered halves orders the whole.
proof fn lemma_merged_newest_first(left: Seq<RecordView>, right: Seq<RecordView>)
    ensures
        merged(newest_first(left), newest_first(right)) == newest_first(left + right),
    decreases right.len(),
{
    if right.len() > 0 {
        assert((left + right).drop_last() =~= left + right.drop_last());
        lemma_merged_newest_first(left, right.drop_last());
        lemma_merged_inserted(
            newest_first(left),
            newest_first(right.drop_last()),
            right.last(),
        );
    }
}

/// How many records at the front of `sorted` are at least as new as
/// `record`: the position at which [`inserted`] puts it.
pub open spec fn insert_point(sorted: Seq<RecordView>, record: RecordView) -> nat
    decreases sorted.len(),
{
    if sorted.len() == 0 || sorted[0].modified < record.modified {
        0
    } else {
        1 + insert_point(sorted.drop_first(), record)
    }
}

/// [`inserted`] puts the record at [`insert_point`]: behind records that are
/// at least as new, and before one that is older.
pub proof fn lemma_inserted_at_point(sorted: Seq<RecordView>, record: RecordView)
    ensures
        insert_point(sorted, record) <= sorted.len(),
        inserted(sorted, record) == sorted.insert(insert_point(sorted, record) as int, record),
        forall|k: int|
            0 <= k < insert_point(sorted, record) ==> sorted[k].modified >= record.modified,
        insert_point(sorted, record) < sorted.len() ==> sorted[insert_point(
            sorted,
            record,
        ) as int].modified < record.modified,
    decreases sorted.len(),
{
    let point = insert_point(sorted, record) as int;
    if sorted.len() > 0 && sorted[0].modified >= record.modified {
        let rest = sorted.drop_first();
        lemma_inserted_at_point(rest, record);
        assert forall|k: int| 0 <= k < point implies sorted[k].modified >= record.modified by {
            if k > 0 {
                assert(sorted[k] == rest[k - 1]);
            }
        }
    }
}

/// Inserting into an ordered sequence leaves it ordered.
proof fn lemma_inserted_ordered(sorted: Seq<RecordView>, record: RecordView)
    requires
        is_newest_first(sorted),
    ensures
        is_newest_first(inserted(sorted, record)),
{
    lemma_inserted_at_point(sorted, record);
}

/// In the order that [`newest_first`] gives, no record stands before a newer
/// one.
pub proof fn lemma_newest_first_ordered(records: Seq<RecordView>)
    ensures
        is_newest_first(newest_first(records)),
    decreases records.len(),
{
    if records.len() > 0 {
        lemma_newest_first_ordered(records.drop_last());
        lemma_inserted_ordered(newest_first(records.drop_last()), records.last());
    }
}

/// The test "modified at `seconds`".
pub open spec fn at_time(seconds: nat) -> spec_fn(RecordView) -> bool {
    |record: RecordView| record.modified == seconds
}

/// The records modified at `seconds`, in the order in which `records` holds
/// them.
pub open spec fn modified_at(records: Seq<RecordView>, seconds: nat) -> Seq<RecordView> {
    records.filter(at_time(seconds))
}

/// Whether the two sequences hold, for every age, the same records of that
/// age in the same order.
pub open spec fn same_order_within_ages(first: Seq<RecordView>, second: Seq<RecordView>) -> bool {
    forall|seconds: nat| #[trigger] modified_at(first, seconds) == modified_at(second, seconds)
}

/// Inserting a record puts it behind the records of its own age.
proof fn lemma_inserted_same_age(sorted: Seq<RecordView>, record: RecordView, seconds: nat)
    requires
        is_newest_first(sorted),
    ensures
        modified_at(inserted(sorted, record), seconds) == modified_at(
            sorted.push(record),
            seconds,
        ),
{
    lemma_inserted_at_point(sorted, record);
    let point = insert_point(sorted, record) as int;
    let front = sorted.subrange(0, point);
    let back = sorted.subrange(point, sorted.len() as int);
    let same = at_time(seconds);
    assert(sorted =~= front + back);
    assert(sorted.insert(point, record) =~= front.push(record) + back);
    Seq::filter_distributes_over_add(front, back, same);
    Seq::filter_distributes_over_add(front.push(record), back, same);
    front.lemma_filter_push(record, same);
    sorted.lemma_filter_push(record, same);
    if record.modified == seconds {
        assert forall|k: int| 0 <= k < back.len() implies !same(#[trigger] back[k]) by {
            assert(sorted[point].modified >= sorted[point + k].modified);
        }
        back.lemma_all_neg_filter_empty(same);
    }
}

/// The records of one age come out of [`newest_first`] in the order in which
/// they went in.
proof fn lemma_newest_first_stable_at(records: Seq<RecordView>, seconds: nat)
    ensures
        modified_at(newest_first(records), seconds) == modified_at(records, seconds),
    decreases records.len(),
{
    if records.len() > 0 {
        let front = records.drop_last();
        lemma_newest_first_stable_at(front, seconds);
        lemma_newest_first_ordered(front);
        lemma_inserted_same_age(newest_first(front), records.last(), seconds);
        newest_first(front).lemma_filter_push(records.last(), at_time(seconds));
        front.lemma_filter_push(records.last(), at_time(seconds));
        assert(front.push(records.last()) =~= records);
    }
}

/// Records of equal age keep their order: for every age, the records of that
/// age come out of [`newest_first`] in the order in which they went in.
pub proof fn lemma_newest_first_stable(records: Seq<RecordView>)
    ensures
        same_order_within_ages(newest_first(records), records),
{
    assert forall|seconds: nat| #[trigger]
        modified_at(newest_first(records), seconds) == modified_at(records, seconds) by {
        lemma_newest_first_stable_at(records, seconds);
    }
}

/// The records of one age, seen from the last record of the sequence.
proof fn lemma_modified_at_last(records: Seq<RecordView>, seconds: nat)
    requires
        records.len() > 0,
    ensures
        modified_at(records, seconds) == if records.last().modified == seconds {
            modified_at(records.drop_last(), seconds).push(records.last())
        } else {
            modified_at(records.drop_last(), seconds)
        },
{
    records.drop_last().lemma_filter_push(records.last(), at_time(seconds));
    assert(records.drop_last().push(records.last()) =~= records);
}

/// Where a record of some age is found, one of the records has that age.
proof fn lemma_modified_at_witness(records: Seq<RecordView>, seconds: nat) -> (i: int)
    requires
        modified_at(records, seconds).len() > 0,
    ensures
        0 <= i < records.len(),
        records[i].modified == seconds,
{
    let found = modified_at(records, seconds);
    records.lemma_filter_pred(at_time(seconds), 0);
    records.lemma_filter_contains_rev(at_time(seconds), found[0]);
    choose|i: int| 0 <= i < records.len() && records[i] == found[0]
}

/// Two sequences, each from the newest to the oldest, that hold for every
/// age the same records in the same order, are one and the same.
proof fn lemma_ordered_and_stable_agree(first: Seq<RecordView>, second: Seq<RecordView>)
    requires
        is_newest_first(first),
        is_newest_first(second),
        same_order_within_ages(first, second),
    ensures
        first == second,
    decreases first.len(),
{
    if first.len() == 0 {
        if second.len() > 0 {
            lemma_modified_at_last(second, second.last().modified);
            assert(modified_at(first, second.last().modified).len() == 0) by {
                reveal(Seq::filter);
            }
        }
    } else {
        let oldest = first.last().modified;
        lemma_modified_at_last(first, oldest);
        let in_second = lemma_modified_at_witness(second, oldest);
        let other_oldest = second.last().modified;
        lemma_modified_at_last(second, other_oldest);
        let in_first = lemma_modified_at_witness(first, other_oldest);
        assert(oldest == other_oldest) by {
            assert(second[in_second].modified >= second.last().modified);
            assert(first[in_first].modified >= first.last().modified);
        }
        assert(first.last() == modified_at(first, oldest).last());
        let first_front = first.drop_last();
        let second_front = second.drop_last();
        assert forall|seconds: nat| #[trigger]
            modified_at(first_front, seconds) == modified_at(second_front, seconds) by {
            lemma_modified_at_last(first, seconds);
            lemma_modified_at_last(second, seconds);
            if seconds == oldest {
                assert(modified_at(first_front, seconds) =~= modified_at(
                    first,
                    seconds,
                ).drop_last());
            }
        }
        assert(is_newest_first(first_front));
        assert(is_newest_first(second_front));
        lemma_ordered_and_stable_agree(first_front, second_front);
        assert(first =~= first_front.push(first.last()));
    }
}

/// [`newest_first`] is the only order from the newest to the oldest that
/// keeps records of equal age in the order in which `records` holds them.
pub proof fn lemma_newest_first_unique(records: Seq<RecordView>, other: Seq<RecordView>)
    requires
        is_newest_first(other),
        same_order_within_ages(other, records),
    ensures
        other == newest_first(records),
{
    lemma_newest_first_ordered(records);
    lemma_newest_first_stable(records);
    assert forall|seconds: nat| #[trigger]
        modified_at(other, seconds) == modified_at(newest_first(records), seconds) by {
        assert(modified_at(other, seconds) == modified_at(records, seconds));
    }
    lemma_ordered_and_stable_agree(other, newest_first(records));
}

/// [`newest_first`] only rearranges: it holds each record as often as
/// `records` does.
pub proof fn lemma_newest_first_permutes(records: Seq<RecordView>)
    ensures
        newest_first(records).to_multiset() == records.to_multiset(),
    decreases records.len(),
{
    broadcast use vstd::seq_lib::group_to_multiset_ensures;

    if records.len() > 0 {
        let front = records.drop_last();
        lemma_newest_first_permutes(front);
        lemma_inserted_at_point(newest_first(front), records.last());
        assert(front.push(records.last()) =~= records);
    }
}

/// The records at the positions that `order` lists, in that order.
pub open spec fn picked(records: Seq<RecordView>, order: Seq<usize>) -> Seq<RecordView> {
    Seq::new(order.len(), |k: int| records[order[k] as int])
}

/// Whether every position listed in `order` is a position of `len` records.
pub open spec fn positions_within(order: Seq<usize>, len: nat) -> bool {
    forall|k: int| 0 <= k < order.len() ==> order[k] < len
}

/// Interleaves two lists of positions as [`merged`] interleaves the records
/// they stand for.
fn merge_orders(records: &Vec<FileRecord>, left: &Vec<usize>, right: &Vec<usize>) -> (out: Vec<
    usize,
>)
    requires
        positions_within(left@, records@.len()),
        positions_within(right@, records@.len()),
        left@.len() + right@.len() <= usize::MAX,
    ensures
        positions_within(out@, records@.len()),
        out@.len() == left@.len() + right@.len(),
        picked(records.deep_view(), out@) == merged(
            picked(records.deep_view(), left@),
            picked(records.deep_view(), right@),
        ),
{
    let ghost all = records.deep_view();
    let ghost from_left = picked(all, left@);
    let ghost from_right = picked(all, right@);
    let mut out: Vec<usize> = Vec::new();
    let mut i: usize = 0;
    let mut j: usize = 0;
    proof {
        assert(from_left.skip(0) =~= from_left);
        assert(from_right.skip(0) =~= from_right);
    }
    while i < left.len() || j < right.len()
        invariant
            i <= left@.len(),
            j <= right@.len(),
            left@.len() + right@.len() <= usize::MAX,
            all == records.deep_view(),
            from_left == picked(all, left@),
            from_right == picked(all, right@),
            positions_within(left@, records@.len()),
            positions_within(right@, records@.len()),
            positions_within(out@, records@.len()),
            out@.len() == i + j,
            picked(all, out@) + merged(from_left.skip(i as int), from_right.skip(j as int))
                == merged(from_left, from_right),
        decreases left@.len() + right@.len() - i - j,
    {
        let ghost rest_left = from_left.skip(i as int);
        let ghost rest_right = from_right.skip(j as int);
        let take_left = if j >= right.len() {
            true
        } else if i >= left.len() {
            false
        } else {
            records[left[i]].modified_epoch_seconds >= records[right[j]].modified_epoch_seconds
        };
        if take_left {
            proof {
                assert(rest_left.drop_first() =~= from_left.skip(i + 1));
            }
            out.push(left[i]);
            i += 1;
        } else {
            proof {
                assert(rest_right.drop_first() =~= from_right.skip(j + 1));
            }
            out.push(right[j]);
            j += 1;
        }
    }
    out
}

/// Orders the positions `lo..hi` of `records` from the newest record to the
/// oldest.
fn order_range(records: &Vec<FileRecord>, lo: usize, hi: usize) -> (order: Vec<usize>)
    requires
        lo <= hi <= records@.len(),
    ensures
        positions_within(order@, records@.len()),
        order@.len() == hi - lo,
        picked(records.deep_view(), order@) == newest_first(
            records.deep_view().subrange(lo as int, hi as int),
        ),
    decreases hi - lo,
{
    let ghost all = records.deep_view();
    let ghost range = all.subrange(lo as int, hi as int);
    if hi - lo == 0 {
        return Vec::new();
    }
    if hi - lo == 1 {
        let mut order: Vec<usize> = Vec::new();
        order.push(lo);
        proof {
            assert(newest_first(range.drop_last()) =~= Seq::<RecordView>::empty());
        }
        return order;
    }
    let mid: usize = lo + (hi - lo) / 2;
    let left = order_range(records, lo, mid);
    let right = order_range(records, mid, hi);
    proof {
        assert(all.subrange(lo as int, mid as int) + all.subrange(mid as int, hi as int) =~= range);
        lemma_merged_newest_first(
            all.subrange(lo as int, mid as int),
            all.subrange(mid as int, hi as int),
        );
    }
    merge_orders(records, &left, &right)
}

/// The positions of `records` from the newest record to the oldest; records
/// of equal age keep the order in which `records` holds them.
pub fn newest_first_order(records: &Vec<FileRecord>) -> (order: Vec<usize>)
    ensures
        order@.len() == records@.len(),
        positions_within(order@, records@.len()),
        picked(records.deep_view(), order@) == newest_first(records.deep_view()),
{
    let order = order_range(records, 0, records.len());
    assert(records.deep_view().subrange(0, records@.len() as int) =~= records.deep_view());
    order
}

/// The records from the newest to the oldest; records of equal age keep the
/// order in which `records` holds them.
pub fn sort_newest_first(records: &Vec<FileRecord>) -> (sorted: Vec<FileRecord>)
    ensures
        sorted.deep_view() == newest_first(records.deep_view()),
        is_newest_first(sorted.deep_view()),
        same_order_within_ages(sorted.deep_view(), records.deep_view()),
{
    proof {
        lemma_newest_first_ordered(records.deep_view());
        lemma_newest_first_stable(records.deep_view());
    }
    let order = newest_first_order(records);
    let ghost all = records.deep_view();
    let mut sorted: Vec<FileRecord> = Vec::new();
    let mut k: usize = 0;
    while k < order.len()
        invariant
            k <= order@.len(),
            all == records.deep_view(),
            positions_within(order@, records@.len()),
            sorted.deep_view() == picked(all, order@).take(k as int),
        decreases order@.len() - k,
    {
        let ghost before = sorted.deep_view();
        let record = &records[order[k]];
        sorted.push(
            FileRecord {
                path: record.path.clone(),
                modified_epoch_seconds: record.modified_epoch_seconds,
            },
        );
        assert(sorted.deep_view() =~= before.push(record@));
        k += 1;
    }
    sorted
}

} // verus!
