//! Merging the slots of two rooms into the rows of one timetable.

use crate::slots::{slot_views, Slot, SlotMap};
use crate::sort::{all_times, lemma_stable_sort_unique, sort_slots, stable_sort_of};
use crate::text::same_text;
use crate::time::{in_range, is_time, parse_time, time_in_range, time_of};
use vstd::prelude::*;

verus! {

/// One line of the timetable: a slot, whether each room is free then, and
/// whether the slot is the one that is running now.
#[derive(Debug, Clone, PartialEq, Eq)]
pub struct ScheduleRow {
    pub time: String,
    pub room_1: bool,
    pub room_2: bool,
    pub is_current: bool,
}

/// A row as contracts see it.
pub struct RowView {
    pub time: Seq<char>,
    pub room_1: bool,
    pub room_2: bool,
    pub is_current: bool,
}

impl View for ScheduleRow {
    type V = RowView;

    open spec fn view(&self) -> RowView {
        RowView {
            time: self.time@,
            room_1: self.room_1,
            room_2: self.room_2,
            is_current: self.is_current,
        }
    }
}

/// The views of a list of rows.
pub open spec fn row_views(rows: Seq<ScheduleRow>) -> Seq<RowView> {
    Seq::new(rows.len(), |i: int| rows[i]@)
}

/// Why two rooms give no timetable.
#[derive(Debug, Clone, Copy, PartialEq, Eq, Structural)]
pub enum ScheduleError {
    /// The current time, an end of the day or the key of a slot is not a time
    /// of day.
    InvalidTime,
    /// The two rooms, each sorted by time, do not have the same keys in the
    /// same places.
    RoomsDiffer,
    /// A slot within the day is the last one, so nothing says when it ends.
    NoNextSlot,
}

/// The slot is within the day and gets a row.
pub open spec fn shown(slot: Slot, day_start: (u32, u32), day_end: (u32, u32)) -> bool {
    in_range(time_of(slot.0), day_start, day_end)
}

/// The row of the slot at place `i`.
///
/// The time and the first flag come from the first room at `i`, the second
/// flag from the second room at the same place. The slot is the current one
/// if `now` is in the range from its time to the time of the slot that the
/// second room has at place `i + 1`.
pub open spec fn row_at(room_1: Seq<Slot>, room_2: Seq<Slot>, now: (u32, u32), i: int) -> RowView {
    RowView {
        time: room_1[i].0,
        room_1: room_1[i].1,
        room_2: room_2[i].1,
        is_current: in_range(now, time_of(room_1[i].0), time_of(room_2[i + 1].0)),
    }
}

/// The rows of the first `n` slots: one for each slot of the first room that
/// is within the day, in the order of the slots.
pub open spec fn rows_of(
    room_1: Seq<Slot>,
    room_2: Seq<Slot>,
    now: (u32, u32),
    day_start: (u32, u32),
    day_end: (u32, u32),
    n: int,
) -> Seq<RowView>
    decreases n,
{
    if n <= 0 {
        Seq::<RowView>::empty()
    } else {
        let before = rows_of(room_1, room_2, now, day_start, day_end, n - 1);
        if shown(room_1[n - 1], day_start, day_end) {
            before.push(row_at(room_1, room_2, now, n - 1))
        } else {
            before
        }
    }
}

/// For every slot of the first room that is within the day, the second room
/// has a slot at the place after it.
pub open spec fn next_known(
    room_1: Seq<Slot>,
    room_2: Seq<Slot>,
    day_start: (u32, u32),
    day_end: (u32, u32),
) -> bool {
    forall|i: int|
        0 <= i < room_1.len() && shown(#[trigger] room_1[i], day_start, day_end) ==> i + 1
            < room_2.len()
}

/// The two lists are as long as each other and have the same key in every
/// place.
pub open spec fn aligned(room_1: Seq<Slot>, room_2: Seq<Slot>) -> bool {
    room_1.len() == room_2.len() && forall|i: int|
        0 <= i < room_1.len() ==> (#[trigger] room_1[i]).0 == room_2[i].0
}

/// The slots `s` sorted by time, stably.
pub open spec fn sorted(s: Seq<Slot>) -> Seq<Slot> {
    choose|r: Seq<Slot>| stable_sort_of(r, s)
}

/// The timetable of two rooms, or why there is none.
///
/// Every text has to be a time of day. Each room is sorted by time. The two
/// sorted lists have to agree in their keys, place by place, and every slot
/// within the day needs a slot after it. Then the rows are those of `rows_of`.
pub open spec fn schedule_of(
    room_1: Seq<Slot>,
    room_2: Seq<Slot>,
    now: Seq<char>,
    day_start: Seq<char>,
    day_end: Seq<char>,
) -> Result<Seq<RowView>, ScheduleError> {
    if !(is_time(now) && is_time(day_start) && is_time(day_end) && all_times(room_1) && all_times(
        room_2,
    )) {
        Err(ScheduleError::InvalidTime)
    } else if !aligned(sorted(room_1), sorted(room_2)) {
        Err(ScheduleError::RoomsDiffer)
    } else if !next_known(sorted(room_1), sorted(room_2), time_of(day_start), time_of(day_end)) {
        Err(ScheduleError::NoNextSlot)
    } else {
        Ok(
            rows_of(
                sorted(room_1),
                sorted(room_2),
                time_of(now),
                time_of(day_start),
                time_of(day_end),
                sorted(room_1).len() as int,
            ),
        )
    }
}

/// Merges the sorted slots of two rooms, place by place, into rows.
///
/// A slot of the first room outside the range from `day_start` to `day_end`
/// gets no row. The second room is read at the place of the slot for its
/// flag, and at the place after it for the time at which the slot ends.
pub fn schedule_rows(
    room_1: &Vec<(&str, bool)>,
    room_2: &Vec<(&str, bool)>,
    now: &str,
    day_start: &str,
    day_end: &str,
) -> (rows: Vec<ScheduleRow>)
    requires
        is_time(now@),
        is_time(day_start@),
        is_time(day_end@),
        all_times(slot_views(room_1@)),
        all_times(slot_views(room_2@)),
        next_known(
            slot_views(room_1@),
            slot_views(room_2@),
            time_of(day_start@),
            time_of(day_end@),
        ),
    ensures
        row_views(rows@) == rows_of(
            slot_views(room_1@),
            slot_views(room_2@),
            time_of(now@),
            time_of(day_start@),
            time_of(day_end@),
            room_1.len() as int,
        ),
{
    let ghost first = slot_views(room_1@);
    let ghost second = slot_views(room_2@);
    let mut rows: Vec<ScheduleRow> = Vec::new();
    let mut i: usize = 0;
    proof {
        assert(row_views(rows@) =~= Seq::<RowView>::empty());
    }
    while i < room_1.len()
        invariant
            i <= room_1.len(),
            first == slot_views(room_1@),
            second == slot_views(room_2@),
            is_time(now@),
            is_time(day_start@),
            is_time(day_end@),
            all_times(first),
            all_times(second),
            next_known(first, second, time_of(day_start@), time_of(day_end@)),
            row_views(rows@) == rows_of(
                first,
                second,
                time_of(now@),
                time_of(day_start@),
                time_of(day_end@),
                i as int,
            ),
        decreases room_1.len() - i,
    {
        let (time, free_1) = room_1[i];
        assert(first[i as int] == (time@, free_1));
        assert(is_time(first[i as int].0));
        if time_in_range(time, day_start, day_end) {
            assert(shown(first[i as int], time_of(day_start@), time_of(day_end@)));
            let (next, _) = room_2[i + 1];
            let (_, free_2) = room_2[i];
            assert(second[i + 1] == (next@, room_2[i + 1].1));
            assert(second[i as int] == (room_2[i as int].0@, free_2));
            assert(is_time(second[i + 1].0));
            let is_current = time_in_range(now, time, next);
            let row = ScheduleRow {
                time: time.to_owned(),
                room_1: free_1,
                room_2: free_2,
                is_current,
            };
            proof {
                assert(row@ == row_at(first, second, time_of(now@), i as int));
                assert(row_views(rows@.push(row)) =~= row_views(rows@).push(row@));
            }
            rows.push(row);
        }
        i = i + 1;
    }
    rows
}

/// Whether the key of every slot is a time of day.
pub fn valid_times(slots: &Vec<(&str, bool)>) -> (r: bool)
    ensures
        r == all_times(slot_views(slots@)),
{
    let mut i: usize = 0;
    while i < slots.len()
        invariant
            i <= slots.len(),
            forall|j: int| 0 <= j < i ==> is_time(#[trigger] slot_views(slots@)[j].0),
        decreases slots.len() - i,
    {
        if parse_time(slots[i].0).is_err() {
            assert(!is_time(slot_views(slots@)[i as int].0));
            return false;
        }
        i = i + 1;
    }
    true
}

/// Whether two lists have the same length and the same key in every place.
pub fn same_keys(room_1: &Vec<(&str, bool)>, room_2: &Vec<(&str, bool)>) -> (r: bool)
    ensures
        r == aligned(slot_views(room_1@), slot_views(room_2@)),
{
    if room_1.len() != room_2.len() {
        return false;
    }
    let mut i: usize = 0;
    while i < room_1.len()
        invariant
            i <= room_1.len(),
            room_1.len() == room_2.len(),
            forall|j: int|
                0 <= j < i ==> (#[trigger] slot_views(room_1@)[j]).0 == slot_views(room_2@)[j].0,
        decreases room_1.len() - i,
    {
        if !same_text(room_1[i].0, room_2[i].0) {
            assert(slot_views(room_1@)[i as int].0 != slot_views(room_2@)[i as int].0);
            return false;
        }
        i = i + 1;
    }
    true
}

/// Whether every slot of the first room within the day has a slot after it
/// in the second room.
pub fn has_next_slots(
    room_1: &Vec<(&str, bool)>,
    room_2: &Vec<(&str, bool)>,
    day_start: &str,
    day_end: &str,
) -> (r: bool)
    requires
        is_time(day_start@),
        is_time(day_end@),
        all_times(slot_views(room_1@)),
    ensures
        r == next_known(
            slot_views(room_1@),
            slot_views(room_2@),
            time_of(day_start@),
            time_of(day_end@),
        ),
{
    let ghost first = slot_views(room_1@);
    let mut i: usize = 0;
    while i < room_1.len()
        invariant
            i <= room_1.len(),
            first == slot_views(room_1@),
            is_time(day_start@),
            is_time(day_end@),
            all_times(first),
            forall|j: int|
                0 <= j < i && shown(#[trigger] first[j], time_of(day_start@), time_of(day_end@))
                    ==> j + 1 < room_2.len(),
        decreases room_1.len() - i,
    {
        assert(first[i as int].0 == room_1[i as int].0@);
        assert(is_time(first[i as int].0));
        if i + 1 >= room_2.len() && time_in_range(room_1[i].0, day_start, day_end) {
            assert(shown(first[i as int], time_of(day_start@), time_of(day_end@)));
            return false;
        }
        i = i + 1;
    }
    true
}

/// The timetable of two rooms for one day.
///
/// Sorts the slots of each room by time and merges them place by place. A
/// text that is no time of day, two rooms whose sorted keys differ, and a
/// slot within the day that has no slot after it each end in an error, never
/// in a shorter or padded timetable.
pub fn schedule(
    room_1: &SlotMap,
    room_2: &SlotMap,
    now: &str,
    day_start: &str,
    day_end: &str,
) -> (r: Result<Vec<ScheduleRow>, ScheduleError>)
    ensures
        match r {
            Ok(rows) => schedule_of(room_1.entries(), room_2.entries(), now@, day_start@, day_end@)
                == Ok::<Seq<RowView>, ScheduleError>(row_views(rows@)),
            Err(e) => schedule_of(room_1.entries(), room_2.entries(), now@, day_start@, day_end@)
                == Err::<Seq<RowView>, ScheduleError>(e),
        },
        r matches Ok(rows) ==> forall|k: int| 0 <= k < rows.len() ==> is_time(#[trigger] rows[k]@.time),
{
    let slots_1 = room_1.slots();
    let slots_2 = room_2.slots();
    if parse_time(now).is_err() || parse_time(day_start).is_err() || parse_time(day_end).is_err()
        || !valid_times(&slots_1) || !valid_times(&slots_2) {
        return Err(ScheduleError::InvalidTime);
    }
    let sorted_1 = sort_slots(&slots_1);
    let sorted_2 = sort_slots(&slots_2);
    proof {
        lemma_sorted_is(slot_views(sorted_1@), room_1.entries());
        lemma_sorted_is(slot_views(sorted_2@), room_2.entries());
        lemma_sorted_keeps_times(slot_views(sorted_1@), room_1.entries());
        lemma_sorted_keeps_times(slot_views(sorted_2@), room_2.entries());
    }
    if !same_keys(&sorted_1, &sorted_2) {
        return Err(ScheduleError::RoomsDiffer);
    }
    if !has_next_slots(&sorted_1, &sorted_2, day_start, day_end) {
        return Err(ScheduleError::NoNextSlot);
    }
    let rows = schedule_rows(&sorted_1, &sorted_2, now, day_start, day_end);
    proof {
        assert forall|k: int| 0 <= k < rows.len() implies is_time(#[trigger] rows[k]@.time) by {
            assert(row_views(rows@)[k] == rows[k]@);
            lemma_row_times(
                slot_views(sorted_1@),
                slot_views(sorted_2@),
                time_of(now@),
                time_of(day_start@),
                time_of(day_end@),
                sorted_1.len() as int,
                k,
            );
        }
    }
    Ok(rows)
}

/// Whatever is a stable sort of `s` is the list `sorted(s)`.
pub proof fn lemma_sorted_is(r: Seq<Slot>, s: Seq<Slot>)
    requires
        stable_sort_of(r, s),
    ensures
        r == sorted(s),
{
    lemma_stable_sort_unique(r, sorted(s), s);
}

/// Sorting slots whose keys are all times of day gives such slots again.
pub proof fn lemma_sorted_keeps_times(r: Seq<Slot>, s: Seq<Slot>)
    requires
        r.to_multiset() == s.to_multiset(),
        all_times(s),
    ensures
        all_times(r),
{
    assert forall|i: int| 0 <= i < r.len() implies is_time(#[trigger] r[i].0) by {
        vstd::seq_lib::to_multiset_contains(r, r[i]);
        vstd::seq_lib::to_multiset_contains(s, r[i]);
        assert(r.contains(r[i]));
        assert(s.contains(r[i]));
        let j = choose|j: int| 0 <= j < s.len() && s[j] == r[i];
        assert(is_time(s[j].0));
    }
}

/// The time of every row is the key of a slot of the first room.
pub proof fn lemma_row_times(
    room_1: Seq<Slot>,
    room_2: Seq<Slot>,
    now: (u32, u32),
    day_start: (u32, u32),
    day_end: (u32, u32),
    n: int,
    k: int,
)
    requires
        0 <= n <= room_1.len(),
        0 <= k < rows_of(room_1, room_2, now, day_start, day_end, n).len(),
    ensures
        exists|i: int|
            0 <= i < n && (#[trigger] room_1[i]).0 == rows_of(
                room_1,
                room_2,
                now,
                day_start,
                day_end,
                n,
            )[k].time,
    decreases n,
{
    let before = rows_of(room_1, room_2, now, day_start, day_end, n - 1);
    if k < before.len() {
        lemma_row_times(room_1, room_2, now, day_start, day_end, n - 1, k);
        let i = choose|i: int| 0 <= i < n - 1 && (#[trigger] room_1[i]).0 == before[k].time;
        assert(room_1[i].0 == rows_of(room_1, room_2, now, day_start, day_end, n)[k].time);
    } else {
        assert(room_1[n - 1].0 == rows_of(room_1, room_2, now, day_start, day_end, n)[k].time);
    }
}

} // verus!
