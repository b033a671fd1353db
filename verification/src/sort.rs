//! Putting the slots of a room in chronological order.

use crate::slots::{slot_views, Slot, SlotMap};
use crate::time::{
    is_time, lemma_time_le_antisymmetric, lemma_time_le_transitive, time_cmp, time_le, time_of,
};
use std::cmp::Ordering;
use vstd::prelude::*;

verus! {

/// The key of every slot is a time of day.
pub open spec fn all_times(s: Seq<Slot>) -> bool {
    forall|i: int| 0 <= i < s.len() ==> is_time(#[trigger] s[i].0)
}

/// No slot comes before an earlier one.
pub open spec fn sorted_by_time(s: Seq<Slot>) -> bool {
    forall|i: int, j: int|
        0 <= i < j < s.len() ==> time_le(time_of(#[trigger] s[i].0), time_of(#[trigger] s[j].0))
}

/// The slots of `s` whose key denotes the time `t`, in their order in `s`.
pub open spec fn slots_at(s: Seq<Slot>, t: (u32, u32)) -> Seq<Slot>
    decreases s.len(),
{
    if s.len() == 0 {
        Seq::<Slot>::empty()
    } else if time_of(s.last().0) == t {
        slots_at(s.drop_last(), t).push(s.last())
    } else {
        slots_at(s.drop_last(), t)
    }
}

/// `r` is `s` sorted by time, stably: `r` is in chronological order, and for
/// every time the slots at that time are the same in `r` as in `s`, in the
/// same order. So `r` holds the slots of `s`, each as often, and slots whose
/// keys denote the same time keep the order they had.
pub open spec fn stable_sort_of(r: Seq<Slot>, s: Seq<Slot>) -> bool {
    sorted_by_time(r) && forall|t: (u32, u32)| #[trigger] slots_at(r, t) == slots_at(s, t)
}

/// The slots at a time of two lists in a row are those of the first followed
/// by those of the second.
pub proof fn lemma_slots_at_concat(a: Seq<Slot>, b: Seq<Slot>, t: (u32, u32))
    ensures
        slots_at(a + b, t) == slots_at(a, t) + slots_at(b, t),
    decreases b.len(),
{
    if b.len() == 0 {
        assert(a + b =~= a);
        assert(slots_at(a, t) + slots_at(b, t) =~= slots_at(a, t));
    } else {
        lemma_slots_at_concat(a, b.drop_last(), t);
        assert((a + b).drop_last() =~= a + b.drop_last());
        assert((a + b).last() == b.last());
        if time_of(b.last().0) == t {
            assert((slots_at(a, t) + slots_at(b.drop_last(), t)).push(b.last()) =~= slots_at(a, t)
                + slots_at(b.drop_last(), t).push(b.last()));
        }
    }
}

/// Every slot at a time is a slot of the list, and its key denotes that time.
pub proof fn lemma_slots_at_members(s: Seq<Slot>, t: (u32, u32), k: int)
    requires
        0 <= k < slots_at(s, t).len(),
    ensures
        time_of(slots_at(s, t)[k].0) == t,
        exists|i: int| 0 <= i < s.len() && s[i] == slots_at(s, t)[k],
    decreases s.len(),
{
    if s.len() > 0 {
        let rest = slots_at(s.drop_last(), t);
        if k < rest.len() {
            lemma_slots_at_members(s.drop_last(), t, k);
            let i = choose|i: int| 0 <= i < s.drop_last().len() && s.drop_last()[i] == rest[k];
            assert(s[i] == slots_at(s, t)[k]);
        } else {
            assert(s[s.len() - 1] == slots_at(s, t)[k]);
        }
    }
}

/// A list without a slot at a time has no slots at that time.
pub proof fn lemma_slots_at_none(s: Seq<Slot>, t: (u32, u32))
    requires
        forall|i: int| 0 <= i < s.len() ==> time_of(#[trigger] s[i].0) != t,
    ensures
        slots_at(s, t) == Seq::<Slot>::empty(),
    decreases s.len(),
{
    if s.len() > 0 {
        assert(time_of(s[s.len() - 1].0) != t);
        lemma_slots_at_none(s.drop_last(), t);
    }
}

/// A list has only one stable sort by time.
pub proof fn lemma_stable_sort_unique(r1: Seq<Slot>, r2: Seq<Slot>, s: Seq<Slot>)
    requires
        stable_sort_of(r1, s),
        stable_sort_of(r2, s),
    ensures
        r1 == r2,
    decreases r1.len(),
{
    if r1.len() == 0 {
        if r2.len() > 0 {
            let t = time_of(r2.last().0);
            assert(slots_at(r2, t).len() > 0);
            assert(slots_at(r1, t) == slots_at(s, t));
        }
        assert(r1 =~= r2);
    } else {
        let x = r1.last();
        let t = time_of(x.0);
        assert(slots_at(r1, t) == slots_at(s, t));
        assert(slots_at(r2, t) == slots_at(s, t));
        assert(slots_at(r1, t) == slots_at(r1.drop_last(), t).push(x));
        assert(r2.len() > 0);
        let y = r2.last();
        let u = time_of(y.0);
        assert(slots_at(r1, u) == slots_at(s, u));
        assert(slots_at(r2, u) == slots_at(s, u));
        assert(slots_at(r2, u) == slots_at(r2.drop_last(), u).push(y));
        // The last slot of each list is at the latest time of the other.
        lemma_slots_at_members(r2, t, 0);
        let i2 = choose|i: int| 0 <= i < r2.len() && r2[i] == slots_at(r2, t)[0];
        assert(time_le(t, u)) by {
            if i2 < r2.len() - 1 {
                assert(time_le(time_of(r2[i2].0), time_of(r2[r2.len() - 1].0)));
            }
        }
        lemma_slots_at_members(r1, u, 0);
        let i1 = choose|i: int| 0 <= i < r1.len() && r1[i] == slots_at(r1, u)[0];
        assert(time_le(u, t)) by {
            if i1 < r1.len() - 1 {
                assert(time_le(time_of(r1[i1].0), time_of(r1[r1.len() - 1].0)));
            }
        }
        lemma_time_le_antisymmetric(t, u);
        assert(slots_at(r1.drop_last(), t).push(x) == slots_at(r2.drop_last(), t).push(y));
        assert(x == y) by {
            let a = slots_at(r1.drop_last(), t).push(x);
            let b = slots_at(r2.drop_last(), t).push(y);
            assert(a.last() == x);
            assert(b.last() == y);
        }
        assert(slots_at(r1.drop_last(), t) == slots_at(r2.drop_last(), t)) by {
            let a = slots_at(r1.drop_last(), t);
            let b = slots_at(r2.drop_last(), t);
            assert(a.push(x).drop_last() =~= a);
            assert(b.push(y).drop_last() =~= b);
        }
        let d1 = r1.drop_last();
        let d2 = r2.drop_last();
        assert(sorted_by_time(d1)) by {
            assert forall|i: int, j: int| 0 <= i < j < d1.len() implies time_le(
                time_of(#[trigger] d1[i].0),
                time_of(#[trigger] d1[j].0),
            ) by {
                assert(time_le(time_of(r1[i].0), time_of(r1[j].0)));
            }
        }
        assert(sorted_by_time(d2)) by {
            assert forall|i: int, j: int| 0 <= i < j < d2.len() implies time_le(
                time_of(#[trigger] d2[i].0),
                time_of(#[trigger] d2[j].0),
            ) by {
                assert(time_le(time_of(r2[i].0), time_of(r2[j].0)));
            }
        }
        assert forall|v: (u32, u32)| #[trigger] slots_at(d2, v) == slots_at(d1, v) by {
            assert(slots_at(r1, v) == slots_at(s, v));
            assert(slots_at(r2, v) == slots_at(s, v));
        }
        lemma_stable_sort_unique(d1, d2, d1);
        assert(r1 =~= d1.push(x));
        assert(r2 =~= d2.push(y));
    }
}

/// Sorting a list that is sorted already gives that list again, so sorting
/// twice gives what sorting once gives.
pub proof fn lemma_sort_twice(once: Seq<Slot>, twice: Seq<Slot>, s: Seq<Slot>)
    requires
        stable_sort_of(once, s),
        stable_sort_of(twice, once),
    ensures
        twice == once,
{
    lemma_stable_sort_unique(twice, once, once);
}

/// Putting `x` into a list at a place after which no slot is at the time of
/// `x` leaves at every time the slots that appending `x` would leave.
proof fn lemma_insert_like_push(s: Seq<Slot>, at: int, x: Slot, t: (u32, u32))
    requires
        0 <= at <= s.len(),
        forall|j: int| at <= j < s.len() ==> time_of(#[trigger] s[j].0) != time_of(x.0),
    ensures
        slots_at(s.insert(at, x), t) == slots_at(s.push(x), t),
{
    let head = s.take(at);
    let tail = s.skip(at);
    assert(s.insert(at, x) =~= head.push(x) + tail);
    assert(s =~= head + tail);
    lemma_slots_at_concat(head.push(x), tail, t);
    lemma_slots_at_concat(head, tail, t);
    assert(head.push(x).drop_last() =~= head);
    assert(s.push(x).drop_last() =~= s);
    if time_of(x.0) == t {
        assert forall|j: int| 0 <= j < tail.len() implies time_of(#[trigger] tail[j].0) != t by {
            assert(tail[j] == s[at + j]);
        }
        lemma_slots_at_none(tail, t);
        assert(slots_at(head, t).push(x) + Seq::<Slot>::empty() =~= (slots_at(head, t)
            + Seq::<Slot>::empty()).push(x));
    }
}

/// Sorts a list of slots by time. Slots at the same time keep their order.
pub fn sort_slots<'a>(slots: &Vec<(&'a str, bool)>) -> (sorted: Vec<(&'a str, bool)>)
    requires
        all_times(slot_views(slots@)),
    ensures
        stable_sort_of(slot_views(sorted@), slot_views(slots@)),
        slot_views(sorted@).to_multiset() == slot_views(slots@).to_multiset(),
        sorted.len() == slots.len(),
        sorted_by_time(slot_views(slots@)) ==> slot_views(sorted@) == slot_views(slots@),
{
    let ghost input = slot_views(slots@);
    let mut sorted: Vec<(&'a str, bool)> = Vec::new();
    let mut i: usize = 0;
    proof {
        assert(input.take(0) =~= Seq::<Slot>::empty());
        assert(slot_views(sorted@) =~= Seq::<Slot>::empty());
    }
    while i < slots.len()
        invariant
            i <= slots.len(),
            input == slot_views(slots@),
            all_times(input),
            sorted.len() == i,
            all_times(slot_views(sorted@)),
            sorted_by_time(slot_views(sorted@)),
            forall|t: (u32, u32)| #[trigger]
                slots_at(slot_views(sorted@), t) == slots_at(input.take(i as int), t),
            slot_views(sorted@).to_multiset() == input.take(i as int).to_multiset(),
        decreases slots.len() - i,
    {
        let slot = slots[i];
        let ghost x: Slot = (slot.0@, slot.1);
        let ghost before = slot_views(sorted@);
        assert(x == input[i as int]);
        assert(is_time(x.0));
        let mut at: usize = sorted.len();
        let mut searching = true;
        while searching && at > 0
            invariant
                at <= sorted.len(),
                before == slot_views(sorted@),
                all_times(before),
                is_time(slot.0@),
                x.0 == slot.0@,
                !searching ==> at > 0 && time_le(time_of(before[at - 1].0), time_of(x.0)),
                forall|j: int|
                    at <= j < before.len() ==> !time_le(
                        time_of(#[trigger] before[j].0),
                        time_of(x.0),
                    ),
            decreases at + if searching { 1int } else { 0int },
        {
            assert(before[at - 1].0 == sorted[at - 1].0@);
            if later(sorted[at - 1].0, slot.0) {
                at = at - 1;
            } else {
                searching = false;
            }
        }
        sorted.insert(at, slot);
        proof {
            let after = slot_views(sorted@);
            assert(after =~= before.insert(at as int, x));
            assert(input.take(i + 1) =~= input.take(i as int).push(x));
            assert(input.take(i + 1).drop_last() =~= input.take(i as int));
            assert(before.push(x).drop_last() =~= before);
            assert forall|t: (u32, u32)| #[trigger]
                slots_at(after, t) == slots_at(input.take(i + 1), t) by {
                assert(slots_at(before, t) == slots_at(input.take(i as int), t));
                lemma_insert_like_push(before, at as int, x, t);
            }
            assert forall|j: int| at <= j < before.len() implies time_of(#[trigger] before[j].0)
                != time_of(x.0) by {
                assert(!time_le(time_of(before[j].0), time_of(x.0)));
            }
            assert forall|a: int, b: int| 0 <= a < b < after.len() implies time_le(
                time_of(#[trigger] after[a].0),
                time_of(#[trigger] after[b].0),
            ) by {
                if b < at {
                    assert(after[a] == before[a] && after[b] == before[b]);
                } else if b == at {
                    assert(after[a] == before[a]);
                    if a < at - 1 {
                        assert(time_le(time_of(before[a].0), time_of(before[at - 1].0)));
                        lemma_time_le_transitive(
                            time_of(before[a].0),
                            time_of(before[at - 1].0),
                            time_of(x.0),
                        );
                    }
                } else if a == at {
                    assert(after[b] == before[b - 1]);
                    assert(!time_le(time_of(before[b - 1].0), time_of(x.0)));
                } else if a < at {
                    assert(after[a] == before[a] && after[b] == before[b - 1]);
                } else {
                    assert(after[a] == before[a - 1] && after[b] == before[b - 1]);
                }
            }
            assert forall|j: int| 0 <= j < after.len() implies is_time(#[trigger] after[j].0) by {
                if j < at {
                    assert(after[j] == before[j]);
                } else if j > at {
                    assert(after[j] == before[j - 1]);
                }
            }
            vstd::seq_lib::to_multiset_insert(before, at as int, x);
            vstd::seq_lib::to_multiset_build(input.take(i as int), x);
        }
        i = i + 1;
    }
    proof {
        assert(input.take(i as int) =~= input);
        if sorted_by_time(input) {
            lemma_stable_sort_unique(slot_views(sorted@), input, input);
        }
    }
    sorted
}

/// The slots of a room in chronological order, each with its key borrowed
/// from the map. Slots whose keys denote the same time stay in the order in
/// which the map holds them.
pub fn sort_by_time(map: &SlotMap) -> (sorted: Vec<(&str, bool)>)
    requires
        all_times(map.entries()),
    ensures
        stable_sort_of(slot_views(sorted@), map.entries()),
        slot_views(sorted@).to_multiset() == map.entries().to_multiset(),
        sorted.len() == map.entries().len(),
{
    let slots = map.slots();
    sort_slots(&slots)
}

/// Whether the time `a` is later than the time `b`.
fn later(a: &str, b: &str) -> (r: bool)
    requires
        is_time(a@),
        is_time(b@),
    ensures
        r == !time_le(time_of(a@), time_of(b@)),
{
    match time_cmp(a, b) {
        Ordering::Greater => true,
        _ => false,
    }
}

} // verus!
