//! The availability of one room: a map from slot times to free or booked.

use vstd::prelude::*;

verus! {

/// A slot of a room as contracts see it: the text of its time, and whether
/// the room is free then.
pub type Slot = (Seq<char>, bool);

/// Some entry of `s` has the key `key`.
pub open spec fn has_key(s: Seq<Slot>, key: Seq<char>) -> bool {
    exists|i: int| 0 <= i < s.len() && (#[trigger] s[i]).0 == key
}

/// The place of an entry of `s` with the key `key`, where there is one.
pub open spec fn key_index(s: Seq<Slot>, key: Seq<char>) -> int {
    choose|i: int| 0 <= i < s.len() && (#[trigger] s[i]).0 == key
}

/// No two entries of `s` have the same key.
pub open spec fn distinct_keys(s: Seq<Slot>) -> bool {
    forall|i: int, j: int| 0 <= i < j < s.len() ==> (#[trigger] s[i]).0 != (#[trigger] s[j]).0
}

/// The entries `s` after `key` was set to `free`: an entry that had the key
/// keeps its place and takes the new value, a new key goes to the end.
pub open spec fn with_slot(s: Seq<Slot>, key: Seq<char>, free: bool) -> Seq<Slot> {
    if has_key(s, key) {
        s.update(key_index(s, key), (key, free))
    } else {
        s.push((key, free))
    }
}

/// The map that a list of entries with distinct keys stands for.
pub open spec fn slot_map(s: Seq<Slot>) -> Map<Seq<char>, bool> {
    Map::new(|key: Seq<char>| has_key(s, key), |key: Seq<char>| s[key_index(s, key)].1)
}

/// The slots of a list of borrowed entries.
pub open spec fn slot_views(v: Seq<(&str, bool)>) -> Seq<Slot> {
    Seq::new(v.len(), |i: int| (v[i].0@, v[i].1))
}

/// The slots of a list of owned entries.
pub open spec fn owned_views(v: Seq<(String, bool)>) -> Seq<Slot> {
    Seq::new(v.len(), |i: int| (v[i].0@, v[i].1))
}

/// A map from the time of a slot, as text, to whether the room is free then.
///
/// Keys are compared as texts: `08:00` and `8:00` are two keys. No key occurs
/// twice. The entries keep the order in which their keys first came in.
#[derive(Debug)]
pub struct SlotMap {
    slots: Vec<(String, bool)>,
}

impl View for SlotMap {
    type V = Map<Seq<char>, bool>;

    open spec fn view(&self) -> Map<Seq<char>, bool> {
        slot_map(self.entries())
    }
}

impl SlotMap {
    /// The entries in the order in which their keys first came in.
    pub closed spec fn entries(&self) -> Seq<Slot> {
        owned_views(self.slots@)
    }

    #[verifier::type_invariant]
    spec fn well_formed(&self) -> bool {
        distinct_keys(self.entries())
    }

    /// A map without entries.
    pub fn new() -> (m: SlotMap)
        ensures
            m.entries() == Seq::<Slot>::empty(),
    {
        let m = SlotMap { slots: Vec::new() };
        assert(m.entries() =~= Seq::<Slot>::empty());
        m
    }

    /// The number of entries.
    pub fn len(&self) -> (n: usize)
        ensures
            n == self.entries().len(),
            distinct_keys(self.entries()),
    {
        proof {
            use_type_invariant(self);
        }
        self.slots.len()
    }

    /// The place of `key` among the entries, if it is there.
    fn find(&self, key: &str) -> (r: Option<usize>)
        ensures
            r is Some <==> has_key(self.entries(), key@),
            r matches Some(i) ==> i == key_index(self.entries(), key@) && i < self.slots.len(),
    {
        proof {
            use_type_invariant(self);
        }
        let wanted = key.to_owned();
        let mut i: usize = 0;
        while i < self.slots.len()
            invariant
                i <= self.slots.len(),
                wanted@ == key@,
                distinct_keys(self.entries()),
                forall|j: int| 0 <= j < i ==> (#[trigger] self.entries()[j]).0 != key@,
            decreases self.slots.len() - i,
        {
            if self.slots[i].0 == wanted {
                proof {
                    let at = key_index(self.entries(), key@);
                    assert(self.entries()[i as int].0 == key@);
                    assert(self.entries()[at].0 == key@);
                    assert(at == i);
                }
                return Some(i);
            }
            i = i + 1;
        }
        None
    }

    /// Whether the room is free at `key`, if the map has that key.
    pub fn get(&self, key: &str) -> (r: Option<bool>)
        ensures
            r == if self@.contains_key(key@) {
                Some(self@[key@])
            } else {
                None
            },
    {
        match self.find(key) {
            Some(i) => Some(self.slots[i].1),
            None => None,
        }
    }

    /// Sets `key` to `free` and returns what it was set to before.
    pub fn insert(&mut self, key: String, free: bool) -> (prev: Option<bool>)
        ensures
            final(self).entries() == with_slot(old(self).entries(), key@, free),
            distinct_keys(final(self).entries()),
            final(self)@ == old(self)@.insert(key@, free),
            prev == if old(self)@.contains_key(key@) {
                Some(old(self)@[key@])
            } else {
                None
            },
    {
        proof {
            use_type_invariant(&*self);
        }
        let ghost before = self.entries();
        let found = self.find(key.as_str());
        let mut slots: Vec<(String, bool)> = Vec::new();
        std::mem::swap(&mut self.slots, &mut slots);
        let prev = match found {
            Some(i) => {
                let prev = slots[i].1;
                slots.set(i, (key, free));
                Some(prev)
            },
            None => {
                slots.push((key, free));
                None
            },
        };
        proof {
            lemma_with_slot(before, key@, free);
            if found is Some {
                assert(owned_views(slots@) =~= before.update(found->0 as int, (key@, free)));
            } else {
                assert(owned_views(slots@) =~= before.push((key@, free)));
            }
        }
        self.slots = slots;
        prev
    }

    /// The entries, in their order, with the keys borrowed from the map.
    pub fn slots(&self) -> (r: Vec<(&str, bool)>)
        ensures
            slot_views(r@) == self.entries(),
            distinct_keys(self.entries()),
    {
        proof {
            use_type_invariant(self);
        }
        let mut r: Vec<(&str, bool)> = Vec::new();
        let mut i: usize = 0;
        while i < self.slots.len()
            invariant
                i <= self.slots.len(),
                r.len() == i,
                forall|j: int| 0 <= j < i ==> (#[trigger] r[j]).0@ == self.slots[j].0@ && r[j].1 == self.slots[j].1,
            decreases self.slots.len() - i,
        {
            r.push((self.slots[i].0.as_str(), self.slots[i].1));
            i = i + 1;
        }
        assert(slot_views(r@) =~= self.entries());
        r
    }
}

/// Setting a key keeps the keys distinct and changes the map at that key only.
pub proof fn lemma_with_slot(s: Seq<Slot>, key: Seq<char>, free: bool)
    requires
        distinct_keys(s),
    ensures
        distinct_keys(with_slot(s, key, free)),
        slot_map(with_slot(s, key, free)) == slot_map(s).insert(key, free),
{
    let t = with_slot(s, key, free);
    let at = if has_key(s, key) {
        key_index(s, key)
    } else {
        s.len() as int
    };
    assert(t.len() > at && t[at] == (key, free));
    assert forall|i: int| 0 <= i < t.len() && i != at implies t[i] == s[i] && s[i].0 != key by {}
    assert forall|k: Seq<char>| has_key(t, k) <==> (k == key || has_key(s, k)) by {
        if has_key(t, k) {
            let i = key_index(t, k);
            if i != at {
                assert(s[i].0 == k);
            }
        }
        if has_key(s, k) {
            let i = key_index(s, k);
            assert(t[i].0 == s[i].0);
        }
        if k == key {
            assert(t[at].0 == k);
        }
    }
    assert forall|k: Seq<char>| has_key(t, k) implies #[trigger] slot_map(t)[k] == slot_map(
        s,
    ).insert(key, free)[k] by {
        let i = key_index(t, k);
        if k == key {
            assert(i == at);
        } else {
            assert(i != at);
            assert(s[i].0 == k);
            let j = key_index(s, k);
            assert(i == j);
        }
    }
    assert(slot_map(t) =~= slot_map(s).insert(key, free));
}

} // verus!
