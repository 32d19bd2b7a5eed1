//! The inner map of the block index: from the kept bytes of a strong hash
//! to a block number. Nearly always it holds one entry, which it keeps
//! inline; it grows into a list with the second insertion.
use vstd::prelude::*;
use vstd::map::*;

verus! {

/// How the entries are held.
#[derive(Debug, PartialEq, Eq)]
enum Slots<'a> {
    /// No entry.
    Empty,
    /// One entry, held inline.
    Single(&'a [u8], u32),
    /// The entries in the order in which their keys first came.
    Many(Vec<(&'a [u8], u32)>),
}

/// A map from byte strings to block numbers. Keys are compared by their
/// bytes.
#[derive(Debug, PartialEq, Eq)]
pub struct SecondLayerMap<'a> {
    slots: Slots<'a>,
}

/// The last index at which `key` stands among the entries, or -1.
pub open spec fn index_of(entries: Seq<(&[u8], u32)>, key: Seq<u8>) -> int
    decreases entries.len(),
{
    if entries.len() == 0 {
        -1
    } else if entries.last().0@ == key {
        entries.len() - 1
    } else {
        index_of(entries.drop_last(), key)
    }
}

/// The map that a list of entries stands for.
pub open spec fn entries_map(entries: Seq<(&[u8], u32)>) -> Map<Seq<u8>, u32> {
    Map::new(
        |key: Seq<u8>| index_of(entries, key) >= 0,
        |key: Seq<u8>| entries[index_of(entries, key)].1,
    )
}

/// No key stands at two places.
pub open spec fn distinct_keys(entries: Seq<(&[u8], u32)>) -> bool {
    forall|i: int, j: int|
        0 <= i < j < entries.len() ==> (#[trigger] entries[i]).0@ != (#[trigger] entries[j]).0@
}

/// `index_of` finds the key where it stands, and -1 only where it stands
/// nowhere.
pub proof fn lemma_index_of(entries: Seq<(&[u8], u32)>, key: Seq<u8>)
    ensures
        -1 <= index_of(entries, key) < entries.len(),
        index_of(entries, key) >= 0 ==> entries[index_of(entries, key)].0@ == key,
        forall|j: int|
            index_of(entries, key) < j < entries.len() ==> (#[trigger] entries[j]).0@ != key,
    decreases entries.len(),
{
    if entries.len() > 0 && entries.last().0@ != key {
        lemma_index_of(entries.drop_last(), key);
        assert forall|j: int| index_of(entries, key) < j < entries.len() implies (
        #[trigger] entries[j]).0@ != key by {
            if j < entries.len() - 1 {
                assert(entries.drop_last()[j] == entries[j]);
            }
        }
    }
}

/// Putting an entry with the same key in the place of another changes no
/// index.
proof fn lemma_index_of_update(
    entries: Seq<(&[u8], u32)>,
    at: int,
    entry: (&[u8], u32),
    key: Seq<u8>,
)
    requires
        0 <= at < entries.len(),
        entries[at].0@ == entry.0@,
    ensures
        index_of(entries.update(at, entry), key) == index_of(entries, key),
    decreases entries.len(),
{
    let after = entries.update(at, entry);
    if at == entries.len() - 1 {
        assert(after.drop_last() =~= entries.drop_last());
    } else {
        assert(after.drop_last() =~= entries.drop_last().update(at, entry));
        if entries.last().0@ != key {
            lemma_index_of_update(entries.drop_last(), at, entry, key);
        }
    }
}

impl<'a> View for SecondLayerMap<'a> {
    type V = Map<Seq<u8>, u32>;

    closed spec fn view(&self) -> Map<Seq<u8>, u32> {
        match self.slots {
            Slots::Empty => Map::empty(),
            Slots::Single(key, value) => Map::empty().insert(key@, value),
            Slots::Many(entries) => entries_map(entries@),
        }
    }
}

/// Whether two byte strings hold the same bytes.
pub fn same_bytes(a: &[u8], b: &[u8]) -> (same: bool)
    ensures
        same == (a@ == b@),
{
    if a.len() != b.len() {
        return false;
    }
    let mut i: usize = 0;
    while i < a.len()
        invariant
            0 <= i <= a.len(),
            a.len() == b.len(),
            forall|j: int| 0 <= j < i ==> a@[j] == b@[j],
        decreases a.len() - i,
    {
        if a[i] != b[i] {
            return false;
        }
        i = i + 1;
    }
    assert(a@ =~= b@);
    true
}

/// The last place at which `key` stands among the entries.
fn find_entry(entries: &Vec<(&[u8], u32)>, key: &[u8]) -> (at: Option<usize>)
    ensures
        match at {
            Some(i) => i as int == index_of(entries@, key@),
            None => index_of(entries@, key@) == -1,
        },
{
    let mut i: usize = entries.len();
    assert(entries@.take(i as int) =~= entries@);
    while i > 0
        invariant
            0 <= i <= entries.len(),
            index_of(entries@, key@) == index_of(entries@.take(i as int), key@),
        decreases i,
    {
        let ghost upto = entries@.take(i as int);
        assert(upto.drop_last() =~= entries@.take(i - 1));
        assert(upto.last() == entries@[i - 1]);
        if same_bytes(entries[i - 1].0, key) {
            return Some(i - 1);
        }
        i = i - 1;
    }
    None
}

impl<'a> Clone for SecondLayerMap<'a> {
    fn clone(&self) -> (copy: SecondLayerMap<'a>)
        ensures
            copy@ == self@,
            copy.promoted() == self.promoted(),
    {
        proof {
            use_type_invariant(self);
        }
        match &self.slots {
            Slots::Empty => SecondLayerMap { slots: Slots::Empty },
            Slots::Single(key, value) => SecondLayerMap { slots: Slots::Single(*key, *value) },
            Slots::Many(entries) => {
                let mut copied: Vec<(&'a [u8], u32)> = Vec::new();
                let mut i: usize = 0;
                while i < entries.len()
                    invariant
                        0 <= i <= entries.len(),
                        copied@ == entries@.take(i as int),
                    decreases entries.len() - i,
                {
                    copied.push(entries[i]);
                    i = i + 1;
                    assert(copied@ =~= entries@.take(i as int));
                }
                assert(copied@ =~= entries@);
                SecondLayerMap { slots: Slots::Many(copied) }
            },
        }
    }
}

impl<'a> SecondLayerMap<'a> {
    #[verifier::type_invariant]
    closed spec fn inv(&self) -> bool {
        match self.slots {
            Slots::Empty => true,
            Slots::Single(_, _) => true,
            Slots::Many(entries) => entries.len() >= 1 && distinct_keys(entries@),
        }
    }

    /// Whether the map has grown beyond its inline entry.
    pub closed spec fn promoted(&self) -> bool {
        self.slots is Many
    }

    /// The empty map.
    pub fn new() -> (map: SecondLayerMap<'a>)
        ensures
            map@ == Map::<Seq<u8>, u32>::empty(),
            !map.promoted(),
    {
        SecondLayerMap { slots: Slots::Empty }
    }

    /// Maps `key` to `value`, and returns what `key` was mapped to before.
    /// The first entry is held inline; with the second insertion the map
    /// grows into a list, and stays one.
    pub fn insert(&mut self, key: &'a [u8], value: u32) -> (before: Option<u32>)
        ensures
            final(self)@ == old(self)@.insert(key@, value),
            before == (if old(self)@.contains_key(key@) {
                Some(old(self)@[key@])
            } else {
                None
            }),
            final(self).promoted() == (old(self).promoted() || old(self)@.len() == 1),
    {
        proof {
            use_type_invariant(&*self);
        }
        let mut slots = Slots::Empty;
        std::mem::swap(&mut self.slots, &mut slots);
        match slots {
            Slots::Empty => {
                self.slots = Slots::Single(key, value);
                None
            },
            Slots::Single(held, was) => {
                proof {
                    let m = Map::<Seq<u8>, u32>::empty().insert(held@, was);
                    assert(m.dom() =~= set![held@]);
                    assert(m.len() == 1);
                }
                let mut entries: Vec<(&'a [u8], u32)> = Vec::new();
                if same_bytes(held, key) {
                    entries.push((held, value));
                    proof {
                        let e = entries@;
                        assert(e.drop_last() =~= Seq::empty());
                        assert forall|k: Seq<u8>| #[trigger]
                            index_of(e, k) == (if k == held@ {
                                0int
                            } else {
                                -1int
                            }) by {
                            reveal_with_fuel(index_of, 2);
                        }
                        assert(entries_map(e) =~= Map::<Seq<u8>, u32>::empty().insert(
                            held@,
                            was,
                        ).insert(key@, value));
                    }
                    self.slots = Slots::Many(entries);
                    Some(was)
                } else {
                    entries.push((held, was));
                    entries.push((key, value));
                    proof {
                        let e = entries@;
                        assert(e.drop_last().drop_last() =~= Seq::empty());
                        assert forall|k: Seq<u8>| #[trigger]
                            index_of(e, k) == (if k == key@ {
                                1int
                            } else if k == held@ {
                                0int
                            } else {
                                -1int
                            }) by {
                            reveal_with_fuel(index_of, 3);
                        }
                        assert(entries_map(e) =~= Map::<Seq<u8>, u32>::empty().insert(
                            held@,
                            was,
                        ).insert(key@, value));
                    }
                    self.slots = Slots::Many(entries);
                    None
                }
            },
            Slots::Many(mut entries) => {
                let ghost before = entries@;
                proof {
                    lemma_index_of(before, key@);
                }
                match find_entry(&entries, key) {
                    Some(at) => {
                        let was: u32 = entries[at].1;
                        let held: &'a [u8] = entries[at].0;
                        entries.set(at, (held, value));
                        proof {
                            let after = entries@;
                            let grown = entries_map(before).insert(key@, value);
                            assert_maps_equal!(entries_map(after), grown, k => {
                                lemma_index_of_update(before, at as int, (held, value), k);
                                lemma_index_of(before, k);
                                let idx = index_of(before, k);
                                if idx >= 0 && idx != at {
                                    assert(after[idx] == before[idx]);
                                }
                            });
                            assert(entries_map(after) =~= entries_map(before).insert(key@, value));
                            assert forall|i: int, j: int| 0 <= i < j < after.len() implies (
                            #[trigger] after[i]).0@ != (#[trigger] after[j]).0@ by {
                                assert(after[i].0@ == before[i].0@);
                                assert(after[j].0@ == before[j].0@);
                            }
                        }
                        self.slots = Slots::Many(entries);
                        Some(was)
                    },
                    None => {
                        entries.push((key, value));
                        proof {
                            let after = entries@;
                            assert(after.drop_last() =~= before);
                            assert forall|k: Seq<u8>| #[trigger]
                                index_of(after, k) == (if k == key@ {
                                    after.len() - 1
                                } else {
                                    index_of(before, k)
                                }) && index_of(before, k) < before.len() by {
                                lemma_index_of(before, k);
                            }
                            assert(entries_map(after) =~= entries_map(before).insert(key@, value));
                            assert forall|i: int, j: int| 0 <= i < j < after.len() implies (
                            #[trigger] after[i]).0@ != (#[trigger] after[j]).0@ by {
                                if j == after.len() - 1 {
                                    assert(before[i] == after[i]);
                                } else {
                                    assert(before[i] == after[i]);
                                    assert(before[j] == after[j]);
                                }
                            }
                        }
                        self.slots = Slots::Many(entries);
                        None
                    },
                }
            },
        }
    }

    /// What `key` is mapped to, if anything.
    pub fn get(&self, key: &[u8]) -> (value: Option<u32>)
        ensures
            value == (if self@.contains_key(key@) {
                Some(self@[key@])
            } else {
                None
            }),
    {
        match &self.slots {
            Slots::Empty => None,
            Slots::Single(held, value) => {
                if same_bytes(held, key) {
                    Some(*value)
                } else {
                    None
                }
            },
            Slots::Many(entries) => {
                proof {
                    lemma_index_of(entries@, key@);
                }
                match find_entry(entries, key) {
                    Some(at) => Some(entries[at].1),
                    None => None,
                }
            },
        }
    }

    /// Number of keys.
    pub fn len(&self) -> (n: usize)
        ensures
            n == self@.len(),
    {
        proof {
            use_type_invariant(self);
        }
        match &self.slots {
            Slots::Empty => 0,
            Slots::Single(held, value) => {
                proof {
                    let m = Map::<Seq<u8>, u32>::empty().insert(held@, *value);
                    assert(m.dom() =~= set![held@]);
                }
                1
            },
            Slots::Many(entries) => {
                proof {
                    lemma_entries_map_len(entries@);
                }
                entries.len()
            },
        }
    }
}

/// A list of entries with distinct keys stands for a map of as many keys.
proof fn lemma_entries_map_len(entries: Seq<(&[u8], u32)>)
    requires
        distinct_keys(entries),
    ensures
        entries_map(entries).dom().finite(),
        entries_map(entries).len() == entries.len(),
    decreases entries.len(),
{
    if entries.len() == 0 {
        assert(entries_map(entries).dom() =~= Set::<Seq<u8>>::empty());
    } else {
        let shorter = entries.drop_last();
        let key = entries.last().0@;
        assert forall|i: int, j: int| 0 <= i < j < shorter.len() implies (#[trigger] shorter[i]).0@
            != (#[trigger] shorter[j]).0@ by {
            assert(shorter[i] == entries[i]);
            assert(shorter[j] == entries[j]);
        }
        lemma_entries_map_len(shorter);
        lemma_index_of(shorter, key);
        if index_of(shorter, key) >= 0 {
            let i = index_of(shorter, key);
            assert(shorter[i] == entries[i]);
            assert(entries[i].0@ != entries[entries.len() - 1].0@);
        }
        assert(entries_map(entries).dom() =~= entries_map(shorter).dom().insert(key));
    }
}

} // verus!
