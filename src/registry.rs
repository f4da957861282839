//! The side table: small integer keys mapped to boxed entries.
//!
//! Keys index a vector of slots; a free slot is `None`. A new entry always
//! takes the smallest key that is free.
use crate::bits::KEY_MASK;
use vstd::prelude::*;

verus! {

/// One slot of the side table.
pub enum Entry<T> {
    /// A double whose own pattern is a NaN, shared by `refc` boxes.
    F64 { float: u64, refc: usize },
    /// A heap-allocated payload, owned by the table alone.
    Ptr(Box<T>),
}

impl<T> Entry<T> {
    /// A float entry is counted by at least one box.
    pub open spec fn wf(&self) -> bool {
        match self {
            Entry::F64 { refc, .. } => *refc >= 1,
            Entry::Ptr(_) => true,
        }
    }
}

/// `key` is the smallest key that `used` does not hold.
pub open spec fn is_first_free(used: Set<u64>, key: u64) -> bool {
    &&& !used.contains(key)
    &&& forall|j: u64| j < key ==> used.contains(j)
}

/// The map from key to entry that a vector of slots stands for.
pub open spec fn slots_view<T>(slots: Seq<Option<Entry<T>>>) -> Map<u64, Entry<T>> {
    Map::new(
        |k: u64| k < slots.len() && slots[k as int] is Some,
        |k: u64| slots[k as int]->Some_0,
    )
}

/// Filling the slot of `k` with `e` maps `k` to `e`.
proof fn lemma_slots_update<T>(slots: Seq<Option<Entry<T>>>, k: u64, e: Entry<T>)
    requires
        k < slots.len(),
    ensures
        slots_view(slots.update(k as int, Some(e))) == slots_view(slots).insert(k, e),
{
    assert(slots_view(slots.update(k as int, Some(e))) =~= slots_view(slots).insert(k, e));
}

/// Emptying the slot of `k` removes `k`.
proof fn lemma_slots_clear<T>(slots: Seq<Option<Entry<T>>>, k: u64)
    requires
        k < slots.len(),
    ensures
        slots_view(slots.update(k as int, None)) == slots_view(slots).remove(k),
{
    assert(slots_view(slots.update(k as int, None)) =~= slots_view(slots).remove(k));
}

/// Appending a filled slot maps the next key to its entry.
proof fn lemma_slots_push<T>(slots: Seq<Option<Entry<T>>>, e: Entry<T>)
    requires
        slots.len() <= u64::MAX,
    ensures
        slots_view(slots.push(Some(e))) == slots_view(slots).insert(slots.len() as u64, e),
{
    assert(slots_view(slots.push(Some(e))) =~= slots_view(slots).insert(slots.len() as u64, e));
}

/// The keys below `n`.
pub open spec fn keys_below(n: nat) -> Set<u64> {
    Set::new(|k: u64| k < n)
}

/// There are `n` keys below `n`.
proof fn lemma_keys_below(n: nat)
    requires
        n <= u64::MAX + 1,
    ensures
        keys_below(n).finite(),
        keys_below(n).len() == n,
    decreases n,
{
    if n == 0 {
        assert(keys_below(0) =~= Set::<u64>::empty());
    } else {
        lemma_keys_below((n - 1) as nat);
        assert(keys_below(n) =~= keys_below((n - 1) as nat).insert((n - 1) as u64));
    }
}

/// A vector of slots stands for a finite map.
proof fn lemma_slots_finite<T>(slots: Seq<Option<Entry<T>>>)
    requires
        slots.len() <= u64::MAX + 1,
    ensures
        slots_view(slots).dom().finite(),
        slots_view(slots).len() <= slots.len(),
{
    lemma_keys_below(slots.len());
    assert(slots_view(slots).dom().subset_of(keys_below(slots.len())));
    vstd::set_lib::lemma_set_subset_finite(keys_below(slots.len()), slots_view(slots).dom());
    vstd::set_lib::lemma_len_subset(slots_view(slots).dom(), keys_below(slots.len()));
}

/// A set that holds every key below `n` holds at least `n` keys.
proof fn lemma_holds_below(used: Set<u64>, n: nat)
    requires
        used.finite(),
        n <= u64::MAX + 1,
        forall|j: u64| j < n ==> used.contains(j),
    ensures
        used.len() >= n,
{
    lemma_keys_below(n);
    assert(keys_below(n).subset_of(used));
    vstd::set_lib::lemma_len_subset(keys_below(n), used);
}

/// The side table of boxed entries.
pub struct Registry<T> {
    slots: Vec<Option<Entry<T>>>,
}

impl<T> Registry<T> {
    /// The table as a map from key to entry.
    pub closed spec fn view(&self) -> Map<u64, Entry<T>> {
        slots_view(self.slots@)
    }

    /// Keys fit in the key bits of a boxed pattern, and every float entry is
    /// counted.
    pub closed spec fn wf(&self) -> bool {
        &&& self.slots@.len() <= KEY_MASK + 1
        &&& forall|i: int| 0 <= i < self.slots@.len() && #[trigger] self.slots@[i] is Some
            ==> self.slots@[i]->Some_0.wf()
    }

    /// An empty table.
    pub fn new() -> (r: Self)
        ensures
            r.wf(),
            r@ == Map::<u64, Entry<T>>::empty(),
    {
        let r = Registry { slots: Vec::new() };
        assert(r@ =~= Map::<u64, Entry<T>>::empty());
        r
    }

    /// The number of live entries.
    pub fn len(&self) -> (r: u64)
        requires
            self.wf(),
        ensures
            r == self@.len(),
    {
        let n = self.slots.len();
        let mut i: usize = 0;
        let mut count: u64 = 0;
        assert(slots_view(self.slots@.subrange(0, 0)) =~= Map::<u64, Entry<T>>::empty());
        while i < n
            invariant
                n == self.slots@.len(),
                n <= KEY_MASK + 1,
                i <= n,
                count == slots_view(self.slots@.subrange(0, i as int)).len(),
                count <= i,
            decreases n - i,
        {
            proof {
                let pre = self.slots@.subrange(0, i as int);
                assert(self.slots@.subrange(0, i + 1) =~= pre.push(self.slots@[i as int]));
                lemma_slots_finite(pre);
                if self.slots@[i as int] is Some {
                    lemma_slots_push(pre, self.slots@[i as int]->Some_0);
                } else {
                    assert(slots_view(pre.push(None)) =~= slots_view(pre));
                }
            }
            if self.slots[i].is_some() {
                count = count + 1;
            }
            i = i + 1;
        }
        assert(self.slots@.subrange(0, n as int) =~= self.slots@);
        count
    }

    /// Whether an entry stands at `key`.
    pub fn contains_key(&self, key: u64) -> (r: bool)
        ensures
            r == self@.contains_key(key),
    {
        key < self.slots.len() as u64 && self.slots[key as usize].is_some()
    }

    /// The entry at `key`, if any.
    pub fn get(&self, key: u64) -> (r: Option<&Entry<T>>)
        ensures
            match r {
                Some(e) => self@.contains_key(key) && *e == self@[key],
                None => !self@.contains_key(key),
            },
    {
        if key < self.slots.len() as u64 {
            self.slots[key as usize].as_ref()
        } else {
            None
        }
    }

    /// Every key that the table holds fits in the key bits.
    pub proof fn lemma_finite(&self)
        requires
            self.wf(),
        ensures
            self@.dom().finite(),
            forall|k: u64| #[trigger] self@.contains_key(k) ==> k <= KEY_MASK,
    {
        lemma_slots_finite(self.slots@);
    }

    /// Stores `entry` at the smallest free key and returns that key.
    pub fn allocate(&mut self, entry: Entry<T>) -> (key: u64)
        requires
            old(self).wf(),
            entry.wf(),
            old(self)@.len() <= KEY_MASK,
        ensures
            final(self).wf(),
            is_first_free(old(self)@.dom(), key),
            key <= KEY_MASK,
            final(self)@ == old(self)@.insert(key, entry),
    {
        proof {
            lemma_slots_finite(self.slots@);
        }
        let n = self.slots.len();
        let mut i: usize = 0;
        while i < n && self.slots[i].is_some()
            invariant
                n == self.slots@.len(),
                i <= n,
                forall|j: u64| j < i ==> #[trigger] self@.contains_key(j),
            decreases n - i,
        {
            i = i + 1;
        }
        let key = i as u64;
        if i == n {
            proof {
                lemma_holds_below(self@.dom(), i as nat);
                lemma_slots_push(self.slots@, entry);
            }
            self.slots.push(Some(entry));
        } else {
            proof {
                lemma_slots_update(self.slots@, key, entry);
            }
            self.slots.set(i, Some(entry));
        }
        key
    }

    /// Removes the entry at `key` and hands it back, if there is one.
    pub fn remove(&mut self, key: u64) -> (r: Option<Entry<T>>)
        requires
            old(self).wf(),
        ensures
            final(self).wf(),
            final(self)@ == old(self)@.remove(key),
            match r {
                Some(e) => old(self)@.contains_key(key) && e == old(self)@[key] && e.wf(),
                None => !old(self)@.contains_key(key),
            },
    {
        if key >= self.slots.len() as u64 {
            assert(self@.remove(key) =~= self@);
            return None;
        }
        proof {
            lemma_slots_finite(self.slots@);
            lemma_slots_clear(self.slots@, key);
        }
        let r = self.slots[key as usize].take();
        if r.is_none() {
            assert(old(self)@.remove(key) =~= old(self)@);
        }
        r
    }

    /// Puts `entry` back at `key`, a key that is free and fits in the key bits.
    pub(crate) fn restore(&mut self, key: u64, entry: Entry<T>)
        requires
            old(self).wf(),
            entry.wf(),
            key <= KEY_MASK,
            !old(self)@.contains_key(key),
        ensures
            final(self).wf(),
            final(self)@ == old(self)@.insert(key, entry),
    {
        while (self.slots.len() as u64) < key
            invariant
                self.wf(),
                !self@.contains_key(key),
                self@ == old(self)@,
                key <= KEY_MASK,
            decreases key - self.slots@.len(),
        {
            self.slots.push(None);
            assert(self@ =~= old(self)@);
        }
        if (self.slots.len() as u64) == key {
            proof {
                lemma_slots_push(self.slots@, entry);
            }
            self.slots.push(Some(entry));
        } else {
            proof {
                lemma_slots_update(self.slots@, key, entry);
            }
            self.slots.set(key as usize, Some(entry));
        }
    }

    /// The payload of the pointer entry at `key`, for writing, if there is one.
    pub fn payload_mut(&mut self, key: u64) -> (r: Option<&mut T>)
        requires
            old(self).wf(),
        ensures
            match r {
                Some(t) => {
                    &&& old(self)@.contains_key(key)
                    &&& old(self)@[key] == Entry::Ptr(Box::new(*t))
                    &&& final(self)@ == old(self)@.insert(key, Entry::Ptr(Box::new(*final(t))))
                },
                None => {
                    &&& !(old(self)@.contains_key(key) && old(self)@[key] is Ptr)
                    &&& final(self)@ == old(self)@
                },
            },
            final(self).wf(),
    {
        if key >= self.slots.len() as u64 {
            return None;
        }
        match &mut self.slots[key as usize] {
            Some(Entry::Ptr(b)) => Some(&mut **b),
            _ => None,
        }
    }
}

/// The smallest free key is unique, it is 0 in an empty table, and a key
/// taken and given back is the smallest free key again.
pub proof fn law_key_reuse<T>(reg: Map<u64, Entry<T>>, key: u64, other: u64, e: Entry<T>)
    requires
        is_first_free(reg.dom(), key),
    ensures
        is_first_free(reg.insert(key, e).remove(key).dom(), key),
        is_first_free(reg.dom(), other) ==> other == key,
        is_first_free(Set::<u64>::empty(), other) <==> other == 0,
{
    assert(reg.insert(key, e).remove(key).dom() =~= reg.dom());
    if is_first_free(reg.dom(), other) && other != key {
        if other < key {
            assert(reg.dom().contains(other));
        } else {
            assert(reg.dom().contains(key));
        }
    }
    if other != 0 {
        assert(!Set::<u64>::empty().contains(0u64));
    }
}

} // verus!
