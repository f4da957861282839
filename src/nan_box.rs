//! The boxed value itself: a double kept as its bit pattern, or a NaN whose
//! low bits are a key into the side table.
use crate::bits::{
    encode, encode_key, is_nan, is_nan_bits, key_from_bits, key_of, lemma_canonical_nan, lemma_encode,
    CANONICAL_NAN, KEY_MASK,
};
use crate::registry::{is_first_free, Entry, Registry};
use std::marker::PhantomData;
use vstd::prelude::*;

verus! {

/// The double that the pattern `bits` stands for under the table `reg`, if any.
pub open spec fn float_of<T>(bits: u64, reg: Map<u64, Entry<T>>) -> Option<u64> {
    if !is_nan_bits(bits) {
        Some(bits)
    } else {
        match reg.get(key_of(bits)) {
            Some(Entry::F64 { float, .. }) => Some(float),
            _ => None,
        }
    }
}

/// The payload that the pattern `bits` stands for under the table `reg`, if any.
pub open spec fn payload_of<T>(bits: u64, reg: Map<u64, Entry<T>>) -> Option<T> {
    if !is_nan_bits(bits) {
        None
    } else {
        match reg.get(key_of(bits)) {
            Some(Entry::Ptr(b)) => Some(*b),
            _ => None,
        }
    }
}

/// The table after one more box shares the float entry at `key`.
pub open spec fn shared<T>(reg: Map<u64, Entry<T>>, key: u64) -> Map<u64, Entry<T>> {
    match reg.get(key) {
        Some(Entry::F64 { float, refc }) => reg.insert(key, Entry::F64 { float, refc: (refc + 1) as usize }),
        _ => reg,
    }
}

/// The table after a box that holds `key` is released: a payload is dropped,
/// a float entry loses one count and leaves the table with its last one.
pub open spec fn released<T>(reg: Map<u64, Entry<T>>, key: u64) -> Map<u64, Entry<T>> {
    match reg.get(key) {
        Some(Entry::F64 { float, refc }) => if refc > 1 {
            reg.insert(key, Entry::F64 { float, refc: (refc - 1) as usize })
        } else {
            reg.remove(key)
        },
        Some(Entry::Ptr(_)) => reg.remove(key),
        None => reg,
    }
}

/// The table after `n` more boxes share the float entry at `key`.
pub open spec fn shared_n<T>(reg: Map<u64, Entry<T>>, key: u64, n: nat) -> Map<u64, Entry<T>>
    decreases n,
{
    if n == 0 {
        reg
    } else {
        shared(shared_n(reg, key, (n - 1) as nat), key)
    }
}

/// The table after `n` boxes that hold `key` are released.
pub open spec fn released_n<T>(reg: Map<u64, Entry<T>>, key: u64, n: nat) -> Map<u64, Entry<T>>
    decreases n,
{
    if n == 0 {
        reg
    } else {
        released(released_n(reg, key, (n - 1) as nat), key)
    }
}

/// A 64-bit slot that holds a double, or a NaN-tagged key of the side table
/// under which a payload of type `T` (or a NaN double) is kept.
pub struct NanBox<T> {
    bits: u64,
    marker: PhantomData<T>,
}

impl<T> NanBox<T> {
    /// The raw bit pattern of the slot.
    pub closed spec fn view(&self) -> u64 {
        self.bits
    }

    /// Boxes the double with bit pattern `a`. A double that is not NaN is kept
    /// as it is; a NaN is stored in the table and the slot carries its key.
    pub fn new(a: u64, reg: &mut Registry<T>) -> (r: Self)
        requires
            old(reg).wf(),
            is_nan_bits(a) ==> old(reg)@.len() <= KEY_MASK,
        ensures
            final(reg).wf(),
            !is_nan_bits(a) ==> r@ == a && final(reg)@ == old(reg)@,
            is_nan_bits(a) ==> {
                &&& is_first_free(old(reg)@.dom(), key_of(r@))
                &&& r@ == encode(a, key_of(r@))
                &&& final(reg)@ == old(reg)@.insert(key_of(r@), Entry::F64 { float: a, refc: 1 })
            },
            float_of(r@, final(reg)@) == Some(a),
    {
        if is_nan(a) {
            let key = reg.allocate(Entry::F64 { float: a, refc: 1 });
            let bits = encode_key(a, key);
            NanBox { bits, marker: PhantomData }
        } else {
            NanBox { bits: a, marker: PhantomData }
        }
    }

    /// The double held, as its bit pattern: the slot itself when it is not
    /// NaN, else the float entry of its key. `None` for a payload or a key
    /// that the table does not hold.
    pub fn as_f64(&self, reg: &Registry<T>) -> (r: Option<u64>)
        ensures
            r == float_of(self@, reg@),
    {
        if !is_nan(self.bits) {
            return Some(self.bits);
        }
        match reg.get(key_from_bits(self.bits)) {
            Some(Entry::F64 { float, .. }) => Some(*float),
            _ => None,
        }
    }

    /// Boxes the payload `t`: it is stored in the table and the slot carries
    /// its key on the standard quiet NaN.
    pub fn with_val(t: T, reg: &mut Registry<T>) -> (r: Self)
        requires
            old(reg).wf(),
            old(reg)@.len() <= KEY_MASK,
        ensures
            final(reg).wf(),
            is_first_free(old(reg)@.dom(), key_of(r@)),
            r@ == encode(CANONICAL_NAN, key_of(r@)),
            final(reg)@ == old(reg)@.insert(key_of(r@), Entry::Ptr(Box::new(t))),
            payload_of(r@, final(reg)@) == Some(t),
    {
        let key = reg.allocate(Entry::Ptr(Box::new(t)));
        proof {
            lemma_canonical_nan();
        }
        let bits = encode_key(CANONICAL_NAN, key);
        NanBox { bits, marker: PhantomData }
    }

    /// The payload held, if the slot's key names a pointer entry.
    pub fn as_ref<'a>(&self, reg: &'a Registry<T>) -> (r: Option<&'a T>)
        ensures
            match r {
                Some(t) => payload_of(self@, reg@) == Some(*t),
                None => payload_of(self@, reg@) is None,
            },
    {
        if !is_nan(self.bits) {
            return None;
        }
        match reg.get(key_from_bits(self.bits)) {
            Some(Entry::Ptr(b)) => Some(&**b),
            _ => None,
        }
    }

    /// The payload held, for writing, if the slot's key names a pointer entry.
    pub fn as_mut<'a>(&self, reg: &'a mut Registry<T>) -> (r: Option<&'a mut T>)
        requires
            old(reg).wf(),
        ensures
            final(reg).wf(),
            match r {
                Some(t) => {
                    &&& payload_of(self@, old(reg)@) == Some(*t)
                    &&& final(reg)@ == old(reg)@.insert(key_of(self@), Entry::Ptr(Box::new(*final(t))))
                },
                None => {
                    &&& payload_of(self@, old(reg)@) is None
                    &&& final(reg)@ == old(reg)@
                },
            },
    {
        if !is_nan(self.bits) {
            return None;
        }
        reg.payload_mut(key_from_bits(self.bits))
    }

    /// Takes the payload out of the box and the table. A slot that holds a
    /// double, or a key that names no pointer entry, is handed back as it was,
    /// and the table is left as it was.
    pub fn into_inner(self, reg: &mut Registry<T>) -> (r: Result<T, Self>)
        requires
            old(reg).wf(),
        ensures
            final(reg).wf(),
            match r {
                Ok(t) => {
                    &&& payload_of(self@, old(reg)@) == Some(t)
                    &&& final(reg)@ == old(reg)@.remove(key_of(self@))
                },
                Err(b) => {
                    &&& payload_of(self@, old(reg)@) is None
                    &&& b@ == self@
                    &&& final(reg)@ == old(reg)@
                },
            },
    {
        if !is_nan(self.bits) {
            return Err(self);
        }
        let key = key_from_bits(self.bits);
        match reg.remove(key) {
            Some(Entry::Ptr(b)) => Ok(*b),
            Some(e) => {
                reg.restore(key, e);
                assert(reg@ =~= old(reg)@);
                Err(self)
            },
            None => Err(self),
        }
    }

    /// A box of the raw pattern `a`, with no look at the table. The caller
    /// answers for what the pattern names there.
    pub fn from_raw(a: u64) -> (r: Self)
        ensures
            r@ == a,
    {
        NanBox { bits: a, marker: PhantomData }
    }

    /// The raw pattern of the slot, uninterpreted.
    pub fn raw(&self) -> (r: u64)
        ensures
            r == self@,
    {
        self.bits
    }

    /// Moves the raw pattern out and leaves the pattern of `0.0` in its place,
    /// with no look at the table.
    pub fn take_raw(&mut self) -> (r: u64)
        ensures
            r == old(self)@,
            final(self)@ == 0,
    {
        let r = self.bits;
        self.bits = 0;
        r
    }

    /// Releases the box: a payload is dropped with its entry, a shared float
    /// entry loses one count and leaves the table with its last one.
    pub fn release(self, reg: &mut Registry<T>)
        requires
            old(reg).wf(),
        ensures
            final(reg).wf(),
            !is_nan_bits(self@) ==> final(reg)@ == old(reg)@,
            is_nan_bits(self@) ==> final(reg)@ == released(old(reg)@, key_of(self@)),
    {
        if !is_nan(self.bits) {
            return;
        }
        let key = key_from_bits(self.bits);
        match reg.remove(key) {
            Some(Entry::F64 { float, refc }) => {
                if refc > 1 {
                    reg.restore(key, Entry::F64 { float, refc: refc - 1 });
                    assert(reg@ =~= released(old(reg)@, key));
                }
            },
            _ => {},
        }
    }
}

impl<T: Clone> NanBox<T> {
    /// A second box of the same value. A double is copied; a shared float
    /// entry gains one count and keeps its key; a payload is cloned into a
    /// fresh entry under a fresh key.
    pub fn duplicate(&self, reg: &mut Registry<T>) -> (r: Self)
        requires
            old(reg).wf(),
            is_nan_bits(self@) ==> match old(reg)@.get(key_of(self@)) {
                Some(Entry::F64 { refc, .. }) => refc < usize::MAX,
                Some(Entry::Ptr(_)) => old(reg)@.len() <= KEY_MASK,
                None => true,
            },
        ensures
            final(reg).wf(),
            !is_nan_bits(self@) ==> r@ == self@ && final(reg)@ == old(reg)@,
            is_nan_bits(self@) ==> match old(reg)@.get(key_of(self@)) {
                Some(Entry::Ptr(b)) => {
                    &&& is_first_free(old(reg)@.dom(), key_of(r@))
                    &&& r@ == encode(CANONICAL_NAN, key_of(r@))
                    &&& exists|c: T| {
                        &&& cloned(*b, c)
                        &&& #[trigger] final(reg)@ == old(reg)@.insert(key_of(r@), Entry::Ptr(Box::new(c)))
                    }
                },
                _ => r@ == self@ && final(reg)@ == shared(old(reg)@, key_of(self@)),
            },
    {
        if !is_nan(self.bits) {
            return NanBox { bits: self.bits, marker: PhantomData };
        }
        let key = key_from_bits(self.bits);
        let copy = match reg.get(key) {
            None => {
                return NanBox { bits: self.bits, marker: PhantomData };
            },
            Some(Entry::F64 { .. }) => None,
            Some(Entry::Ptr(b)) => {
                let c = (**b).clone();
                assert(cloned(**b, c));
                Some(c)
            },
        };
        match copy {
            Some(c) => {
                let ghost copied = c;
                let r = NanBox::with_val(c, reg);
                assert(reg@ == old(reg)@.insert(key_of(r@), Entry::Ptr(Box::new(copied))));
                r
            },
            None => {
                match reg.remove(key) {
                    Some(Entry::F64 { float, refc }) => {
                        reg.restore(key, Entry::F64 { float, refc: refc + 1 });
                    },
                    _ => {},
                }
                NanBox { bits: self.bits, marker: PhantomData }
            },
        }
    }
}

/// Boxing a payload and reading it back gives the payload; taking it out
/// again leaves the table as it was before, without the key.
pub proof fn law_value_identity<T>(t: T, reg: Map<u64, Entry<T>>, key: u64)
    requires
        is_first_free(reg.dom(), key),
        key <= KEY_MASK,
    ensures
        ({
            let bits = encode(CANONICAL_NAN, key);
            let boxed = reg.insert(key, Entry::Ptr(Box::new(t)));
            &&& payload_of(bits, boxed) == Some(t)
            &&& boxed.remove(key_of(bits)) == reg
            &&& !boxed.remove(key_of(bits)).contains_key(key)
        }),
{
    lemma_canonical_nan();
    lemma_encode(CANONICAL_NAN, key);
    assert(reg.insert(key, Entry::Ptr(Box::new(t))).remove(key) =~= reg);
}

/// A boxed payload reads as no double, and a boxed NaN double reads as no
/// payload.
pub proof fn law_type_separation<T>(t: T, v: u64, reg: Map<u64, Entry<T>>, key: u64)
    requires
        is_nan_bits(v),
        key <= KEY_MASK,
    ensures
        float_of(encode(CANONICAL_NAN, key), reg.insert(key, Entry::Ptr(Box::new(t)))) is None,
        payload_of(encode(v, key), reg.insert(key, Entry::F64 { float: v, refc: 1 })) is None,
{
    lemma_canonical_nan();
    lemma_encode(CANONICAL_NAN, key);
    lemma_encode(v, key);
}

/// Releasing `k` boxes of a float entry counted `c > k` times leaves it
/// counted `c - k` times.
proof fn lemma_released_n<T>(reg: Map<u64, Entry<T>>, key: u64, float: u64, c: usize, k: nat)
    requires
        k < c,
    ensures
        released_n(reg.insert(key, Entry::F64 { float, refc: c }), key, k)
            == reg.insert(key, Entry::F64 { float, refc: (c - k) as usize }),
    decreases k,
{
    if k > 0 {
        lemma_released_n(reg, key, float, c, (k - 1) as nat);
        assert(reg.insert(key, Entry::F64 { float, refc: (c - (k - 1)) as usize }).insert(
            key,
            Entry::F64 { float, refc: (c - k) as usize },
        ) =~= reg.insert(key, Entry::F64 { float, refc: (c - k) as usize }));
    } else {
        assert(reg.insert(key, Entry::F64 { float, refc: c }) =~= reg.insert(
            key,
            Entry::F64 { float, refc: (c - k) as usize },
        ));
    }
}

/// Sharing a float entry `n` times counts it `n + 1` times.
proof fn lemma_shared_n<T>(reg: Map<u64, Entry<T>>, key: u64, float: u64, n: nat)
    requires
        reg.get(key) == Some(Entry::<T>::F64 { float, refc: 1 }),
        n + 1 <= usize::MAX,
    ensures
        shared_n(reg, key, n) == reg.insert(key, Entry::F64 { float, refc: (n + 1) as usize }),
    decreases n,
{
    if n == 0 {
        assert(reg.insert(key, Entry::F64 { float, refc: 1 }) =~= reg);
    } else {
        lemma_shared_n(reg, key, float, (n - 1) as nat);
        assert(reg.insert(key, Entry::F64 { float, refc: n as usize }).insert(
            key,
            Entry::F64 { float, refc: (n + 1) as usize },
        ) =~= reg.insert(key, Entry::F64 { float, refc: (n + 1) as usize }));
    }
}

/// A NaN double boxed once and shared by `n` more boxes leaves the table,
/// key and all, once all `n + 1` boxes are released.
pub proof fn law_shared_float_released<T>(reg: Map<u64, Entry<T>>, key: u64, float: u64, n: nat)
    requires
        reg.get(key) == Some(Entry::<T>::F64 { float, refc: 1 }),
        n + 1 <= usize::MAX,
    ensures
        released_n(shared_n(reg, key, n), key, n + 1) == reg.remove(key),
        !released_n(shared_n(reg, key, n), key, n + 1).contains_key(key),
{
    lemma_shared_n(reg, key, float, n);
    lemma_released_n(reg, key, float, (n + 1) as usize, n);
    assert(reg.insert(key, Entry::F64 { float, refc: 1 }).remove(key) =~= reg.remove(key));
}

/// A payload cloned into a fresh key and then written there leaves the
/// payload of the first box as it was.
pub proof fn law_clone_independence<T>(reg: Map<u64, Entry<T>>, orig: u64, fresh: u64, c: T, x: T)
    requires
        reg.contains_key(key_of(orig)),
        is_first_free(reg.dom(), fresh),
    ensures
        payload_of(orig, reg.insert(fresh, Entry::Ptr(Box::new(c))).insert(fresh, Entry::Ptr(Box::new(x))))
            == payload_of(orig, reg),
{
}

} // verus!
