//! An associative store whose keys are minted by a strictly increasing
//! counter: every key it hands out is unique and is never reused, even
//! after the value stored under it is removed.

use vstd::prelude::*;

verus! {

/// A source of fresh keys: every `inc` hands out the current key and
/// steps to the next one, so no key is ever produced twice.
pub trait Counter: Sized {
    /// The key that the next call of `inc` will hand out, as a number.
    spec fn key_model(&self) -> int;

    /// Whether one more key can be minted without wrapping.
    spec fn can_mint(&self) -> bool;

    /// The counter at its first key.
    fn new() -> (r: Self)
        ensures
            r.key_model() == 0,
    ;

    /// Hands out the current key and advances to the next one.
    fn inc(&mut self) -> (r: Self)
        requires
            old(self).can_mint(),
        ensures
            r.key_model() == old(self).key_model(),
            final(self).key_model() == old(self).key_model() + 1,
    ;
}

impl Counter for usize {
    open spec fn key_model(&self) -> int {
        *self as int
    }

    open spec fn can_mint(&self) -> bool {
        *self < usize::MAX
    }

    fn new() -> (r: usize) {
        0
    }

    fn inc(&mut self) -> (r: usize) {
        let r: usize = *self;
        *self = *self + 1;
        r
    }
}

/// Store keyed by a strictly increasing counter. Key `i` is the one the
/// `i`-th `push` handed out; a removed key stays allocated forever, so
/// no key is ever issued twice.
pub struct CounterMap<V> {
    slots: Vec<Option<V>>,
    counter: usize,
}

impl<V> CounterMap<V> {
    /// The store as a sequence: index `i` holds the value live under key
    /// `i`, or `None` when key `i` was never filled again after removal.
    pub closed spec fn model(&self) -> Seq<Option<V>> {
        self.slots@
    }

    /// The counter always sits one past the highest key ever issued.
    pub closed spec fn wf(&self) -> bool {
        self.counter == self.slots@.len()
    }

    /// How many keys have ever been issued.
    pub open spec fn spec_len(&self) -> nat {
        self.model().len()
    }

    /// Whether `key` currently holds a value.
    pub open spec fn contains_key(&self, key: usize) -> bool {
        key < self.model().len() && self.model()[key as int] is Some
    }

    /// An empty store whose first key will be `0`.
    pub fn new() -> (r: Self)
        ensures
            r.wf(),
            r.model() =~= Seq::<Option<V>>::empty(),
    {
        CounterMap { slots: Vec::new(), counter: Counter::new() }
    }

    /// Stores `value` under a fresh key, strictly greater than every key
    /// issued before, and returns that key. Never fails while the key
    /// space lasts.
    pub fn push(&mut self, value: V) -> (key: usize)
        requires
            old(self).wf(),
            old(self).model().len() < usize::MAX,
        ensures
            final(self).wf(),
            key == old(self).model().len(),
            final(self).model() =~= old(self).model().push(Some(value)),
    {
        let key = self.counter.inc();
        self.slots.push(Some(value));
        key
    }

    /// How many keys have been issued so far (live or removed).
    pub fn len(&self) -> (r: usize)
        requires
            self.wf(),
        ensures
            r == self.spec_len(),
    {
        self.slots.len()
    }

    /// The value live under `key`, if any.
    pub fn get(&self, key: usize) -> (r: Option<&V>)
        ensures
            match r {
                Some(v) => self.contains_key(key) && self.model()[key as int] == Some(*v),
                None => !self.contains_key(key),
            },
    {
        if key < self.slots.len() {
            match &self.slots[key] {
                Some(v) => Some(v),
                None => None,
            }
        } else {
            None
        }
    }

    /// Replaces the value under a live `key`; reports whether `key` was
    /// live. A dead or never-issued key stores nothing.
    pub fn update(&mut self, key: usize, value: V) -> (r: bool)
        ensures
            final(self).wf() == old(self).wf(),
            r == old(self).contains_key(key),
            r ==> final(self).model() =~= old(self).model().update(key as int, Some(value)),
            !r ==> *final(self) == *old(self),
    {
        if key < self.slots.len() {
            if self.slots[key].is_some() {
                self.slots[key] = Some(value);
                return true;
            }
        }
        false
    }

    /// Mutable access to the slot under an issued `key`, for updating
    /// the value in place.
    pub(crate) fn slot_mut(&mut self, key: usize) -> (r: &mut Option<V>)
        requires
            old(self).wf(),
            key < old(self).model().len(),
        ensures
            final(self).wf(),
            *r == old(self).model()[key as int],
            final(self).model() == old(self).model().update(key as int, *final(r)),
    {
        &mut self.slots[key]
    }

    /// Rebuilds a store from its slots: slot `i` holds the value live
    /// under key `i`, and `slots.len()` keys count as already issued.
    pub(crate) fn from_slots(slots: Vec<Option<V>>) -> (r: Self)
        ensures
            r.wf(),
            r.model() =~= slots@,
    {
        let counter: usize = slots.len();
        CounterMap { slots, counter }
    }

    /// Removes and returns the value under `key`. The key itself stays
    /// spent: it is never handed out again.
    pub fn remove(&mut self, key: usize) -> (r: Option<V>)
        ensures
            final(self).wf() == old(self).wf(),
            r is Some == old(self).contains_key(key),
            r matches Some(v) ==> old(self).model()[key as int] == Some(v)
                && final(self).model() =~= old(self).model().update(key as int, None::<V>),
            r is None ==> *final(self) == *old(self),
    {
        if key < self.slots.len() {
            if self.slots[key].is_some() {
                let mut taken: Option<V> = None;
                core::mem::swap(&mut self.slots[key], &mut taken);
                return taken;
            }
        }
        None
    }
}

/// The keys handed out when the values of `vals` are pushed, oldest
/// first, onto a store whose model is `m`.
pub open spec fn pushed_keys<V>(m: Seq<Option<V>>, vals: Seq<V>) -> Seq<int>
    decreases vals.len(),
{
    if vals.len() == 0 {
        Seq::empty()
    } else {
        seq![m.len() as int] + pushed_keys(m.push(Some(vals[0])), vals.drop_first())
    }
}

/// Pushing a run of values onto a store with `n` keys issued hands out the
/// consecutive keys `n, n + 1, ...`, one per value.
pub proof fn lemma_pushed_keys_consecutive<V>(m: Seq<Option<V>>, vals: Seq<V>)
    ensures
        pushed_keys(m, vals) =~= Seq::new(vals.len(), |i: int| m.len() + i),
    decreases vals.len(),
{
    if vals.len() > 0 {
        lemma_pushed_keys_consecutive(m.push(Some(vals[0])), vals.drop_first());
    }
}

/// Law: pushing `N` values onto a fresh store hands out exactly the keys
/// `0, 1, ..., N - 1`, each of them once.
pub proof fn lemma_fresh_store_keys<V>(vals: Seq<V>)
    ensures
        pushed_keys(Seq::<Option<V>>::empty(), vals) =~= Seq::new(vals.len(), |i: int| i),
{
    lemma_pushed_keys_consecutive(Seq::<Option<V>>::empty(), vals);
}

} // verus!
