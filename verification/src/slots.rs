use vstd::prelude::*;

verus! {

/// A fixed-capacity vector of pointer words that can be read, swapped and
/// compared-and-swapped slot by slot.
///
/// A word is `0` for an empty slot, an even non-zero value for a stored
/// object, and an odd value for a slot that a transaction descriptor has
/// claimed.
pub struct AtomicPtrVec<T> {
    slots: Vec<usize>,
    cap: usize,
    _marker: core::marker::PhantomData<T>,
}

impl<T> AtomicPtrVec<T> {
    /// The words held by the slots, in order.
    pub closed spec fn view(&self) -> Seq<usize> {
        self.slots@
    }

    /// The capacity agrees with the number of slots.
    pub closed spec fn wf(&self) -> bool {
        self.slots@.len() == self.cap
    }

    /// The number of slots fits in a `usize`.
    pub proof fn lemma_len_fits(&self)
        requires
            self.wf(),
        ensures
            self@.len() <= usize::MAX,
    {
    }

    /// Creates `size` empty slots.
    pub fn new(size: usize) -> (v: AtomicPtrVec<T>)
        ensures
            v.wf(),
            v@ == Seq::new(size as nat, |i: int| 0usize),
    {
        let mut slots: Vec<usize> = Vec::with_capacity(size);
        let mut i: usize = 0;
        while i < size
            invariant
                i <= size,
                slots@ == Seq::new(i as nat, |j: int| 0usize),
            decreases size - i,
        {
            slots.push(0);
            i = i + 1;
        }
        AtomicPtrVec { slots, cap: size, _marker: core::marker::PhantomData }
    }

    /// The number of slots.
    pub fn capacity(&self) -> (n: usize)
        requires
            self.wf(),
        ensures
            n == self@.len(),
    {
        self.cap
    }

    /// The word in slot `index`.
    pub fn load(&self, index: usize) -> (w: usize)
        requires
            self.wf(),
            index < self@.len(),
        ensures
            w == self@[index as int],
    {
        self.slots[index]
    }

    /// Stores `new` in slot `index` and returns the word it replaced.
    pub fn swap(&mut self, index: usize, new: usize) -> (prev: usize)
        requires
            old(self).wf(),
            index < old(self)@.len(),
        ensures
            final(self).wf(),
            prev == old(self)@[index as int],
            final(self)@ == old(self)@.update(index as int, new),
    {
        let prev = self.slots[index];
        self.slots.set(index, new);
        prev
    }

    /// Stores `new` in slot `index` if the slot holds `expected`.
    ///
    /// Returns `Ok(expected)` when the store happened, and `Err(current)` with the
    /// word found in the slot, left unchanged, when it did not.
    pub fn compare_and_swap(&mut self, index: usize, expected: usize, new: usize) -> (r: Result<
        usize,
        usize,
    >)
        requires
            old(self).wf(),
            index < old(self)@.len(),
        ensures
            final(self).wf(),
            old(self)@[index as int] == expected ==> r == Ok::<usize, usize>(expected)
                && final(self)@ == old(self)@.update(index as int, new),
            old(self)@[index as int] != expected ==> r == Err::<usize, usize>(old(self)@[index as int])
                && final(self)@ == old(self)@,
    {
        let out = self.slots[index];
        if out == expected {
            self.slots.set(index, new);
            Ok(out)
        } else {
            Err(out)
        }
    }

    /// All slot words, in order.
    pub fn as_slice(&self) -> (s: &[usize])
        requires
            self.wf(),
        ensures
            s@ == self@,
    {
        self.slots.as_slice()
    }
}

} // verus!
