use vstd::prelude::*;

verus! {

/// The word that stands for the object stored at position `k`: always even
/// and never zero, so that it can neither be an empty slot nor a claimed one.
pub open spec fn object_word(k: int) -> int {
    2 * k + 2
}

/// Whether `w` has the shape of an object's word.
pub open spec fn is_object_word(w: usize) -> bool {
    w != 0 && w % 2 == 0
}

/// The position of the object that the word `w` stands for.
pub open spec fn object_index(w: usize) -> int {
    w / 2 - 1
}

/// The objects after the one that `w` stands for, if any, has been dropped.
pub open spec fn freed<P>(a: Seq<Option<P>>, w: usize) -> Seq<Option<P>> {
    if is_object_word(w) && object_index(w) < a.len() {
        a.update(object_index(w), None)
    } else {
        a
    }
}

/// Whether `w` stands for an object that is still stored.
pub open spec fn holds<P>(a: Seq<Option<P>>, w: usize) -> bool {
    &&& is_object_word(w)
    &&& object_index(w) < a.len()
    &&& a[object_index(w)] is Some
}

/// Dropping the object of `w` keeps every other object stored and the
/// number of positions unchanged.
pub proof fn lemma_freed_keeps<P>(a: Seq<Option<P>>, w: usize, v: usize)
    requires
        v != w,
    ensures
        freed(a, w).len() == a.len(),
        holds(freed(a, w), v) == holds(a, v),
        is_object_word(v) && object_index(v) < a.len() ==> freed(a, w)[object_index(v)] == a[object_index(
            v,
        )],
{
    if is_object_word(w) && object_index(w) < a.len() && is_object_word(v) && object_index(v) < a.len() {
        assert(object_index(v) != object_index(w));
    }
}

/// The store of objects that slots point to. An object gets a word when it
/// is stored and keeps it until it is dropped; words are never reused.
pub struct Arena<P> {
    objects: Vec<Option<P>>,
}

impl<P> Arena<P> {
    /// The stored objects by position; `None` where one has been dropped.
    pub closed spec fn view(&self) -> Seq<Option<P>> {
        self.objects@
    }

    /// An empty store.
    pub fn new() -> (a: Arena<P>)
        ensures
            a@ == Seq::<Option<P>>::empty(),
    {
        Arena { objects: Vec::new() }
    }

    /// Stores `value` and returns its word.
    pub fn store(&mut self, value: P) -> (w: usize)
        requires
            old(self)@.len() < usize::MAX / 4,
        ensures
            w == object_word(old(self)@.len() as int),
            is_object_word(w),
            object_index(w) == old(self)@.len(),
            final(self)@ == old(self)@.push(Some(value)),
    {
        let k = self.objects.len();
        self.objects.push(Some(value));
        2 * k + 2
    }

    /// Drops the object that `w` stands for, if it is stored.
    pub fn free(&mut self, w: usize)
        ensures
            final(self)@ == freed(old(self)@, w),
    {
        if w != 0 && w % 2 == 0 {
            let k = w / 2 - 1;
            if k < self.objects.len() {
                self.objects.set(k, None);
            }
        }
    }

    /// Whether `w` stands for a stored object.
    pub fn holds(&self, w: usize) -> (r: bool)
        ensures
            r == holds(self@, w),
    {
        if w != 0 && w % 2 == 0 {
            let k = w / 2 - 1;
            k < self.objects.len() && self.objects[k].is_some()
        } else {
            false
        }
    }

    /// The object that `w` stands for.
    pub fn get(&self, w: usize) -> (r: &P)
        requires
            holds(self@, w),
        ensures
            self@[object_index(w)] == Some(*r),
    {
        let k = w / 2 - 1;
        self.objects[k].as_ref().unwrap()
    }
}

} // verus!
