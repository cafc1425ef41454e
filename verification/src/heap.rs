use vstd::prelude::*;

use crate::arena::{freed, holds, is_object_word, lemma_freed_keeps, object_index, object_word, Arena};
use crate::collector::{
    active_field,
    counts_match,
    decr_step,
    epoch_field,
    epochs_bounded,
    expired_count,
    free_all,
    incr_word,
    lemma_clear_counted,
    lemma_enter_counted,
    lemma_exit_counted,
    lemma_register,
    quiet_epoch_of,
    quiet_field,
    quiet_step,
    visible_epoch,
    Collector,
    Delete,
    SessionState,
};
use crate::descriptor::{
    claims_held,
    first_conflict,
    has_index,
    has_insert_at,
    indices_below,
    release,
    word_is_tagged,
    writes,
    blocks,
    lemma_release_at,
    lemma_release_len,
    lemma_writes_len,
    lemma_writes_outside,
    Cas,
    Descriptor,
    State,
    NULL,
};
use crate::slots::AtomicPtrVec;

verus! {

/// An index into the heap's slots.
pub type Address = usize;

/// A transaction leaves untouched every slot that another descriptor has
/// claimed (where `before` holds a claimed word other than `tag`, `after`
/// holds the same word), and the only claimed word it stores is its own
/// tag.
pub open spec fn keeps_other_claims(before: Seq<usize>, after: Seq<usize>, tag: usize) -> bool {
    &&& before.len() == after.len()
    &&& forall|i: int|
        0 <= i < before.len() && word_is_tagged(before[i]) && before[i] != tag ==> #[trigger] after[i]
            == before[i]
    &&& forall|i: int|
        0 <= i < before.len() && #[trigger] after[i] != before[i] && word_is_tagged(after[i]) ==> after[i]
            == tag
}

/// The tag `fake` is found only in slots that an insertion of `ops` filled.
pub open spec fn tag_only_at_inserts(s: Seq<usize>, ops: Seq<Cas>, fake: usize) -> bool {
    forall|i: int| 0 <= i < s.len() && #[trigger] s[i] == fake ==> has_insert_at(ops, fake, i)
}

/// No slot holds the tag `fake`.
pub open spec fn tag_absent(s: Seq<usize>, fake: usize) -> bool {
    forall|i: int| 0 <= i < s.len() ==> #[trigger] s[i] != fake
}

/// Every session registered in `before` is registered in `after`.
pub open spec fn keeps_registrations<P>(before: Heap<P>, after: Heap<P>) -> bool {
    forall|o: Session<P>| o.registered_in(before) ==> #[trigger] o.registered_in(after)
}

/// Every session registered in `before`, other than the one numbered `id`,
/// is registered in `after`.
pub open spec fn keeps_others_registered<P>(before: Heap<P>, after: Heap<P>, id: nat) -> bool {
    forall|o: Session<P>| o.registered_in(before) && o.id() != id ==> #[trigger] o.registered_in(after)
}

/// Every transaction that fits `before` fits `after`.
pub open spec fn keeps_transactions<P>(before: Heap<P>, after: Heap<P>) -> bool {
    forall|o: Transaction<P>| o.wf_in(before) ==> #[trigger] o.wf_in(after)
}

/// Every transaction that fits `before`, other than the one with tag `tag`,
/// fits `after`.
pub open spec fn keeps_other_transactions<P>(before: Heap<P>, after: Heap<P>, tag: usize) -> bool {
    forall|o: Transaction<P>| o.wf_in(before) && o.tag() != tag ==> #[trigger] o.wf_in(after)
}

/// The only change from `before` to `after` is that some slots holding the
/// tag `tag` are emptied.
pub open spec fn clears_only_tag(before: Seq<usize>, after: Seq<usize>, tag: usize) -> bool {
    &&& after.len() == before.len()
    &&& forall|i: int|
        0 <= i < before.len() ==> #[trigger] after[i] == before[i] || (before[i] == tag && after[i]
            == NULL)
}

/// Every object that an unclaimed slot refers to keeps its value while the
/// slot keeps its word.
pub open spec fn keeps_slot_objects<P>(before: Heap<P>, after: Heap<P>) -> bool {
    forall|i: int|
        0 <= i < before.slots().len() && i < after.slots().len() && before.slots()[i] != NULL
            && !word_is_tagged(before.slots()[i]) && after.slots()[i] == before.slots()[i]
            ==> #[trigger] after.objects()[object_index(before.slots()[i])] == before.objects()[object_index(
            before.slots()[i],
        )]
}

/// What the transaction with tag `tag` leaves of the heap to everyone
/// else: the slots claimed by others (see `keeps_other_claims`), the
/// descriptors handed out, the objects that other transactions stored and
/// have not committed, and the record of unlinked objects, which only grows.
pub open spec fn keeps_others<P>(before: Heap<P>, after: Heap<P>, tag: usize) -> bool {
    &&& keeps_other_claims(before.slots(), after.slots(), tag)
    &&& after.descriptors() >= before.descriptors()
    &&& forall|w: usize|
        #[trigger] before.owned().dom().contains(w) && before.owned()[w] != tag ==> after.owned().dom().contains(
            w,
        ) && after.owned()[w] == before.owned()[w]
    &&& forall|w: usize| #[trigger] before.retired().contains(w) ==> after.retired().contains(w)
}

/// A shared store of objects, addressed by slot, updated by transactions that
/// apply several compare-and-swaps at once, with epoch-based reclamation of
/// the objects they replace.
pub struct Heap<P> {
    vec: AtomicPtrVec<P>,
    collector: Collector,
    len: usize,
    arena: Arena<P>,
    descriptors: usize,
    sessions: Ghost<Seq<SessionState>>,
    retired: Ghost<Set<usize>>,
    owned: Ghost<Map<usize, usize>>,
}

impl<P> Heap<P> {
    /// The words of the slots.
    pub closed spec fn slots(&self) -> Seq<usize> {
        self.vec@
    }

    /// The stored objects by position.
    pub closed spec fn objects(&self) -> Seq<Option<P>> {
        self.arena@
    }

    /// The collector's packed state word.
    pub closed spec fn word(&self) -> u64 {
        self.collector.word()
    }

    /// The drops that sessions have handed over to the collector.
    pub closed spec fn pending(&self) -> Seq<Delete> {
        self.collector.pending()
    }

    /// The next address that has never been handed out.
    pub closed spec fn counter(&self) -> usize {
        self.len
    }

    /// The number of descriptors created so far.
    pub closed spec fn descriptors(&self) -> usize {
        self.descriptors
    }

    /// The words of the objects that committed transactions unlinked from
    /// their slots; such a word never comes back into a slot.
    pub closed spec fn retired(&self) -> Set<usize> {
        self.retired@
    }

    /// The words of the objects stored by transactions that have not
    /// committed, each with the tag of its transaction.
    pub closed spec fn owned(&self) -> Map<usize, usize> {
        self.owned@
    }

    /// No object that a slot refers to has been dropped: every unclaimed
    /// word in a slot stands for a stored object, was never unlinked, and
    /// belongs to no pending transaction, and no two slots share one; the
    /// objects of pending transactions are stored and never unlinked; every
    /// unlinked word names a position of the store; and every drop handed to
    /// the collector is of an unlinked object.
    pub closed spec fn objects_safe(&self) -> bool {
        &&& forall|i: int|
            0 <= i < self.vec@.len() && #[trigger] self.vec@[i] != NULL && !word_is_tagged(
                self.vec@[i],
            ) ==> holds(self.arena@, self.vec@[i]) && !self.retired@.contains(self.vec@[i])
                && !self.owned@.dom().contains(self.vec@[i])
        &&& forall|i: int, j: int|
            0 <= i < j < self.vec@.len() && self.vec@[i] != NULL && !word_is_tagged(self.vec@[i])
                ==> #[trigger] self.vec@[i] != #[trigger] self.vec@[j]
        &&& forall|w: usize| #[trigger]
            self.owned@.dom().contains(w) ==> holds(self.arena@, w) && !self.retired@.contains(w)
        &&& forall|w: usize| #[trigger]
            self.retired@.contains(w) ==> is_object_word(w) && object_index(w) < self.arena@.len()
        &&& forall|k: int|
            0 <= k < self.collector.pending().len() ==> self.retired@.contains(
                #[trigger] self.collector.pending()[k].value,
            )
    }

    /// Where each session opened on this heap stands, by session number.
    pub closed spec fn sessions(&self) -> Seq<SessionState> {
        self.sessions@
    }

    /// The slot vector is consistent, deferred drops carry 16-bit epochs,
    /// claimed slots hold tags of descriptors handed out, and the collector's
    /// counts match the sessions opened on the heap.
    pub closed spec fn wf(&self) -> bool {
        &&& counts_match(self.sessions@, self.collector.word())
        &&& self.objects_safe()
        &&& self.vec.wf()
        &&& epochs_bounded(self.collector.pending())
        &&& forall|i: int|
            0 <= i < self.vec@.len() && word_is_tagged(#[trigger] self.vec@[i]) ==> self.vec@[i] < 2
                * self.descriptors + 2
    }

    /// A heap of `capacity` empty slots.
    pub fn new(capacity: usize) -> (h: Heap<P>)
        ensures
            h.wf(),
            h.slots() == Seq::new(capacity as nat, |i: int| 0usize),
            h.objects() == Seq::<Option<P>>::empty(),
            h.word() == 0,
            h.pending() == Seq::<Delete>::empty(),
            h.counter() == 0,
            h.descriptors() == 0,
            h.sessions() == Seq::<SessionState>::empty(),
    {
        let t = AtomicPtrVec::new(capacity);
        assert(active_field(0) == 0 && quiet_field(0) == 0 && epoch_field(0) == 0) by (bit_vector);
        Heap {
            len: 0,
            vec: t,
            collector: Collector::new(),
            arena: Arena::new(),
            descriptors: 0,
            sessions: Ghost(Seq::empty()),
            retired: Ghost(Set::empty()),
            owned: Ghost(Map::empty()),
        }
    }

    /// The number of slots.
    pub fn capacity(&self) -> (n: usize)
        requires
            self.wf(),
        ensures
            n == self.slots().len(),
    {
        self.vec.capacity()
    }

    /// Whether `w` stands for a stored object.
    pub fn holds(&self, w: usize) -> (r: bool)
        ensures
            r == holds(self.objects(), w),
    {
        self.arena.holds(w)
    }

    /// Whether slot `address` is claimed by a transaction.
    pub fn is_claimed(&self, address: Address) -> (r: bool)
        requires
            self.wf(),
            address < self.slots().len(),
        ensures
            r == word_is_tagged(self.slots()[address as int]),
    {
        Descriptor::<P>::is_tagged(self.vec.load(address))
    }

    /// The low 16 bits of the collector's epoch.
    pub fn epoch(&self) -> (e: usize)
        ensures
            e == visible_epoch(self.word()),
    {
        self.collector.epoch()
    }

    /// Hands out the next address that was never handed out; the counter
    /// wraps around.
    pub fn next_address(&mut self) -> (a: Address)
        ensures
            keeps_transactions(*old(self), *final(self)),
            keeps_registrations(*old(self), *final(self)),
            a == old(self).counter(),
            final(self).counter() == old(self).counter().wrapping_add(1),
            final(self).slots() == old(self).slots(),
            final(self).objects() == old(self).objects(),
            final(self).word() == old(self).word(),
            final(self).pending() == old(self).pending(),
            final(self).descriptors() == old(self).descriptors(),
            final(self).sessions() == old(self).sessions(),
            final(self).retired() == old(self).retired(),
            final(self).owned() == old(self).owned(),
            old(self).wf() ==> final(self).wf(),
    {
        let a = self.len;
        self.len = self.len.wrapping_add(1);
        proof {
            lemma_registrations_kept(*old(self), *self, old(self).sessions().len());
            lemma_transactions_kept(*old(self), *self, 0usize);
        }
        a
    }

    /// Opens a session that clears on exit, after dropping the handed-over
    /// objects retired at least two epochs ago.
    pub fn session(&mut self) -> (s: Session<P>)
        requires
            old(self).wf(),
        ensures
            keeps_transactions(*old(self), *final(self)),
            keeps_registrations(*old(self), *final(self)),
            keeps_slot_objects(*old(self), *final(self)),
            final(self).objects().len() == old(self).objects().len(),
            final(self).wf(),
            s.wf(),
            s.registered_in(*final(self)),
            s.id() == old(self).sessions().len(),
            final(self).sessions() == old(self).sessions().push(SessionState::Inactive),
            s.status() == SessionState::Inactive,
            s.behaviour() == SessionBehaviour::ClearOnExit,
            s.clears(),
            s.deferred() == Seq::<Delete>::empty(),
            s.free() == Seq::<usize>::empty(),
            ({
                let k = expired_count(old(self).pending(), visible_epoch(old(self).word()) as int);
                &&& final(self).pending() == old(self).pending().skip(k as int)
                &&& final(self).objects() == free_all(
                    old(self).objects(),
                    old(self).pending().take(k as int),
                )
            }),
            final(self).slots() == old(self).slots(),
            final(self).word() == old(self).word(),
            final(self).counter() == old(self).counter(),
            final(self).descriptors() == old(self).descriptors(),
            final(self).retired() == old(self).retired(),
            final(self).owned() == old(self).owned(),
    {
        self.collect();
        let s = Session::new(self, SessionBehaviour::ClearOnExit);
        proof {
            lemma_registrations_kept(*old(self), *self, old(self).sessions().len());
            lemma_transactions_kept(*old(self), *self, 0usize);
        }
        s
    }

    /// Stores `value` for the transaction with tag `tag`, which now owns it.
    fn store_owned(&mut self, value: P, tag: usize) -> (w: usize)
        requires
            old(self).wf(),
            old(self).objects().len() < usize::MAX / 4,
        ensures
            final(self).wf(),
            w == object_word(old(self).objects().len() as int),
            is_object_word(w),
            !old(self).owned().dom().contains(w),
            final(self).owned() == old(self).owned().insert(w, tag),
            final(self).objects() == old(self).objects().push(Some(value)),
            final(self).slots() == old(self).slots(),
            final(self).word() == old(self).word(),
            final(self).pending() == old(self).pending(),
            final(self).counter() == old(self).counter(),
            final(self).descriptors() == old(self).descriptors(),
            final(self).sessions() == old(self).sessions(),
            final(self).retired() == old(self).retired(),
            keeps_others(*old(self), *final(self), 0),
    {
        let ghost before = *self;
        let w = self.arena.store(value);
        proof {
            self.owned@ = before.owned@.insert(w, tag);
            assert forall|v: usize| holds(before.arena@, v) implies holds(self.arena@, v) && v != w by {
                assert(self.arena@[object_index(v)] == before.arena@[object_index(v)]);
            }
            assert forall|i: int|
                0 <= i < self.vec@.len() && #[trigger] self.vec@[i] != NULL && !word_is_tagged(self.vec@[i])
                implies holds(self.arena@, self.vec@[i]) && !self.owned@.dom().contains(self.vec@[i]) by {
                assert(before.vec@[i] == self.vec@[i]);
                assert(holds(before.arena@, self.vec@[i]));
            }
            assert forall|v: usize| #[trigger] self.owned@.dom().contains(v) implies holds(self.arena@, v)
                && !self.retired@.contains(v) by {
                if v != w {
                    assert(before.owned@.dom().contains(v));
                } else {
                    assert(self.arena@[object_index(w)] == Some(value));
                    if before.retired@.contains(w) {
                        assert(object_index(w) < before.arena@.len());
                    }
                }
            }
            assert forall|v: usize| #[trigger] self.retired@.contains(v) implies is_object_word(v) && object_index(v) < self.arena@.len() by {
                assert(before.retired@.contains(v));
            }
            if before.owned@.dom().contains(w) {
                assert(holds(before.arena@, w));
            }
        }
        w
    }

    /// Drops the handed-over objects retired at least two epochs ago, oldest
    /// first, up to the first that is younger.
    pub fn collect(&mut self)
        requires
            old(self).wf(),
        ensures
            keeps_transactions(*old(self), *final(self)),
            keeps_registrations(*old(self), *final(self)),
            keeps_slot_objects(*old(self), *final(self)),
            final(self).objects().len() == old(self).objects().len(),
            final(self).wf(),
            ({
                let k = expired_count(old(self).pending(), visible_epoch(old(self).word()) as int);
                &&& final(self).pending() == old(self).pending().skip(k as int)
                &&& final(self).objects() == free_all(
                    old(self).objects(),
                    old(self).pending().take(k as int),
                )
            }),
            final(self).slots() == old(self).slots(),
            final(self).word() == old(self).word(),
            final(self).counter() == old(self).counter(),
            final(self).descriptors() == old(self).descriptors(),
            final(self).sessions() == old(self).sessions(),
            final(self).retired() == old(self).retired(),
            final(self).owned() == old(self).owned(),
    {
        let ghost before = *self;
        self.collector.collect(&mut self.arena);
        proof {
            let k = expired_count(before.collector.pending(), visible_epoch(before.collector.word()) as int);
            crate::collector::lemma_expired_prefix(before.collector.pending(), visible_epoch(before.collector.word()) as int);
            let l = before.collector.pending().take(k as int);
            assert forall|j: int| 0 <= j < l.len() implies before.retired@.contains(#[trigger] l[j].value) by {
                assert(l[j] == before.collector.pending()[j]);
            }
            assert forall|j: int| 0 <= j < self.collector.pending().len() implies self.retired@.contains(#[trigger] self.collector.pending()[j].value) by {
                assert(self.collector.pending()[j] == before.collector.pending()[j + k]);
            }
            lemma_drop_retired(before, *self, l);
            lemma_registrations_kept(before, *self, before.sessions().len());
            lemma_transactions_kept(before, *self, 0usize);
        }
    }
}

/// When a session clears its quiet mark and when it leaves the collector.
#[derive(PartialEq, Eq, Structural, Clone, Copy, Debug)]
pub enum SessionBehaviour {
    ClearOnExit,
    CloseOnExit,
    ClearOnExitCloseOnDelete,
}

/// Whether a session with this behaviour starts out clearing on exit.
pub open spec fn clears_on_exit(b: SessionBehaviour) -> bool {
    !(b == SessionBehaviour::CloseOnExit)
}

/// One user's access to a heap: the addresses it gave back for reuse, and
/// the objects it retired whose drop waits for two epochs.
pub struct Session<P> {
    delete: Vec<Delete>,
    free_addr: Vec<Address>,
    state: SessionState,
    clear: bool,
    behaviour: SessionBehaviour,
    id: Ghost<nat>,
    _marker: core::marker::PhantomData<P>,
}

/// What leaving a transaction does to a session and its heap: with `clear`,
/// the session becomes quiet and drops its own expired objects; without,
/// it stops taking part and hands its deferred drops over to the collector.
pub open spec fn exits_as<P>(
    status: SessionState,
    clear: bool,
    word: u64,
    deferred: Seq<Delete>,
    objects: Seq<Option<P>>,
    pending: Seq<Delete>,
    s: Session<P>,
    h: Heap<P>,
) -> bool {
    if clear {
        let (ne, e, w) = quiet_step(word, quiet_epoch_of(status));
        let k = expired_count(deferred, visible_epoch(w) as int);
        &&& s.status() == (if ne {
            SessionState::Active
        } else {
            SessionState::Quiet(e)
        })
        &&& h.word() == w
        &&& s.deferred() == deferred.skip(k as int)
        &&& h.objects() == free_all(objects, deferred.take(k as int))
        &&& h.pending() == pending
        &&& s.clears() == clear
    } else {
        &&& s.status() == SessionState::Inactive
        &&& h.word() == (if status is Inactive {
            word
        } else {
            decr_step(word, quiet_epoch_of(status)).2
        })
        &&& s.deferred() == Seq::<Delete>::empty()
        &&& h.objects() == objects
        &&& h.pending() == pending + deferred
        &&& s.clears() == clear
    }
}

/// The epoch field has room to advance once more.
pub open spec fn epoch_room(word: u64) -> bool {
    epoch_field(word) < 0xffff_ffff
}

impl<P> Session<P> {
    /// The objects this session retired and has not dropped yet, oldest first.
    pub closed spec fn deferred(&self) -> Seq<Delete> {
        self.delete@
    }

    /// The addresses given back for reuse; the last is reused first.
    pub closed spec fn free(&self) -> Seq<Address> {
        self.free_addr@
    }

    /// Where the session stands with the collector.
    pub closed spec fn status(&self) -> SessionState {
        self.state
    }

    /// Whether leaving a transaction marks the session quiet (rather than
    /// stopping its taking part).
    pub closed spec fn clears(&self) -> bool {
        self.clear
    }

    /// The behaviour chosen when the session was opened.
    pub closed spec fn behaviour(&self) -> SessionBehaviour {
        self.behaviour
    }

    /// The number under which the session is recorded in its heap.
    pub closed spec fn id(&self) -> nat {
        self.id@
    }

    /// The heap records this session, with its current standing.
    pub closed spec fn registered_in(&self, heap: Heap<P>) -> bool {
        &&& self.id@ < heap.sessions().len()
        &&& heap.sessions()[self.id@ as int] == self.state
        &&& forall|k: int| 0 <= k < self.delete@.len() ==> heap.retired().contains(#[trigger] self.delete@[k].value)
    }

    /// Deferred drops carry 16-bit epochs.
    pub closed spec fn wf(&self) -> bool {
        epochs_bounded(self.delete@)
    }

    /// A session of `heap` that does not take part yet.
    pub fn new(heap: &mut Heap<P>, behaviour: SessionBehaviour) -> (s: Session<P>)
        requires
            old(heap).wf(),
        ensures
            keeps_transactions(*old(heap), *final(heap)),
            keeps_registrations(*old(heap), *final(heap)),
            final(heap).wf(),
            s.registered_in(*final(heap)),
            s.id() == old(heap).sessions().len(),
            final(heap).sessions() == old(heap).sessions().push(SessionState::Inactive),
            final(heap).slots() == old(heap).slots(),
            final(heap).objects() == old(heap).objects(),
            final(heap).word() == old(heap).word(),
            final(heap).pending() == old(heap).pending(),
            final(heap).counter() == old(heap).counter(),
            final(heap).descriptors() == old(heap).descriptors(),
            final(heap).retired() == old(heap).retired(),
            final(heap).owned() == old(heap).owned(),
            s.wf(),
            s.status() == SessionState::Inactive,
            s.behaviour() == behaviour,
            s.clears() == clears_on_exit(behaviour),
            s.deferred() == Seq::<Delete>::empty(),
            s.free() == Seq::<Address>::empty(),
    {
        let c: bool = match behaviour {
            SessionBehaviour::ClearOnExit => true,
            SessionBehaviour::CloseOnExit => false,
            SessionBehaviour::ClearOnExitCloseOnDelete => true,
        };
        let v = Vec::with_capacity(100);
        let f = Vec::with_capacity(100);
        let ghost ss = heap.sessions@;
        proof {
            lemma_register(ss, heap.collector.word());
            heap.sessions@ = ss.push(SessionState::Inactive);
            lemma_registrations_kept(*old(heap), *heap, ss.len());
            lemma_transactions_kept(*old(heap), *heap, 0usize);
        }
        Session {
            delete: v,
            free_addr: f,
            state: SessionState::Inactive,
            clear: c,
            behaviour: behaviour,
            id: Ghost(ss.len()),
            _marker: core::marker::PhantomData,
        }
    }

    /// Starts a transaction on `heap`: drops this session's expired objects,
    /// makes the session take part if it did not, and gives the transaction
    /// a fresh descriptor.
    pub fn transaction(&mut self, heap: &mut Heap<P>) -> (t: Transaction<P>)
        requires
            old(heap).wf(),
            old(self).wf(),
            old(self).registered_in(*old(heap)),
            old(self).status() is Inactive ==> active_field(old(heap).word()) < 0xffff,
            old(heap).descriptors() < usize::MAX / 4,
        ensures
            keeps_transactions(*old(heap), *final(heap)),
            keeps_others_registered(*old(heap), *final(heap), old(self).id()),
            keeps_slot_objects(*old(heap), *final(heap)),
            final(heap).objects().len() == old(heap).objects().len(),
            final(heap).wf(),
            final(self).wf(),
            final(self).registered_in(*final(heap)),
            final(self).id() == old(self).id(),
            final(heap).sessions() == old(heap).sessions().update(
                old(self).id() as int,
                final(self).status(),
            ),
            t.wf_in(*final(heap)),
            t.status() == State::Reading,
            t.ops() == Seq::<Cas>::empty(),
            t.tag() == 2 * old(heap).descriptors() + 3,
            final(heap).descriptors() == old(heap).descriptors() + 1,
            final(heap).slots() == old(heap).slots(),
            final(heap).counter() == old(heap).counter(),
            final(heap).pending() == old(heap).pending(),
            final(heap).retired() == old(heap).retired(),
            final(heap).owned() == old(heap).owned(),
            ({
                let k = expired_count(old(self).deferred(), visible_epoch(old(heap).word()) as int);
                &&& final(self).deferred() == old(self).deferred().skip(k as int)
                &&& final(heap).objects() == free_all(
                    old(heap).objects(),
                    old(self).deferred().take(k as int),
                )
            }),
            old(self).status() is Inactive ==> final(self).status() == SessionState::Active
                && final(heap).word() == incr_word(old(heap).word()) && final(self).clears()
                == clears_on_exit(old(self).behaviour()),
            !(old(self).status() is Inactive) ==> final(self).status() == old(self).status()
                && final(heap).word() == old(heap).word() && final(self).clears() == old(
                self,
            ).clears(),
            final(self).free() == old(self).free(),
            final(self).behaviour() == old(self).behaviour(),
    {
        let t = Transaction::new(heap, self);
        proof {
            lemma_registrations_kept(*old(heap), *heap, old(self).id());
            lemma_transactions_kept(*old(heap), *heap, 0usize);
        }
        t
    }

    fn start_transaction(&mut self, heap: &mut Heap<P>)
        requires
            old(heap).wf(),
            old(self).wf(),
            old(self).registered_in(*old(heap)),
            old(self).status() is Inactive ==> active_field(old(heap).word()) < 0xffff,
        ensures
            keeps_slot_objects(*old(heap), *final(heap)),
            final(heap).objects().len() == old(heap).objects().len(),
            final(heap).wf(),
            final(self).wf(),
            final(self).registered_in(*final(heap)),
            final(self).id() == old(self).id(),
            final(heap).sessions() == old(heap).sessions().update(
                old(self).id() as int,
                final(self).status(),
            ),
            final(heap).descriptors() == old(heap).descriptors(),
            final(heap).slots() == old(heap).slots(),
            final(heap).counter() == old(heap).counter(),
            final(heap).pending() == old(heap).pending(),
            final(heap).retired() == old(heap).retired(),
            final(heap).owned() == old(heap).owned(),
            ({
                let k = expired_count(old(self).deferred(), visible_epoch(old(heap).word()) as int);
                &&& final(self).deferred() == old(self).deferred().skip(k as int)
                &&& final(heap).objects() == free_all(
                    old(heap).objects(),
                    old(self).deferred().take(k as int),
                )
            }),
            old(self).status() is Inactive ==> final(self).status() == SessionState::Active
                && final(heap).word() == incr_word(old(heap).word()) && final(self).clears()
                == clears_on_exit(old(self).behaviour()),
            !(old(self).status() is Inactive) ==> final(self).status() == old(self).status()
                && final(heap).word() == old(heap).word() && final(self).clears() == old(
                self,
            ).clears(),
            final(self).free() == old(self).free(),
            final(self).behaviour() == old(self).behaviour(),
    {
        self.collect(heap);
        let c: bool = match self.behaviour {
            SessionBehaviour::ClearOnExit => true,
            SessionBehaviour::CloseOnExit => false,
            SessionBehaviour::ClearOnExitCloseOnDelete => true,
        };
        match self.state {
            SessionState::Inactive => {
                let ghost ss = heap.sessions@;
                let ghost w = heap.collector.word();
                self.state = heap.collector.enter_session();
                self.clear = c;
                proof {
                    lemma_enter_counted(ss, w, self.id@ as int);
                    heap.sessions@ = ss.update(self.id@ as int, self.state);
                }
            },
            _ => {
                assert(heap.sessions@.update(self.id@ as int, self.state) =~= heap.sessions@);
            },
        }
    }

    fn exit_transaction(&mut self, heap: &mut Heap<P>)
        requires
            old(heap).wf(),
            old(self).wf(),
            old(self).registered_in(*old(heap)),
            epoch_room(old(heap).word()),
            old(self).clears() ==> !(old(self).status() is Inactive),
        ensures
            keeps_slot_objects(*old(heap), *final(heap)),
            final(heap).objects().len() == old(heap).objects().len(),
            final(heap).wf(),
            final(self).wf(),
            final(self).registered_in(*final(heap)),
            final(self).id() == old(self).id(),
            final(heap).sessions() == old(heap).sessions().update(
                old(self).id() as int,
                final(self).status(),
            ),
            exits_as(
                old(self).status(),
                old(self).clears(),
                old(heap).word(),
                old(self).deferred(),
                old(heap).objects(),
                old(heap).pending(),
                *final(self),
                *final(heap),
            ),
            final(heap).descriptors() == old(heap).descriptors(),
            final(heap).slots() == old(heap).slots(),
            final(heap).counter() == old(heap).counter(),
            final(heap).retired() == old(heap).retired(),
            final(heap).owned() == old(heap).owned(),
            final(self).free() == old(self).free(),
            final(self).behaviour() == old(self).behaviour(),
    {
        let ghost ss = heap.sessions@;
        let ghost w = heap.collector.word();
        if self.clear {
            proof {
                lemma_clear_counted(ss, w, self.id@ as int);
            }
            self.state = heap.collector.clear_session(&self.state);
            proof {
                heap.sessions@ = ss.update(self.id@ as int, self.state);
            }
            self.collect(heap);
        } else {
            proof {
                if !(self.state is Inactive) {
                    lemma_exit_counted(ss, w, self.id@ as int);
                } else {
                    assert(ss.update(self.id@ as int, SessionState::Inactive) =~= ss);
                }
            }
            self.state = heap.collector.exit_session(&self.state);
            proof {
                heap.sessions@ = ss.update(self.id@ as int, self.state);
            }
            heap.collector.collect_later(&mut self.delete);
        }
    }

    /// The address to use next: the last one given back, or a new one from
    /// the heap.
    pub fn next_address(&mut self, heap: &mut Heap<P>) -> (a: Address)
        ensures
            keeps_transactions(*old(heap), *final(heap)),
            keeps_registrations(*old(heap), *final(heap)),
            old(self).free().len() > 0 ==> a == old(self).free().last() && final(self).free()
                == old(self).free().drop_last() && final(heap).counter() == old(heap).counter(),
            old(self).free().len() == 0 ==> a == old(heap).counter() && final(self).free()
                == old(self).free() && final(heap).counter() == old(heap).counter().wrapping_add(
                1,
            ),
            final(heap).slots() == old(heap).slots(),
            final(heap).objects() == old(heap).objects(),
            final(heap).word() == old(heap).word(),
            final(heap).pending() == old(heap).pending(),
            final(heap).descriptors() == old(heap).descriptors(),
            final(heap).sessions() == old(heap).sessions(),
            final(self).id() == old(self).id(),
            old(self).registered_in(*old(heap)) ==> final(self).registered_in(*final(heap)),
            final(heap).retired() == old(heap).retired(),
            final(heap).owned() == old(heap).owned(),
            old(heap).wf() ==> final(heap).wf(),
            final(self).deferred() == old(self).deferred(),
            final(self).status() == old(self).status(),
            final(self).clears() == old(self).clears(),
            final(self).behaviour() == old(self).behaviour(),
            final(self).wf() == old(self).wf(),
    {
        let a = if self.free_addr.len() > 0 {
            self.free_addr.pop().unwrap()
        } else {
            heap.next_address()
        };
        proof {
            lemma_registrations_kept(*old(heap), *heap, old(heap).sessions().len());
            lemma_transactions_kept(*old(heap), *heap, 0usize);
        }
        a
    }

    /// The number of retired objects whose drop is still deferred.
    pub fn deferred_len(&self) -> (n: usize)
        ensures
            n == self.deferred().len(),
    {
        self.delete.len()
    }

    /// Gives `address` back for reuse.
    pub fn free_address(&mut self, address: Address)
        ensures
            final(self).free() == old(self).free().push(address),
            final(self).deferred() == old(self).deferred(),
            final(self).status() == old(self).status(),
            final(self).clears() == old(self).clears(),
            final(self).behaviour() == old(self).behaviour(),
            final(self).id() == old(self).id(),
            final(self).wf() == old(self).wf(),
    {
        self.free_addr.push(address);
    }

    /// Defers the drop of the object `value`, retired in `epoch`. A session
    /// that closes on delete stops clearing on exit.
    pub fn collect_later(&mut self, epoch: usize, value: usize)
        requires
            old(self).wf(),
            epoch <= 0xffff,
        ensures
            final(self).wf(),
            final(self).deferred() == old(self).deferred().push(Delete { epoch, value }),
            final(self).clears() == (old(self).clears() && old(self).behaviour()
                != SessionBehaviour::ClearOnExitCloseOnDelete),
            final(self).free() == old(self).free(),
            final(self).status() == old(self).status(),
            final(self).behaviour() == old(self).behaviour(),
            final(self).id() == old(self).id(),
    {
        if self.behaviour == SessionBehaviour::ClearOnExitCloseOnDelete {
            self.clear = false;
        }
        self.delete.push(Delete { epoch: epoch, value: value });
    }

    /// Drops this session's objects retired at least two epochs ago, oldest
    /// first, up to the first that is younger.
    pub fn collect(&mut self, heap: &mut Heap<P>)
        requires
            old(self).wf(),
            old(heap).wf(),
            old(self).registered_in(*old(heap)),
        ensures
            keeps_transactions(*old(heap), *final(heap)),
            keeps_others_registered(*old(heap), *final(heap), old(self).id()),
            keeps_slot_objects(*old(heap), *final(heap)),
            final(heap).objects().len() == old(heap).objects().len(),
            final(self).wf(),
            final(heap).wf(),
            final(self).registered_in(*final(heap)),
            final(heap).retired() == old(heap).retired(),
            final(heap).owned() == old(heap).owned(),
            ({
                let k = expired_count(old(self).deferred(), visible_epoch(old(heap).word()) as int);
                &&& final(self).deferred() == old(self).deferred().skip(k as int)
                &&& final(heap).objects() == free_all(
                    old(heap).objects(),
                    old(self).deferred().take(k as int),
                )
            }),
            final(heap).slots() == old(heap).slots(),
            final(heap).word() == old(heap).word(),
            final(heap).pending() == old(heap).pending(),
            final(heap).counter() == old(heap).counter(),
            final(heap).descriptors() == old(heap).descriptors(),
            final(heap).sessions() == old(heap).sessions(),
            final(self).id() == old(self).id(),
            final(self).free() == old(self).free(),
            final(self).status() == old(self).status(),
            final(self).clears() == old(self).clears(),
            final(self).behaviour() == old(self).behaviour(),
    {
        let ghost before = *heap;
        let ghost d0 = self.delete@;
        let epoch = heap.collector.epoch();
        crate::collector::collect_expired(&mut self.delete, epoch, &mut heap.arena);
        proof {
            let k = expired_count(d0, epoch as int);
            crate::collector::lemma_expired_prefix(d0, epoch as int);
            let l = d0.take(k as int);
            assert forall|j: int| 0 <= j < l.len() implies before.retired@.contains(#[trigger] l[j].value) by {
                assert(l[j] == d0[j]);
            }
            assert forall|j: int| 0 <= j < self.delete@.len() implies heap.retired@.contains(#[trigger] self.delete@[j].value) by {
                assert(self.delete@[j] == d0[j + k]);
            }
            lemma_drop_retired(before, *heap, l);
            lemma_registrations_kept(before, *heap, self.id@);
            lemma_transactions_kept(before, *heap, 0usize);
        }
    }

    /// Ends the session: it stops taking part, drops its expired objects and
    /// hands the rest of its deferred drops over to the collector.
    pub fn close(self, heap: &mut Heap<P>)
        requires
            old(heap).wf(),
            self.wf(),
            self.registered_in(*old(heap)),
            epoch_room(old(heap).word()),
        ensures
            keeps_transactions(*old(heap), *final(heap)),
            keeps_others_registered(*old(heap), *final(heap), self.id()),
            keeps_slot_objects(*old(heap), *final(heap)),
            final(heap).objects().len() == old(heap).objects().len(),
            final(heap).wf(),
            final(heap).sessions() == old(heap).sessions().update(
                self.id() as int,
                SessionState::Inactive,
            ),
            ({
                let w = if self.status() is Inactive {
                    old(heap).word()
                } else {
                    decr_step(old(heap).word(), quiet_epoch_of(self.status())).2
                };
                let k = expired_count(self.deferred(), visible_epoch(w) as int);
                &&& final(heap).word() == w
                &&& final(heap).pending() == old(heap).pending() + self.deferred().skip(k as int)
                &&& final(heap).objects() == free_all(
                    old(heap).objects(),
                    self.deferred().take(k as int),
                )
            }),
            final(heap).slots() == old(heap).slots(),
            final(heap).counter() == old(heap).counter(),
            final(heap).retired() == old(heap).retired(),
            final(heap).owned() == old(heap).owned(),
            final(heap).descriptors() == old(heap).descriptors(),
    {
        let mut this = self;
        let ghost ss = heap.sessions@;
        let ghost w = heap.collector.word();
        match this.state {
            SessionState::Inactive => {
                assert(ss.update(this.id@ as int, SessionState::Inactive) =~= ss);
            },
            _ => {
                proof {
                    lemma_exit_counted(ss, w, this.id@ as int);
                }
                this.state = heap.collector.exit_session(&this.state);
                proof {
                    heap.sessions@ = ss.update(this.id@ as int, SessionState::Inactive);
                }
            },
        }
        this.collect(heap);
        heap.collector.collect_later(&mut this.delete);
        proof {
            lemma_registrations_kept(*old(heap), *heap, this.id@);
            lemma_transactions_kept(*old(heap), *heap, 0usize);
        }
    }
}


/// The slots that a committed transaction gives back for reuse: those its
/// operations emptied, in order.
pub open spec fn freed_on_commit(ops: Seq<Cas>) -> Seq<Address>
    decreases ops.len(),
{
    if ops.len() == 0 {
        Seq::empty()
    } else if ops.last().new == NULL {
        freed_on_commit(ops.drop_last()).push(ops.last().index)
    } else {
        freed_on_commit(ops.drop_last())
    }
}

/// The objects that a committed transaction replaced, retired in `epoch`, in
/// order.
pub open spec fn retired(ops: Seq<Cas>, epoch: usize) -> Seq<Delete>
    decreases ops.len(),
{
    if ops.len() == 0 {
        Seq::empty()
    } else if ops.last().old != NULL && !word_is_tagged(ops.last().old) {
        retired(ops.drop_last(), epoch).push(Delete { epoch, value: ops.last().old })
    } else {
        retired(ops.drop_last(), epoch)
    }
}

/// The slots that a transaction that did not commit gives back for reuse:
/// those its operations expected to be empty, in order.
pub open spec fn freed_on_abort(ops: Seq<Cas>) -> Seq<Address>
    decreases ops.len(),
{
    if ops.len() == 0 {
        Seq::empty()
    } else if ops.last().old == NULL {
        freed_on_abort(ops.drop_last()).push(ops.last().index)
    } else {
        freed_on_abort(ops.drop_last())
    }
}

/// The objects after a transaction that did not commit has dropped the new
/// objects it had stored.
pub open spec fn discard<P>(a: Seq<Option<P>>, ops: Seq<Cas>) -> Seq<Option<P>>
    decreases ops.len(),
{
    if ops.len() == 0 {
        a
    } else if ops.last().new != NULL {
        freed(discard(a, ops.drop_last()), ops.last().new)
    } else {
        discard(a, ops.drop_last())
    }
}

/// Some operation of `ops` stored the object at position `i`.
pub open spec fn stores_position(ops: Seq<Cas>, i: int) -> bool {
    exists|k: int|
        0 <= k < ops.len() && (#[trigger] ops[k]).new != NULL && is_object_word(ops[k].new)
            && object_index(ops[k].new) == i
}

/// A committed transaction gives back the slot of every operation that
/// emptied it, insertions' and updates' slots never, in the order of the
/// operations.
pub proof fn lemma_freed_on_commit_is_emptied(ops: Seq<Cas>)
    ensures
        freed_on_commit(ops) == ops.filter(|c: Cas| c.new == NULL).map_values(|c: Cas| c.index),
        forall|k: int|
            0 <= k < ops.len() && (#[trigger] ops[k]).new == NULL ==> freed_on_commit(ops).contains(
                ops[k].index,
            ),
    decreases ops.len(),
{
    reveal(Seq::filter);
    if ops.len() > 0 {
        let init = ops.drop_last();
        lemma_freed_on_commit_is_emptied(init);
        assert forall|k: int|
            0 <= k < ops.len() && (#[trigger] ops[k]).new == NULL implies freed_on_commit(ops).contains(
            ops[k].index,
        ) by {
            if k < ops.len() - 1 {
                assert(init[k] == ops[k]);
                let x = freed_on_commit(init);
                let j = choose|j: int| 0 <= j < x.len() && x[j] == ops[k].index;
                assert(freed_on_commit(ops)[j] == ops[k].index);
            } else {
                assert(freed_on_commit(ops).last() == ops[k].index);
            }
        }
        let f = ops.drop_last().filter(|c: Cas| c.new == NULL);
        assert(f.push(ops.last()).map_values(|c: Cas| c.index) =~= f.map_values(|c: Cas| c.index).push(
            ops.last().index,
        ));
    }
}

/// A transaction that did not commit gives back the slot of every
/// operation that expected it empty, and no slot it filled on insertion, in
/// the order of the operations.
pub proof fn lemma_freed_on_abort_is_expected_empty(ops: Seq<Cas>)
    ensures
        freed_on_abort(ops) == ops.filter(|c: Cas| c.old == NULL).map_values(|c: Cas| c.index),
    decreases ops.len(),
{
    reveal(Seq::filter);
    if ops.len() > 0 {
        lemma_freed_on_abort_is_expected_empty(ops.drop_last());
        let f = ops.drop_last().filter(|c: Cas| c.old == NULL);
        assert(f.push(ops.last()).map_values(|c: Cas| c.index) =~= f.map_values(|c: Cas| c.index).push(
            ops.last().index,
        ));
    }
}

/// A committed transaction retires, in the current epoch, the object of
/// every operation that found a non-empty unclaimed word, whether it
/// replaced or deleted it, in the order of the operations.
pub proof fn lemma_retired_is_unlinked(ops: Seq<Cas>, epoch: usize)
    ensures
        retired(ops, epoch) == ops.filter(|c: Cas| c.old != NULL && !word_is_tagged(c.old)).map_values(
            |c: Cas| Delete { epoch, value: c.old },
        ),
        forall|k: int|
            0 <= k < ops.len() && (#[trigger] ops[k]).old != NULL && !word_is_tagged(ops[k].old)
                ==> retired(ops, epoch).contains(Delete { epoch, value: ops[k].old }),
    decreases ops.len(),
{
    reveal(Seq::filter);
    if ops.len() > 0 {
        let init = ops.drop_last();
        lemma_retired_is_unlinked(init, epoch);
        assert forall|k: int|
            0 <= k < ops.len() && (#[trigger] ops[k]).old != NULL && !word_is_tagged(ops[k].old)
            implies retired(ops, epoch).contains(Delete { epoch, value: ops[k].old }) by {
            if k < ops.len() - 1 {
                assert(init[k] == ops[k]);
                let x = retired(init, epoch);
                let j = choose|j: int| 0 <= j < x.len() && x[j] == Delete { epoch, value: ops[k].old };
                assert(retired(ops, epoch)[j] == Delete { epoch, value: ops[k].old });
            } else {
                assert(retired(ops, epoch).last() == Delete { epoch, value: ops[k].old });
            }
        }
        let f = ops.drop_last().filter(|c: Cas| c.old != NULL && !word_is_tagged(c.old));
        assert(f.push(ops.last()).map_values(|c: Cas| Delete { epoch, value: c.old }) =~= f.map_values(
            |c: Cas| Delete { epoch, value: c.old },
        ).push(Delete { epoch, value: ops.last().old }));
    }
}

/// A transaction that did not commit drops every object it stored, for an
/// insertion as for an update, and nothing else: a position of the store
/// is empty afterwards when one of its operations stored the object there,
/// and otherwise keeps what it held; the store keeps its size.
pub proof fn lemma_discard_drops_stored<P>(a: Seq<Option<P>>, ops: Seq<Cas>)
    ensures
        discard(a, ops).len() == a.len(),
        forall|i: int|
            0 <= i < a.len() ==> #[trigger] discard(a, ops)[i] == (if stores_position(ops, i) {
                None
            } else {
                a[i]
            }),
    decreases ops.len(),
{
    if ops.len() > 0 {
        let init = ops.drop_last();
        let w = ops.last().new;
        lemma_discard_drops_stored(a, init);
        let b = discard(a, init);
        assert forall|i: int| 0 <= i < a.len() implies #[trigger] discard(a, ops)[i] == (if stores_position(
            ops,
            i,
        ) {
            None
        } else {
            a[i]
        }) by {
            assert(b[i] == (if stores_position(init, i) {
                None
            } else {
                a[i]
            }));
            if stores_position(init, i) {
                let k = choose|k: int|
                    0 <= k < init.len() && (#[trigger] init[k]).new != NULL && is_object_word(init[k].new)
                        && object_index(init[k].new) == i;
                assert(ops[k] == init[k]);
            }
            if w != NULL && is_object_word(w) && object_index(w) == i {
                assert(ops[ops.len() - 1].new == w);
            }
            if stores_position(ops, i) && !stores_position(init, i) {
                let k = choose|k: int|
                    0 <= k < ops.len() && (#[trigger] ops[k]).new != NULL && is_object_word(ops[k].new)
                        && object_index(ops[k].new) == i;
                if k < ops.len() - 1 {
                    assert(init[k] == ops[k]);
                }
            }
        }
    }
}

/// An insertion can find a slot: some address given back has an empty slot
/// and every address given back after it lies inside the heap; or every
/// address given back lies inside the heap with its slot taken, and some
/// slot at or after the counter is empty.
pub open spec fn insert_possible(free: Seq<Address>, counter: usize, slots: Seq<usize>) -> bool {
    ||| exists|j: int|
        0 <= j < free.len() && #[trigger] free[j] < slots.len() && slots[free[j] as int] == NULL
            && (forall|l: int| j < l < free.len() ==> #[trigger] free[l] < slots.len())
    ||| (forall|l: int|
        0 <= l < free.len() ==> #[trigger] free[l] < slots.len() && slots[free[l] as int] != NULL)
        && (exists|i: int| counter <= i < slots.len() && #[trigger] slots[i] == NULL)
}

/// The address an insertion takes: the most recently given back address
/// whose slot is empty, dropping from the list those tried before it; or,
/// when none is empty, the first empty slot at or after the counter, which
/// then moves past it. `f1` and `c1` are the list and counter afterwards.
pub open spec fn picks(
    f0: Seq<Address>,
    c0: usize,
    slots: Seq<usize>,
    a: Address,
    f1: Seq<Address>,
    c1: usize,
) -> bool {
    ||| (exists|j: int|
        0 <= j < f0.len() && #[trigger] f0[j] == a && slots[a as int] == NULL && (forall|l: int|
            j < l < f0.len() ==> slots[#[trigger] f0[l] as int] != NULL) && f1 == f0.take(j) && c1
            == c0)
    ||| ((forall|l: int| 0 <= l < f0.len() ==> slots[#[trigger] f0[l] as int] != NULL) && c0 <= a
        < slots.len() && slots[a as int] == NULL && (forall|i: int|
        c0 <= i < a ==> #[trigger] slots[i] != NULL) && f1 == Seq::<Address>::empty() && c1 == a
        + 1)
}

/// Whether the session still clears on exit once `t` has finished: a
/// session that closes on delete stops clearing when a committed
/// transaction retired an object.
pub open spec fn clears_after_finish<P>(t: Transaction<P>, s: Session<P>, word: u64) -> bool {
    s.clears() && !(t.status() == State::Committed && s.behaviour()
        == SessionBehaviour::ClearOnExitCloseOnDelete && retired(
        t.ops(),
        visible_epoch(word),
    ).len() > 0)
}

/// A transaction: its descriptor records the compare-and-swaps to apply
/// together.
pub struct Transaction<P> {
    descriptor: Descriptor<P>,
}

/// A handle on an object read from a slot: the slot's address and the word
/// found there.
pub struct Ref<P> {
    address: Address,
    ptr: usize,
    _marker: core::marker::PhantomData<P>,
}

impl<P> Ref<P> {
    /// The address the object was read from.
    pub closed spec fn address(&self) -> Address {
        self.address
    }

    /// The object's word.
    pub closed spec fn ptr(&self) -> usize {
        self.ptr
    }

    /// The object's word.
    pub fn word(&self) -> (w: usize)
        ensures
            w == self.ptr(),
    {
        self.ptr
    }

    /// The object, while it is stored.
    pub fn deref<'h>(&self, heap: &'h Heap<P>) -> (r: &'h P)
        requires
            holds(heap.objects(), self.ptr()),
        ensures
            heap.objects()[object_index(self.ptr())] == Some(*r),
    {
        heap.arena.get(self.ptr)
    }
}

impl<P: Clone> Ref<P> {
    /// A boxed clone of the object, while it is stored.
    pub fn copy(&self, heap: &Heap<P>) -> (b: Box<P>)
        requires
            holds(heap.objects(), self.ptr()),
        ensures
            heap.objects()[object_index(self.ptr())] matches Some(v) && cloned(v, *b),
    {
        let v = heap.arena.get(self.ptr);
        Box::new(P::clone(v))
    }
}

impl<P> Transaction<P> {
    /// The descriptor's state.
    pub closed spec fn status(&self) -> State {
        self.descriptor.status()
    }

    /// The recorded compare-and-swaps, in order.
    pub closed spec fn ops(&self) -> Seq<Cas> {
        self.descriptor.ops()
    }

    /// The word with which this transaction claims slots.
    pub closed spec fn tag(&self) -> usize {
        self.descriptor.tag()
    }

    /// The transaction can still record operations.
    pub open spec fn is_open(&self) -> bool {
        self.status() == State::Reading || self.status() == State::Writing
    }

    /// The transaction fits `heap`: its tag is one the heap handed out, its
    /// operations target slots of the heap, expect either its own tag or an
    /// unclaimed word, and store distinct unclaimed words; while it is open
    /// the slots it filled on insertion, and only those, hold its tag, and
    /// once it is done no slot does; until it commits the heap records it as
    /// the owner of the objects it stored, and once it has committed the
    /// objects it replaced are recorded as unlinked.
    pub closed spec fn wf_in(&self, heap: Heap<P>) -> bool {
        &&& self.descriptor.wf()
        &&& word_is_tagged(self.tag())
        &&& self.tag() < 2 * heap.descriptors() + 2
        &&& indices_below(self.ops(), heap.slots().len() as int)
        &&& forall|k: int|
            0 <= k < self.ops().len() ==> (#[trigger] self.ops()[k]).old == self.tag()
                || !word_is_tagged(self.ops()[k].old)
        &&& forall|k: int| 0 <= k < self.ops().len() ==> !word_is_tagged((#[trigger] self.ops()[k]).new)
        &&& self.status() != State::Preparing
        &&& self.status() != State::Committing
        &&& self.is_open() ==> claims_held(heap.slots(), self.ops(), self.tag())
        &&& self.status() == State::Reading ==> self.ops().len() == 0
        &&& self.is_open() ==> tag_only_at_inserts(heap.slots(), self.ops(), self.tag())
        &&& !self.is_open() ==> tag_absent(heap.slots(), self.tag())
        &&& self.status() != State::Committed ==> forall|k: int|
            0 <= k < self.ops().len() && (#[trigger] self.ops()[k]).new != NULL ==> heap.owned().dom().contains(
                self.ops()[k].new,
            ) && heap.owned()[self.ops()[k].new] == self.tag()
        &&& forall|j: int, k: int|
            0 <= j < k < self.ops().len() && self.ops()[j].new != NULL ==> (#[trigger] self.ops()[j]).new
                != (#[trigger] self.ops()[k]).new
        &&& self.status() == State::Committed ==> forall|k: int|
            0 <= k < self.ops().len() && (#[trigger] self.ops()[k]).old != NULL && !word_is_tagged(
                self.ops()[k].old,
            ) ==> heap.retired().contains(self.ops()[k].old)
    }

    fn new(heap: &mut Heap<P>, session: &mut Session<P>) -> (t: Transaction<P>)
        requires
            old(heap).wf(),
            old(session).wf(),
            old(session).registered_in(*old(heap)),
            old(session).status() is Inactive ==> active_field(old(heap).word()) < 0xffff,
            old(heap).descriptors() < usize::MAX / 4,
        ensures
            keeps_slot_objects(*old(heap), *final(heap)),
            final(heap).objects().len() == old(heap).objects().len(),
            final(heap).wf(),
            final(session).wf(),
            final(session).registered_in(*final(heap)),
            final(session).id() == old(session).id(),
            final(heap).sessions() == old(heap).sessions().update(
                old(session).id() as int,
                final(session).status(),
            ),
            t.wf_in(*final(heap)),
            t.status() == State::Reading,
            t.ops() == Seq::<Cas>::empty(),
            t.tag() == 2 * old(heap).descriptors() + 3,
            final(heap).descriptors() == old(heap).descriptors() + 1,
            final(heap).slots() == old(heap).slots(),
            final(heap).counter() == old(heap).counter(),
            final(heap).pending() == old(heap).pending(),
            final(heap).retired() == old(heap).retired(),
            final(heap).owned() == old(heap).owned(),
            ({
                let k = expired_count(
                    old(session).deferred(),
                    visible_epoch(old(heap).word()) as int,
                );
                &&& final(session).deferred() == old(session).deferred().skip(k as int)
                &&& final(heap).objects() == free_all(
                    old(heap).objects(),
                    old(session).deferred().take(k as int),
                )
            }),
            old(session).status() is Inactive ==> final(session).status() == SessionState::Active
                && final(heap).word() == incr_word(old(heap).word()) && final(session).clears()
                == clears_on_exit(old(session).behaviour()),
            !(old(session).status() is Inactive) ==> final(session).status() == old(
                session,
            ).status() && final(heap).word() == old(heap).word() && final(session).clears()
                == old(session).clears(),
            final(session).free() == old(session).free(),
            final(session).behaviour() == old(session).behaviour(),
    {
        let address = 2 * heap.descriptors + 2;
        heap.descriptors = heap.descriptors + 1;
        let d = Descriptor::new(address);
        session.start_transaction(heap);
        Transaction { descriptor: d }
    }

    /// Applies the recorded operations all at once, or none; see
    /// `Descriptor::apply`. Slots claimed by other transactions are left alone.
    pub fn apply(&mut self, heap: &mut Heap<P>) -> (r: bool)
        requires
            old(heap).wf(),
            old(self).wf_in(*old(heap)),
        ensures
            keeps_other_transactions(*old(heap), *final(heap), old(self).tag()),
            keeps_registrations(*old(heap), *final(heap)),
            final(heap).wf(),
            final(self).wf_in(*final(heap)),
            final(self).ops() == old(self).ops(),
            final(self).tag() == old(self).tag(),
            final(heap).objects() == old(heap).objects(),
            final(heap).word() == old(heap).word(),
            final(heap).pending() == old(heap).pending(),
            final(heap).counter() == old(heap).counter(),
            final(heap).descriptors() == old(heap).descriptors(),
            final(heap).sessions() == old(heap).sessions(),
            keeps_other_claims(old(heap).slots(), final(heap).slots(), old(self).tag()),
            keeps_others(*old(heap), *final(heap), old(self).tag()),
            tag_absent(final(heap).slots(), old(self).tag()),
            !r ==> clears_only_tag(old(heap).slots(), final(heap).slots(), old(self).tag()),
            old(self).status() == State::Writing && r ==> final(heap).owned() == old(heap).owned().remove_keys(
                stored_words(old(self).ops()),
            ) && final(heap).retired() == old(heap).retired().union(unlinked(old(self).ops())),
            !(old(self).status() == State::Writing && r) ==> final(heap).owned() == old(heap).owned()
                && final(heap).retired() == old(heap).retired(),
            old(self).status() == State::Reading ==> r && final(self).status() == State::Committed
                && final(heap).slots() == old(heap).slots(),
            old(self).status() == State::Committed ==> r && final(self).status()
                == State::Committed && final(heap).slots() == old(heap).slots(),
            old(self).status() == State::Cancelled || old(self).status() == State::Conflicted ==> !r
                && final(self).status() == old(self).status() && final(heap).slots() == old(
                heap,
            ).slots(),
            old(self).status() == State::Writing ==> ({
                let c = first_conflict(old(heap).slots(), old(self).ops(), old(self).tag());
                &&& r == (c == old(self).ops().len())
                &&& r ==> final(self).status() == State::Committed && final(heap).slots()
                    == writes(old(heap).slots(), old(self).ops())
                &&& !r ==> final(self).status() == State::Conflicted && final(heap).slots()
                    == release(old(heap).slots(), old(self).ops(), old(self).tag())
            }),
    {
        let ghost h0 = *heap;
        let ghost s0 = heap.slots();
        let ghost ops = self.ops();
        let ghost tag = self.tag();
        let r = self.descriptor.apply(&mut heap.vec);
        proof {
            if old(self).status() == State::Writing && r {
                lemma_commit_keeps_other_claims(s0, ops, tag);
                heap.retired@ = h0.retired@.union(unlinked(ops));
                heap.owned@ = h0.owned@.remove_keys(stored_words(ops));
                lemma_commit_safe(h0, *heap, ops, tag);
                assert forall|k: int|
                    0 <= k < ops.len() && (#[trigger] ops[k]).old != NULL && !word_is_tagged(ops[k].old)
                    implies heap.retired@.contains(ops[k].old) by {
                    assert(unlinked(ops).contains(ops[k].old));
                }
                assert forall|w: usize|
                    #[trigger] h0.owned().dom().contains(w) && h0.owned()[w] != tag implies heap.owned().dom().contains(
                    w,
                ) && heap.owned()[w] == h0.owned()[w] by {
                    if stored_words(ops).contains(w) {
                        let k = choose|k: int| 0 <= k < ops.len() && (#[trigger] ops[k]).new == w;
                    }
                }
            } else {
                if old(self).status() == State::Writing {
                    lemma_release_keeps_other_claims(s0, ops, tag);
                    lemma_release_len(s0, ops, tag);
                    lemma_release_clears_only_tag(s0, ops, tag);
                    assert forall|i: int|
                        0 <= i < heap.vec@.len() && #[trigger] heap.vec@[i] != NULL && !word_is_tagged(heap.vec@[i])
                        implies heap.vec@[i] == h0.vec@[i] by {
                        lemma_release_at(s0, ops, tag, i);
                    }
                }
                lemma_slots_cleared(h0, *heap);
            }
            lemma_registrations_kept(h0, *heap, h0.sessions().len());
            lemma_transactions_kept(h0, *heap, old(self).tag());
        }
        r
    }

    /// Withdraws an open transaction: the slots it filled on insertion are
    /// emptied again and it becomes `Cancelled`; see `Descriptor::cancel`.
    pub fn cancel(&mut self, heap: &mut Heap<P>)
        requires
            old(heap).wf(),
            old(self).wf_in(*old(heap)),
        ensures
            keeps_other_transactions(*old(heap), *final(heap), old(self).tag()),
            keeps_registrations(*old(heap), *final(heap)),
            final(heap).wf(),
            final(self).wf_in(*final(heap)),
            final(self).ops() == old(self).ops(),
            final(self).tag() == old(self).tag(),
            final(heap).objects() == old(heap).objects(),
            final(heap).word() == old(heap).word(),
            final(heap).pending() == old(heap).pending(),
            final(heap).counter() == old(heap).counter(),
            final(heap).descriptors() == old(heap).descriptors(),
            final(heap).sessions() == old(heap).sessions(),
            keeps_other_claims(old(heap).slots(), final(heap).slots(), old(self).tag()),
            keeps_others(*old(heap), *final(heap), old(self).tag()),
            final(heap).owned() == old(heap).owned(),
            final(heap).retired() == old(heap).retired(),
            old(self).status() == State::Writing ==> tag_absent(final(heap).slots(), old(self).tag()),
            clears_only_tag(old(heap).slots(), final(heap).slots(), old(self).tag()),
            old(self).status() == State::Writing ==> final(self).status() == State::Cancelled
                && final(heap).slots() == release(old(heap).slots(), old(self).ops(), old(self).tag()),
            old(self).status() != State::Writing ==> final(self).status() == old(self).status()
                && final(heap).slots() == old(heap).slots(),
    {
        let ghost s0 = heap.slots();
        let ghost ops = self.ops();
        let ghost tag = self.tag();
        let ghost h0 = *heap;
        self.descriptor.cancel(&mut heap.vec);
        proof {
            if old(self).status() == State::Writing {
                lemma_release_keeps_other_claims(s0, ops, tag);
                lemma_release_len(s0, ops, tag);
                lemma_release_clears_only_tag(s0, ops, tag);
                assert forall|i: int|
                    0 <= i < heap.vec@.len() && #[trigger] heap.vec@[i] != NULL && !word_is_tagged(heap.vec@[i])
                    implies heap.vec@[i] == h0.vec@[i] by {
                    lemma_release_at(s0, ops, tag, i);
                }
            }
            lemma_slots_cleared(h0, *heap);
            lemma_registrations_kept(h0, *heap, h0.sessions().len());
            lemma_transactions_kept(h0, *heap, old(self).tag());
        }
    }


    /// The word in slot `address`. A slot claimed by a transaction would be
    /// waited on until it is released, so it is not read here.
    fn load(&self, heap: &Heap<P>, address: Address) -> (w: usize)
        requires
            heap.wf(),
            address < heap.slots().len(),
            !word_is_tagged(heap.slots()[address as int]),
        ensures
            w == heap.slots()[address as int],
            !word_is_tagged(w),
    {
        heap.vec.load(address)
    }

    /// A handle on the object in slot `address`, or `None` when the slot is
    /// empty.
    pub fn read(&self, heap: &Heap<P>, address: Address) -> (r: Option<Ref<P>>)
        requires
            heap.wf(),
            address < heap.slots().len(),
            !word_is_tagged(heap.slots()[address as int]),
        ensures
            heap.slots()[address as int] == NULL ==> r is None,
            heap.slots()[address as int] != NULL ==> (r matches Some(x) && x.address() == address
                && x.ptr() == heap.slots()[address as int]),
    {
        let ptr = self.load(heap, address);
        if ptr == NULL {
            None
        } else {
            Some(Ref { address: address, ptr: ptr, _marker: core::marker::PhantomData })
        }
    }

    /// The object in slot `address`, or `None` when the slot is empty.
    pub fn borrow<'h>(&self, heap: &'h Heap<P>, address: Address) -> (r: Option<&'h P>)
        requires
            heap.wf(),
            address < heap.slots().len(),
            !word_is_tagged(heap.slots()[address as int]),
        ensures
            heap.slots()[address as int] == NULL ==> r is None,
            heap.slots()[address as int] != NULL ==> (r matches Some(v) && heap.objects()[object_index(
                heap.slots()[address as int],
            )] == Some(*v)),
    {
        let ptr = self.load(heap, address);
        if ptr == NULL {
            None
        } else {
            proof {
                assert(heap.vec@[address as int] == ptr);
            }
            Some(heap.arena.get(ptr))
        }
    }

    /// Records that the object read through `seen` is to be replaced by
    /// `new`, which is stored now.
    pub fn update(&mut self, heap: &mut Heap<P>, seen: Ref<P>, new: Box<P>)
        requires
            old(heap).wf(),
            old(self).wf_in(*old(heap)),
            old(self).is_open(),
            seen.address() < old(heap).slots().len(),
            !word_is_tagged(seen.ptr()),
            old(heap).objects().len() < usize::MAX / 4,
        ensures
            keeps_other_transactions(*old(heap), *final(heap), old(self).tag()),
            keeps_registrations(*old(heap), *final(heap)),
            final(heap).wf(),
            final(self).wf_in(*final(heap)),
            final(self).status() == State::Writing,
            final(self).tag() == old(self).tag(),
            final(self).ops() == old(self).ops().push(
                Cas {
                    index: seen.address(),
                    old: seen.ptr(),
                    new: object_word(old(heap).objects().len() as int) as usize,
                },
            ),
            final(heap).objects() == old(heap).objects().push(Some(*new)),
            final(heap).slots() == old(heap).slots(),
            final(heap).word() == old(heap).word(),
            final(heap).pending() == old(heap).pending(),
            final(heap).counter() == old(heap).counter(),
            final(heap).descriptors() == old(heap).descriptors(),
            final(heap).sessions() == old(heap).sessions(),
            keeps_others(*old(heap), *final(heap), old(self).tag()),
            final(heap).retired() == old(heap).retired(),
    {
        let new_ptr = self.store_new(heap, *new);
        self.record(heap, seen.address, seen.ptr, new_ptr);
        proof {
            lemma_registrations_kept(*old(heap), *heap, old(heap).sessions().len());
            lemma_transactions_kept(*old(heap), *heap, old(self).tag());
        }
    }

    /// Records that the object `seen` in slot `address` is to be replaced by
    /// `new`, which is stored now.
    pub fn compare_and_swap(&mut self, heap: &mut Heap<P>, address: Address, seen: &Ref<P>, new: Box<P>)
        requires
            old(heap).wf(),
            old(self).wf_in(*old(heap)),
            old(self).is_open(),
            address < old(heap).slots().len(),
            !word_is_tagged(seen.ptr()),
            old(heap).objects().len() < usize::MAX / 4,
        ensures
            keeps_other_transactions(*old(heap), *final(heap), old(self).tag()),
            keeps_registrations(*old(heap), *final(heap)),
            final(heap).wf(),
            final(self).wf_in(*final(heap)),
            final(self).status() == State::Writing,
            final(self).tag() == old(self).tag(),
            final(self).ops() == old(self).ops().push(
                Cas {
                    index: address,
                    old: seen.ptr(),
                    new: object_word(old(heap).objects().len() as int) as usize,
                },
            ),
            final(heap).objects() == old(heap).objects().push(Some(*new)),
            final(heap).slots() == old(heap).slots(),
            final(heap).word() == old(heap).word(),
            final(heap).pending() == old(heap).pending(),
            final(heap).counter() == old(heap).counter(),
            final(heap).descriptors() == old(heap).descriptors(),
            final(heap).sessions() == old(heap).sessions(),
            keeps_others(*old(heap), *final(heap), old(self).tag()),
            final(heap).retired() == old(heap).retired(),
    {
        let new_ptr = self.store_new(heap, *new);
        self.record(heap, address, seen.ptr, new_ptr);
        proof {
            lemma_registrations_kept(*old(heap), *heap, old(heap).sessions().len());
            lemma_transactions_kept(*old(heap), *heap, old(self).tag());
        }
    }

    /// Records that slot `address` is to be emptied; an empty slot records
    /// nothing.
    pub fn delete(&mut self, heap: &Heap<P>, address: Address)
        requires
            heap.wf(),
            old(self).wf_in(*heap),
            address < heap.slots().len(),
            !word_is_tagged(heap.slots()[address as int]),
            heap.slots()[address as int] != NULL ==> old(self).is_open(),
        ensures
            final(self).wf_in(*heap),
            final(self).tag() == old(self).tag(),
            heap.slots()[address as int] == NULL ==> final(self).ops() == old(self).ops()
                && final(self).status() == old(self).status(),
            heap.slots()[address as int] != NULL ==> final(self).ops() == old(self).ops().push(
                Cas { index: address, old: heap.slots()[address as int], new: NULL },
            ) && final(self).status() == State::Writing,
    {
        let prev = self.load(heap, address);
        if prev != NULL {
            self.record(heap, address, prev, NULL);
        }
    }

    /// Records that slot `address` is to hold `value`, which is stored now,
    /// in place of whatever it holds.
    pub fn overwrite(&mut self, heap: &mut Heap<P>, address: Address, value: P)
        requires
            old(heap).wf(),
            old(self).wf_in(*old(heap)),
            old(self).is_open(),
            address < old(heap).slots().len(),
            !word_is_tagged(old(heap).slots()[address as int]),
            old(heap).objects().len() < usize::MAX / 4,
        ensures
            keeps_other_transactions(*old(heap), *final(heap), old(self).tag()),
            keeps_registrations(*old(heap), *final(heap)),
            final(heap).wf(),
            final(self).wf_in(*final(heap)),
            final(self).status() == State::Writing,
            final(self).tag() == old(self).tag(),
            final(self).ops() == old(self).ops().push(
                Cas {
                    index: address,
                    old: old(heap).slots()[address as int],
                    new: object_word(old(heap).objects().len() as int) as usize,
                },
            ),
            final(heap).objects() == old(heap).objects().push(Some(value)),
            final(heap).slots() == old(heap).slots(),
            final(heap).word() == old(heap).word(),
            final(heap).pending() == old(heap).pending(),
            final(heap).counter() == old(heap).counter(),
            final(heap).descriptors() == old(heap).descriptors(),
            final(heap).sessions() == old(heap).sessions(),
            keeps_others(*old(heap), *final(heap), old(self).tag()),
            final(heap).retired() == old(heap).retired(),
    {
        let ptr = self.store_new(heap, value);
        let prev = self.load(heap, address);
        self.record(heap, address, prev, ptr);
        proof {
            lemma_registrations_kept(*old(heap), *heap, old(heap).sessions().len());
            lemma_transactions_kept(*old(heap), *heap, old(self).tag());
        }
    }

    /// Stores `value` and claims for it an empty slot: the most recently
    /// given-back address of `session` whose slot is empty, or else the first
    /// empty slot from the heap's counter on; see `picks`. The slot holds
    /// this transaction's tag until the transaction commits or withdraws.
    pub fn insert(&mut self, heap: &mut Heap<P>, session: &mut Session<P>, value: Box<P>) -> (a:
        Address)
        requires
            old(heap).wf(),
            old(self).wf_in(*old(heap)),
            old(self).is_open(),
            old(heap).objects().len() < usize::MAX / 4,
            insert_possible(old(session).free(), old(heap).counter(), old(heap).slots()),
        ensures
            keeps_other_transactions(*old(heap), *final(heap), old(self).tag()),
            keeps_registrations(*old(heap), *final(heap)),
            final(heap).wf(),
            final(self).wf_in(*final(heap)),
            final(self).status() == State::Writing,
            final(self).tag() == old(self).tag(),
            picks(
                old(session).free(),
                old(heap).counter(),
                old(heap).slots(),
                a,
                final(session).free(),
                final(heap).counter(),
            ),
            a < old(heap).slots().len(),
            final(heap).slots() == old(heap).slots().update(a as int, old(self).tag()),
            final(self).ops() == old(self).ops().push(
                Cas {
                    index: a,
                    old: old(self).tag(),
                    new: object_word(old(heap).objects().len() as int) as usize,
                },
            ),
            final(heap).objects() == old(heap).objects().push(Some(*value)),
            final(heap).word() == old(heap).word(),
            final(heap).pending() == old(heap).pending(),
            final(heap).descriptors() == old(heap).descriptors(),
            final(heap).sessions() == old(heap).sessions(),
            keeps_others(*old(heap), *final(heap), old(self).tag()),
            final(heap).retired() == old(heap).retired(),
            keeps_other_claims(old(heap).slots(), final(heap).slots(), old(self).tag()),
            final(session).deferred() == old(session).deferred(),
            final(session).status() == old(session).status(),
            final(session).clears() == old(session).clears(),
            final(session).behaviour() == old(session).behaviour(),
            final(session).id() == old(session).id(),
            old(session).registered_in(*old(heap)) ==> final(session).registered_in(*final(heap)),
            final(session).wf() == old(session).wf(),
    {
        let ghost f0 = session.free();
        let ghost c0 = heap.counter();
        let ghost s0 = heap.slots();
        let ghost ops0 = self.ops();
        let ptr = self.store_new(heap, *value);
        let ghost o1 = heap.objects();
        let ghost own1 = heap.owned();
        let ghost ret1 = heap.retired();
        let fake = self.descriptor.tagged_ptr();
        let mut address: Address = 0;
        loop
            invariant_except_break
                heap.slots() == s0,
                self.ops() == ops0,
                insert_possible(session.free(), heap.counter(), s0),
                heap.counter() > c0 ==> session.free().len() == 0,
                c0 <= heap.counter() <= s0.len() || heap.counter() == c0,
                self.status() == old(self).status(),
                forall|l: int| session.free().len() <= l < f0.len() ==> #[trigger] f0[l] < s0.len() && s0[f0[l] as int] != NULL,
                forall|i: int| c0 <= i < heap.counter() ==> #[trigger] s0[i] != NULL,
            invariant
                heap.wf(),
                self.descriptor.wf(),
                self.tag() == fake,
                fake == old(self).tag(),
                old(self).wf_in(*old(heap)),
                old(self).is_open(),
                ops0 == old(self).ops(),
                s0 == old(heap).slots(),
                heap.owned() == own1,
                heap.retired() == ret1,
                own1.dom().contains(ptr),
                own1[ptr] == fake,
                forall|k: int| 0 <= k < ops0.len() ==> (#[trigger] ops0[k]).new != ptr,
                self.status() != State::Committed ==> forall|k: int| 0 <= k < ops0.len() && (#[trigger] ops0[k]).new != NULL ==> own1.dom().contains(ops0[k].new) && own1[ops0[k].new] == fake,
                heap.objects() == o1,
                o1 == old(heap).objects().push(Some(*value)),
                ptr == object_word(old(heap).objects().len() as int),
                heap.word() == old(heap).word(),
                heap.pending() == old(heap).pending(),
                heap.descriptors() == old(heap).descriptors(),
                heap.sessions() == old(heap).sessions(),
                session.id() == old(session).id(),
                session.deferred() == old(session).deferred(),
                session.status() == old(session).status(),
                session.clears() == old(session).clears(),
                session.behaviour() == old(session).behaviour(),
                f0 == old(session).free(),
                c0 == old(heap).counter(),
                session.free().len() <= f0.len(),
                session.free() == f0.take(session.free().len() as int),
            ensures
                picks(f0, c0, s0, address, session.free(), heap.counter()),
                address < s0.len(),
                heap.slots() == s0.update(address as int, fake),
                self.ops() == ops0.push(Cas { index: address, old: fake, new: ptr }),
                self.status() == State::Writing,
            decreases session.free().len(), if heap.counter() <= s0.len() {
                s0.len() - heap.counter()
            } else {
                0
            },
        {
            let ghost free_before = session.free();
            let ghost counter_before = heap.counter();
            proof {
                heap.vec.lemma_len_fits();
                if free_before.len() > 0 {
                    let last = free_before.len() - 1;
                    if exists|j: int|
                        0 <= j < free_before.len() && #[trigger] free_before[j] < s0.len() && s0[free_before[j] as int] == NULL
                            && (forall|l: int| j < l < free_before.len() ==> #[trigger] free_before[l] < s0.len()) {
                        let j = choose|j: int|
                            0 <= j < free_before.len() && #[trigger] free_before[j] < s0.len() && s0[free_before[j] as int] == NULL
                                && (forall|l: int| j < l < free_before.len() ==> #[trigger] free_before[l] < s0.len());
                        if j < last {
                            assert(free_before[last] < s0.len());
                        }
                    } else {
                        assert(free_before[last] < s0.len());
                    }
                }
            }
            address = session.next_address(heap);
            let result = heap.vec.compare_and_swap(address, NULL, fake);
            if result.is_ok() {
                proof {
                    if free_before.len() > 0 {
                        let j = free_before.len() - 1;
                        assert(f0[j] == free_before[j]);
                        assert(session.free() =~= f0.take(j));
                        assert(heap.counter() == c0);
                    } else {
                        assert forall|l: int| 0 <= l < f0.len() implies s0[#[trigger] f0[l] as int] != NULL by {}
                        assert(session.free() =~= Seq::<Address>::empty());
                    }
                }
                self.descriptor.add(address, fake, ptr);
                break ;
            }
            proof {
                if free_before.len() > 0 {
                    let j = free_before.len() - 1;
                    assert(f0[j] == free_before[j]);
                    assert(session.free() =~= f0.take(j));
                    assert forall|l: int| 0 <= l < session.free().len() implies #[trigger] session.free()[l] == free_before[l] by {}
                    if exists|k: int|
                        0 <= k < free_before.len() && #[trigger] free_before[k] < s0.len() && s0[free_before[k] as int] == NULL
                            && (forall|l: int| k < l < free_before.len() ==> #[trigger] free_before[l] < s0.len()) {
                        let k = choose|k: int|
                            0 <= k < free_before.len() && #[trigger] free_before[k] < s0.len() && s0[free_before[k] as int] == NULL
                                && (forall|l: int| k < l < free_before.len() ==> #[trigger] free_before[l] < s0.len());
                        assert(k != j);
                        assert(session.free()[k] == free_before[k]);
                        assert forall|l: int| k < l < session.free().len() implies #[trigger] session.free()[l] < s0.len() by {
                            assert(session.free()[l] == free_before[l]);
                        }
                    } else {
                        assert forall|l: int| 0 <= l < session.free().len() implies #[trigger] session.free()[l] < s0.len() && s0[session.free()[l] as int] != NULL by {
                            assert(session.free()[l] == free_before[l]);
                        }
                    }
                } else {
                    let i = choose|i: int| counter_before <= i < s0.len() && #[trigger] s0[i] == NULL;
                    assert(i != counter_before);
                    assert(heap.counter() == counter_before + 1);
                }
            }
        }
        proof {
            let ops1 = self.ops();
            assert forall|k: int| 0 <= k < ops0.len() implies #[trigger] ops1[k] == ops0[k] by {}
            assert(ops1[ops0.len() as int] == Cas { index: address, old: fake, new: ptr });
            assert(s0[address as int] == NULL);
            let s1 = heap.slots();
            assert forall|k: int| 0 <= k < ops1.len() && #[trigger] ops1[k].old == fake implies s1[ops1[k].index as int] == fake by {
                if k < ops0.len() {
                    assert(ops0[k] == ops1[k]);
                }
            }
            assert forall|j: int, k: int|
                #![trigger ops1[j], ops1[k]]
                0 <= j < k < ops1.len() && ops1[j].old == fake && ops1[k].old == fake implies ops1[j].index != ops1[k].index by {
                assert(ops1[j] == ops0[j]);
                if k < ops0.len() {
                    assert(ops1[k] == ops0[k]);
                } else {
                    assert(s0[ops0[j].index as int] == fake);
                }
            }
            assert forall|k: int| 0 <= k < ops1.len() && (#[trigger] ops1[k]).new != NULL implies heap.owned().dom().contains(
                ops1[k].new,
            ) && heap.owned()[ops1[k].new] == fake by {
                if k < ops0.len() {
                    assert(ops1[k] == ops0[k]);
                }
            }
            assert forall|j: int, k: int|
                0 <= j < k < ops1.len() && ops1[j].new != NULL implies (#[trigger] ops1[j]).new != (#[trigger] ops1[k]).new by {
                assert(ops1[j] == ops0[j]);
                if k < ops0.len() {
                    assert(ops1[k] == ops0[k]);
                }
            }
            assert forall|i: int| 0 <= i < s1.len() && #[trigger] s1[i] == fake implies has_insert_at(ops1, fake, i) by {
                if i == address {
                    assert(ops1[ops0.len() as int].index == i);
                } else {
                    assert(s0[i] == fake);
                    assert(has_insert_at(ops0, fake, i));
                    let j = choose|j: int| #![trigger ops0[j]] 0 <= j < ops0.len() && ops0[j].old == fake && ops0[j].index == i;
                    assert(ops1[j] == ops0[j]);
                }
            }
            lemma_registrations_kept(*old(heap), *heap, old(heap).sessions().len());
            lemma_transactions_kept(*old(heap), *heap, old(self).tag());
        }
        address
    }

    /// Ends the transaction, as dropping it does. An open transaction that
    /// recorded writes is withdrawn first. A committed one gives back the
    /// slots it emptied and defers, in the current epoch, the drop of the
    /// objects it replaced; one that did not commit drops the objects it had
    /// stored and gives back the slots it expected to be empty. Then the
    /// session leaves the transaction; see `exits_as`.
    pub fn finish(self, heap: &mut Heap<P>, session: &mut Session<P>)
        requires
            old(heap).wf(),
            self.wf_in(*old(heap)),
            old(session).wf(),
            old(session).registered_in(*old(heap)),
            epoch_room(old(heap).word()),
            clears_after_finish(self, *old(session), old(heap).word()) ==> !(old(
                session,
            ).status() is Inactive),
        ensures
            keeps_other_transactions(*old(heap), *final(heap), self.tag()),
            keeps_others_registered(*old(heap), *final(heap), old(session).id()),
            keeps_slot_objects(*old(heap), *final(heap)),
            final(heap).objects().len() == old(heap).objects().len(),
            final(heap).wf(),
            final(session).registered_in(*final(heap)),
            final(session).id() == old(session).id(),
            final(heap).sessions() == old(heap).sessions().update(
                old(session).id() as int,
                final(session).status(),
            ),
            final(session).wf(),
            final(heap).counter() == old(heap).counter(),
            final(heap).retired() == old(heap).retired(),
            keeps_others(*old(heap), *final(heap), self.tag()),
            final(heap).descriptors() == old(heap).descriptors(),
            final(session).behaviour() == old(session).behaviour(),
            tag_absent(final(heap).slots(), self.tag()),
            clears_only_tag(old(heap).slots(), final(heap).slots(), self.tag()),
            final(heap).slots() == (if self.status() == State::Writing {
                release(old(heap).slots(), self.ops(), self.tag())
            } else {
                old(heap).slots()
            }),
            ({
                let committed = self.status() == State::Committed;
                let epoch = visible_epoch(old(heap).word());
                let deferred = if committed {
                    old(session).deferred() + retired(self.ops(), epoch)
                } else {
                    old(session).deferred()
                };
                let objects = if committed {
                    old(heap).objects()
                } else {
                    discard(old(heap).objects(), self.ops())
                };
                &&& final(session).free() == old(session).free() + (if committed {
                    freed_on_commit(self.ops())
                } else {
                    freed_on_abort(self.ops())
                })
                &&& exits_as(
                    old(session).status(),
                    clears_after_finish(self, *old(session), old(heap).word()),
                    old(heap).word(),
                    deferred,
                    objects,
                    old(heap).pending(),
                    *final(session),
                    *final(heap),
                )
            }),
    {
        let ghost ops = self.ops();
        let ghost f0 = session.free();
        let ghost d0 = session.deferred();
        let ghost o0 = heap.objects();
        let ghost clear0 = session.clears();
        let mut t = self;
        if !t.descriptor.complete() {
            t.cancel(heap);
        }
        proof {
            if t.status() == State::Reading {
                assert forall|i: int| 0 <= i < heap.slots().len() implies #[trigger] heap.slots()[i] != t.tag() by {
                    if heap.slots()[i] == t.tag() {
                        assert(has_insert_at(t.ops(), t.tag(), i));
                    }
                }
            }
        }
        if t.descriptor.committed() {
            t.settle_commit(heap, session);
        } else {
            t.settle_abort(heap, session);
        }
        session.exit_transaction(heap);
        proof {
            lemma_registrations_kept(*old(heap), *heap, old(session).id());
            lemma_transactions_kept(*old(heap), *heap, t.tag());
        }
    }

    /// After a commit: gives back the slots emptied and defers, in the
    /// current epoch, the drop of the objects replaced.
    fn settle_commit(&self, heap: &Heap<P>, session: &mut Session<P>)
        requires
            heap.wf(),
            self.wf_in(*heap),
            self.status() == State::Committed,
            old(session).wf(),
            old(session).registered_in(*heap),
        ensures
            final(session).wf(),
            final(session).registered_in(*heap),
            final(session).id() == old(session).id(),
            final(session).status() == old(session).status(),
            final(session).behaviour() == old(session).behaviour(),
            final(session).free() == old(session).free() + freed_on_commit(self.ops()),
            final(session).deferred() == old(session).deferred() + retired(
                self.ops(),
                visible_epoch(heap.word()),
            ),
            final(session).clears() == clears_after_finish(*self, *old(session), heap.word()),
    {
        let ghost ops = self.ops();
        let ghost f0 = session.free();
        let ghost d0 = session.deferred();
        let ghost clear0 = session.clears();
        let epoch = heap.collector.epoch();
        let operations = self.descriptor.operations();
        let n = operations.len();
        let mut k: usize = 0;
        while k < n
            invariant
                k <= n,
                n == ops.len(),
                operations@ == ops,
                ops == self.ops(),
                heap.wf(),
                self.wf_in(*heap),
                self.status() == State::Committed,
                session.wf(),
                session.registered_in(*heap),
                epoch == visible_epoch(heap.word()),
                epoch <= 0xffff,
                session.id() == old(session).id(),
                session.status() == old(session).status(),
                session.behaviour() == old(session).behaviour(),
                session.free() == f0 + freed_on_commit(ops.take(k as int)),
                session.deferred() == d0 + retired(ops.take(k as int), epoch),
                session.clears() == (clear0 && !(session.behaviour()
                    == SessionBehaviour::ClearOnExitCloseOnDelete && retired(
                    ops.take(k as int),
                    epoch,
                ).len() > 0)),
            decreases n - k,
        {
            let op = operations[k];
            proof {
                assert(ops.take(k + 1).drop_last() =~= ops.take(k as int));
                assert(ops.take(k + 1).last() == ops[k as int]);
            }
            if op.new == NULL {
                session.free_address(op.index);
            }
            if op.old != NULL && !Descriptor::<P>::is_tagged(op.old) {
                proof {
                    assert(heap.retired().contains(ops[k as int].old));
                }
                session.collect_later(epoch, op.old);
            }
            proof {
                assert(session.free() =~= f0 + freed_on_commit(ops.take(k + 1)));
                assert(session.deferred() =~= d0 + retired(ops.take(k + 1), epoch));
                assert forall|j: int| 0 <= j < session.delete@.len() implies heap.retired().contains(#[trigger] session.delete@[j].value) by {
                    if j < session.delete@.len() - 1 || !(op.old != NULL && !word_is_tagged(op.old)) {
                    }
                }
            }
            k += 1;
        }
        proof {
            assert(ops.take(n as int) =~= ops);
        }
    }

    /// When the transaction did not commit: drops the objects it stored and
    /// gives back the slots it expected to be empty.
    fn settle_abort(&self, heap: &mut Heap<P>, session: &mut Session<P>)
        requires
            old(heap).wf(),
            self.wf_in(*old(heap)),
            self.status() != State::Committed,
            old(session).wf(),
            old(session).registered_in(*old(heap)),
        ensures
            keeps_slot_objects(*old(heap), *final(heap)),
            final(heap).objects().len() == old(heap).objects().len(),
            final(heap).wf(),
            final(heap).objects() == discard(old(heap).objects(), self.ops()),
            final(heap).slots() == old(heap).slots(),
            final(heap).word() == old(heap).word(),
            final(heap).pending() == old(heap).pending(),
            final(heap).counter() == old(heap).counter(),
            final(heap).descriptors() == old(heap).descriptors(),
            final(heap).sessions() == old(heap).sessions(),
            final(heap).retired() == old(heap).retired(),
            keeps_others(*old(heap), *final(heap), self.tag()),
            final(session).wf(),
            final(session).registered_in(*final(heap)),
            final(session).id() == old(session).id(),
            final(session).status() == old(session).status(),
            final(session).behaviour() == old(session).behaviour(),
            final(session).clears() == old(session).clears(),
            final(session).deferred() == old(session).deferred(),
            final(session).free() == old(session).free() + freed_on_abort(self.ops()),
    {
        let ghost ops = self.ops();
        let ghost f0 = session.free();
        let ghost o0 = heap.objects();
        let ghost own0 = heap.owned();
        let operations = self.descriptor.operations();
        let n = operations.len();
        let mut k: usize = 0;
        while k < n
            invariant
                k <= n,
                n == ops.len(),
                operations@ == ops,
                ops == self.ops(),
                heap.wf(),
                heap.objects() == discard(o0, ops.take(k as int)),
                heap.slots() == old(heap).slots(),
                keeps_slot_objects(*old(heap), *heap),
                heap.objects().len() == old(heap).objects().len(),
                heap.word() == old(heap).word(),
                heap.pending() == old(heap).pending(),
                heap.counter() == old(heap).counter(),
                heap.descriptors() == old(heap).descriptors(),
                heap.sessions() == old(heap).sessions(),
                heap.retired() == old(heap).retired(),
                forall|j: int| k <= j < n && (#[trigger] ops[j]).new != NULL ==> heap.owned().dom().contains(ops[j].new)
                    && heap.owned()[ops[j].new] == self.tag(),
                forall|w: usize|
                    #[trigger] own0.dom().contains(w) && own0[w] != self.tag() ==> heap.owned().dom().contains(w)
                        && heap.owned()[w] == own0[w],
                forall|j: int, l: int|
                    0 <= j < l < n && ops[j].new != NULL ==> (#[trigger] ops[j]).new != (#[trigger] ops[l]).new,
                session.wf(),
                session.registered_in(*heap),
                session.id() == old(session).id(),
                session.status() == old(session).status(),
                session.behaviour() == old(session).behaviour(),
                session.clears() == old(session).clears(),
                session.deferred() == old(session).deferred(),
                session.free() == f0 + freed_on_abort(ops.take(k as int)),
            decreases n - k,
        {
            let op = operations[k];
            proof {
                assert(ops.take(k + 1).drop_last() =~= ops.take(k as int));
                assert(ops.take(k + 1).last() == ops[k as int]);
            }
            if op.new != NULL {
                let ghost before = *heap;
                heap.arena.free(op.new);
                proof {
                    heap.owned@ = before.owned@.remove(op.new);
                    lemma_drop_owned(before, *heap, op.new);
                    lemma_keeps_slot_objects_chain(*old(heap), before, *heap);
                    assert forall|j: int| k + 1 <= j < n && (#[trigger] ops[j]).new != NULL implies heap.owned().dom().contains(ops[j].new)
                        && heap.owned()[ops[j].new] == self.tag() by {
                        assert(ops[k as int].new != ops[j].new);
                    }
                }
            }
            if op.old == NULL {
                session.free_address(op.index);
            }
            proof {
                assert(session.free() =~= f0 + freed_on_abort(ops.take(k + 1)));
            }
            k += 1;
        }
        proof {
            assert(ops.take(n as int) =~= ops);
        }
    }

    /// Stores `value` as an object owned by this transaction; its word is new
    /// to the heap and to the transaction's operations.
    fn store_new(&self, heap: &mut Heap<P>, value: P) -> (w: usize)
        requires
            old(heap).wf(),
            self.wf_in(*old(heap)),
            self.is_open(),
            old(heap).objects().len() < usize::MAX / 4,
        ensures
            final(heap).wf(),
            self.wf_in(*final(heap)),
            w == object_word(old(heap).objects().len() as int),
            w != NULL,
            !word_is_tagged(w),
            final(heap).owned() == old(heap).owned().insert(w, self.tag()),
            final(heap).owned().dom().contains(w),
            final(heap).owned()[w] == self.tag(),
            forall|k: int| 0 <= k < self.ops().len() ==> (#[trigger] self.ops()[k]).new != w,
            final(heap).objects() == old(heap).objects().push(Some(value)),
            final(heap).slots() == old(heap).slots(),
            final(heap).word() == old(heap).word(),
            final(heap).pending() == old(heap).pending(),
            final(heap).counter() == old(heap).counter(),
            final(heap).descriptors() == old(heap).descriptors(),
            final(heap).sessions() == old(heap).sessions(),
            final(heap).retired() == old(heap).retired(),
            keeps_others(*old(heap), *final(heap), self.tag()),
    {
        let ghost before = *heap;
        let tag = self.descriptor.tagged_ptr();
        let w = heap.store_owned(value, tag);
        proof {
            lemma_isolation(*self, before, *heap, 0);
            assert forall|k: int| 0 <= k < self.ops().len() implies (#[trigger] self.ops()[k]).new != w by {
                if self.ops()[k].new != NULL {
                    assert(before.owned().dom().contains(self.ops()[k].new));
                }
            }
        }
        w
    }

    /// Adds an operation that expects an unclaimed word to the descriptor.
    fn record(&mut self, heap: &Heap<P>, index: Address, expected: usize, new: usize)
        requires
            heap.wf(),
            old(self).wf_in(*heap),
            old(self).is_open(),
            index < heap.slots().len(),
            !word_is_tagged(expected),
            !word_is_tagged(new),
            new != NULL ==> heap.owned().dom().contains(new) && heap.owned()[new] == old(self).tag(),
            new != NULL ==> forall|k: int|
                0 <= k < old(self).ops().len() ==> (#[trigger] old(self).ops()[k]).new != new,
        ensures
            final(self).wf_in(*heap),
            final(self).status() == State::Writing,
            final(self).tag() == old(self).tag(),
            final(self).ops() == old(self).ops().push(Cas { index, old: expected, new }),
    {
        let ghost ops = self.ops();
        self.descriptor.add(index, expected, new);
        proof {
            let ops2 = self.ops();
            assert forall|k: int| 0 <= k < ops.len() implies #[trigger] ops2[k] == ops[k] by {}
            assert(ops2[ops.len() as int] == Cas { index, old: expected, new });
            assert forall|i: int| 0 <= i < heap.slots().len() && #[trigger] heap.slots()[i] == self.tag() implies has_insert_at(ops2, self.tag(), i) by {
                assert(has_insert_at(ops, self.tag(), i));
                let j = choose|j: int| #![trigger ops[j]] 0 <= j < ops.len() && ops[j].old == self.tag() && ops[j].index == i;
                assert(ops2[j] == ops[j]);
            }
        }
    }

}


/// Committing stores new words only in slots that held this transaction's
/// tag or the word its operation expected, never in another claimed slot,
/// and the words it stores are unclaimed; when the tag was found only in
/// slots filled on insertion, no slot holds it afterwards.
proof fn lemma_commit_keeps_other_claims(s: Seq<usize>, ops: Seq<Cas>, tag: usize)
    requires
        claims_held(s, ops, tag),
        word_is_tagged(tag),
        forall|k: int|
            0 <= k < ops.len() ==> (#[trigger] ops[k]).old == tag || !word_is_tagged(ops[k].old),
        forall|k: int| 0 <= k < ops.len() ==> !word_is_tagged((#[trigger] ops[k]).new),
        first_conflict(s, ops, tag) == ops.len(),
    ensures
        keeps_other_claims(s, writes(s, ops), tag),
        tag_only_at_inserts(s, ops, tag) ==> tag_absent(writes(s, ops), tag),
{
    crate::descriptor::lemma_no_conflict(s, ops, tag, 0);
    lemma_writes_len(s, ops);
    assert forall|i: int|
        0 <= i < s.len() && word_is_tagged(s[i]) && s[i] != tag implies #[trigger] writes(s, ops)[i]
        == s[i] by {
        if has_index(ops, i) {
            let j = choose|j: int| #![trigger ops[j]] 0 <= j < ops.len() && ops[j].index == i;
            if ops[j].old != tag {
                assert(!blocks(s, ops, tag, j));
            }
        }
        lemma_writes_outside(s, ops, i);
    }
    assert forall|i: int| 0 <= i < s.len() implies !word_is_tagged(#[trigger] writes(s, ops)[i])
        || writes(s, ops)[i] == s[i] by {
        crate::descriptor::lemma_writes_from(s, ops, i);
    }
    if tag_only_at_inserts(s, ops, tag) {
        assert forall|i: int| 0 <= i < s.len() implies #[trigger] writes(s, ops)[i] != tag by {
            crate::descriptor::lemma_writes_from(s, ops, i);
            if writes(s, ops)[i] == s[i] && s[i] == tag {
                assert(has_insert_at(ops, tag, i));
                let j = choose|j: int| #![trigger ops[j]] 0 <= j < ops.len() && ops[j].old == tag && ops[j].index == i;
                assert(has_index(ops, i));
                crate::descriptor::lemma_prefix_distinct(s, ops, tag, ops.len() as int);
                crate::descriptor::lemma_writes_distinct_at(s, ops, j);
            }
        }
    }
}

/// Emptying the slots filled on insertion touches no slot claimed by another
/// transaction and stores only the empty word; when the tag was found only
/// in those slots, no slot holds it afterwards.
proof fn lemma_release_keeps_other_claims(s: Seq<usize>, ops: Seq<Cas>, tag: usize)
    requires
        claims_held(s, ops, tag),
        word_is_tagged(tag),
    ensures
        keeps_other_claims(s, release(s, ops, tag), tag),
        tag_only_at_inserts(s, ops, tag) ==> tag_absent(release(s, ops, tag), tag),
{
    lemma_release_len(s, ops, tag);
    assert forall|i: int| 0 <= i < s.len() implies #[trigger] release(s, ops, tag)[i] == (if has_insert_at(
        ops,
        tag,
        i,
    ) {
        NULL
    } else {
        s[i]
    }) by {
        lemma_release_at(s, ops, tag, i);
    }
}

/// Transactions are isolated: whatever another transaction (with a
/// different tag) does, as long as it leaves alone the slots claimed by
/// others and the objects others own (see `keeps_others`), a transaction
/// that fitted the heap before still fits it.
pub proof fn lemma_isolation<P>(t: Transaction<P>, before: Heap<P>, after: Heap<P>, other: usize)
    requires
        t.wf_in(before),
        other != t.tag(),
        keeps_others(before, after, other),
    ensures
        t.wf_in(after),
{
    if t.status() != State::Committed {
        assert forall|k: int| 0 <= k < t.ops().len() && (#[trigger] t.ops()[k]).new != NULL implies after.owned().dom().contains(
            t.ops()[k].new,
        ) && after.owned()[t.ops()[k].new] == t.tag() by {
            assert(before.owned().dom().contains(t.ops()[k].new));
        }
    }
    if t.is_open() {
        let ops = t.ops();
        assert forall|k: int| 0 <= k < ops.len() && #[trigger] ops[k].old == t.tag() implies after.slots()[ops[k].index as int] == t.tag() by {
            assert(before.slots()[ops[k].index as int] == t.tag());
        }
    }
}


/// A read after a commit gives back what the transaction wrote: when an
/// open transaction that fits `before` commits, the slot of each of its
/// operations holds that operation's new word (for an insertion, the word
/// of the stored value), and every slot it did not target is unchanged.
pub proof fn lemma_read_after_commit<P>(t: Transaction<P>, before: Heap<P>, after: Heap<P>)
    requires
        t.wf_in(before),
        t.status() == State::Writing,
        first_conflict(before.slots(), t.ops(), t.tag()) == t.ops().len(),
        after.slots() == writes(before.slots(), t.ops()),
    ensures
        forall|k: int|
            0 <= k < t.ops().len() ==> after.slots()[(#[trigger] t.ops()[k]).index as int]
                == t.ops()[k].new,
        forall|i: int|
            0 <= i < before.slots().len() && !has_index(t.ops(), i) ==> #[trigger] after.slots()[i]
                == before.slots()[i],
{
    crate::descriptor::lemma_commit_effect(before.slots(), t.ops(), t.tag());
}


/// Dropping objects that were unlinked keeps every object that a slot or a
/// pending transaction refers to.
proof fn lemma_drop_retired<P>(before: Heap<P>, after: Heap<P>, list: Seq<Delete>)
    requires
        before.objects_safe(),
        forall|k: int| 0 <= k < list.len() ==> before.retired@.contains(#[trigger] list[k].value),
        after.vec@ == before.vec@,
        after.owned@ == before.owned@,
        after.retired@ == before.retired@,
        after.arena@ == free_all(before.arena@, list),
        forall|k: int|
            0 <= k < after.collector.pending().len() ==> after.retired@.contains(
                #[trigger] after.collector.pending()[k].value,
            ),
    ensures
        after.objects_safe(),
        keeps_slot_objects(before, after),
        after.objects().len() == before.objects().len(),
{
    assert forall|v: usize| !before.retired@.contains(v) implies holds(after.arena@, v) == holds(before.arena@, v) && after.arena@.len() == before.arena@.len() by {
        assert forall|j: int| 0 <= j < list.len() implies #[trigger] list[j].value != v by {
            assert(before.retired@.contains(list[j].value));
        }
        crate::collector::lemma_free_all_keeps(before.arena@, list, v);
    }
    assert forall|j: int| 0 <= j < list.len() implies #[trigger] list[j].value != 0usize by {
        assert(before.retired@.contains(list[j].value));
    }
    crate::collector::lemma_free_all_keeps(before.arena@, list, 0usize);
    assert forall|i: int|
        0 <= i < after.vec@.len() && #[trigger] after.vec@[i] != NULL && !word_is_tagged(after.vec@[i])
        implies holds(after.arena@, after.vec@[i]) by {
        assert(before.vec@[i] == after.vec@[i]);
    }
    assert forall|w: usize| #[trigger] after.owned@.dom().contains(w) implies holds(after.arena@, w) by {
        assert(before.owned@.dom().contains(w));
    }
    assert forall|i: int|
        0 <= i < before.slots().len() && i < after.slots().len() && before.slots()[i] != NULL
            && !word_is_tagged(before.slots()[i]) && after.slots()[i] == before.slots()[i]
        implies #[trigger] after.objects()[object_index(before.slots()[i])] == before.objects()[object_index(
        before.slots()[i],
    )] by {
        let v = before.vec@[i];
        assert forall|j: int| 0 <= j < list.len() implies #[trigger] list[j].value != v by {
            assert(before.retired@.contains(list[j].value));
        }
        crate::collector::lemma_free_all_keeps(before.arena@, list, v);
    }
}


/// The unclaimed objects that committing `ops` unlinks: the non-empty,
/// unclaimed words its operations expected.
pub open spec fn unlinked(ops: Seq<Cas>) -> Set<usize> {
    Set::new(
        |w: usize|
            w != NULL && !word_is_tagged(w) && exists|k: int|
                0 <= k < ops.len() && (#[trigger] ops[k]).old == w,
    )
}

/// The objects that `ops` store: their non-empty new words.
pub open spec fn stored_words(ops: Seq<Cas>) -> Set<usize> {
    Set::new(|w: usize| w != NULL && exists|k: int| 0 <= k < ops.len() && (#[trigger] ops[k]).new == w)
}

/// Emptying or claiming slots, and nothing else, keeps every object that a
/// slot refers to.
proof fn lemma_slots_cleared<P>(before: Heap<P>, after: Heap<P>)
    requires
        before.objects_safe(),
        after.vec@.len() == before.vec@.len(),
        forall|i: int|
            0 <= i < after.vec@.len() && #[trigger] after.vec@[i] != NULL && !word_is_tagged(after.vec@[i])
                ==> after.vec@[i] == before.vec@[i],
        after.arena@ == before.arena@,
        after.owned@ == before.owned@,
        after.retired@ == before.retired@,
        after.collector.pending() == before.collector.pending(),
    ensures
        after.objects_safe(),
{
    assert forall|i: int, j: int|
        0 <= i < j < after.vec@.len() && after.vec@[i] != NULL && !word_is_tagged(after.vec@[i])
        implies #[trigger] after.vec@[i] != #[trigger] after.vec@[j] by {
        assert(after.vec@[i] == before.vec@[i]);
        if after.vec@[j] == after.vec@[i] {
            assert(after.vec@[j] == before.vec@[j]);
        }
    }
}

/// Dropping an object of a pending transaction, which no slot refers to,
/// and forgetting its owner keeps every object that a slot refers to.
proof fn lemma_drop_owned<P>(before: Heap<P>, after: Heap<P>, w: usize)
    requires
        before.objects_safe(),
        before.owned@.dom().contains(w),
        after.vec@ == before.vec@,
        after.arena@ == freed(before.arena@, w),
        after.owned@ == before.owned@.remove(w),
        after.retired@ == before.retired@,
        after.collector.pending() == before.collector.pending(),
    ensures
        after.objects_safe(),
        keeps_slot_objects(before, after),
        after.objects().len() == before.objects().len(),
{
    lemma_freed_keeps(before.arena@, w, 0);
    assert forall|i: int|
        0 <= i < after.vec@.len() && #[trigger] after.vec@[i] != NULL && !word_is_tagged(after.vec@[i])
        implies holds(after.arena@, after.vec@[i]) by {
        assert(before.vec@[i] == after.vec@[i]);
        lemma_freed_keeps(before.arena@, w, after.vec@[i]);
    }
    assert forall|v: usize| #[trigger] after.owned@.dom().contains(v) implies holds(after.arena@, v) by {
        assert(before.owned@.dom().contains(v));
        lemma_freed_keeps(before.arena@, w, v);
    }
    assert forall|i: int|
        0 <= i < before.slots().len() && i < after.slots().len() && before.slots()[i] != NULL
            && !word_is_tagged(before.slots()[i]) && after.slots()[i] == before.slots()[i]
        implies #[trigger] after.objects()[object_index(before.slots()[i])] == before.objects()[object_index(
        before.slots()[i],
    )] by {
        lemma_freed_keeps(before.arena@, w, before.vec@[i]);
    }
}

/// Withdrawing operations whose insertions still hold their claims only
/// empties slots that hold the tag.
proof fn lemma_release_clears_only_tag(s: Seq<usize>, ops: Seq<Cas>, tag: usize)
    requires
        claims_held(s, ops, tag),
    ensures
        clears_only_tag(s, release(s, ops, tag), tag),
{
    lemma_release_len(s, ops, tag);
    assert forall|i: int| 0 <= i < s.len() implies #[trigger] release(s, ops, tag)[i] == s[i] || (s[i]
        == tag && release(s, ops, tag)[i] == NULL) by {
        lemma_release_at(s, ops, tag, i);
        if has_insert_at(ops, tag, i) {
            let j = choose|j: int| #![trigger ops[j]] 0 <= j < ops.len() && ops[j].old == tag && ops[j].index == i;
        }
    }
}

/// Objects referred to by unclaimed slots keep their values across two
/// steps when the slots are the same before or after the middle state.
proof fn lemma_keeps_slot_objects_chain<P>(a: Heap<P>, b: Heap<P>, c: Heap<P>)
    requires
        keeps_slot_objects(a, b),
        keeps_slot_objects(b, c),
        b.slots() == a.slots() || b.slots() == c.slots(),
    ensures
        keeps_slot_objects(a, c),
{
    assert forall|i: int|
        0 <= i < a.slots().len() && i < c.slots().len() && a.slots()[i] != NULL
            && !word_is_tagged(a.slots()[i]) && c.slots()[i] == a.slots()[i]
        implies #[trigger] c.objects()[object_index(a.slots()[i])] == a.objects()[object_index(
        a.slots()[i],
    )] by {
        assert(b.objects()[object_index(a.slots()[i])] == a.objects()[object_index(a.slots()[i])]);
        assert(c.objects()[object_index(b.slots()[i])] == b.objects()[object_index(b.slots()[i])]);
    }
}

/// Committing installs the transaction's own objects and unlinks the
/// objects its updates replaced, keeping every object that a slot refers
/// to.
proof fn lemma_commit_safe<P>(before: Heap<P>, after: Heap<P>, ops: Seq<Cas>, tag: usize)
    requires
        before.objects_safe(),
        claims_held(before.vec@, ops, tag),
        word_is_tagged(tag),
        first_conflict(before.vec@, ops, tag) == ops.len(),
        forall|k: int|
            0 <= k < ops.len() ==> (#[trigger] ops[k]).old == tag || !word_is_tagged(ops[k].old),
        forall|k: int| 0 <= k < ops.len() ==> !word_is_tagged((#[trigger] ops[k]).new),
        forall|k: int|
            0 <= k < ops.len() && (#[trigger] ops[k]).new != NULL ==> before.owned@.dom().contains(
                ops[k].new,
            ),
        forall|j: int, k: int|
            0 <= j < k < ops.len() && ops[j].new != NULL ==> (#[trigger] ops[j]).new != (#[trigger] ops[k]).new,
        after.vec@ == writes(before.vec@, ops),
        after.arena@ == before.arena@,
        after.owned@ == before.owned@.remove_keys(stored_words(ops)),
        after.retired@ == before.retired@.union(unlinked(ops)),
        after.collector.pending() == before.collector.pending(),
    ensures
        after.objects_safe(),
{
    let s = before.vec@;
    crate::descriptor::lemma_no_conflict(s, ops, tag, 0);
    crate::descriptor::lemma_prefix_distinct(s, ops, tag, ops.len() as int);
    lemma_writes_len(s, ops);
    // each unlinked word was in the slot of its operation
    assert forall|w: usize| #[trigger] unlinked(ops).contains(w) implies exists|k: int|
        0 <= k < ops.len() && ops[k].old == w && s[ops[k].index as int] == w by {
        let k = choose|k: int| 0 <= k < ops.len() && (#[trigger] ops[k]).old == w;
        assert(ops[k].old != tag);
        assert(!blocks(s, ops, tag, k));
    }
    // the value of a slot after the commit
    assert forall|i: int| 0 <= i < s.len() implies (#[trigger] after.vec@[i] == s[i] && !has_index(ops, i))
        || exists|k: int| 0 <= k < ops.len() && ops[k].index == i && after.vec@[i] == (#[trigger] ops[k]).new by {
        if has_index(ops, i) {
            let k = choose|k: int| #![trigger ops[k]] 0 <= k < ops.len() && ops[k].index == i;
            crate::descriptor::lemma_writes_distinct_at(s, ops, k);
        } else {
            lemma_writes_outside(s, ops, i);
        }
    }
    assert forall|i: int|
        0 <= i < after.vec@.len() && #[trigger] after.vec@[i] != NULL && !word_is_tagged(after.vec@[i])
        implies holds(after.arena@, after.vec@[i]) && !after.retired@.contains(after.vec@[i])
            && !after.owned@.dom().contains(after.vec@[i]) by {
        let v = after.vec@[i];
        if has_index(ops, i) {
            let k = choose|k: int| 0 <= k < ops.len() && ops[k].index == i && after.vec@[i] == (#[trigger] ops[k]).new;
            assert(before.owned@.dom().contains(v));
            assert(stored_words(ops).contains(v));
            if unlinked(ops).contains(v) {
                let j = choose|j: int| 0 <= j < ops.len() && ops[j].old == v && s[ops[j].index as int] == v;
                assert(s[ops[j].index as int] != NULL);
            }
        } else {
            assert(v == s[i]);
            if unlinked(ops).contains(v) {
                let j = choose|j: int| 0 <= j < ops.len() && ops[j].old == v && s[ops[j].index as int] == v;
                assert(ops[j].index != i) by {
                    assert(!has_index(ops, i));
                }
                if (ops[j].index as int) < i {
                    assert(s[ops[j].index as int] != s[i]);
                } else {
                    assert(s[i] != s[ops[j].index as int]);
                }
            }
        }
    }
    assert forall|i: int, j: int|
        0 <= i < j < after.vec@.len() && after.vec@[i] != NULL && !word_is_tagged(after.vec@[i])
        implies #[trigger] after.vec@[i] != #[trigger] after.vec@[j] by {
        if after.vec@[i] == after.vec@[j] {
            let v = after.vec@[i];
            if has_index(ops, i) {
                let k = choose|k: int| 0 <= k < ops.len() && ops[k].index == i && after.vec@[i] == (#[trigger] ops[k]).new;
                if has_index(ops, j) {
                    let l = choose|l: int| 0 <= l < ops.len() && ops[l].index == j && after.vec@[j] == (#[trigger] ops[l]).new;
                    assert(k != l);
                    if k < l {
                        assert(ops[k].new != ops[l].new);
                    } else {
                        assert(ops[l].new != ops[k].new);
                    }
                } else {
                    assert(before.owned@.dom().contains(v));
                    assert(after.vec@[j] == s[j]);
                }
            } else {
                assert(v == s[i]);
                if has_index(ops, j) {
                    let l = choose|l: int| 0 <= l < ops.len() && ops[l].index == j && after.vec@[j] == (#[trigger] ops[l]).new;
                    assert(before.owned@.dom().contains(v));
                } else {
                    assert(after.vec@[j] == s[j]);
                }
            }
        }
    }
    assert forall|v: usize| #[trigger] after.owned@.dom().contains(v) implies holds(after.arena@, v)
        && !after.retired@.contains(v) by {
        assert(before.owned@.dom().contains(v));
        if unlinked(ops).contains(v) {
            let j = choose|j: int| 0 <= j < ops.len() && ops[j].old == v && s[ops[j].index as int] == v;
            assert(s[ops[j].index as int] != NULL);
        }
    }
    assert forall|v: usize| #[trigger] after.retired@.contains(v) implies is_object_word(v) && object_index(v)
        < after.arena@.len() by {
        if !before.retired@.contains(v) {
            assert(unlinked(ops).contains(v));
            let j = choose|j: int| 0 <= j < ops.len() && ops[j].old == v && s[ops[j].index as int] == v;
            assert(s[ops[j].index as int] != NULL);
        }
    }
    assert forall|k: int| 0 <= k < after.collector.pending().len() implies after.retired@.contains(
        #[trigger] after.collector.pending()[k].value,
    ) by {
        assert(before.retired@.contains(before.collector.pending()[k].value));
    }
}


/// Reclamation is safe: in a well-formed heap every non-empty unclaimed
/// slot refers to a stored object, and no object whose drop is deferred,
/// by the collector or by a session of the heap, is referred to by a slot.
pub proof fn lemma_slots_hold_objects<P>(heap: Heap<P>, s: Session<P>)
    requires
        heap.wf(),
        s.registered_in(heap),
    ensures
        forall|i: int|
            0 <= i < heap.slots().len() && #[trigger] heap.slots()[i] != NULL && !word_is_tagged(
                heap.slots()[i],
            ) ==> holds(heap.objects(), heap.slots()[i]),
        forall|i: int, k: int|
            0 <= i < heap.slots().len() && 0 <= k < s.deferred().len() ==> #[trigger] heap.slots()[i]
                != (#[trigger] s.deferred()[k]).value,
        forall|i: int, k: int|
            0 <= i < heap.slots().len() && 0 <= k < heap.pending().len() ==> #[trigger] heap.slots()[i]
                != (#[trigger] heap.pending()[k]).value,
{
    assert forall|i: int, k: int|
        0 <= i < heap.slots().len() && 0 <= k < s.deferred().len() implies #[trigger] heap.slots()[i]
        != (#[trigger] s.deferred()[k]).value by {
        let v = s.deferred()[k].value;
        assert(heap.retired@.contains(v));
        if heap.slots()[i] == v {
            assert(is_object_word(v));
        }
    }
    assert forall|i: int, k: int|
        0 <= i < heap.slots().len() && 0 <= k < heap.pending().len() implies #[trigger] heap.slots()[i]
        != (#[trigger] heap.pending()[k]).value by {
        let v = heap.pending()[k].value;
        assert(heap.retired@.contains(v));
        if heap.slots()[i] == v {
            assert(is_object_word(v));
        }
    }
}


/// A given-back address is reused first: when the address given back last
/// has an empty slot, an insertion takes exactly that address and removes
/// it from the list.
pub proof fn lemma_reuse_freed(
    f0: Seq<Address>,
    c0: usize,
    slots: Seq<usize>,
    a: Address,
    f1: Seq<Address>,
    c1: usize,
)
    requires
        f0.len() > 0,
        f0.last() < slots.len(),
        slots[f0.last() as int] == NULL,
        picks(f0, c0, slots, a, f1, c1),
    ensures
        a == f0.last(),
        f1 == f0.drop_last(),
        c1 == c0,
{
    let last = f0.len() - 1;
    if exists|j: int|
        0 <= j < f0.len() && #[trigger] f0[j] == a && slots[a as int] == NULL && (forall|l: int|
            j < l < f0.len() ==> slots[#[trigger] f0[l] as int] != NULL) && f1 == f0.take(j) && c1
            == c0 {
        let j = choose|j: int|
            0 <= j < f0.len() && #[trigger] f0[j] == a && slots[a as int] == NULL && (forall|l: int|
                j < l < f0.len() ==> slots[#[trigger] f0[l] as int] != NULL) && f1 == f0.take(j) && c1
                == c0;
        if j < last {
            assert(slots[f0[last] as int] != NULL);
        }
        assert(f0.take(j) =~= f0.drop_last());
    } else {
        assert(slots[f0[last] as int] != NULL);
    }
}


/// The address that a committed transaction gives back last is the slot of
/// its last emptying operation (entry `k` of `ops`).
proof fn lemma_last_freed(ops: Seq<Cas>, k: int)
    requires
        0 <= k < ops.len(),
        ops[k].new == NULL,
        forall|l: int| k < l < ops.len() ==> (#[trigger] ops[l]).new != NULL,
    ensures
        freed_on_commit(ops).len() > 0,
        freed_on_commit(ops).last() == ops[k].index,
    decreases ops.len(),
{
    if k < ops.len() - 1 {
        let init = ops.drop_last();
        assert(ops[ops.len() - 1].new != NULL);
        assert forall|l: int| k < l < init.len() implies (#[trigger] init[l]).new != NULL by {
            assert(init[l] == ops[l]);
        }
        assert(init[k] == ops[k]);
        lemma_last_freed(init, k);
    }
}

/// A deleted address is reused first: once a committed transaction whose
/// last emptying operation (entry `k` of `ops`) targets slot `a` has given
/// its addresses back to a session holding `free`, an insertion while that
/// slot is still empty takes `a`, drops it from the list, and leaves the
/// counter alone.
pub proof fn lemma_deleted_reused_first(
    ops: Seq<Cas>,
    k: int,
    free: Seq<Address>,
    counter: usize,
    slots: Seq<usize>,
    a: Address,
    f1: Seq<Address>,
    c1: usize,
)
    requires
        0 <= k < ops.len(),
        ops[k].new == NULL,
        forall|l: int| k < l < ops.len() ==> (#[trigger] ops[l]).new != NULL,
        ops[k].index < slots.len(),
        slots[ops[k].index as int] == NULL,
        picks(free + freed_on_commit(ops), counter, slots, a, f1, c1),
    ensures
        a == ops[k].index,
        f1 == (free + freed_on_commit(ops)).drop_last(),
        c1 == counter,
{
    lemma_last_freed(ops, k);
    let f0 = free + freed_on_commit(ops);
    assert(f0.last() == freed_on_commit(ops).last());
    lemma_reuse_freed(f0, counter, slots, a, f1, c1);
}

/// A read after a committed delete finds nothing: when an open transaction
/// that fits `before` commits, the slot of each of its emptying operations
/// (entry `k`) is empty afterwards.
pub proof fn lemma_deleted_slot_empty<P>(t: Transaction<P>, before: Heap<P>, after: Heap<P>, k: int)
    requires
        t.wf_in(before),
        t.status() == State::Writing,
        first_conflict(before.slots(), t.ops(), t.tag()) == t.ops().len(),
        after.slots() == writes(before.slots(), t.ops()),
        0 <= k < t.ops().len(),
        t.ops()[k].new == NULL,
    ensures
        t.ops()[k].index < after.slots().len(),
        after.slots()[t.ops()[k].index as int] == NULL,
{
    lemma_read_after_commit(t, before, after);
    lemma_writes_len(before.slots(), t.ops());
}

/// After `k` of the calls described in `lemma_addresses_in_order`, the
/// counter stands at `k`.
proof fn lemma_counter_steps<P>(hs: Seq<Heap<P>>, got: Seq<Address>, k: int)
    requires
        hs.len() == got.len() + 1,
        got.len() <= usize::MAX,
        hs[0].counter() == 0,
        forall|j: int|
            0 <= j < got.len() ==> #[trigger] got[j] == hs[j].counter() && hs[j + 1].counter()
                == hs[j].counter().wrapping_add(1),
        0 <= k <= got.len(),
    ensures
        hs[k].counter() == k,
    decreases k,
{
    if k > 0 {
        lemma_counter_steps(hs, got, k - 1);
        assert(got[k - 1] == hs[k - 1].counter());
    }
}

/// Addresses come out in order: on a fresh heap, `n` calls of
/// `Heap::next_address` (heap `hs[k]` before call `k`, which returned
/// `got[k]`) return 0, 1, ..., n - 1, all distinct, as long as `n` does
/// not exceed `usize::MAX`.
pub proof fn lemma_addresses_in_order<P>(hs: Seq<Heap<P>>, got: Seq<Address>)
    requires
        hs.len() == got.len() + 1,
        got.len() <= usize::MAX,
        hs[0].counter() == 0,
        forall|j: int|
            0 <= j < got.len() ==> #[trigger] got[j] == hs[j].counter() && hs[j + 1].counter()
                == hs[j].counter().wrapping_add(1),
    ensures
        forall|k: int| 0 <= k < got.len() ==> #[trigger] got[k] == k,
        forall|j: int, k: int| 0 <= j < k < got.len() ==> #[trigger] got[j] != #[trigger] got[k],
{
    assert forall|k: int| 0 <= k < got.len() implies #[trigger] got[k] == k by {
        lemma_counter_steps(hs, got, k);
    }
}

/// Sessions stay registered in a heap that keeps the records of all but
/// the session numbered `id` (every session when `id` is past the end) and
/// only adds to its record of unlinked objects.
proof fn lemma_registrations_kept<P>(before: Heap<P>, after: Heap<P>, id: nat)
    requires
        after.sessions().len() >= before.sessions().len(),
        forall|k: int|
            0 <= k < before.sessions().len() && k != id ==> #[trigger] after.sessions()[k]
                == before.sessions()[k],
        forall|w: usize| #[trigger] before.retired().contains(w) ==> after.retired().contains(w),
    ensures
        keeps_others_registered(before, after, id),
        id >= before.sessions().len() ==> keeps_registrations(before, after),
{
    assert forall|o: Session<P>| o.registered_in(before) && o.id() != id implies #[trigger] o.registered_in(after) by {
        lemma_stays_registered(o, before, after);
    }
    if id >= before.sessions().len() {
        assert forall|o: Session<P>| o.registered_in(before) implies #[trigger] o.registered_in(after) by {
            lemma_stays_registered(o, before, after);
        }
    }
}

/// Transactions other than the one with tag `tag` keep fitting a heap that
/// leaves them what `keeps_others` says; every transaction does when `tag`
/// is no transaction's tag.
proof fn lemma_transactions_kept<P>(before: Heap<P>, after: Heap<P>, tag: usize)
    requires
        keeps_others(before, after, tag),
    ensures
        keeps_other_transactions(before, after, tag),
        !word_is_tagged(tag) ==> keeps_transactions(before, after),
{
    assert forall|o: Transaction<P>| o.wf_in(before) && o.tag() != tag implies #[trigger] o.wf_in(after) by {
        lemma_isolation(o, before, after, tag);
    }
    if !word_is_tagged(tag) {
        assert forall|o: Transaction<P>| o.wf_in(before) implies #[trigger] o.wf_in(after) by {
            lemma_isolation(o, before, after, tag);
        }
    }
}

/// The epoch guard on a heap: while `reader` takes part and is not quiet
/// in the current epoch (it is inside a transaction it entered before the
/// epoch began), another session of the heap that becomes quiet or leaves
/// (see `exits_as`) does not move the epoch on; so an object retired
/// meanwhile stays deferred until `reader` has become quiet again.
pub proof fn lemma_heap_epoch_guard<P>(heap: Heap<P>, reader: Session<P>, other: Session<P>)
    requires
        heap.wf(),
        reader.registered_in(heap),
        other.registered_in(heap),
        reader.id() != other.id(),
        !(reader.status() is Inactive),
        reader.status() != SessionState::Quiet(epoch_field(heap.word())),
        !(other.status() is Inactive),
        epoch_room(heap.word()),
    ensures
        !quiet_step(heap.word(), quiet_epoch_of(other.status())).0,
        !decr_step(heap.word(), quiet_epoch_of(other.status())).0,
        epoch_field(quiet_step(heap.word(), quiet_epoch_of(other.status())).2) == epoch_field(
            heap.word(),
        ),
        epoch_field(decr_step(heap.word(), quiet_epoch_of(other.status())).2) == epoch_field(
            heap.word(),
        ),
{
    let w = heap.word();
    let qe = quiet_epoch_of(other.status());
    crate::collector::lemma_epoch_guard(
        heap.sessions(),
        w,
        reader.id() as int,
        other.id() as int,
    );
    crate::collector::lemma_exit_counted(heap.sessions(), w, other.id() as int);
    crate::collector::lemma_decr_fields(w, qe);
    crate::collector::lemma_fields_pack(w);
    if qe == Some(epoch_field(w)) {
        assert(quiet_step(w, qe).2 == w);
    } else {
        crate::collector::lemma_count_quiet_below(heap.sessions(), epoch_field(w), other.id() as int);
        crate::collector::lemma_quiet_fields(w, qe);
    }
}

/// A session stays registered in a heap that keeps its record of the
/// session and only adds to its record of unlinked objects.
pub proof fn lemma_stays_registered<P>(s: Session<P>, before: Heap<P>, after: Heap<P>)
    requires
        s.registered_in(before),
        s.id() < after.sessions().len(),
        after.sessions()[s.id() as int] == before.sessions()[s.id() as int],
        forall|w: usize| #[trigger] before.retired().contains(w) ==> after.retired().contains(w),
    ensures
        s.registered_in(after),
{
}

} // verus!
