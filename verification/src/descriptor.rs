use vstd::prelude::*;

use crate::slots::AtomicPtrVec;

verus! {

/// The word of an empty slot.
pub const NULL: usize = 0;

/// One compare-and-swap that a transaction asks for: slot `index` is to go
/// from `old` to `new`.
#[derive(Clone, Copy)]
pub struct Cas {
    pub index: usize,
    pub old: usize,
    pub new: usize,
}

/// The lifecycle of a descriptor.
#[derive(PartialEq, Eq, Structural, Clone, Copy)]
pub enum State {
    Reading,
    Writing,
    Preparing,
    Committing,
    Committed,
    Cancelled,
    Conflicted,
}

/// The number under which a descriptor stores a state.
pub open spec fn state_code(s: State) -> isize {
    match s {
        State::Reading => 0,
        State::Writing => 1,
        State::Preparing => 2,
        State::Committing => 3,
        State::Committed => 4,
        State::Cancelled => -1isize,
        State::Conflicted => -2isize,
    }
}

/// The numbers that stand for a state.
pub open spec fn valid_code(c: isize) -> bool {
    -2 <= c <= 4
}

/// The state that a stored number stands for.
pub open spec fn state_of_code(c: isize) -> State {
    if c == 0 {
        State::Reading
    } else if c == 1 {
        State::Writing
    } else if c == 2 {
        State::Preparing
    } else if c == 3 {
        State::Committing
    } else if c == 4 {
        State::Committed
    } else if c == -1 {
        State::Cancelled
    } else {
        State::Conflicted
    }
}

/// Decoding a stored state gives back the state that was stored.
pub proof fn lemma_state_code_roundtrip(s: State)
    ensures
        valid_code(state_code(s)),
        state_of_code(state_code(s)) == s,
{
}

impl State {
    /// The number under which a descriptor stores this state.
    pub fn code(self) -> (c: isize)
        ensures
            c == state_code(self),
    {
        match self {
            State::Reading => 0,
            State::Writing => 1,
            State::Preparing => 2,
            State::Committing => 3,
            State::Committed => 4,
            State::Cancelled => -1,
            State::Conflicted => -2,
        }
    }
}

/// A word claimed by a descriptor has its low bit set.
pub open spec fn word_is_tagged(w: usize) -> bool {
    w % 2 == 1
}

/// Some operation of `ops` targets slot `i`.
pub open spec fn has_index(ops: Seq<Cas>, i: int) -> bool {
    exists|j: int| #![trigger ops[j]] 0 <= j < ops.len() && ops[j].index == i
}

/// Some operation of `ops` that fills a claimed slot (its `old` is `fake`)
/// targets slot `i`.
pub open spec fn has_insert_at(ops: Seq<Cas>, fake: usize, i: int) -> bool {
    exists|j: int| #![trigger ops[j]] 0 <= j < ops.len() && ops[j].old == fake && ops[j].index == i
}

/// Every operation targets a slot below `n`.
pub open spec fn indices_below(ops: Seq<Cas>, n: int) -> bool {
    forall|k: int| 0 <= k < ops.len() ==> #[trigger] ops[k].index < n
}

/// What a descriptor with tag `fake` needs of the slots before it applies
/// `ops`: every slot it targets exists, every slot it filled on insertion
/// still holds its tag, and no two insertions share a slot.
pub open spec fn claims_held(s: Seq<usize>, ops: Seq<Cas>, fake: usize) -> bool {
    &&& indices_below(ops, s.len() as int)
    &&& forall|k: int|
        0 <= k < ops.len() && #[trigger] ops[k].old == fake ==> s[ops[k].index as int] == fake
    &&& forall|j: int, k: int|
        #![trigger ops[j], ops[k]]
        0 <= j < k < ops.len() && ops[j].old == fake && ops[k].old == fake ==> ops[j].index
            != ops[k].index
}

/// Operation `k` cannot take its slot: it expects a word that the slot does
/// not hold, or an earlier operation has already taken that slot.
pub open spec fn blocks(s: Seq<usize>, ops: Seq<Cas>, fake: usize, k: int) -> bool {
    &&& ops[k].old != fake
    &&& (s[ops[k].index as int] != ops[k].old || has_index(ops.take(k), ops[k].index as int))
}

/// The first operation at or after `k` that blocks, or the number of
/// operations when none does.
pub open spec fn conflict_from(s: Seq<usize>, ops: Seq<Cas>, fake: usize, k: nat) -> nat
    decreases ops.len() - k,
{
    if k >= ops.len() {
        ops.len()
    } else if blocks(s, ops, fake, k as int) {
        k
    } else {
        conflict_from(s, ops, fake, k + 1)
    }
}

/// The first operation that blocks, or the number of operations when none
/// does.
pub open spec fn first_conflict(s: Seq<usize>, ops: Seq<Cas>, fake: usize) -> nat {
    conflict_from(s, ops, fake, 0)
}

/// When the search for a blocking operation from `k` finds none, no
/// operation at or after `k` blocks.
pub proof fn lemma_no_conflict(s: Seq<usize>, ops: Seq<Cas>, fake: usize, k: nat)
    requires
        conflict_from(s, ops, fake, k) == ops.len(),
    ensures
        forall|j: int| k <= j < ops.len() ==> !blocks(s, ops, fake, j),
    decreases ops.len() - k,
{
    if k < ops.len() {
        lemma_no_conflict(s, ops, fake, k + 1);
    }
}

/// The slots after each targeted slot has been set to `fake`.
pub open spec fn claim(s: Seq<usize>, ops: Seq<Cas>, fake: usize) -> Seq<usize>
    decreases ops.len(),
{
    if ops.len() == 0 {
        s
    } else {
        claim(s, ops.drop_last(), fake).update(ops.last().index as int, fake)
    }
}

/// The slots after each operation, in order, has stored its `new` word.
pub open spec fn writes(s: Seq<usize>, ops: Seq<Cas>) -> Seq<usize>
    decreases ops.len(),
{
    if ops.len() == 0 {
        s
    } else {
        writes(s, ops.drop_last()).update(ops.last().index as int, ops.last().new)
    }
}

/// The slots after each slot filled on insertion has been emptied again.
pub open spec fn release(s: Seq<usize>, ops: Seq<Cas>, fake: usize) -> Seq<usize>
    decreases ops.len(),
{
    if ops.len() == 0 {
        s
    } else if ops.last().old == fake {
        release(s, ops.drop_last(), fake).update(ops.last().index as int, NULL)
    } else {
        release(s, ops.drop_last(), fake)
    }
}

proof fn lemma_drop_last_index(ops: Seq<Cas>)
    requires
        ops.len() > 0,
    ensures
        forall|j: int| 0 <= j < ops.len() - 1 ==> #[trigger] ops.drop_last()[j] == ops[j],
        ops.drop_last().len() == ops.len() - 1,
{
}

/// Slot `i` after `claim` is `fake` exactly where some operation targets it.
pub proof fn lemma_claim_at(s: Seq<usize>, ops: Seq<Cas>, fake: usize, i: int)
    requires
        indices_below(ops, s.len() as int),
        0 <= i < s.len(),
    ensures
        claim(s, ops, fake).len() == s.len(),
        claim(s, ops, fake)[i] == (if has_index(ops, i) {
            fake
        } else {
            s[i]
        }),
    decreases ops.len(),
{
    if ops.len() > 0 {
        let init = ops.drop_last();
        lemma_drop_last_index(ops);
        lemma_claim_at(s, init, fake, i);
        if has_index(init, i) {
            let j = choose|j: int| #![trigger init[j]] 0 <= j < init.len() && init[j].index == i;
            assert(ops[j].index == i);
        }
        if has_index(ops, i) && ops.last().index != i {
            let j = choose|j: int| #![trigger ops[j]] 0 <= j < ops.len() && ops[j].index == i;
            assert(init[j].index == i);
        }
    }
}

/// `claim` keeps the number of slots.
pub proof fn lemma_claim_len(s: Seq<usize>, ops: Seq<Cas>, fake: usize)
    requires
        indices_below(ops, s.len() as int),
    ensures
        claim(s, ops, fake).len() == s.len(),
    decreases ops.len(),
{
    if ops.len() > 0 {
        lemma_drop_last_index(ops);
        lemma_claim_len(s, ops.drop_last(), fake);
    }
}

/// `release` keeps the number of slots.
pub proof fn lemma_release_len(s: Seq<usize>, ops: Seq<Cas>, fake: usize)
    requires
        indices_below(ops, s.len() as int),
    ensures
        release(s, ops, fake).len() == s.len(),
    decreases ops.len(),
{
    if ops.len() > 0 {
        lemma_drop_last_index(ops);
        lemma_release_len(s, ops.drop_last(), fake);
    }
}

/// A slot that no operation targets keeps its word under `writes`.
pub proof fn lemma_writes_outside(t: Seq<usize>, ops: Seq<Cas>, i: int)
    requires
        indices_below(ops, t.len() as int),
        0 <= i < t.len(),
        !has_index(ops, i),
    ensures
        writes(t, ops).len() == t.len(),
        writes(t, ops)[i] == t[i],
    decreases ops.len(),
{
    if ops.len() > 0 {
        let init = ops.drop_last();
        lemma_drop_last_index(ops);
        if has_index(init, i) {
            let j = choose|j: int| #![trigger init[j]] 0 <= j < init.len() && init[j].index == i;
            assert(ops[j].index == i);
        }
        lemma_writes_outside(t, init, i);
        assert(ops[ops.len() - 1].index != i);
    }
}

/// Every slot after `writes` holds its earlier word or the new word of some
/// operation.
pub proof fn lemma_writes_from(t: Seq<usize>, ops: Seq<Cas>, i: int)
    requires
        indices_below(ops, t.len() as int),
        0 <= i < t.len(),
    ensures
        writes(t, ops)[i] == t[i] || exists|k: int|
            0 <= k < ops.len() && writes(t, ops)[i] == (#[trigger] ops[k]).new,
    decreases ops.len(),
{
    if ops.len() > 0 {
        let init = ops.drop_last();
        lemma_drop_last_index(ops);
        lemma_writes_len(t, init);
        lemma_writes_from(t, init, i);
        if ops.last().index != i {
            if writes(t, init)[i] != t[i] {
                let k = choose|k: int| 0 <= k < init.len() && writes(t, init)[i] == (#[trigger] init[k]).new;
                assert(ops[k] == init[k]);
            }
        } else {
            assert(writes(t, ops)[i] == ops[ops.len() - 1].new);
        }
    }
}

/// `writes` gives the same length whatever the operations.
pub proof fn lemma_writes_len(t: Seq<usize>, ops: Seq<Cas>)
    requires
        indices_below(ops, t.len() as int),
    ensures
        writes(t, ops).len() == t.len(),
    decreases ops.len(),
{
    if ops.len() > 0 {
        lemma_drop_last_index(ops);
        lemma_writes_len(t, ops.drop_last());
    }
}

/// A slot that some operation targets ends up with a word that depends on
/// the operations alone.
pub proof fn lemma_writes_inside(t: Seq<usize>, u: Seq<usize>, ops: Seq<Cas>, i: int)
    requires
        t.len() == u.len(),
        indices_below(ops, t.len() as int),
        0 <= i < t.len(),
        has_index(ops, i),
    ensures
        writes(t, ops)[i] == writes(u, ops)[i],
    decreases ops.len(),
{
    let init = ops.drop_last();
    lemma_drop_last_index(ops);
    lemma_writes_len(t, init);
    lemma_writes_len(u, init);
    if ops.last().index != i {
        let j = choose|j: int| #![trigger ops[j]] 0 <= j < ops.len() && ops[j].index == i;
        assert(init[j].index == i);
        lemma_writes_inside(t, u, init, i);
    }
}

/// Slot `i` after `release` is empty exactly where an insertion targets it.
pub proof fn lemma_release_at(s: Seq<usize>, ops: Seq<Cas>, fake: usize, i: int)
    requires
        indices_below(ops, s.len() as int),
        0 <= i < s.len(),
    ensures
        release(s, ops, fake).len() == s.len(),
        release(s, ops, fake)[i] == (if has_insert_at(ops, fake, i) {
            NULL
        } else {
            s[i]
        }),
    decreases ops.len(),
{
    if ops.len() > 0 {
        let init = ops.drop_last();
        lemma_drop_last_index(ops);
        lemma_release_at(s, init, fake, i);
        if has_insert_at(init, fake, i) {
            let j = choose|j: int|
                #![trigger init[j]]
                0 <= j < init.len() && init[j].old == fake && init[j].index == i;
            assert(ops[j].index == i && ops[j].old == fake);
        }
        if has_insert_at(ops, fake, i) && !(ops.last().index == i && ops.last().old == fake) {
            let j = choose|j: int|
                #![trigger ops[j]]
                0 <= j < ops.len() && ops[j].old == fake && ops[j].index == i;
            assert(init[j].index == i && init[j].old == fake);
        }
    }
}

/// Before the first blocking operation, no two operations share a slot.
pub proof fn lemma_prefix_distinct(s: Seq<usize>, ops: Seq<Cas>, fake: usize, c: int)
    requires
        claims_held(s, ops, fake),
        0 <= c <= ops.len(),
        forall|j: int| 0 <= j < c ==> !blocks(s, ops, fake, j),
    ensures
        forall|j: int, k: int|
            #![trigger ops[j], ops[k]]
            0 <= j < k < c ==> ops[j].index != ops[k].index,
{
    assert forall|j: int, k: int|
        #![trigger ops[j], ops[k]]
        0 <= j < k < c implies ops[j].index != ops[k].index by {
        if ops[k].old != fake {
            assert(!blocks(s, ops, fake, k));
            assert(ops.take(k)[j] == ops[j]);
        } else if ops[j].old != fake {
            assert(!blocks(s, ops, fake, j));
            assert(s[ops[k].index as int] == fake);
        }
    }
}

/// Taking one more operation appends it.
proof fn lemma_take_step(ops: Seq<Cas>, k: int)
    requires
        0 <= k < ops.len(),
    ensures
        ops.take(k + 1).drop_last() == ops.take(k),
        ops.take(k + 1).last() == ops[k],
        ops.take(k + 1).len() == k + 1,
{
    assert(ops.take(k + 1).drop_last() =~= ops.take(k));
}

/// A prefix of the operations still targets slots below `n`.
proof fn lemma_take_indices(ops: Seq<Cas>, k: int, n: int)
    requires
        indices_below(ops, n),
        0 <= k <= ops.len(),
    ensures
        indices_below(ops.take(k), n),
{
    assert forall|j: int| 0 <= j < ops.take(k).len() implies #[trigger] ops.take(k)[j].index
        < n by {
        assert(ops.take(k)[j] == ops[j]);
    }
}

/// When no operation at or after `k` blocks, the search from `k` finds none.
proof fn lemma_all_clear(s: Seq<usize>, ops: Seq<Cas>, fake: usize, k: nat)
    requires
        forall|j: int| k <= j < ops.len() ==> !blocks(s, ops, fake, j),
    ensures
        conflict_from(s, ops, fake, k) == ops.len(),
    decreases ops.len() - k,
{
    if k < ops.len() {
        lemma_all_clear(s, ops, fake, k + 1);
    }
}

/// With distinct targets, the slot of operation `k` ends up with its new
/// word.
pub proof fn lemma_writes_distinct_at(t: Seq<usize>, ops: Seq<Cas>, k: int)
    requires
        indices_below(ops, t.len() as int),
        0 <= k < ops.len(),
        forall|i: int, j: int|
            #![trigger ops[i], ops[j]]
            0 <= i < j < ops.len() ==> ops[i].index != ops[j].index,
    ensures
        writes(t, ops)[ops[k].index as int] == ops[k].new,
    decreases ops.len(),
{
    let init = ops.drop_last();
    lemma_drop_last_index(ops);
    lemma_writes_len(t, init);
    if k < ops.len() - 1 {
        assert(ops[k].index != ops[ops.len() - 1].index);
        assert forall|i: int, j: int|
            #![trigger init[i], init[j]]
            0 <= i < j < init.len() implies init[i].index != init[j].index by {
            assert(ops[i].index != ops[j].index);
        }
        lemma_writes_distinct_at(t, init, k);
    }
}

/// A transaction commits exactly when each of its updates finds the word it
/// expects and no two of its operations target the same slot.
pub proof fn lemma_commits_iff(s: Seq<usize>, ops: Seq<Cas>, fake: usize)
    requires
        claims_held(s, ops, fake),
    ensures
        (first_conflict(s, ops, fake) == ops.len()) <==> ((forall|k: int|
            0 <= k < ops.len() && #[trigger] ops[k].old != fake ==> s[ops[k].index as int]
                == ops[k].old) && (forall|j: int, k: int|
            #![trigger ops[j], ops[k]]
            0 <= j < k < ops.len() ==> ops[j].index != ops[k].index)),
{
    if first_conflict(s, ops, fake) == ops.len() {
        lemma_no_conflict(s, ops, fake, 0);
        lemma_prefix_distinct(s, ops, fake, ops.len() as int);
        assert forall|k: int| 0 <= k < ops.len() && #[trigger] ops[k].old != fake implies s[ops[k].index as int]
            == ops[k].old by {
            assert(!blocks(s, ops, fake, k));
        }
    }
    if (forall|k: int|
        0 <= k < ops.len() && #[trigger] ops[k].old != fake ==> s[ops[k].index as int]
            == ops[k].old) && (forall|j: int, k: int|
        #![trigger ops[j], ops[k]]
        0 <= j < k < ops.len() ==> ops[j].index != ops[k].index) {
        assert forall|j: int| 0 <= j < ops.len() implies !blocks(s, ops, fake, j) by {
            if has_index(ops.take(j), ops[j].index as int) {
                let i = choose|i: int|
                    #![trigger ops.take(j)[i]]
                    0 <= i < ops.take(j).len() && ops.take(j)[i].index == ops[j].index;
                assert(ops.take(j)[i] == ops[i]);
            }
        }
        lemma_all_clear(s, ops, fake, 0);
    }
}

/// After a commit, the slot of each operation holds that operation's new
/// word, and every slot that no operation targets is unchanged.
pub proof fn lemma_commit_effect(s: Seq<usize>, ops: Seq<Cas>, fake: usize)
    requires
        claims_held(s, ops, fake),
        first_conflict(s, ops, fake) == ops.len(),
    ensures
        writes(s, ops).len() == s.len(),
        forall|k: int| 0 <= k < ops.len() ==> writes(s, ops)[(#[trigger] ops[k]).index as int] == ops[k].new,
        forall|i: int| 0 <= i < s.len() && !has_index(ops, i) ==> #[trigger] writes(s, ops)[i] == s[i],
{
    lemma_writes_len(s, ops);
    lemma_no_conflict(s, ops, fake, 0);
    lemma_prefix_distinct(s, ops, fake, ops.len() as int);
    assert forall|k: int| 0 <= k < ops.len() implies writes(s, ops)[(#[trigger] ops[k]).index as int]
        == ops[k].new by {
        lemma_writes_distinct_at(s, ops, k);
    }
    assert forall|i: int| 0 <= i < s.len() && !has_index(ops, i) implies #[trigger] writes(s, ops)[i]
        == s[i] by {
        lemma_writes_outside(s, ops, i);
    }
}

/// After a conflict, every slot filled on insertion is empty again and
/// every other slot is unchanged.
pub proof fn lemma_conflict_effect(s: Seq<usize>, ops: Seq<Cas>, fake: usize)
    requires
        claims_held(s, ops, fake),
        first_conflict(s, ops, fake) < ops.len(),
    ensures
        ({
            let r = release(s, ops, fake);
            &&& r.len() == s.len()
            &&& forall|k: int| 0 <= k < ops.len() && (#[trigger] ops[k]).old == fake ==> r[ops[k].index as int] == NULL
            &&& forall|i: int| 0 <= i < s.len() && !has_insert_at(ops, fake, i) ==> #[trigger] r[i] == s[i]
        }),
{
    lemma_release_len(s, ops, fake);
    assert forall|k: int| 0 <= k < ops.len() && (#[trigger] ops[k]).old == fake implies release(s, ops, fake)[ops[k].index as int] == NULL by {
        lemma_release_at(s, ops, fake, ops[k].index as int);
    }
    assert forall|i: int| 0 <= i < s.len() && !has_insert_at(ops, fake, i) implies #[trigger] release(s, ops, fake)[i] == s[i] by {
        lemma_release_at(s, ops, fake, i);
    }
}

/// Withdrawing undoes insertions: when the slots differ from `orig` only in
/// that the slots filled on insertion, empty in `orig`, hold the tag,
/// releasing them gives back `orig`.
pub proof fn lemma_cancel_undoes_inserts(orig: Seq<usize>, s: Seq<usize>, ops: Seq<Cas>, fake: usize)
    requires
        indices_below(ops, s.len() as int),
        orig.len() == s.len(),
        forall|i: int|
            0 <= i < s.len() ==> (if has_insert_at(ops, fake, i) {
                #[trigger] orig[i] == NULL && s[i] == fake
            } else {
                s[i] == orig[i]
            }),
    ensures
        release(s, ops, fake) == orig,
{
    lemma_release_len(s, ops, fake);
    assert forall|i: int| 0 <= i < s.len() implies #[trigger] release(s, ops, fake)[i] == orig[i] by {
        lemma_release_at(s, ops, fake, i);
        assert(has_insert_at(ops, fake, i) ==> orig[i] == NULL);
    }
    assert(release(s, ops, fake) =~= orig);
}

/// A descriptor: the list of compare-and-swaps of one transaction, with the
/// state of its attempt to apply them all at once.
pub struct Descriptor<T> {
    state: isize,
    operations: Vec<Cas>,
    address: usize,
    _marker: core::marker::PhantomData<T>,
}

impl<T> Descriptor<T> {
    /// The stored state is a valid one and the descriptor's location is even.
    pub closed spec fn wf(&self) -> bool {
        &&& valid_code(self.state)
        &&& self.address % 2 == 0
        &&& self.address < usize::MAX
    }

    /// The current state.
    pub closed spec fn status(&self) -> State {
        state_of_code(self.state)
    }

    /// The number under which the state is stored.
    pub closed spec fn stored_code(&self) -> isize {
        self.state
    }

    /// The stored state always decodes: a descriptor that `new` built and
    /// only its methods changed keeps a stored number that stands for one of
    /// the seven states, and that number is the state's code.
    pub proof fn lemma_state_decodes(&self)
        requires
            self.wf(),
        ensures
            valid_code(self.stored_code()),
            state_code(self.status()) == self.stored_code(),
    {
    }

    /// The operations, in the order they were added.
    pub closed spec fn ops(&self) -> Seq<Cas> {
        self.operations@
    }

    /// The word that marks a slot as claimed by this descriptor.
    pub closed spec fn tag(&self) -> usize {
        (self.address + 1) as usize
    }

    /// A descriptor in the `Reading` state, with no operations, located at
    /// the even word `address`.
    pub fn new(address: usize) -> (d: Descriptor<T>)
        requires
            address % 2 == 0,
            address < usize::MAX,
        ensures
            d.wf(),
            d.status() == State::Reading,
            d.ops() == Seq::<Cas>::empty(),
            d.tag() == address + 1,
    {
        let vec: Vec<Cas> = Vec::with_capacity(8);
        Descriptor {
            state: State::Reading.code(),
            operations: vec,
            address,
            _marker: core::marker::PhantomData,
        }
    }

    /// The operations, in the order they were added.
    pub fn operations(&self) -> (r: &Vec<Cas>)
        ensures
            r@ == self.ops(),
    {
        &self.operations
    }

    /// The current state.
    pub fn state(&self) -> (s: State)
        requires
            self.wf(),
        ensures
            s == self.status(),
            state_code(s) == self.stored_code(),
    {
        let i = self.state;
        if i == 0 {
            State::Reading
        } else if i == 1 {
            State::Writing
        } else if i == 2 {
            State::Preparing
        } else if i == 3 {
            State::Committing
        } else if i == 4 {
            State::Committed
        } else if i == -1 {
            State::Cancelled
        } else {
            State::Conflicted
        }
    }

    /// Moves to `state`.
    pub fn set_state(&mut self, state: State)
        requires
            old(self).wf(),
        ensures
            final(self).wf(),
            final(self).status() == state,
            final(self).ops() == old(self).ops(),
            final(self).tag() == old(self).tag(),
    {
        proof {
            lemma_state_code_roundtrip(state);
        }
        self.state = state.code();
    }

    /// Records a compare-and-swap of slot `index` from `expected` to `new`;
    /// a `Reading` descriptor becomes `Writing`.
    pub fn add(&mut self, index: usize, expected: usize, new: usize)
        requires
            old(self).wf(),
            old(self).status() == State::Reading || old(self).status() == State::Writing,
        ensures
            final(self).wf(),
            final(self).status() == State::Writing,
            final(self).ops() == old(self).ops().push(Cas { index, old: expected, new }),
            final(self).tag() == old(self).tag(),
    {
        if self.state() == State::Reading {
            self.set_state(State::Writing);
        }
        self.operations.push(Cas { index, old: expected, new });
    }

    /// The descriptor has nothing left to do: it never wrote, or it has
    /// committed, been cancelled or met a conflict.
    pub fn complete(&self) -> (r: bool)
        requires
            self.wf(),
        ensures
            r == (self.status() == State::Reading || self.status() == State::Committed
                || self.status() == State::Cancelled || self.status() == State::Conflicted),
    {
        let state = self.state();
        state == State::Reading || state == State::Committed || state == State::Cancelled
            || state == State::Conflicted
    }

    /// The descriptor has committed.
    pub fn committed(&self) -> (r: bool)
        requires
            self.wf(),
        ensures
            r == (self.status() == State::Committed),
    {
        self.state() == State::Committed
    }

    /// The word that marks a slot as claimed by this descriptor: its location
    /// with the low bit set.
    pub fn tagged_ptr(&self) -> (w: usize)
        requires
            self.wf(),
        ensures
            w == self.tag(),
            word_is_tagged(w),
    {
        let a = self.address;
        assert((a | 1usize) == (a + 1) as usize && (a | 1usize) % 2 == 1 && a < (a | 1usize))
            by (bit_vector)
            requires
                a % 2 == 0,
        ;
        a | 1
    }

    /// Whether `ptr` is a claimed word.
    pub fn is_tagged(ptr: usize) -> (r: bool)
        ensures
            r == word_is_tagged(ptr),
    {
        assert(((ptr & 1usize) == 1usize) == (ptr % 2 == 1)) by (bit_vector);
        ptr & 1 == 1
    }

    /// The location that a claimed word stands for: `other` with its low bit
    /// cleared.
    pub fn untag(other: usize) -> (r: usize)
        ensures
            r == other - other % 2,
    {
        assert((other & !1usize) == (other - other % 2) as usize) by (bit_vector);
        other & !1
    }

    /// Applies all operations at once, or none.
    ///
    /// A `Writing` descriptor first claims, in order, the slot of each
    /// operation by swapping its tag in for the expected word (a slot it
    /// filled on insertion already holds the tag). If every claim succeeds, it
    /// stores each operation's new word and commits. If one fails, it gives
    /// back, in reverse order, the slots it claimed, empties every slot it
    /// filled on insertion, and records the conflict.
    pub fn apply(&mut self, vec: &mut AtomicPtrVec<T>) -> (r: bool)
        requires
            old(self).wf(),
            old(vec).wf(),
            old(self).status() != State::Preparing,
            old(self).status() != State::Committing,
            old(self).status() == State::Writing ==> claims_held(
                old(vec)@,
                old(self).ops(),
                old(self).tag(),
            ),
        ensures
            final(self).wf(),
            final(vec).wf(),
            final(self).ops() == old(self).ops(),
            final(self).tag() == old(self).tag(),
            old(self).status() == State::Reading ==> r && final(self).status() == State::Committed
                && final(vec)@ == old(vec)@,
            old(self).status() == State::Committed ==> r && final(self).status()
                == State::Committed && final(vec)@ == old(vec)@,
            old(self).status() == State::Cancelled || old(self).status() == State::Conflicted ==> !r
                && final(self).status() == old(self).status() && final(vec)@ == old(vec)@,
            old(self).status() == State::Writing ==> ({
                let c = first_conflict(old(vec)@, old(self).ops(), old(self).tag());
                &&& r == (c == old(self).ops().len())
                &&& r ==> final(self).status() == State::Committed && final(vec)@ == writes(
                    old(vec)@,
                    old(self).ops(),
                )
                &&& !r ==> final(self).status() == State::Conflicted && final(vec)@ == release(
                    old(vec)@,
                    old(self).ops(),
                    old(self).tag(),
                )
            }),
    {
        let ghost s0 = vec@;
        let ghost ops = self.ops();
        let state = self.state();
        if state == State::Reading {
            self.set_state(State::Committed);
            true
        } else if state == State::Writing {
            let mut conflict = false;
            let mut changed: usize = 0;
            self.set_state(State::Preparing);
            let fake = self.tagged_ptr();
            let n = self.operations.len();
            // claim each slot in turn
            while changed < n
                invariant_except_break
                    !conflict,
                invariant
                    vec.wf(),
                    self.wf(),
                    self.ops() == ops,
                    self.tag() == fake,
                    n == ops.len(),
                    s0.len() == vec@.len(),
                    changed <= n,
                    claims_held(s0, ops, fake),
                    vec@ == claim(s0, ops.take(changed as int), fake),
                    conflict_from(s0, ops, fake, 0) == conflict_from(s0, ops, fake, changed as nat),
                    forall|j: int| 0 <= j < changed ==> !blocks(s0, ops, fake, j),
                ensures
                    conflict ==> changed < n && blocks(s0, ops, fake, changed as int),
                    !conflict ==> changed == n,
                decreases n - changed,
            {
                let x = self.operations[changed];
                proof {
                    lemma_take_step(ops, changed as int);
                    lemma_take_indices(ops, changed as int, s0.len() as int);
                    lemma_claim_at(s0, ops.take(changed as int), fake, x.index as int);
                }
                if x.old != fake {
                    let result = vec.compare_and_swap(x.index, x.old, fake);
                    if result.is_ok() {
                        changed += 1;
                    } else {
                        conflict = true;
                        break ;
                    }
                } else {
                    assert(vec@.update(x.index as int, fake) =~= vec@);
                    changed += 1;
                }
            }
            if conflict {
                self.set_state(State::Conflicted);
                let c_exec = changed;
                let ghost c = changed as int;
                let ghost target = release(s0, ops.take(c), fake);
                proof {
                    lemma_prefix_distinct(s0, ops, fake, c);
                    lemma_take_indices(ops, c, s0.len() as int);
                    lemma_release_len(s0, ops.take(c), fake);
                    assert forall|i: int| 0 <= i < s0.len() implies #[trigger] claim(
                        s0,
                        ops.take(c),
                        fake,
                    )[i] == claim(target, ops.take(c), fake)[i] by {
                        lemma_claim_at(s0, ops.take(c), fake, i);
                        lemma_claim_at(target, ops.take(c), fake, i);
                        lemma_release_at(s0, ops.take(c), fake, i);
                        if has_insert_at(ops.take(c), fake, i) {
                            let j = choose|j: int|
                                #![trigger ops.take(c)[j]]
                                0 <= j < ops.take(c).len() && ops.take(c)[j].old == fake
                                    && ops.take(c)[j].index == i;
                            assert(has_index(ops.take(c), i));
                        }
                    }
                    lemma_claim_len(s0, ops.take(c), fake);
                    lemma_claim_len(target, ops.take(c), fake);
                    assert(claim(s0, ops.take(c), fake) =~= claim(target, ops.take(c), fake));
                }
                // give back the claimed slots, last first
                while changed > 0
                    invariant
                        vec.wf(),
                        self.wf(),
                        self.ops() == ops,
                        self.tag() == fake,
                        0 <= changed <= c <= n,
                        n == ops.len(),
                        s0.len() == vec@.len(),
                        target.len() == s0.len(),
                        claims_held(s0, ops, fake),
                        forall|j: int| 0 <= j < c ==> !blocks(s0, ops, fake, j),
                        forall|j: int, k: int|
                            #![trigger ops[j], ops[k]]
                            0 <= j < k < c ==> ops[j].index != ops[k].index,
                        target == release(s0, ops.take(c), fake),
                        vec@ == claim(target, ops.take(changed as int), fake),
                    decreases changed,
                {
                    changed -= 1;
                    let x = self.operations[changed];
                    let ghost m = changed as int;
                    proof {
                        lemma_take_step(ops, m);
                        lemma_take_indices(ops, m, s0.len() as int);
                        lemma_take_indices(ops, m + 1, s0.len() as int);
                        lemma_take_indices(ops, c, s0.len() as int);
                        lemma_claim_at(target, ops.take(m + 1), fake, x.index as int);
                        assert(ops.take(m + 1)[m] == ops[m]);
                    }
                    let restored = if x.old != fake {
                        x.old
                    } else {
                        NULL
                    };
                    let result = vec.compare_and_swap(x.index, fake, restored);
                    proof {
                        assert(result is Ok);
                        assert forall|i: int| 0 <= i < s0.len() implies #[trigger] vec@[i]
                            == claim(target, ops.take(m), fake)[i] by {
                            lemma_claim_at(target, ops.take(m + 1), fake, i);
                            lemma_claim_at(target, ops.take(m), fake, i);
                            if i == x.index {
                                if has_index(ops.take(m), i) {
                                    let j = choose|j: int|
                                        #![trigger ops.take(m)[j]]
                                        0 <= j < ops.take(m).len() && ops.take(m)[j].index == i;
                                    assert(ops.take(m)[j] == ops[j]);
                                }
                                lemma_release_at(s0, ops.take(c), fake, i);
                                assert(ops.take(c)[m] == ops[m]);
                                if has_insert_at(ops.take(c), fake, i) && x.old != fake {
                                    let j = choose|j: int|
                                        #![trigger ops.take(c)[j]]
                                        0 <= j < ops.take(c).len() && ops.take(c)[j].old == fake
                                            && ops.take(c)[j].index == i;
                                    assert(ops.take(c)[j] == ops[j]);
                                }
                                if x.old != fake {
                                    assert(!blocks(s0, ops, fake, m));
                                }
                            } else {
                                if has_index(ops.take(m + 1), i) {
                                    let j = choose|j: int|
                                        #![trigger ops.take(m + 1)[j]]
                                        0 <= j < ops.take(m + 1).len() && ops.take(m + 1)[j].index
                                            == i;
                                    assert(ops.take(m)[j] == ops.take(m + 1)[j]);
                                }
                                if has_index(ops.take(m), i) {
                                    let j = choose|j: int|
                                        #![trigger ops.take(m)[j]]
                                        0 <= j < ops.take(m).len() && ops.take(m)[j].index == i;
                                    assert(ops.take(m)[j] == ops.take(m + 1)[j]);
                                }
                            }
                        }
                        lemma_claim_len(target, ops.take(m), fake);
                        assert(vec@ =~= claim(target, ops.take(m), fake));
                    }
                }
                assert(ops.take(0) =~= Seq::<Cas>::empty());
                // empty the slots filled on insertion by the remaining operations
                self.release_inserts(vec, c_exec, Ghost(s0));
                false
            } else {
                self.set_state(State::Committing);
                assert(ops.take(n as int) =~= ops);
                let ghost claimed = claim(s0, ops, fake);
                proof {
                    lemma_prefix_distinct(s0, ops, fake, n as int);
                    lemma_claim_len(s0, ops, fake);
                }
                let mut k: usize = 0;
                // store the new words
                while k < n
                    invariant
                        vec.wf(),
                        self.wf(),
                        self.ops() == ops,
                        self.tag() == fake,
                        k <= n,
                        n == ops.len(),
                        s0.len() == vec@.len(),
                        claimed.len() == s0.len(),
                        claimed == claim(s0, ops, fake),
                        indices_below(ops, s0.len() as int),
                        forall|j: int, l: int|
                            #![trigger ops[j], ops[l]]
                            0 <= j < l < n ==> ops[j].index != ops[l].index,
                        vec@ == writes(claimed, ops.take(k as int)),
                    decreases n - k,
                {
                    let x = self.operations[k];
                    proof {
                        lemma_take_step(ops, k as int);
                        lemma_take_indices(ops, k as int, s0.len() as int);
                        if has_index(ops.take(k as int), x.index as int) {
                            let j = choose|j: int|
                                #![trigger ops.take(k as int)[j]]
                                0 <= j < ops.take(k as int).len() && ops.take(k as int)[j].index
                                    == x.index;
                            assert(ops.take(k as int)[j] == ops[j]);
                        }
                        lemma_writes_outside(claimed, ops.take(k as int), x.index as int);
                        lemma_claim_at(s0, ops, fake, x.index as int);
                        assert(has_index(ops, x.index as int));
                    }
                    let result = vec.compare_and_swap(x.index, fake, x.new);
                    proof {
                        assert(result is Ok);
                    }
                    k += 1;
                }
                self.set_state(State::Committed);
                proof {
                    assert forall|i: int| 0 <= i < s0.len() implies #[trigger] vec@[i] == writes(
                        s0,
                        ops,
                    )[i] by {
                        if has_index(ops, i) {
                            lemma_writes_inside(claimed, s0, ops, i);
                        } else {
                            lemma_writes_outside(claimed, ops, i);
                            lemma_writes_outside(s0, ops, i);
                            lemma_claim_at(s0, ops, fake, i);
                        }
                    }
                    lemma_writes_len(s0, ops);
                    lemma_writes_len(claimed, ops);
                    assert(vec@ =~= writes(s0, ops));
                }
                true
            }
        } else if state == State::Committed {
            true
        } else {
            false
        }
    }

    /// Withdraws a `Writing` descriptor: every slot it filled on insertion
    /// is emptied again and the descriptor is `Cancelled`. A descriptor in
    /// any other state is left as it is.
    pub fn cancel(&mut self, vec: &mut AtomicPtrVec<T>)
        requires
            old(self).wf(),
            old(vec).wf(),
            old(self).status() == State::Writing ==> claims_held(
                old(vec)@,
                old(self).ops(),
                old(self).tag(),
            ),
        ensures
            final(self).wf(),
            final(vec).wf(),
            final(self).ops() == old(self).ops(),
            final(self).tag() == old(self).tag(),
            old(self).status() == State::Writing ==> final(self).status() == State::Cancelled
                && final(vec)@ == release(old(vec)@, old(self).ops(), old(self).tag()),
            old(self).status() != State::Writing ==> final(self).status() == old(self).status()
                && final(vec)@ == old(vec)@,
    {
        let ghost s0 = vec@;
        let state = self.state();
        if state == State::Writing {
            assert(self.ops().take(0) =~= Seq::<Cas>::empty());
            self.release_inserts(vec, 0, Ghost(s0));
            self.set_state(State::Cancelled);
        }
    }

    /// Empties again, in order, the slots filled on insertion by the
    /// operations from `from` on; those before `from` are already empty.
    fn release_inserts(&self, vec: &mut AtomicPtrVec<T>, from: usize, Ghost(s0): Ghost<Seq<usize>>)
        requires
            self.wf(),
            old(vec).wf(),
            from <= self.ops().len(),
            s0.len() == old(vec)@.len(),
            claims_held(s0, self.ops(), self.tag()),
            old(vec)@ == release(s0, self.ops().take(from as int), self.tag()),
        ensures
            final(vec).wf(),
            final(vec)@ == release(s0, self.ops(), self.tag()),
    {
        let ghost ops = self.ops();
        let fake = self.tagged_ptr();
        let n = self.operations.len();
        let mut k: usize = from;
        while k < n
            invariant
                vec.wf(),
                self.wf(),
                self.ops() == ops,
                self.tag() == fake,
                k <= n,
                n == ops.len(),
                s0.len() == vec@.len(),
                claims_held(s0, ops, fake),
                vec@ == release(s0, ops.take(k as int), fake),
            decreases n - k,
        {
            let x = self.operations[k];
            proof {
                lemma_take_step(ops, k as int);
                lemma_take_indices(ops, k as int, s0.len() as int);
                lemma_release_at(s0, ops.take(k as int), fake, x.index as int);
            }
            if x.old == fake {
                proof {
                    if has_insert_at(ops.take(k as int), fake, x.index as int) {
                        let j = choose|j: int|
                            #![trigger ops.take(k as int)[j]]
                            0 <= j < ops.take(k as int).len() && ops.take(k as int)[j].old
                                == fake && ops.take(k as int)[j].index == x.index;
                        assert(ops.take(k as int)[j] == ops[j]);
                    }
                }
                let result = vec.compare_and_swap(x.index, fake, NULL);
                proof {
                    assert(result is Ok);
                }
            }
            k += 1;
        }
        assert(ops.take(n as int) =~= ops);
    }
}

} // verus!
