use vstd::prelude::*;

use crate::arena::{freed, holds, is_object_word, lemma_freed_keeps, object_index, Arena};

verus! {

/// The epoch field of the collector's state word (bits 0 to 31).
pub open spec fn epoch_field(w: u64) -> u64 {
    w & 0xffff_ffff
}

/// The count of sessions taking part (bits 32 to 47).
pub open spec fn active_field(w: u64) -> u64 {
    (w & 0x0000_ffff_0000_0000) >> 32
}

/// The count of taking-part sessions that are quiet in this epoch (bits 48
/// to 63).
pub open spec fn quiet_field(w: u64) -> u64 {
    (w & 0xffff_0000_0000_0000) >> 48
}

/// The state word made of the three fields.
pub open spec fn pack(quiet: u64, active: u64, epoch: u64) -> u64 {
    (quiet << 48) | (active << 32) | epoch
}

/// Packing fields that fit their widths and reading them back gives them
/// back.
pub proof fn lemma_pack_fields(quiet: u64, active: u64, epoch: u64)
    requires
        quiet <= 0xffff,
        active <= 0xffff,
        epoch <= 0xffff_ffff,
    ensures
        quiet_field(pack(quiet, active, epoch)) == quiet,
        active_field(pack(quiet, active, epoch)) == active,
        epoch_field(pack(quiet, active, epoch)) == epoch,
{
    assert(((((quiet << 48u64) | (active << 32u64) | epoch) & 0xffff_0000_0000_0000u64) >> 48u64)
        == quiet && ((((quiet << 48u64) | (active << 32u64) | epoch) & 0x0000_ffff_0000_0000u64)
        >> 32u64) == active && (((quiet << 48u64) | (active << 32u64) | epoch) & 0xffff_ffffu64)
        == epoch) by (bit_vector)
        requires
            quiet <= 0xffff,
            active <= 0xffff,
            epoch <= 0xffff_ffff,
    ;
}

/// Every state word is the packing of its three fields, and each field
/// fits its width.
pub proof fn lemma_fields_pack(w: u64)
    ensures
        pack(quiet_field(w), active_field(w), epoch_field(w)) == w,
        quiet_field(w) <= 0xffff,
        active_field(w) <= 0xffff,
        epoch_field(w) <= 0xffff_ffff,
{
    assert(((((w & 0xffff_0000_0000_0000u64) >> 48u64) << 48u64) | (((w
        & 0x0000_ffff_0000_0000u64) >> 32u64) << 32u64) | (w & 0xffff_ffffu64)) == w
        && ((w & 0xffff_0000_0000_0000u64) >> 48u64) <= 0xffff && ((w & 0x0000_ffff_0000_0000u64)
        >> 32u64) <= 0xffff && (w & 0xffff_ffffu64) <= 0xffff_ffff) by (bit_vector);
}

/// The state word after a session starts taking part.
pub open spec fn incr_word(w: u64) -> u64 {
    pack(quiet_field(w), (active_field(w) + 1) as u64, epoch_field(w))
}

/// What a session that becomes quiet does to the state word: whether a new
/// epoch began, the epoch the session is now quiet in, and the new word.
/// A session that is already quiet in the current epoch (`qe` is that
/// epoch) changes nothing. Otherwise the quiet count grows by one, and when
/// it reaches the active count the epoch advances and the quiet count
/// starts again from zero.
pub open spec fn quiet_step(w: u64, qe: Option<u64>) -> (bool, u64, u64) {
    let e = epoch_field(w);
    let a = active_field(w);
    let q = quiet_field(w);
    if qe == Some(e) {
        (false, e, w)
    } else if q + 1 == a {
        (true, (e + 1) as u64, pack(0, a, (e + 1) as u64))
    } else {
        (false, e, pack((q + 1) as u64, a, e))
    }
}

/// A session can leave without a count going below zero: some session takes
/// part, and one that is quiet in the current epoch is counted as quiet.
pub open spec fn can_decr(w: u64, qe: Option<u64>) -> bool {
    &&& active_field(w) >= 1
    &&& qe == Some(epoch_field(w)) ==> quiet_field(w) >= 1
}

/// What a leaving session does to the state word: the active count drops by
/// one, and the quiet count too when the session was quiet in the current
/// epoch; when the two counts then agree the epoch advances and the quiet
/// count starts again from zero.
pub open spec fn decr_step(w: u64, qe: Option<u64>) -> (bool, u64, u64) {
    let e = epoch_field(w);
    let a = (active_field(w) - 1) as u64;
    let q = if qe == Some(e) {
        (quiet_field(w) - 1) as u64
    } else {
        quiet_field(w)
    };
    if q == a {
        (true, (e + 1) as u64, pack(0, a, (e + 1) as u64))
    } else {
        (false, e, pack(q, a, e))
    }
}

/// A session that starts taking part adds one to the active count and
/// changes nothing else, as long as the count has room.
pub proof fn lemma_incr_fields(w: u64)
    requires
        active_field(w) < 0xffff,
    ensures
        active_field(incr_word(w)) == active_field(w) + 1,
        quiet_field(incr_word(w)) == quiet_field(w),
        epoch_field(incr_word(w)) == epoch_field(w),
{
    lemma_fields_pack(w);
    lemma_pack_fields(quiet_field(w), (active_field(w) + 1) as u64, epoch_field(w));
}

/// A session becoming quiet: one already quiet in the current epoch changes
/// nothing; otherwise a new epoch begins exactly when it is the last active
/// session to become quiet, and the returned epoch is the one now current.
pub proof fn lemma_quiet_fields(w: u64, qe: Option<u64>)
    requires
        quiet_field(w) < 0xffff,
        epoch_field(w) < 0xffff_ffff,
    ensures
        ({
            let (ne, e, w2) = quiet_step(w, qe);
            &&& e == epoch_field(w2)
            &&& active_field(w2) == active_field(w)
            &&& qe == Some(epoch_field(w)) ==> !ne && w2 == w
            &&& qe != Some(epoch_field(w)) ==> (ne <==> quiet_field(w) + 1 == active_field(w))
            &&& ne ==> epoch_field(w2) == epoch_field(w) + 1 && quiet_field(w2) == 0
            &&& qe != Some(epoch_field(w)) && !ne ==> epoch_field(w2) == epoch_field(w)
                && quiet_field(w2) == quiet_field(w) + 1
        }),
{
    lemma_fields_pack(w);
    lemma_pack_fields(0, active_field(w), (epoch_field(w) + 1) as u64);
    lemma_pack_fields((quiet_field(w) + 1) as u64, active_field(w), epoch_field(w));
}

/// A session leaving: the active count drops by one, and the quiet count
/// too when the session was quiet in the current epoch; a new epoch begins
/// exactly when the two counts then agree.
pub proof fn lemma_decr_fields(w: u64, qe: Option<u64>)
    requires
        can_decr(w, qe),
        epoch_field(w) < 0xffff_ffff,
    ensures
        ({
            let (ne, e, w2) = decr_step(w, qe);
            let q = if qe == Some(epoch_field(w)) {
                quiet_field(w) - 1
            } else {
                quiet_field(w) as int
            };
            &&& e == epoch_field(w2)
            &&& active_field(w2) == active_field(w) - 1
            &&& ne <==> q == active_field(w) - 1
            &&& ne ==> epoch_field(w2) == epoch_field(w) + 1 && quiet_field(w2) == 0
            &&& !ne ==> epoch_field(w2) == epoch_field(w) && quiet_field(w2) == q
        }),
{
    lemma_fields_pack(w);
    let a = (active_field(w) - 1) as u64;
    let q = if qe == Some(epoch_field(w)) {
        (quiet_field(w) - 1) as u64
    } else {
        quiet_field(w)
    };
    lemma_pack_fields(0, a, (epoch_field(w) + 1) as u64);
    lemma_pack_fields(q, a, epoch_field(w));
}

/// A session that enters and leaves without becoming quiet gives the state
/// word back, except that the epoch advances when every other taking-part
/// session is quiet.
pub proof fn lemma_enter_exit(w: u64)
    requires
        active_field(w) < 0xffff,
        epoch_field(w) < 0xffff_ffff,
    ensures
        decr_step(incr_word(w), None).2 == (if quiet_field(w) == active_field(w) {
            pack(0, active_field(w), (epoch_field(w) + 1) as u64)
        } else {
            w
        }),
{
    lemma_fields_pack(w);
    lemma_incr_fields(w);
}

/// Epoch-based reclamation drops only objects retired at least two epochs
/// ago, and keeps, from the first younger one on, everything else.
pub proof fn lemma_expired_prefix(list: Seq<Delete>, epoch: int)
    ensures
        expired_count(list, epoch) <= list.len(),
        forall|j: int| 0 <= j < expired_count(list, epoch) ==> #[trigger] list[j].epoch + 2 <= epoch,
        expired_count(list, epoch) < list.len() ==> list[expired_count(list, epoch) as int].epoch
            + 2 > epoch,
    decreases list.len(),
{
    if list.len() > 0 && list[0].epoch + 2 <= epoch {
        lemma_expired_prefix(list.drop_first(), epoch);
        assert forall|j: int| 0 <= j < expired_count(list, epoch) implies #[trigger] list[j].epoch + 2
            <= epoch by {
            if j > 0 {
                assert(list.drop_first()[j - 1] == list[j]);
            }
        }
    }
}

/// The low 16 bits of the epoch field, by which deferred drops are aged.
pub open spec fn visible_epoch(w: u64) -> usize {
    (w & 0xffff) as usize
}

/// The number of sessions in `ss` that take part.
pub open spec fn count_active(ss: Seq<SessionState>) -> nat
    decreases ss.len(),
{
    if ss.len() == 0 {
        0
    } else {
        count_active(ss.drop_last()) + (if ss.last() is Inactive {
            0nat
        } else {
            1nat
        })
    }
}

/// The number of sessions in `ss` that are quiet in epoch `e`.
pub open spec fn count_quiet(ss: Seq<SessionState>, e: u64) -> nat
    decreases ss.len(),
{
    if ss.len() == 0 {
        0
    } else {
        count_quiet(ss.drop_last(), e) + (if ss.last() == SessionState::Quiet(e) {
            1nat
        } else {
            0nat
        })
    }
}

/// The state word agrees with the sessions `ss`: it counts those taking
/// part and those quiet in the current epoch, and no session is quiet in a
/// later epoch.
pub open spec fn counts_match(ss: Seq<SessionState>, w: u64) -> bool {
    &&& active_field(w) == count_active(ss)
    &&& quiet_field(w) == count_quiet(ss, epoch_field(w))
    &&& forall|i: int| 0 <= i < ss.len() ==> (#[trigger] ss[i] matches SessionState::Quiet(e) ==> e <= epoch_field(w))
}

proof fn lemma_count_update(ss: Seq<SessionState>, i: int, v: SessionState, e: u64)
    requires
        0 <= i < ss.len(),
    ensures
        count_active(ss.update(i, v)) + (if ss[i] is Inactive {
            0int
        } else {
            1int
        }) == count_active(ss) + (if v is Inactive {
            0int
        } else {
            1int
        }),
        count_quiet(ss.update(i, v), e) + (if ss[i] == SessionState::Quiet(e) {
            1int
        } else {
            0int
        }) == count_quiet(ss, e) + (if v == SessionState::Quiet(e) {
            1int
        } else {
            0int
        }),
    decreases ss.len(),
{
    let u = ss.update(i, v);
    if i < ss.len() - 1 {
        assert(u.drop_last() =~= ss.drop_last().update(i, v));
        lemma_count_update(ss.drop_last(), i, v, e);
    } else {
        assert(u.drop_last() =~= ss.drop_last());
    }
}

proof fn lemma_quiet_le_active(ss: Seq<SessionState>, e: u64)
    ensures
        count_quiet(ss, e) <= count_active(ss),
    decreases ss.len(),
{
    if ss.len() > 0 {
        lemma_quiet_le_active(ss.drop_last(), e);
    }
}

proof fn lemma_count_bounds(ss: Seq<SessionState>, e: u64, i: int)
    requires
        0 <= i < ss.len(),
    ensures
        count_quiet(ss, e) <= count_active(ss),
        !(ss[i] is Inactive) ==> count_active(ss) >= 1,
        ss[i] == SessionState::Quiet(e) ==> count_quiet(ss, e) >= 1,
        !(ss[i] is Inactive) && ss[i] != SessionState::Quiet(e) ==> count_quiet(ss, e) + 1
            <= count_active(ss),
    decreases ss.len(),
{
    lemma_quiet_le_active(ss, e);
    lemma_quiet_le_active(ss.drop_last(), e);
    if i < ss.len() - 1 {
        assert(ss.drop_last()[i] == ss[i]);
        lemma_count_bounds(ss.drop_last(), e, i);
    }
}

proof fn lemma_count_quiet_none(ss: Seq<SessionState>, e: u64)
    requires
        forall|i: int| 0 <= i < ss.len() ==> !(#[trigger] ss[i] == SessionState::Quiet(e)),
    ensures
        count_quiet(ss, e) == 0,
    decreases ss.len(),
{
    if ss.len() > 0 {
        assert forall|i: int| 0 <= i < ss.len() - 1 implies !(#[trigger] ss.drop_last()[i] == SessionState::Quiet(e)) by {
            assert(ss.drop_last()[i] == ss[i]);
        }
        lemma_count_quiet_none(ss.drop_last(), e);
    }
}

/// The counts stay right when a new session, not yet taking part, is
/// recorded.
pub proof fn lemma_register(ss: Seq<SessionState>, w: u64)
    requires
        counts_match(ss, w),
    ensures
        counts_match(ss.push(SessionState::Inactive), w),
{
    let u = ss.push(SessionState::Inactive);
    assert(u.drop_last() =~= ss);
    assert forall|j: int| 0 <= j < u.len() implies (#[trigger] u[j] matches SessionState::Quiet(e) ==> e <= epoch_field(w)) by {
        if j < ss.len() {
            assert(u[j] == ss[j]);
        }
    }
}

/// The counts stay right when session `i` starts taking part.
pub proof fn lemma_enter_counted(ss: Seq<SessionState>, w: u64, i: int)
    requires
        counts_match(ss, w),
        0 <= i < ss.len(),
        ss[i] is Inactive,
        active_field(w) < 0xffff,
    ensures
        counts_match(ss.update(i, SessionState::Active), incr_word(w)),
{
    lemma_incr_fields(w);
    lemma_count_update(ss, i, SessionState::Active, epoch_field(w));
    let u = ss.update(i, SessionState::Active);
    assert forall|j: int| 0 <= j < u.len() implies (#[trigger] u[j] matches SessionState::Quiet(e) ==> e <= epoch_field(incr_word(w))) by {
        if j != i {
            assert(u[j] == ss[j]);
        }
    }
}

/// The counts stay right when session `i` becomes quiet, and the epoch it
/// comes back quiet in is the current one.
pub proof fn lemma_clear_counted(ss: Seq<SessionState>, w: u64, i: int)
    requires
        counts_match(ss, w),
        0 <= i < ss.len(),
        !(ss[i] is Inactive),
        epoch_field(w) < 0xffff_ffff,
    ensures
        ({
            let (ne, e, w2) = quiet_step(w, quiet_epoch_of(ss[i]));
            counts_match(
                ss.update(
                    i,
                    if ne {
                        SessionState::Active
                    } else {
                        SessionState::Quiet(e)
                    },
                ),
                w2,
            )
        }),
{
    let e0 = epoch_field(w);
    let qe = quiet_epoch_of(ss[i]);
    let (ne, e, w2) = quiet_step(w, qe);
    let v = if ne {
        SessionState::Active
    } else {
        SessionState::Quiet(e)
    };
    let u = ss.update(i, v);
    lemma_fields_pack(w);
    lemma_count_bounds(ss, e0, i);
    if qe == Some(e0) {
        assert(u =~= ss);
    } else {
        assert(ss[i] != SessionState::Quiet(e0));
        lemma_quiet_fields(w, qe);
        lemma_count_update(ss, i, v, e0);
        if ne {
            assert forall|j: int| 0 <= j < u.len() implies !(#[trigger] u[j] == SessionState::Quiet(
                (e0 + 1) as u64,
            )) by {
                if j != i {
                    assert(u[j] == ss[j]);
                }
            }
            lemma_count_quiet_none(u, (e0 + 1) as u64);
        }
        assert forall|j: int| 0 <= j < u.len() implies (#[trigger] u[j] matches SessionState::Quiet(x) ==> x <= epoch_field(w2)) by {
            if j != i {
                assert(u[j] == ss[j]);
            }
        }
    }
}

/// A session that the counts include can always leave without a count going
/// below zero, and the counts stay right when it does.
pub proof fn lemma_exit_counted(ss: Seq<SessionState>, w: u64, i: int)
    requires
        counts_match(ss, w),
        0 <= i < ss.len(),
        !(ss[i] is Inactive),
        epoch_field(w) < 0xffff_ffff,
    ensures
        can_decr(w, quiet_epoch_of(ss[i])),
        counts_match(ss.update(i, SessionState::Inactive), decr_step(w, quiet_epoch_of(ss[i])).2),
{
    let e0 = epoch_field(w);
    let qe = quiet_epoch_of(ss[i]);
    lemma_fields_pack(w);
    lemma_count_bounds(ss, e0, i);
    if qe == Some(e0) {
        assert(ss[i] == SessionState::Quiet(e0));
    }
    lemma_decr_fields(w, qe);
    let u = ss.update(i, SessionState::Inactive);
    let (ne, e, w2) = decr_step(w, qe);
    lemma_count_update(ss, i, SessionState::Inactive, e0);
    if ne {
        assert forall|j: int| 0 <= j < u.len() implies !(#[trigger] u[j] == SessionState::Quiet(
            (e0 + 1) as u64,
        )) by {
            if j != i {
                assert(u[j] == ss[j]);
            }
        }
        lemma_count_quiet_none(u, (e0 + 1) as u64);
    }
    assert forall|j: int| 0 <= j < u.len() implies (#[trigger] u[j] matches SessionState::Quiet(x) ==> x <= epoch_field(w2)) by {
        if j != i {
            assert(u[j] == ss[j]);
        }
    }
}

/// The epoch guard: while session `i` takes part and is not quiet in the
/// current epoch (it is inside a transaction it entered before the epoch
/// began), no step of another session `j`, becoming quiet or leaving, moves
/// the epoch on. When such a step does move it, session `i` is not quiet in
/// the new epoch, so the epoch moves at most once while `i` stays inside.
pub proof fn lemma_epoch_guard(ss: Seq<SessionState>, w: u64, i: int, j: int)
    requires
        counts_match(ss, w),
        0 <= i < ss.len(),
        0 <= j < ss.len(),
        i != j,
        !(ss[i] is Inactive),
        !(ss[j] is Inactive),
        epoch_field(w) < 0xffff_ffff,
    ensures
        ss[i] != SessionState::Quiet(epoch_field(w)) ==> !quiet_step(w, quiet_epoch_of(ss[j])).0
            && !decr_step(w, quiet_epoch_of(ss[j])).0,
        quiet_step(w, quiet_epoch_of(ss[j])).0 ==> ss[i] != SessionState::Quiet(
            epoch_field(quiet_step(w, quiet_epoch_of(ss[j])).2),
        ),
        decr_step(w, quiet_epoch_of(ss[j])).0 ==> ss[i] != SessionState::Quiet(
            epoch_field(decr_step(w, quiet_epoch_of(ss[j])).2),
        ),
{
    let e = epoch_field(w);
    let qe = quiet_epoch_of(ss[j]);
    lemma_fields_pack(w);
    lemma_count_bounds(ss, e, i);
    if ss[i] != SessionState::Quiet(e) && ss[j] != SessionState::Quiet(e) {
        lemma_two_unquiet(ss, e, i, j);
    }
    if qe == Some(e) {
        assert(ss[j] == SessionState::Quiet(e));
        lemma_count_bounds(ss, e, j);
    }
    if quiet_field(w) < 0xffff {
        lemma_quiet_fields(w, qe);
    }
    lemma_exit_counted(ss, w, j);
    lemma_decr_fields(w, qe);
    if quiet_step(w, qe).0 {
        lemma_count_bounds(ss, e, j);
        assert(quiet_field(w) < 0xffff);
    }
    assert(ss[i] matches SessionState::Quiet(x) ==> x <= e);
}

/// A session that takes part and is not quiet in epoch `e` leaves the quiet
/// count below the largest count the word can hold.
pub proof fn lemma_count_quiet_below(ss: Seq<SessionState>, e: u64, i: int)
    requires
        0 <= i < ss.len(),
        !(ss[i] is Inactive),
        ss[i] != SessionState::Quiet(e),
        count_active(ss) <= 0xffff,
    ensures
        count_quiet(ss, e) < 0xffff,
{
    lemma_count_bounds(ss, e, i);
}

/// Two sessions that take part and are not quiet in epoch `e` leave the
/// quiet count at least two below the active count.
proof fn lemma_two_unquiet(ss: Seq<SessionState>, e: u64, i: int, j: int)
    requires
        0 <= i < ss.len(),
        0 <= j < ss.len(),
        i != j,
        !(ss[i] is Inactive),
        !(ss[j] is Inactive),
        ss[i] != SessionState::Quiet(e),
        ss[j] != SessionState::Quiet(e),
    ensures
        count_quiet(ss, e) + 2 <= count_active(ss),
    decreases ss.len(),
{
    let init = ss.drop_last();
    let last = ss.len() - 1;
    if i < last && j < last {
        assert(init[i] == ss[i] && init[j] == ss[j]);
        lemma_two_unquiet(init, e, i, j);
    } else if i == last {
        assert(init[j] == ss[j]);
        lemma_count_bounds(init, e, j);
    } else {
        assert(init[i] == ss[i]);
        lemma_count_bounds(init, e, i);
    }
}

/// Drops need two moves of the epoch: an object retired while the epoch
/// field was between `start` and `now`, when it moved at most once from
/// `start` to `now`, has not expired, and collecting at `now` keeps its
/// drop (entry `m` of `list`) deferred.
pub proof fn lemma_retired_since_kept(list: Seq<Delete>, m: int, start: u64, retired_at: u64, now: u64)
    requires
        0 <= m < list.len(),
        epoch_field(start) <= epoch_field(retired_at) <= epoch_field(now) <= epoch_field(start) + 1,
        list[m].epoch == visible_epoch(retired_at),
    ensures
        list[m].epoch + 2 > visible_epoch(now),
        m >= expired_count(list, visible_epoch(now) as int),
{
    assert((now & 0xffff_ffff) <= (retired_at & 0xffff_ffff) + 1 && (retired_at & 0xffff_ffff) <= (
    now & 0xffff_ffff) ==> (now & 0xffff) < (retired_at & 0xffff) + 2) by (bit_vector);
    assert((now & 0xffff) <= 0xffff && (retired_at & 0xffff) <= 0xffff) by (bit_vector);
    lemma_expired_prefix(list, visible_epoch(now) as int);
}

/// An object whose drop is deferred: its word, and the epoch in which it
/// was retired.
#[derive(Clone, Copy)]
pub struct Delete {
    pub epoch: usize,
    pub value: usize,
}

/// Every deferred drop was retired in an epoch of at most 16 bits.
pub open spec fn epochs_bounded(list: Seq<Delete>) -> bool {
    forall|i: int| 0 <= i < list.len() ==> #[trigger] list[i].epoch <= 0xffff
}

/// The number of leading deferred drops retired at least two epochs before
/// `epoch`.
pub open spec fn expired_count(list: Seq<Delete>, epoch: int) -> nat
    decreases list.len(),
{
    if list.len() > 0 && list[0].epoch + 2 <= epoch {
        1 + expired_count(list.drop_first(), epoch)
    } else {
        0
    }
}

/// The objects after every object of `list`, in order, has been dropped.
pub open spec fn free_all<P>(a: Seq<Option<P>>, list: Seq<Delete>) -> Seq<Option<P>>
    decreases list.len(),
{
    if list.len() == 0 {
        a
    } else {
        freed(free_all(a, list.drop_last()), list.last().value)
    }
}

/// Some entry of `list` has a word that stands for the object at position
/// `i`.
pub open spec fn names_position(list: Seq<Delete>, i: int) -> bool {
    exists|j: int|
        0 <= j < list.len() && is_object_word(#[trigger] list[j].value) && object_index(list[j].value)
            == i
}

/// Collecting drops every object it removes and nothing else: after the
/// objects of `list` are dropped, a position of the store is empty when an
/// entry of `list` names it, and otherwise keeps what it held; the store
/// keeps its size.
pub proof fn lemma_free_all_drops<P>(a: Seq<Option<P>>, list: Seq<Delete>)
    ensures
        free_all(a, list).len() == a.len(),
        forall|i: int|
            0 <= i < a.len() ==> #[trigger] free_all(a, list)[i] == (if names_position(list, i) {
                None
            } else {
                a[i]
            }),
    decreases list.len(),
{
    if list.len() > 0 {
        let init = list.drop_last();
        let w = list.last().value;
        lemma_free_all_drops(a, init);
        let b = free_all(a, init);
        assert forall|i: int| 0 <= i < a.len() implies #[trigger] free_all(a, list)[i] == (if names_position(
            list,
            i,
        ) {
            None
        } else {
            a[i]
        }) by {
            assert(b[i] == (if names_position(init, i) {
                None
            } else {
                a[i]
            }));
            if names_position(init, i) {
                let j = choose|j: int|
                    0 <= j < init.len() && is_object_word(#[trigger] init[j].value) && object_index(
                        init[j].value,
                    ) == i;
                assert(list[j] == init[j]);
            }
            if is_object_word(w) && object_index(w) == i {
                assert(list[list.len() - 1].value == w);
            }
            if names_position(list, i) && !names_position(init, i) {
                let j = choose|j: int|
                    0 <= j < list.len() && is_object_word(#[trigger] list[j].value) && object_index(
                        list[j].value,
                    ) == i;
                if j < list.len() - 1 {
                    assert(init[j] == list[j]);
                }
            }
        }
    }
}

/// Dropping the objects of `list` keeps stored every object whose word is
/// not in `list`, and keeps the number of positions.
pub proof fn lemma_free_all_keeps<P>(a: Seq<Option<P>>, list: Seq<Delete>, v: usize)
    requires
        forall|j: int| 0 <= j < list.len() ==> #[trigger] list[j].value != v,
    ensures
        free_all(a, list).len() == a.len(),
        holds(free_all(a, list), v) == holds(a, v),
        is_object_word(v) && object_index(v) < a.len() ==> free_all(a, list)[object_index(v)] == a[object_index(
            v,
        )],
    decreases list.len(),
{
    if list.len() > 0 {
        let init = list.drop_last();
        assert forall|j: int| 0 <= j < init.len() implies #[trigger] init[j].value != v by {
            assert(init[j] == list[j]);
        }
        lemma_free_all_keeps(a, init, v);
        assert(list[list.len() - 1].value != v);
        lemma_freed_keeps(free_all(a, init), list.last().value, v);
    }
}

/// Drops, oldest first, the deferred objects of `list` retired at least two
/// epochs before `epoch`, and stops at the first that is younger.
pub fn collect_expired<P>(list: &mut Vec<Delete>, epoch: usize, arena: &mut Arena<P>)
    requires
        epochs_bounded(old(list)@),
    ensures
        ({
            let k = expired_count(old(list)@, epoch as int);
            &&& final(list)@ == old(list)@.skip(k as int)
            &&& final(arena)@ == free_all(old(arena)@, old(list)@.take(k as int))
        }),
        epochs_bounded(final(list)@),
{
    let ghost l0 = list@;
    let ghost a0 = arena@;
    let ghost total = expired_count(l0, epoch as int);
    let ghost mut removed: int = 0;
    proof {
        lemma_expired_prefix(l0, epoch as int);
        assert(l0.skip(0) =~= l0);
        assert(l0.take(0) =~= Seq::<Delete>::empty());
    }
    loop
        invariant
            0 <= removed <= l0.len(),
            list@ == l0.skip(removed),
            arena@ == free_all(a0, l0.take(removed)),
            total == removed + expired_count(list@, epoch as int),
            epochs_bounded(l0),
            epochs_bounded(list@),
        ensures
            total == removed,
            list@ == l0.skip(removed),
            arena@ == free_all(a0, l0.take(removed)),
            epochs_bounded(list@),
        decreases list@.len(),
    {
        if list.len() == 0 {
            break ;
        }
        let e = list[0].epoch;
        if e + 2 <= epoch {
            let ghost pre = list@;
            let d = list.remove(0);
            arena.free(d.value);
            proof {
                assert(l0.take(removed + 1).drop_last() =~= l0.take(removed));
                assert(l0.take(removed + 1).last() == d);
                assert(list@ =~= l0.skip(removed + 1));
                assert(pre.drop_first() =~= l0.skip(removed + 1));
                removed = removed + 1;
            }
        } else {
            break ;
        }
    }
}

/// Where a session stands with the collector.
#[derive(PartialEq, Eq, Structural, Clone, Copy, Debug)]
pub enum SessionState {
    /// Not counted.
    Inactive,
    /// Counted as taking part.
    Active,
    /// Counted as taking part and as quiet in the given epoch.
    Quiet(u64),
}

/// The epoch in which a session counts as quiet, if any.
pub open spec fn quiet_epoch_of(s: SessionState) -> Option<u64> {
    match s {
        SessionState::Quiet(e) => Some(e),
        _ => None,
    }
}

/// Epoch-based reclamation: a packed state word counting the sessions that
/// take part and those that are quiet, and the list of objects whose drop
/// waits until no session can still read them.
pub struct Collector {
    state: u64,
    delete: Vec<Delete>,
}

impl Collector {
    /// The packed state word.
    pub closed spec fn word(&self) -> u64 {
        self.state
    }

    /// The deferred drops handed over by sessions, oldest first.
    pub closed spec fn pending(&self) -> Seq<Delete> {
        self.delete@
    }

    /// A collector in epoch zero with no session and nothing deferred.
    pub fn new() -> (c: Collector)
        ensures
            c.word() == 0,
            c.pending() == Seq::<Delete>::empty(),
    {
        Collector { state: 0, delete: Vec::with_capacity(100) }
    }

    /// Appends the drops deferred by a session, emptying its list.
    pub fn collect_later(&mut self, delete: &mut Vec<Delete>)
        ensures
            final(self).pending() == old(self).pending() + old(delete)@,
            final(self).word() == old(self).word(),
            final(delete)@ == Seq::<Delete>::empty(),
    {
        self.delete.append(delete);
    }

    /// Drops the deferred objects retired at least two epochs ago, oldest
    /// first, up to the first that is younger.
    pub fn collect<P>(&mut self, arena: &mut Arena<P>)
        requires
            epochs_bounded(old(self).pending()),
        ensures
            ({
                let k = expired_count(old(self).pending(), visible_epoch(old(self).word()) as int);
                &&& final(self).pending() == old(self).pending().skip(k as int)
                &&& final(arena)@ == free_all(old(arena)@, old(self).pending().take(k as int))
            }),
            final(self).word() == old(self).word(),
            epochs_bounded(final(self).pending()),
    {
        let epoch = self.epoch();
        collect_expired(&mut self.delete, epoch, arena);
    }

    /// The low 16 bits of the current epoch.
    pub fn epoch(&self) -> (e: usize)
        ensures
            e == visible_epoch(self.word()),
            e <= 0xffff,
    {
        let s = self.state;
        assert(s & 0xffffu64 <= 0xffffu64) by (bit_vector);
        (s & 0xffff) as usize
    }

    /// Counts one more session as taking part.
    pub fn incr_active(&mut self)
        ensures
            final(self).word() == incr_word(old(self).word()),
            final(self).pending() == old(self).pending(),
    {
        let state = self.state;
        let epoch = state & 0x0000_0000_ffff_ffff;
        let active = (state & 0x0000_ffff_0000_0000) >> 32;
        let quiet = (state & 0xffff_0000_0000_0000) >> 48;
        proof {
            lemma_fields_pack(state);
        }
        let active = active + 1;
        self.state = (quiet << 48) | (active << 32) | epoch;
    }

    /// Counts a session as quiet; see `quiet_step`. Returns whether a new
    /// epoch began and the epoch the session is quiet in.
    pub fn set_quiet(&mut self, quiet_epoch: Option<u64>) -> (r: (bool, u64))
        ensures
            (r.0, r.1, final(self).word()) == quiet_step(old(self).word(), quiet_epoch),
            final(self).pending() == old(self).pending(),
    {
        let state = self.state;
        let mut epoch = state & 0x0000_0000_ffff_ffff;
        let active = (state & 0x0000_ffff_0000_0000) >> 32;
        let mut quiet = (state & 0xffff_0000_0000_0000) >> 48;
        let mut new_epoch = false;
        proof {
            lemma_fields_pack(state);
        }
        let already_quiet = match quiet_epoch {
            Some(e) => e == epoch,
            None => false,
        };
        if !already_quiet {
            quiet += 1;
            if quiet == active {
                quiet = 0;
                epoch += 1;
                new_epoch = true;
            }
            self.state = (quiet << 48) | (active << 32) | epoch;
        }
        (new_epoch, epoch)
    }

    /// Stops counting a session; see `decr_step`. Returns whether a new
    /// epoch began and the current epoch.
    pub fn decr_active(&mut self, quiet_epoch: Option<u64>) -> (r: (bool, u64))
        requires
            can_decr(old(self).word(), quiet_epoch),
        ensures
            (r.0, r.1, final(self).word()) == decr_step(old(self).word(), quiet_epoch),
            final(self).pending() == old(self).pending(),
    {
        let state = self.state;
        let mut epoch = state & 0x0000_0000_ffff_ffff;
        let mut active = (state & 0x0000_ffff_0000_0000) >> 32;
        let mut quiet = (state & 0xffff_0000_0000_0000) >> 48;
        let mut new_epoch = false;
        proof {
            lemma_fields_pack(state);
        }
        let quiet_now = match quiet_epoch {
            Some(e) => e == epoch,
            None => false,
        };
        if quiet_now {
            active -= 1;
            quiet -= 1;
        } else {
            active -= 1;
        }
        if quiet == active {
            quiet = 0;
            epoch += 1;
            new_epoch = true;
        }
        self.state = (quiet << 48) | (active << 32) | epoch;
        (new_epoch, epoch)
    }

    /// Counts a new session as taking part.
    pub fn enter_session(&mut self) -> (s: SessionState)
        ensures
            s == SessionState::Active,
            final(self).word() == incr_word(old(self).word()),
            final(self).pending() == old(self).pending(),
    {
        self.incr_active();
        SessionState::Active
    }

    /// Marks a taking-part session as quiet. It comes back `Active` when that
    /// began a new epoch, and `Quiet` in the current epoch otherwise.
    pub fn clear_session(&mut self, state: &SessionState) -> (s: SessionState)
        requires
            !(*state is Inactive),
        ensures
            ({
                let (ne, e, w) = quiet_step(old(self).word(), quiet_epoch_of(*state));
                &&& final(self).word() == w
                &&& s == (if ne {
                    SessionState::Active
                } else {
                    SessionState::Quiet(e)
                })
            }),
            final(self).pending() == old(self).pending(),
    {
        match state {
            SessionState::Inactive => {
                proof {
                    assert(false);
                }
                SessionState::Inactive
            },
            SessionState::Active => {
                let (new_epoch, epoch) = self.set_quiet(None);
                if new_epoch {
                    SessionState::Active
                } else {
                    SessionState::Quiet(epoch)
                }
            },
            SessionState::Quiet(e) => {
                let (new_epoch, epoch) = self.set_quiet(Some(*e));
                if new_epoch {
                    SessionState::Active
                } else {
                    SessionState::Quiet(epoch)
                }
            },
        }
    }

    /// Stops counting a session; an `Inactive` one changes nothing.
    pub fn exit_session(&mut self, state: &SessionState) -> (s: SessionState)
        requires
            !(*state is Inactive) ==> can_decr(old(self).word(), quiet_epoch_of(*state)),
        ensures
            s == SessionState::Inactive,
            *state is Inactive ==> final(self).word() == old(self).word(),
            !(*state is Inactive) ==> final(self).word() == decr_step(
                old(self).word(),
                quiet_epoch_of(*state),
            ).2,
            final(self).pending() == old(self).pending(),
    {
        match state {
            SessionState::Inactive => {},
            SessionState::Active => {
                self.decr_active(None);
            },
            SessionState::Quiet(e) => {
                self.decr_active(Some(*e));
            },
        }
        SessionState::Inactive
    }
}

} // verus!
