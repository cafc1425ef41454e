use lib::arena::Arena;
use lib::collector::{Collector, Delete, SessionState};
use lib::descriptor::{Descriptor, State};
use lib::slots::AtomicPtrVec;

#[test]
fn slots_start_empty_and_swap() {
    let mut v: AtomicPtrVec<u8> = AtomicPtrVec::new(3);
    assert_eq!(v.as_slice(), &[0, 0, 0]);
    assert_eq!(v.swap(1, 8), 0);
    assert_eq!(v.load(1), 8);
    assert_eq!(v.capacity(), 3);
}

#[test]
fn slots_compare_and_swap() {
    let mut v: AtomicPtrVec<u8> = AtomicPtrVec::new(2);
    assert_eq!(v.compare_and_swap(0, 0, 4), Ok(0));
    assert_eq!(v.compare_and_swap(0, 0, 6), Err(4));
    assert_eq!(v.as_slice(), &[4, 0]);
}

#[test]
fn state_codes() {
    assert_eq!(State::Reading.code(), 0);
    assert_eq!(State::Writing.code(), 1);
    assert_eq!(State::Preparing.code(), 2);
    assert_eq!(State::Committing.code(), 3);
    assert_eq!(State::Committed.code(), 4);
    assert_eq!(State::Cancelled.code(), -1);
    assert_eq!(State::Conflicted.code(), -2);
}

#[test]
fn tag_bits() {
    let d: Descriptor<u8> = Descriptor::new(6);
    assert_eq!(d.tagged_ptr(), 7);
    assert!(Descriptor::<u8>::is_tagged(7));
    assert!(!Descriptor::<u8>::is_tagged(6));
    assert_eq!(Descriptor::<u8>::untag(7), 6);
    assert!(d.state() == State::Reading);
    assert!(d.complete());
    assert!(!d.committed());
}

#[test]
fn descriptor_commits_all() {
    let mut v: AtomicPtrVec<u8> = AtomicPtrVec::new(3);
    v.swap(0, 2);
    v.swap(1, 4);
    let mut d: Descriptor<u8> = Descriptor::new(10);
    d.add(0, 2, 6);
    d.add(1, 4, 8);
    assert!(d.state() == State::Writing);
    assert!(!d.complete());
    assert!(d.apply(&mut v));
    assert!(d.committed());
    assert_eq!(v.as_slice(), &[6, 8, 0]);
}

#[test]
fn descriptor_conflict_restores_slots() {
    let mut v: AtomicPtrVec<u8> = AtomicPtrVec::new(3);
    v.swap(0, 2);
    v.swap(1, 4);
    let mut d: Descriptor<u8> = Descriptor::new(10);
    // an insertion into slot 2, then two updates of which the second fails
    v.swap(2, 11);
    d.add(2, 11, 12);
    d.add(0, 2, 6);
    d.add(1, 99, 8);
    assert!(!d.apply(&mut v));
    assert!(d.state() == State::Conflicted);
    assert_eq!(v.as_slice(), &[2, 4, 0]);
    // a conflicted descriptor stays failed
    assert!(!d.apply(&mut v));
}

#[test]
fn descriptor_conflict_on_repeated_slot() {
    let mut v: AtomicPtrVec<u8> = AtomicPtrVec::new(1);
    v.swap(0, 2);
    let mut d: Descriptor<u8> = Descriptor::new(10);
    d.add(0, 2, 6);
    d.add(0, 2, 8);
    assert!(!d.apply(&mut v));
    assert_eq!(v.as_slice(), &[2]);
}

#[test]
fn descriptor_cancel_empties_insertions() {
    let mut v: AtomicPtrVec<u8> = AtomicPtrVec::new(2);
    let mut d: Descriptor<u8> = Descriptor::new(4);
    v.swap(1, 5);
    d.add(1, 5, 8);
    d.cancel(&mut v);
    assert!(d.state() == State::Cancelled);
    assert_eq!(v.as_slice(), &[0, 0]);
    assert!(!d.apply(&mut v));
}

#[test]
fn collector_counts_sessions() {
    let mut c = Collector::new();
    assert!(matches!(c.enter_session(), SessionState::Active));
    assert!(matches!(c.enter_session(), SessionState::Active));
    // first of two sessions becomes quiet in epoch 0
    let s = c.clear_session(&SessionState::Active);
    assert!(matches!(s, SessionState::Quiet(0)));
    // already quiet: nothing changes
    assert_eq!(c.set_quiet(Some(0)), (false, 0));
    // the second one too: a new epoch begins
    let t = c.clear_session(&SessionState::Active);
    assert!(matches!(t, SessionState::Active));
    assert_eq!(c.epoch(), 1);
    // quiet marks of the old epoch no longer count
    assert_eq!(c.set_quiet(Some(0)), (false, 1));
    // one leaves; the one left is quiet, so a new epoch begins
    assert_eq!(c.decr_active(None), (true, 2));
    assert_eq!(c.epoch(), 2);
}

#[test]
fn collector_exit_inactive_changes_nothing() {
    let mut c = Collector::new();
    c.incr_active();
    assert!(matches!(c.exit_session(&SessionState::Inactive), SessionState::Inactive));
    assert!(matches!(c.exit_session(&SessionState::Active), SessionState::Inactive));
    assert_eq!(c.epoch(), 1);
}

#[test]
fn collector_drops_after_two_epochs() {
    let mut c = Collector::new();
    let mut a: Arena<u32> = Arena::new();
    let w = a.store(9);
    assert_eq!(w, 2);
    let mut list = vec![Delete { epoch: 0, value: w }];
    c.collect_later(&mut list);
    assert!(list.is_empty());
    c.collect(&mut a);
    assert!(a.holds(w));
    c.incr_active();
    c.decr_active(None);
    c.incr_active();
    c.decr_active(None);
    assert_eq!(c.epoch(), 2);
    c.collect(&mut a);
    assert!(!a.holds(w));
}

#[test]
fn arena_words() {
    let mut a: Arena<u32> = Arena::new();
    assert_eq!(a.store(1), 2);
    assert_eq!(a.store(2), 4);
    assert_eq!(*a.get(4), 2);
    a.free(2);
    assert!(!a.holds(2));
    assert!(a.holds(4));
    a.free(3);
    a.free(100);
    assert!(a.holds(4));
}

#[test]
fn descriptor_conflict_empties_later_insertions() {
    let mut v: AtomicPtrVec<u8> = AtomicPtrVec::new(3);
    let mut d: Descriptor<u8> = Descriptor::new(10);
    // the first operation expects 6 in an empty slot; the second is an
    // insertion whose slot already holds the tag
    v.swap(2, 11);
    d.add(1, 6, 8);
    d.add(2, 11, 12);
    assert!(!d.apply(&mut v));
    assert_eq!(v.as_slice(), &[0, 0, 0]);
}
