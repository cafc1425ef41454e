use lib::heap::{Heap, SessionBehaviour, Session};

#[test]
fn it_works() {
    let mut h: Heap<String> = Heap::new(1024);
    let mut s1 = h.session();
    let txn1 = s1.transaction(&mut h);
    let mut s = h.session();
    let mut addr = 0;
    {
        let mut txn = s.transaction(&mut h);
        addr = txn.insert(&mut h, &mut s, Box::new("example".to_string()));
        txn.apply(&mut h);
        txn.finish(&mut h, &mut s);
    }
    {
        let txn = s.transaction(&mut h);
        let o = txn.borrow(&h, addr).unwrap();
        assert!(o == "example");
        txn.finish(&mut h, &mut s);
    }
    {
        let mut txn = s.transaction(&mut h);
        let old = txn.read(&h, addr).unwrap();
        let mut o = Box::new(old.deref(&h).clone());
        o.push_str(" mutated");
        txn.compare_and_swap(&mut h, addr, &old, o);
        txn.apply(&mut h);
        txn.finish(&mut h, &mut s);
    }
    {
        let txn = s.transaction(&mut h);
        let o = txn.borrow(&h, addr).unwrap();
        assert!(o == "example mutated");
        txn.finish(&mut h, &mut s);
    }
    {
        let mut txn = s.transaction(&mut h);
        let old = txn.read(&h, addr).unwrap();
        let mut o = Box::new(old.deref(&h).clone());
        o.push_str(" cancelled");
        txn.compare_and_swap(&mut h, addr, &old, o);
        txn.cancel(&mut h);
        txn.finish(&mut h, &mut s);
    }
    {
        let txn = s.transaction(&mut h);
        let o = txn.borrow(&h, addr).unwrap();
        assert!(o == "example mutated");
        txn.finish(&mut h, &mut s);
    }
    s.collect(&mut h);
    s.close(&mut h);
    txn1.finish(&mut h, &mut s1);
    s1.close(&mut h);
}

#[test]
fn test2() {
    let mut h: Heap<String> = Heap::new(1024);
    let mut s = h.session();
    let mut addr = 0;
    {
        let mut txn = s.transaction(&mut h);
        addr = txn.insert(&mut h, &mut s, Box::new("example".to_string()));
        txn.apply(&mut h);
        txn.finish(&mut h, &mut s);
    }
    {
        let txn = s.transaction(&mut h);
        let _o = txn.read(&h, addr).unwrap();
        txn.finish(&mut h, &mut s);
    }
    {
        let mut txn = s.transaction(&mut h);
        let old = txn.read(&h, addr).unwrap();
        let mut new = old.copy(&h);
        new.push_str(" mutated");
        txn.update(&mut h, old, new);
        txn.apply(&mut h);
        txn.finish(&mut h, &mut s);
    }
    {
        let txn = s.transaction(&mut h);
        let o = txn.borrow(&h, addr).unwrap();
        assert_eq!(o, "example mutated");
        txn.finish(&mut h, &mut s);
    }
    {
        let mut txn = s.transaction(&mut h);
        txn.delete(&h, addr);
        txn.apply(&mut h);
        txn.finish(&mut h, &mut s);
    }
    {
        let txn = s.transaction(&mut h);
        assert!(txn.borrow(&h, addr).is_none());
        txn.finish(&mut h, &mut s);
    }
}

#[test]
fn insert_takes_consecutive_addresses() {
    let mut h: Heap<u64> = Heap::new(16);
    let mut s = h.session();
    let mut txn = s.transaction(&mut h);
    let a = txn.insert(&mut h, &mut s, Box::new(10));
    let b = txn.insert(&mut h, &mut s, Box::new(20));
    assert_eq!(a, 0);
    assert_eq!(b, 1);
    assert!(h.is_claimed(a));
    assert!(h.is_claimed(b));
    assert!(txn.apply(&mut h));
    assert!(!h.is_claimed(a));
    txn.finish(&mut h, &mut s);
    let txn = s.transaction(&mut h);
    assert_eq!(*txn.borrow(&h, a).unwrap(), 10);
    assert_eq!(*txn.borrow(&h, b).unwrap(), 20);
    txn.finish(&mut h, &mut s);
}

#[test]
fn insert_skips_occupied_slots() {
    let mut h: Heap<u64> = Heap::new(8);
    let mut s = h.session();
    // fill slot 0 without taking an address from the counter
    let mut txn = s.transaction(&mut h);
    txn.overwrite(&mut h, 0, 5);
    assert!(txn.apply(&mut h));
    txn.finish(&mut h, &mut s);
    // the counter still points at 0, which is now occupied
    let mut txn = s.transaction(&mut h);
    let a = txn.insert(&mut h, &mut s, Box::new(6));
    assert_eq!(a, 1);
    assert!(txn.apply(&mut h));
    txn.finish(&mut h, &mut s);
}

#[test]
fn cancelled_insert_leaves_slot_empty() {
    let mut h: Heap<u64> = Heap::new(4);
    let mut s = h.session();
    let mut txn = s.transaction(&mut h);
    let a = txn.insert(&mut h, &mut s, Box::new(1));
    assert!(h.is_claimed(a));
    txn.cancel(&mut h);
    assert!(!h.is_claimed(a));
    assert!(!txn.apply(&mut h));
    txn.finish(&mut h, &mut s);
    let txn = s.transaction(&mut h);
    assert!(txn.borrow(&h, a).is_none());
    txn.finish(&mut h, &mut s);
}

#[test]
fn deleted_address_is_reused() {
    let mut h: Heap<u64> = Heap::new(4);
    let mut s = h.session();
    let mut txn = s.transaction(&mut h);
    let a = txn.insert(&mut h, &mut s, Box::new(1));
    let b = txn.insert(&mut h, &mut s, Box::new(2));
    assert!(txn.apply(&mut h));
    txn.finish(&mut h, &mut s);
    let mut txn = s.transaction(&mut h);
    txn.delete(&h, a);
    assert!(txn.apply(&mut h));
    txn.finish(&mut h, &mut s);
    let mut txn = s.transaction(&mut h);
    let c = txn.insert(&mut h, &mut s, Box::new(3));
    assert_eq!(c, a);
    assert_ne!(c, b);
    assert!(txn.apply(&mut h));
    txn.finish(&mut h, &mut s);
}

#[test]
fn conflicting_transaction_fails_and_changes_nothing() {
    let mut h: Heap<u64> = Heap::new(4);
    let mut s = h.session();
    let mut txn = s.transaction(&mut h);
    let a = txn.insert(&mut h, &mut s, Box::new(1));
    assert!(txn.apply(&mut h));
    txn.finish(&mut h, &mut s);

    let mut other = Session::new(&mut h, SessionBehaviour::ClearOnExit);
    let mut t1 = s.transaction(&mut h);
    let mut t2 = other.transaction(&mut h);
    let r1 = t1.read(&h, a).unwrap();
    let r2 = t2.read(&h, a).unwrap();
    t1.update(&mut h, r1, Box::new(2));
    t2.update(&mut h, r2, Box::new(3));
    assert!(t1.apply(&mut h));
    assert!(!t2.apply(&mut h));
    t1.finish(&mut h, &mut s);
    t2.finish(&mut h, &mut other);

    let txn = s.transaction(&mut h);
    assert_eq!(*txn.borrow(&h, a).unwrap(), 2);
    txn.finish(&mut h, &mut s);
}

#[test]
fn reading_transaction_commits() {
    let mut h: Heap<u64> = Heap::new(2);
    let mut s = h.session();
    let mut txn = s.transaction(&mut h);
    assert!(txn.apply(&mut h));
    assert!(txn.apply(&mut h));
    txn.finish(&mut h, &mut s);
}

#[test]
fn replaced_objects_are_dropped_two_epochs_later() {
    let mut h: Heap<u64> = Heap::new(4);
    let mut s = h.session();
    assert_eq!(h.epoch(), 0);
    let mut txn = s.transaction(&mut h);
    let a = txn.insert(&mut h, &mut s, Box::new(1));
    assert!(txn.apply(&mut h));
    txn.finish(&mut h, &mut s);
    // the only session became quiet, so a new epoch began
    assert_eq!(h.epoch(), 1);

    let mut txn = s.transaction(&mut h);
    let r = txn.read(&h, a).unwrap();
    let old_word = r.word();
    txn.update(&mut h, r, Box::new(2));
    assert!(txn.apply(&mut h));
    txn.finish(&mut h, &mut s);
    assert_eq!(h.epoch(), 2);
    assert_eq!(s.deferred_len(), 1);
    assert!(h.holds(old_word));

    let txn = s.transaction(&mut h);
    txn.finish(&mut h, &mut s);
    assert_eq!(h.epoch(), 3);
    // retired in epoch 1, dropped once the epoch reaches 3
    assert_eq!(s.deferred_len(), 0);
    assert!(!h.holds(old_word));
}

#[test]
fn next_address_counts_up() {
    let mut h: Heap<u8> = Heap::new(2);
    assert_eq!(h.next_address(), 0);
    assert_eq!(h.next_address(), 1);
    assert_eq!(h.next_address(), 2);
}

#[test]
fn session_reuses_last_freed_address_first() {
    let mut h: Heap<u8> = Heap::new(8);
    let mut s: Session<u8> = Session::new(&mut h, SessionBehaviour::CloseOnExit);
    s.free_address(5);
    s.free_address(3);
    assert_eq!(s.next_address(&mut h), 3);
    assert_eq!(s.next_address(&mut h), 5);
    assert_eq!(s.next_address(&mut h), 0);
    assert_eq!(s.next_address(&mut h), 1);
}

#[test]
fn close_on_exit_session_leaves_the_collector() {
    let mut h: Heap<u64> = Heap::new(4);
    let mut s: Session<u64> = Session::new(&mut h, SessionBehaviour::CloseOnExit);
    let mut txn = s.transaction(&mut h);
    let a = txn.insert(&mut h, &mut s, Box::new(7));
    assert!(txn.apply(&mut h));
    txn.finish(&mut h, &mut s);
    // leaving as the last session advanced the epoch
    assert_eq!(h.epoch(), 1);
    let txn = s.transaction(&mut h);
    assert_eq!(*txn.borrow(&h, a).unwrap(), 7);
    txn.finish(&mut h, &mut s);
    s.close(&mut h);
}

#[test]
fn overwrite_replaces_value() {
    let mut h: Heap<String> = Heap::new(4);
    let mut s = h.session();
    let mut txn = s.transaction(&mut h);
    let a = txn.insert(&mut h, &mut s, Box::new("a".to_string()));
    assert!(txn.apply(&mut h));
    txn.finish(&mut h, &mut s);
    let mut txn = s.transaction(&mut h);
    txn.overwrite(&mut h, a, "b".to_string());
    assert!(txn.apply(&mut h));
    txn.finish(&mut h, &mut s);
    let txn = s.transaction(&mut h);
    assert_eq!(txn.borrow(&h, a).unwrap(), "b");
    let r = txn.read(&h, a).unwrap();
    assert_eq!(*r.copy(&h), "b");
    txn.finish(&mut h, &mut s);
}

#[test]
fn heap_collect_runs_on_empty_heap() {
    let mut h: Heap<u8> = Heap::new(3);
    h.collect();
    assert_eq!(h.capacity(), 3);
    assert_eq!(h.epoch(), 0);
}

#[test]
fn claimed_slot_survives_other_transaction() {
    let mut h: Heap<u64> = Heap::new(4);
    let mut s = h.session();
    let mut other = Session::new(&mut h, SessionBehaviour::ClearOnExit);
    let mut t1 = s.transaction(&mut h);
    let mut t2 = other.transaction(&mut h);
    let a = t1.insert(&mut h, &mut s, Box::new(1));
    let b = t2.insert(&mut h, &mut other, Box::new(2));
    assert_ne!(a, b);
    assert!(t2.apply(&mut h));
    // t1's claim on its slot is untouched by t2's commit
    assert!(h.is_claimed(a));
    assert!(t1.apply(&mut h));
    t2.finish(&mut h, &mut other);
    t1.finish(&mut h, &mut s);
    let txn = s.transaction(&mut h);
    assert_eq!(*txn.borrow(&h, a).unwrap(), 1);
    assert_eq!(*txn.borrow(&h, b).unwrap(), 2);
    txn.finish(&mut h, &mut s);
}

#[test]
fn failed_transaction_releases_its_insertions() {
    let mut h: Heap<u64> = Heap::new(4);
    let mut s = h.session();
    let mut txn = s.transaction(&mut h);
    let a = txn.insert(&mut h, &mut s, Box::new(1));
    assert!(txn.apply(&mut h));
    txn.finish(&mut h, &mut s);

    let mut other = Session::new(&mut h, SessionBehaviour::ClearOnExit);
    let mut t1 = s.transaction(&mut h);
    let mut t2 = other.transaction(&mut h);
    let stale = t1.read(&h, a).unwrap();
    let r2 = t2.read(&h, a).unwrap();
    t2.update(&mut h, r2, Box::new(2));
    assert!(t2.apply(&mut h));
    // t1 updates from a stale read, then inserts
    t1.update(&mut h, stale, Box::new(3));
    let b = t1.insert(&mut h, &mut s, Box::new(4));
    assert!(h.is_claimed(b));
    assert!(!t1.apply(&mut h));
    assert!(!h.is_claimed(b));
    t2.finish(&mut h, &mut other);
    t1.finish(&mut h, &mut s);

    let txn = s.transaction(&mut h);
    assert!(txn.borrow(&h, b).is_none());
    assert_eq!(*txn.borrow(&h, a).unwrap(), 2);
    txn.finish(&mut h, &mut s);
}

#[test]
fn handle_stays_stored_while_reader_is_inside() {
    let mut h: Heap<u64> = Heap::new(4);
    let mut writer = h.session();
    let mut reader = h.session();
    let mut txn = writer.transaction(&mut h);
    let a = txn.insert(&mut h, &mut writer, Box::new(1));
    assert!(txn.apply(&mut h));
    txn.finish(&mut h, &mut writer);
    assert_eq!(h.epoch(), 1);

    let inside = reader.transaction(&mut h);
    let handle = inside.read(&h, a).unwrap();
    let word = handle.word();

    let mut txn = writer.transaction(&mut h);
    let r = txn.read(&h, a).unwrap();
    txn.update(&mut h, r, Box::new(2));
    assert!(txn.apply(&mut h));
    txn.finish(&mut h, &mut writer);
    for _ in 0..5 {
        let txn = writer.transaction(&mut h);
        txn.finish(&mut h, &mut writer);
        // the reader is inside and not quiet: the epoch cannot move
        assert_eq!(h.epoch(), 1);
        assert!(h.holds(word));
        assert_eq!(*handle.deref(&h), 1);
    }
    assert_eq!(writer.deferred_len(), 1);

    inside.finish(&mut h, &mut reader);
    assert_eq!(h.epoch(), 2);
    let txn = writer.transaction(&mut h);
    txn.finish(&mut h, &mut writer);
    let txn = reader.transaction(&mut h);
    txn.finish(&mut h, &mut reader);
    assert_eq!(h.epoch(), 3);
    let txn = writer.transaction(&mut h);
    txn.finish(&mut h, &mut writer);
    assert_eq!(writer.deferred_len(), 0);
    assert!(!h.holds(word));
}

#[test]
fn delete_then_read_is_empty_and_address_is_reused() {
    let mut h: Heap<u64> = Heap::new(4);
    let mut s = h.session();
    let mut txn = s.transaction(&mut h);
    let a = txn.insert(&mut h, &mut s, Box::new(1));
    let b = txn.insert(&mut h, &mut s, Box::new(2));
    assert!(txn.apply(&mut h));
    txn.finish(&mut h, &mut s);
    let mut txn = s.transaction(&mut h);
    txn.delete(&h, a);
    assert!(txn.apply(&mut h));
    txn.finish(&mut h, &mut s);
    let mut txn = s.transaction(&mut h);
    assert!(txn.read(&h, a).is_none());
    assert_eq!(*txn.borrow(&h, b).unwrap(), 2);
    let c = txn.insert(&mut h, &mut s, Box::new(3));
    assert_eq!(c, a);
    assert!(txn.apply(&mut h));
    txn.finish(&mut h, &mut s);
}
