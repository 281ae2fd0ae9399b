use boost_checkpoint::address::Address;
use boost_checkpoint::rotation::{close_prior, entry_of, Entry, RotationAction, RotationPhase};
use boost_checkpoint::tables::{Lifecycle, Table};

fn addr(n: u8) -> Address {
    Address { bytes: [n; 32] }
}

fn active(n: u8) -> Entry {
    Entry { address: addr(n), state: Lifecycle::Active }
}

fn actives(n: u8) -> Vec<Entry> {
    (1..=n).map(active).collect()
}

fn addresses(from: u8, to: u8) -> Vec<Address> {
    (from..=to).map(addr).collect()
}

#[test]
fn rotation_of_no_tables_does_nothing() {
    let r = close_prior(Vec::new(), addr(9), 10, 500, 300);
    assert_eq!(r.phase(), RotationPhase::Finished);
    assert!(matches!(r.next_action(0), RotationAction::Finished { failures: 0 }));
    assert!(r.survivors().is_empty());
}

#[test]
fn rotation_deactivates_waits_closes_and_clears() {
    let authority = addr(99);
    let mut r = close_prior(actives(3), authority, 2, 500, 300);
    assert_eq!(r.phase(), RotationPhase::Deactivating);
    match r.next_action(1000) {
        RotationAction::Deactivate { tables, instructions } => {
            assert_eq!(tables, addresses(1, 2));
            assert_eq!(instructions.len(), 2);
            assert_eq!(instructions[0].accounts[0].address, addr(1));
            assert_eq!(instructions[1].accounts[0].address, addr(2));
            assert_eq!(instructions[0].accounts[1].address, authority);
        },
        other => panic!("unexpected action {:?}", other),
    }
    r = r.record(1000, true);
    match r.next_action(1001) {
        RotationAction::Deactivate { tables, .. } => assert_eq!(tables, vec![addr(3)]),
        other => panic!("unexpected action {:?}", other),
    }
    r = r.record(1010, true);
    assert_eq!(r.phase(), RotationPhase::Closing);
    assert_eq!(
        r.entries(),
        vec![
            Entry { address: addr(1), state: Lifecycle::Deactivating { since: 1000 } },
            Entry { address: addr(2), state: Lifecycle::Deactivating { since: 1000 } },
            Entry { address: addr(3), state: Lifecycle::Deactivating { since: 1010 } },
        ]
    );
    // the first group was deactivated at 1000: too early at 1499, due at 1500
    assert!(matches!(r.next_action(1011), RotationAction::Wait { seconds: 300 }));
    assert!(matches!(r.next_action(1499), RotationAction::Wait { seconds: 300 }));
    match r.next_action(1500) {
        RotationAction::Close { tables, instructions } => {
            assert_eq!(tables, addresses(1, 2));
            assert_eq!(instructions.len(), 2);
            assert_eq!(instructions[0].accounts.len(), 3);
            assert_eq!(instructions[0].accounts[2].address, authority);
        },
        other => panic!("unexpected action {:?}", other),
    }
    r = r.record(1500, true);
    // the second group was deactivated at 1010
    assert!(matches!(r.next_action(1509), RotationAction::Wait { .. }));
    match r.next_action(1510) {
        RotationAction::Close { tables, .. } => assert_eq!(tables, vec![addr(3)]),
        other => panic!("unexpected action {:?}", other),
    }
    r = r.record(1510, true);
    assert_eq!(r.phase(), RotationPhase::Recording);
    match r.next_action(1511) {
        RotationAction::Record { survivors } => assert!(survivors.is_empty()),
        other => panic!("unexpected action {:?}", other),
    }
    r = r.record(1511, true);
    assert_eq!(r.phase(), RotationPhase::Finished);
    assert!(matches!(r.next_action(1512), RotationAction::Finished { failures: 0 }));
    assert_eq!(r.failures(), 0);
}

#[test]
fn close_is_never_asked_for_before_the_cooldown() {
    let mut r = close_prior(actives(1), addr(99), 10, 500, 300);
    r = r.record(7000, true);
    for now in [0u64, 6999, 7000, 7001, 7499] {
        assert!(matches!(r.next_action(now), RotationAction::Wait { seconds: 300 }));
    }
    assert!(matches!(r.next_action(7500), RotationAction::Close { .. }));
    assert!(matches!(r.next_action(u64::MAX), RotationAction::Close { .. }));
}

#[test]
fn a_group_waits_for_the_table_that_was_deactivated_last() {
    let entries = vec![
        Entry { address: addr(1), state: Lifecycle::Deactivating { since: 100 } },
        Entry { address: addr(2), state: Lifecycle::Deactivating { since: 400 } },
    ];
    let r = close_prior(entries, addr(99), 10, 500, 60);
    assert_eq!(r.phase(), RotationPhase::Closing);
    assert!(matches!(r.next_action(600), RotationAction::Wait { seconds: 60 }));
    assert!(matches!(r.next_action(899), RotationAction::Wait { seconds: 60 }));
    match r.next_action(900) {
        RotationAction::Close { tables, .. } => assert_eq!(tables, addresses(1, 2)),
        other => panic!("unexpected action {:?}", other),
    }
}

#[test]
fn a_rotation_that_broke_off_is_taken_up_from_what_the_ledger_says() {
    let entries = vec![
        Entry { address: addr(1), state: Lifecycle::Closed },
        Entry { address: addr(2), state: Lifecycle::Deactivating { since: 50 } },
        Entry { address: addr(3), state: Lifecycle::Active },
        Entry { address: addr(4), state: Lifecycle::Deactivating { since: 60 } },
    ];
    let mut r = close_prior(entries, addr(99), 2, 500, 300);
    // only the table that is still active is deactivated
    assert_eq!(r.phase(), RotationPhase::Deactivating);
    match r.next_action(1000) {
        RotationAction::Deactivate { tables, instructions } => {
            assert_eq!(tables, vec![addr(3)]);
            assert_eq!(instructions.len(), 1);
        },
        other => panic!("unexpected action {:?}", other),
    }
    r = r.record(1000, true);
    assert_eq!(r.phase(), RotationPhase::Closing);
    // the table deactivated before the break is closed without more waiting
    match r.next_action(1001) {
        RotationAction::Close { tables, .. } => assert_eq!(tables, vec![addr(2)]),
        other => panic!("unexpected action {:?}", other),
    }
    r = r.record(1001, true);
    // the second group holds the table deactivated just now
    assert!(matches!(r.next_action(1002), RotationAction::Wait { .. }));
    match r.next_action(1500) {
        RotationAction::Close { tables, .. } => assert_eq!(tables, addresses(3, 4)),
        other => panic!("unexpected action {:?}", other),
    }
    r = r.record(1500, true);
    match r.next_action(1501) {
        RotationAction::Record { survivors } => assert!(survivors.is_empty()),
        other => panic!("unexpected action {:?}", other),
    }
}

#[test]
fn tables_that_are_gone_are_taken_off_the_record() {
    let entries = vec![
        Entry { address: addr(1), state: Lifecycle::Closed },
        Entry { address: addr(2), state: Lifecycle::Closed },
    ];
    let mut r = close_prior(entries, addr(99), 10, 500, 300);
    assert_eq!(r.phase(), RotationPhase::Recording);
    match r.next_action(5) {
        RotationAction::Record { survivors } => assert!(survivors.is_empty()),
        other => panic!("unexpected action {:?}", other),
    }
    r = r.record(5, true);
    assert!(matches!(r.next_action(6), RotationAction::Finished { failures: 0 }));
}

#[test]
fn tables_that_were_not_deactivated_are_not_closed_and_stay_on_record() {
    let mut r = close_prior(actives(4), addr(99), 2, 10, 5);
    r = r.record(100, false);
    r = r.record(100, true);
    assert_eq!(r.phase(), RotationPhase::Closing);
    assert_eq!(r.failures(), 1);
    match r.next_action(200) {
        RotationAction::Close { tables, .. } => assert_eq!(tables, addresses(3, 4)),
        other => panic!("unexpected action {:?}", other),
    }
    r = r.record(200, true);
    match r.next_action(201) {
        RotationAction::Record { survivors } => assert_eq!(survivors, addresses(1, 2)),
        other => panic!("unexpected action {:?}", other),
    }
    assert_eq!(r.survivors(), addresses(1, 2));
    r = r.record(201, true);
    assert!(matches!(r.next_action(202), RotationAction::Finished { failures: 1 }));
}

#[test]
fn a_close_that_fails_is_counted_and_its_tables_stay_on_record() {
    let mut r = close_prior(actives(3), addr(99), 1, 10, 5);
    r = r.record(100, true);
    r = r.record(100, true);
    r = r.record(100, true);
    r = r.record(200, true);
    r = r.record(200, false);
    r = r.record(200, true);
    assert_eq!(r.phase(), RotationPhase::Recording);
    assert_eq!(r.survivors(), vec![addr(2)]);
    r = r.record(201, false);
    assert_eq!(r.phase(), RotationPhase::Finished);
    assert_eq!(r.failures(), 2);
    let same = r.record(300, false);
    assert_eq!(same.failures(), 2);
}

#[test]
fn nothing_deactivated_means_nothing_to_close() {
    let mut r = close_prior(actives(2), addr(99), 1, 10, 5);
    r = r.record(100, false);
    r = r.record(100, false);
    assert_eq!(r.phase(), RotationPhase::Recording);
    assert_eq!(r.survivors(), addresses(1, 2));
    assert_eq!(r.failures(), 2);
}

#[test]
fn a_table_that_the_ledger_does_not_hold_counts_as_closed() {
    assert_eq!(entry_of(addr(1), &None), Entry { address: addr(1), state: Lifecycle::Closed });
    let leaving = Table { address: addr(2), addresses: vec![addr(7)], state: Lifecycle::Deactivating { since: 4 } };
    assert_eq!(
        entry_of(addr(2), &Some(leaving)),
        Entry { address: addr(2), state: Lifecycle::Deactivating { since: 4 } }
    );
    let open = Table { address: addr(3), addresses: Vec::new(), state: Lifecycle::Active };
    assert_eq!(entry_of(addr(3), &Some(open)).state, Lifecycle::Active);
}
