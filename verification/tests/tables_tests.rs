use boost_checkpoint::address::Address;
use boost_checkpoint::opening::{open_new, OpenAction, OpeningPhase};
use boost_checkpoint::registry::encode_record;
use boost_checkpoint::tables::{
    active_tables, holds, plan_sync, tabled, Fill, Lifecycle, SyncPlan, Table,
};

fn addr(n: u64) -> Address {
    let mut bytes = [0u8; 32];
    bytes[..8].copy_from_slice(&n.to_le_bytes());
    bytes[31] = 7;
    Address { bytes }
}

fn range(from: u64, to: u64) -> Vec<Address> {
    (from..to).map(addr).collect()
}

#[test]
fn membership_is_by_bytes() {
    let list = range(0, 5);
    assert!(holds(&list, &addr(3)));
    assert!(!holds(&list, &addr(5)));
    let tables = vec![Table { address: addr(100), addresses: range(0, 5), state: Lifecycle::Active }, Table { address: addr(101), addresses: range(5, 8), state: Lifecycle::Active }];
    assert!(tabled(&tables, &addr(7)));
    assert!(!tabled(&tables, &addr(8)));
    assert!(!tabled(&Vec::new(), &addr(0)));
}

#[test]
fn only_active_tables_take_part_in_a_sync() {
    let tables = vec![
        Table { address: addr(1000), addresses: range(0, 3), state: Lifecycle::Deactivating { since: 9 } },
        Table { address: addr(1001), addresses: range(3, 5), state: Lifecycle::Active },
        Table { address: addr(1002), addresses: range(5, 6), state: Lifecycle::Closed },
    ];
    let active = active_tables(&tables);
    assert_eq!(active.len(), 1);
    assert_eq!(active[0].address, addr(1001));
    assert_eq!(active[0].addresses, range(3, 5));
    // what the table on its way out holds is given another place
    let plan = plan_sync(&active, &range(0, 6), 4);
    assert_eq!(plan.fills.len(), 1);
    assert_eq!(plan.fills[0].table, addr(1001));
    assert_eq!(plan.fills[0].additions, range(0, 2));
    assert_eq!(plan.fresh, vec![vec![addr(2), addr(5)]]);
    assert!(active_tables(&Vec::new()).is_empty());
}

#[test]
fn no_participants_need_no_table() {
    let plan = plan_sync(&Vec::new(), &Vec::new(), 256);
    assert!(plan.fills.is_empty());
    assert!(plan.fresh.is_empty());
    let (state, action) = open_new(plan, addr(1), 26, 10, 5);
    assert_eq!(state.phase(), OpeningPhase::Finished);
    match action {
        OpenAction::Finished { failures, opened } => {
            assert_eq!(failures, 0);
            assert!(opened.is_empty());
        },
        other => panic!("unexpected action {:?}", other),
    }
}

#[test]
fn participants_that_are_tabled_need_nothing() {
    let tables = vec![Table { address: addr(100), addresses: range(0, 10), state: Lifecycle::Active }];
    let plan = plan_sync(&tables, &range(2, 9), 256);
    assert!(plan.fills.is_empty());
    assert!(plan.fresh.is_empty());
}

#[test]
fn three_hundred_new_participants_fill_two_new_tables() {
    let plan = plan_sync(&Vec::new(), &range(0, 300), 256);
    assert!(plan.fills.is_empty());
    assert_eq!(plan.fresh.len(), 2);
    assert_eq!(plan.fresh[0], range(0, 256));
    assert_eq!(plan.fresh[1], range(256, 300));
}

#[test]
fn tables_with_room_are_filled_first_in_registry_order() {
    let tables = vec![
        Table { address: addr(1000), addresses: range(0, 254), state: Lifecycle::Active },
        Table { address: addr(1001), addresses: range(254, 510), state: Lifecycle::Active },
        Table { address: addr(1002), addresses: range(510, 760), state: Lifecycle::Active },
    ];
    let mut participants = range(0, 760);
    participants.extend(range(2000, 2300));
    let plan = plan_sync(&tables, &participants, 256);
    assert_eq!(plan.fills.len(), 2);
    assert_eq!(plan.fills[0].table, addr(1000));
    assert_eq!(plan.fills[0].additions, range(2000, 2002));
    assert_eq!(plan.fills[1].table, addr(1002));
    assert_eq!(plan.fills[1].additions, range(2002, 2008));
    assert_eq!(plan.fresh.len(), 2);
    assert_eq!(plan.fresh[0], range(2008, 2264));
    assert_eq!(plan.fresh[1], range(2264, 2300));
    // once the plan is carried out no table is over capacity and none shares an address
    let mut sizes = vec![254 + 2, 256, 250 + 6];
    sizes.extend(plan.fresh.iter().map(|t| t.len()));
    assert!(sizes.iter().all(|n| *n <= 256));
    let mut all: Vec<Address> = tables.iter().flat_map(|t| t.addresses.clone()).collect();
    all.extend(plan.fills.iter().flat_map(|f| f.additions.clone()));
    all.extend(plan.fresh.iter().flatten().cloned());
    let before = all.len();
    all.sort_by_key(|a| a.bytes);
    all.dedup();
    assert_eq!(all.len(), before);
    assert_eq!(before, 760 + 300);
}

#[test]
fn a_participant_named_twice_is_tabled_once() {
    let participants = vec![addr(1), addr(2), addr(1), addr(3), addr(2)];
    let plan = plan_sync(&Vec::new(), &participants, 2);
    assert_eq!(plan.fresh, vec![vec![addr(1), addr(2)], vec![addr(3)]]);
}

#[test]
fn a_table_that_is_full_or_over_takes_nothing() {
    let tables = vec![
        Table { address: addr(1000), addresses: range(0, 4), state: Lifecycle::Active },
        Table { address: addr(1001), addresses: range(4, 9), state: Lifecycle::Active },
        Table { address: addr(1002), addresses: range(9, 10), state: Lifecycle::Active },
    ];
    let plan = plan_sync(&tables, &range(20, 24), 4);
    assert_eq!(plan.fills.len(), 1);
    assert_eq!(plan.fills[0].table, addr(1002));
    assert_eq!(plan.fills[0].additions, range(20, 23));
    assert_eq!(plan.fresh, vec![vec![addr(23)]]);
}

#[test]
fn a_new_table_is_created_recorded_settled_and_then_filled() {
    let authority = addr(77);
    let plan = plan_sync(&Vec::new(), &range(0, 60), 256);
    let (mut state, mut action) = open_new(plan, authority, 26, 10, 4242);
    assert_eq!(state.phase(), OpeningPhase::Creating);
    let table = match action {
        OpenAction::Create { table, instruction } => {
            let (theirs, address) = solana_sdk::address_lookup_table::instruction::create_lookup_table(
                solana_sdk::pubkey::Pubkey::new_from_array(authority.bytes),
                solana_sdk::pubkey::Pubkey::new_from_array(authority.bytes),
                4242,
            );
            assert_eq!(table.bytes, address.to_bytes());
            assert_eq!(instruction.data, theirs.data);
            assert_eq!(instruction.accounts.len(), 4);
            assert_eq!(instruction.accounts[0].address, table);
            assert_eq!(instruction.accounts[1].address, authority);
            assert_ne!(table, authority);
            table
        },
        other => panic!("unexpected action {:?}", other),
    };
    (state, action) = state.step(4243, true);
    assert_eq!(state.phase(), OpeningPhase::Persisting);
    match action {
        OpenAction::Persist { table: t, record } => {
            assert_eq!(t, table);
            assert_eq!(record, encode_record(&table));
        },
        other => panic!("unexpected action {:?}", other),
    }
    (state, action) = state.step(4244, true);
    assert_eq!(state.phase(), OpeningPhase::Settling);
    assert!(matches!(action, OpenAction::Wait { seconds: 10 }));
    let mut added: Vec<Address> = Vec::new();
    let mut sizes = Vec::new();
    (state, action) = state.step(4250, true);
    loop {
        match action {
            OpenAction::Extend { table: t, addresses, instruction } => {
                assert_eq!(state.phase(), OpeningPhase::Extending);
                assert_eq!(t, table);
                let key = |a: &Address| solana_sdk::pubkey::Pubkey::new_from_array(a.bytes);
                let theirs = solana_sdk::address_lookup_table::instruction::extend_lookup_table(
                    key(&table),
                    key(&authority),
                    Some(key(&authority)),
                    addresses.iter().map(key).collect(),
                );
                assert_eq!(instruction.data, theirs.data);
                assert_eq!(instruction.accounts.len(), theirs.accounts.len());
                assert_eq!(instruction.program_id.bytes, theirs.program_id.to_bytes());
                assert_eq!(instruction.accounts[0].address, table);
                assert_eq!(instruction.accounts[1].address, authority);
                assert_eq!(instruction.accounts[2].address, authority);
                sizes.push(addresses.len());
                added.extend(addresses);
            },
            OpenAction::Finished { failures, opened } => {
                assert_eq!(failures, 0);
                assert_eq!(opened, vec![table]);
                break;
            },
            other => panic!("unexpected action {:?}", other),
        }
        (state, action) = state.step(4251, true);
    }
    assert_eq!(sizes, vec![26, 26, 8]);
    assert_eq!(added, range(0, 60));
    assert_eq!(state.failures(), 0);
}

#[test]
fn a_table_that_could_not_be_recorded_is_not_filled() {
    let plan = plan_sync(&Vec::new(), &range(0, 5), 3);
    assert_eq!(plan.fresh.len(), 2);
    let (mut state, mut action) = open_new(plan, addr(77), 2, 10, 100);
    let first = match action {
        OpenAction::Create { table, .. } => table,
        other => panic!("unexpected action {:?}", other),
    };
    (state, action) = state.step(101, true);
    assert!(matches!(action, OpenAction::Persist { .. }));
    // the registry could not be written: go on with the next table, at another slot
    (state, action) = state.step(102, false);
    let second = match action {
        OpenAction::Create { table, .. } => table,
        other => panic!("unexpected action {:?}", other),
    };
    assert_ne!(first, second);
    (state, action) = state.step(103, true);
    (state, action) = match action {
        OpenAction::Persist { table, .. } => {
            assert_eq!(table, second);
            state.step(104, true)
        },
        other => panic!("unexpected action {:?}", other),
    };
    assert!(matches!(action, OpenAction::Wait { .. }));
    (state, action) = state.step(105, true);
    match action {
        OpenAction::Extend { table, addresses, .. } => {
            assert_eq!(table, second);
            assert_eq!(addresses, range(3, 5));
        },
        other => panic!("unexpected action {:?}", other),
    }
    (_, action) = state.step(106, true);
    match action {
        OpenAction::Finished { failures, opened } => {
            assert_eq!(failures, 1);
            assert_eq!(opened, vec![second]);
        },
        other => panic!("unexpected action {:?}", other),
    }
}

#[test]
fn a_table_that_could_not_be_created_is_passed_over() {
    let plan = plan_sync(&Vec::new(), &range(0, 2), 256);
    let (state, _) = open_new(plan, addr(77), 26, 10, 100);
    let (state, action) = state.step(101, false);
    assert_eq!(state.phase(), OpeningPhase::Finished);
    assert!(matches!(action, OpenAction::Finished { failures: 1, .. }));
}

#[test]
fn an_existing_table_is_extended_at_once_and_failures_are_counted() {
    let plan = SyncPlan {
        fills: vec![
            Fill { table: addr(500), additions: range(0, 5) },
            Fill { table: addr(501), additions: Vec::new() },
            Fill { table: addr(502), additions: range(5, 6) },
        ],
        fresh: Vec::new(),
    };
    let (mut state, mut action) = open_new(plan, addr(77), 2, 10, 100);
    let mut seen = Vec::new();
    let mut round = 0;
    loop {
        match action {
            OpenAction::Extend { table, addresses, .. } => seen.push((table, addresses)),
            OpenAction::Finished { failures, opened } => {
                assert_eq!(failures, 1);
                assert!(opened.is_empty());
                break;
            },
            other => panic!("unexpected action {:?}", other),
        }
        (state, action) = state.step(100, round != 1);
        round += 1;
    }
    assert_eq!(
        seen,
        vec![
            (addr(500), range(0, 2)),
            (addr(500), range(2, 4)),
            (addr(500), range(4, 5)),
            (addr(502), range(5, 6)),
        ]
    );
}
