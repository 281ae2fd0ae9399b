use boost_checkpoint::account::{
    collect_participants, confirm_checkpoint, participants_from, read_checkpoint, read_clock,
    read_table, stake_filters, ClockReading, RawAccount,
};
use boost_checkpoint::tables::Lifecycle;
use boost_checkpoint::address::Address;
use boost_checkpoint::config::{
    check_bundle, get_async_client, helius_cluster, Cluster, Config, Fault, Limits,
};
use boost_checkpoint::controller::{
    check_for_time, run, time_to_wait, Action, Controller, Event, Phase, Resume, Stage,
};
use boost_checkpoint::error::{Error, Failure};
use boost_checkpoint::ledger::pool_addresses;
use boost_checkpoint::registry::registry_path;
use boost_checkpoint::stake::{Checkpoint, Participant};
use boost_checkpoint::submit::Strategy;

fn addr(n: u64) -> Address {
    let mut bytes = [0u8; 32];
    bytes[..8].copy_from_slice(&n.to_le_bytes());
    bytes[31] = 3;
    Address { bytes }
}

fn participant(id: u64) -> Participant {
    Participant { address: addr(id), id }
}

fn config() -> Config {
    Config {
        interval: 3600,
        poll_cap: 3600,
        backoff: 10,
        group_size: 10,
        units_per_account: 1000,
        strategy: Strategy::Bundled { size: 4 },
        table_capacity: 256,
        extend_size: 26,
        close_size: 10,
        settle: 10,
        cooldown: 500,
        cooldown_pause: 300,
    }
}

fn limits() -> Limits {
    Limits {
        accounts_per_transaction: 38,
        compute_units: 1_400_000,
        transactions_per_bundle: 5,
        addresses_per_table: 256,
        addresses_per_extend: 30,
        tables_per_transaction: 20,
    }
}

fn warm(last_rebase_time: i64, participants: Vec<Participant>) -> Controller {
    let c = Controller::new(config(), &limits(), addr(900), addr(901)).unwrap();
    let (c, a) = run(c, Event::Started);
    assert!(matches!(a, Action::FetchCheckpoint));
    let (c, a) = run(c, Event::Checkpoint(Some(Checkpoint { last_rebase_time, cursor: 0 })));
    assert!(matches!(a, Action::FetchParticipants));
    let (c, a) = run(c, Event::Participants(Some(participants)));
    assert!(matches!(a, Action::Sync { .. }));
    let (c, a) = run(c, Event::Synced { failures: 0 });
    assert!(matches!(a, Action::FetchClock));
    assert_eq!(c.stage(), Stage::AwaitClock);
    c
}

#[test]
fn interval_check_is_elapsed_against_threshold() {
    let cp = Checkpoint { last_rebase_time: 10_000, cursor: 0 };
    assert_eq!(check_for_time(10_000 + 1800, &cp, 3600), Err(Error::ClockStillTicking));
    assert_eq!(check_for_time(10_000 + 3599, &cp, 3600), Err(Error::ClockStillTicking));
    assert_eq!(check_for_time(10_000 + 3600, &cp, 3600), Ok(()));
    assert_eq!(check_for_time(10_000 + 99_999, &cp, 3600), Ok(()));
    let far = Checkpoint { last_rebase_time: i64::MIN, cursor: 0 };
    assert_eq!(check_for_time(i64::MAX, &far, i64::MAX), Ok(()));
    let ahead = Checkpoint { last_rebase_time: i64::MAX, cursor: 0 };
    assert_eq!(check_for_time(i64::MIN, &ahead, 0), Err(Error::ClockStillTicking));
}

#[test]
fn wait_is_what_is_left_of_the_interval_capped() {
    let cp = Checkpoint { last_rebase_time: 10_000, cursor: 0 };
    assert_eq!(time_to_wait(11_800, &cp, 3600, 3600), 1800);
    assert_eq!(time_to_wait(11_800, &cp, 3600, 60), 60);
    assert_eq!(time_to_wait(13_599, &cp, 3600, 60), 1);
    assert_eq!(time_to_wait(13_600, &cp, 3600, 60), 0);
    assert_eq!(time_to_wait(20_000, &cp, 3600, 60), 0);
    let ahead = Checkpoint { last_rebase_time: i64::MAX, cursor: 0 };
    assert_eq!(time_to_wait(i64::MIN, &ahead, i64::MAX, u64::MAX), u64::MAX);
}

#[test]
fn halfway_through_the_interval_the_agent_backs_off_and_submits_nothing() {
    let now = 1_700_000_000i64;
    let c = warm(now - 1800, vec![participant(0), participant(1)]);
    let (c, a) = run(c, Event::Clock(Some(now)));
    assert_eq!(c.stage(), Stage::Sleeping { resume: Resume::AwaitInterval });
    assert_eq!(c.stage().loop_state(), Phase::Backoff);
    match a {
        Action::Sleep { seconds, cause } => {
            assert_eq!(seconds, 1800);
            assert_eq!(cause, Failure::IntervalNotElapsed);
            assert!(!cause.is_fault());
        },
        other => panic!("unexpected action {:?}", other),
    }
    assert_eq!(c.pending(), 0);
    let (c, a) = run(c, Event::Woke);
    assert!(matches!(a, Action::FetchClock));
    assert_eq!(c.stage().loop_state(), Phase::AwaitInterval);
}

#[test]
fn no_participants_give_one_default_rebase_and_no_table_work() {
    let now = 1_700_000_000i64;
    let c = warm(now - 4000, Vec::new());
    let (c, a) = run(c, Event::Clock(Some(now)));
    assert!(matches!(a, Action::FetchCheckpoint));
    assert_eq!(c.stage().loop_state(), Phase::Reconcile);
    let (c, a) = run(c, Event::Checkpoint(Some(Checkpoint { last_rebase_time: now - 4000, cursor: 0 })));
    assert!(matches!(a, Action::FetchParticipants));
    // the interval is the one the tables were synced for: no sync again
    let (c, a) = run(c, Event::Participants(Some(Vec::new())));
    assert_eq!(c.stage(), Stage::Submitting);
    match a {
        Action::Submit { transactions } => {
            assert_eq!(transactions.len(), 1);
            assert_eq!(transactions[0].instructions.len(), 1);
            assert_eq!(transactions[0].instructions[0].accounts[5].address, Address::default_address());
        },
        other => panic!("unexpected action {:?}", other),
    }
    assert_eq!(c.pending(), 0);
    let (c, a) = run(c, Event::Submitted(Ok(())));
    assert!(matches!(a, Action::Rotate));
    assert_eq!(c.stage().loop_state(), Phase::Rotate);
    // tables for the next interval: none are needed for no participants
    let (c, a) = run(c, Event::Rotated { failures: 0 });
    assert!(matches!(a, Action::FetchParticipants));
    assert_eq!(c.stage().loop_state(), Phase::Rotate);
    let (c, a) = run(c, Event::Participants(Some(Vec::new())));
    match a {
        Action::Sync { participants } => assert!(participants.is_empty()),
        other => panic!("unexpected action {:?}", other),
    }
    let (c, a) = run(c, Event::Synced { failures: 0 });
    assert!(matches!(a, Action::FetchClock));
    assert_eq!(c.stage().loop_state(), Phase::AwaitInterval);
}

#[test]
fn a_new_interval_syncs_the_tables_before_submitting() {
    let now = 1_700_000_000i64;
    let c = warm(now - 9000, vec![participant(0)]);
    let (c, _) = run(c, Event::Clock(Some(now)));
    let (c, _) = run(c, Event::Checkpoint(Some(Checkpoint { last_rebase_time: now - 4000, cursor: 1 })));
    let all: Vec<Participant> = (0..25).rev().map(participant).collect();
    let (c, a) = run(c, Event::Participants(Some(all)));
    assert_eq!(c.stage(), Stage::ReconcileSync);
    match a {
        Action::Sync { participants } => assert_eq!(participants.len(), 25),
        other => panic!("unexpected action {:?}", other),
    }
    let (mut c, mut a) = run(c, Event::Synced { failures: 0 });
    // ids 1..25 remain: 24 accounts, in tens, one bundle of three transactions
    assert_eq!(c.pending(), 0);
    let mut next = 1u64;
    loop {
        match a {
            Action::Submit { transactions } => {
                let sizes: Vec<usize> = transactions.iter().map(|t| t.instructions.len()).collect();
                assert_eq!(sizes, vec![10, 10, 4]);
                for tx in &transactions {
                    for ix in &tx.instructions {
                        assert_eq!(ix.accounts[5].address, addr(next));
                        next += 1;
                    }
                }
            },
            Action::Rotate => break,
            other => panic!("unexpected action {:?}", other),
        }
        (c, a) = run(c, Event::Submitted(Ok(())));
    }
    assert_eq!(next, 25);
}

#[test]
fn a_failed_submission_leads_back_to_reconcile() {
    let now = 1_700_000_000i64;
    let all: Vec<Participant> = (0..100).map(participant).collect();
    let c = warm(now - 4000, all.clone());
    let (c, _) = run(c, Event::Clock(Some(now)));
    let (c, _) = run(c, Event::Checkpoint(Some(Checkpoint { last_rebase_time: now - 4000, cursor: 0 })));
    let (c, a) = run(c, Event::Participants(Some(all.clone())));
    assert!(matches!(a, Action::Submit { .. }));
    assert_eq!(c.pending(), 2);
    let (c, a) = run(c, Event::Submitted(Ok(())));
    assert!(matches!(a, Action::Submit { .. }));
    let (c, a) = run(c, Event::Submitted(Err(Failure::ResourceRejected)));
    assert_eq!(c.stage(), Stage::Sleeping { resume: Resume::Reconcile });
    assert!(matches!(a, Action::Sleep { seconds: 10, cause: Failure::ResourceRejected }));
    let (c, a) = run(c, Event::Woke);
    assert!(matches!(a, Action::FetchCheckpoint));
    // the ledger got as far as id 40
    let (c, _) = run(c, Event::Checkpoint(Some(Checkpoint { last_rebase_time: now - 4000, cursor: 40 })));
    let (c, a) = run(c, Event::Participants(Some(all)));
    match a {
        Action::Submit { transactions } => {
            assert_eq!(transactions.len(), 4);
            assert_eq!(transactions[0].instructions[0].accounts[5].address, addr(40));
        },
        other => panic!("unexpected action {:?}", other),
    }
    assert_eq!(c.pending(), 1);
}

#[test]
fn a_cycle_completed_by_someone_else_sends_the_agent_back_to_wait() {
    let now = 1_700_000_000i64;
    let c = warm(now - 4000, vec![participant(0)]);
    let (c, _) = run(c, Event::Clock(Some(now)));
    let (c, a) = run(c, Event::Checkpoint(Some(Checkpoint { last_rebase_time: now - 5, cursor: 0 })));
    assert_eq!(c.stage(), Stage::Sleeping { resume: Resume::AwaitInterval });
    assert!(matches!(a, Action::Sleep { seconds: 3595, .. }));
}

#[test]
fn whatever_cannot_be_read_leads_to_a_pause() {
    let c = Controller::new(config(), &limits(), addr(900), addr(901)).unwrap();
    let (c, _) = run(c, Event::Started);
    let (c, a) = run(c, Event::Checkpoint(None));
    assert_eq!(c.stage(), Stage::Sleeping { resume: Resume::ColdStart });
    assert!(matches!(a, Action::Sleep { seconds: 10, cause: Failure::TransportFailure }));
    let (c, a) = run(c, Event::Woke);
    assert!(matches!(a, Action::FetchCheckpoint));
    let (c, _) = run(c, Event::Checkpoint(Some(Checkpoint { last_rebase_time: 0, cursor: 0 })));
    let (c, a) = run(c, Event::Participants(None));
    assert_eq!(c.stage(), Stage::Sleeping { resume: Resume::ColdStart });
    assert!(matches!(a, Action::Sleep { .. }));
    let c = warm(0, Vec::new());
    let (c, a) = run(c, Event::Clock(None));
    assert_eq!(c.stage(), Stage::Sleeping { resume: Resume::AwaitInterval });
    assert!(matches!(a, Action::Sleep { seconds: 10, .. }));
}

#[test]
fn failures_in_table_work_lead_to_a_pause() {
    let c = Controller::new(config(), &limits(), addr(900), addr(901)).unwrap();
    let (c, _) = run(c, Event::Started);
    let (c, _) = run(c, Event::Checkpoint(Some(Checkpoint { last_rebase_time: 0, cursor: 0 })));
    let (c, _) = run(c, Event::Participants(Some(Vec::new())));
    let (c, a) = run(c, Event::Synced { failures: 2 });
    assert_eq!(c.stage().loop_state(), Phase::Backoff);
    assert!(matches!(a, Action::Sleep { seconds: 10, cause: Failure::PartialBatchFailure }));
}

#[test]
fn settings_are_held_to_the_limits() {
    let l = limits();
    assert_eq!(config().validate(&l), Ok(()));
    assert_eq!(Config { interval: -1, ..config() }.validate(&l), Err(Fault::Interval));
    assert_eq!(Config { group_size: 0, ..config() }.validate(&l), Err(Fault::GroupSize));
    assert_eq!(Config { group_size: 39, ..config() }.validate(&l), Err(Fault::GroupSize));
    assert_eq!(Config { units_per_account: 140_001, ..config() }.validate(&l), Err(Fault::ComputeBudget));
    assert_eq!(Config { units_per_account: 140_000, ..config() }.validate(&l), Ok(()));
    assert_eq!(Config { strategy: Strategy::Bundled { size: 0 }, ..config() }.validate(&l), Err(Fault::EmptyBundle));
    assert_eq!(Config { strategy: Strategy::Bundled { size: 6 }, ..config() }.validate(&l), Err(Fault::BundleTooLarge));
    assert_eq!(Config { strategy: Strategy::Sequential, ..config() }.validate(&l), Ok(()));
    assert_eq!(Config { table_capacity: 257, ..config() }.validate(&l), Err(Fault::TableCapacity));
    assert_eq!(Config { table_capacity: 0, ..config() }.validate(&l), Err(Fault::TableCapacity));
    assert_eq!(Config { extend_size: 31, ..config() }.validate(&l), Err(Fault::ExtendSize));
    assert_eq!(Config { close_size: 0, ..config() }.validate(&l), Err(Fault::CloseSize));
    assert_eq!(Config { group_size: 0, close_size: 0, ..config() }.validate(&l), Err(Fault::GroupSize));
    assert!(matches!(
        Controller::new(Config { group_size: 0, ..config() }, &l, addr(1), addr(2)),
        Err(Fault::GroupSize)
    ));
}

#[test]
fn bundles_hold_one_to_five_transactions() {
    assert_eq!(check_bundle(0, 5), Err(Error::EmptyJitoBundle));
    assert_eq!(check_bundle(1, 5), Ok(()));
    assert_eq!(check_bundle(5, 5), Ok(()));
    assert_eq!(check_bundle(6, 5), Err(Error::TooManyTransactionsInJitoBundle));
    assert_eq!(check_bundle(0, 0), Err(Error::EmptyJitoBundle));
}

#[test]
fn clusters_go_by_three_names() {
    assert_eq!(helius_cluster("mainnet"), Ok(Cluster::MainnetBeta));
    assert_eq!(helius_cluster("mainnet-staked"), Ok(Cluster::StakedMainnetBeta));
    assert_eq!(helius_cluster("devnet"), Ok(Cluster::Devnet));
    assert_eq!(helius_cluster("testnet"), Err(Error::InvalidHeliusCluster));
    assert_eq!(helius_cluster(""), Err(Error::InvalidHeliusCluster));
    assert_eq!(helius_cluster("Mainnet"), Err(Error::InvalidHeliusCluster));
}

#[test]
fn a_client_without_connection_is_reported() {
    assert_eq!(get_async_client(Some(7u8)), Ok(7u8));
    assert_eq!(get_async_client(None::<u8>), Err(Error::MissingHeliusSolanaAsyncClient));
}

#[test]
fn failures_have_their_names() {
    assert_eq!(Error::InvalidHeliusCluster.message(), "invalid helius cluster");
    assert_eq!(Error::MissingHeliusSolanaAsyncClient.message(), "missing async solana client");
    assert_eq!(Error::InvalidPubkeyBytes.message(), "invalid pubkey bytes");
    assert_eq!(Error::ClockStillTicking.message(), "clock still ticking");
    assert_eq!(Error::UnconfirmedJitoBundle.message(), "unconfirmed jito bundle");
    assert_eq!(Error::TooManyTransactionsInJitoBundle.message(), "too many transactions in jito bundle");
    assert_eq!(Error::EmptyJitoBundle.message(), "empty jito bundle");
}

#[test]
fn failures_have_their_kinds() {
    assert_eq!(Error::ClockStillTicking.kind(), Failure::IntervalNotElapsed);
    assert_eq!(Error::InvalidPubkeyBytes.kind(), Failure::MalformedPersistedRecord);
    assert_eq!(Error::EmptyJitoBundle.kind(), Failure::ResourceRejected);
    assert_eq!(Error::TooManyTransactionsInJitoBundle.kind(), Failure::ResourceRejected);
    assert_eq!(Error::UnconfirmedJitoBundle.kind(), Failure::TransportFailure);
    assert_eq!(Error::InvalidHeliusCluster.kind(), Failure::TransportFailure);
    assert_eq!(Error::MissingHeliusSolanaAsyncClient.kind(), Failure::TransportFailure);
    assert!(!Failure::IntervalNotElapsed.is_fault());
    assert!(Failure::PartialBatchFailure.is_fault());
    assert!(Failure::MalformedPersistedRecord.is_fault());
}

#[test]
fn rotation_that_failed_in_part_leads_to_a_pause_and_then_to_the_interval_check() {
    let now = 1_700_000_000i64;
    let c = warm(now - 4000, Vec::new());
    let (c, _) = run(c, Event::Clock(Some(now)));
    let (c, _) = run(c, Event::Checkpoint(Some(Checkpoint { last_rebase_time: now - 4000, cursor: 0 })));
    let (c, _) = run(c, Event::Participants(Some(Vec::new())));
    let (c, a) = run(c, Event::Submitted(Ok(())));
    assert!(matches!(a, Action::Rotate));
    let (c, a) = run(c, Event::Rotated { failures: 1 });
    assert_eq!(c.stage(), Stage::Sleeping { resume: Resume::AwaitInterval });
    assert!(matches!(a, Action::Sleep { seconds: 10, cause: Failure::PartialBatchFailure }));
    let (c, a) = run(c, Event::Woke);
    assert!(matches!(a, Action::FetchClock));
    assert_eq!(c.stage(), Stage::AwaitClock);
}

#[test]
fn pool_and_checkpoint_addresses_are_those_of_the_program() {
    let mint = addr(5);
    let found = pool_addresses(&mint);
    let (pool, _) = ore_boost_api::state::boost_pda(solana_sdk::pubkey::Pubkey::new_from_array(mint.bytes));
    let (checkpoint, _) = ore_boost_api::state::checkpoint_pda(pool);
    assert_eq!(found.pool.bytes, pool.to_bytes());
    assert_eq!(found.checkpoint.bytes, checkpoint.to_bytes());
    assert_ne!(found.pool, mint);
    assert_ne!(found.checkpoint, found.pool);
}

#[test]
fn registry_path_is_root_slash_address_in_base_58() {
    let pool = Address { bytes: [0u8; 32] };
    assert_eq!(registry_path("/var/luts", &pool), "/var/luts/11111111111111111111111111111111");
    let other = addr(5);
    let text = solana_sdk::pubkey::Pubkey::new_from_array(other.bytes).to_string();
    assert_eq!(registry_path("", &other), format!("/{}", text));
}

#[test]
fn clock_account_gives_time_and_slot() {
    let mut data = Vec::new();
    data.extend_from_slice(&77u64.to_le_bytes());
    data.extend_from_slice(&5i64.to_le_bytes());
    data.extend_from_slice(&3u64.to_le_bytes());
    data.extend_from_slice(&4u64.to_le_bytes());
    data.extend_from_slice(&1_700_000_000i64.to_le_bytes());
    assert_eq!(read_clock(&data), Some(ClockReading { unix_timestamp: 1_700_000_000, slot: 77 }));
    assert_eq!(read_clock(&data[..39]), None);
    assert_eq!(read_clock(&[]), None);
}

fn checkpoint_account(current_id: u64, ts: i64) -> Vec<u8> {
    let mut data = vec![101u8, 0, 0, 0, 0, 0, 0, 0];
    data.extend_from_slice(&[9u8; 32]);
    data.extend_from_slice(&current_id.to_le_bytes());
    data.extend_from_slice(&0u64.to_le_bytes());
    data.extend_from_slice(&0u64.to_le_bytes());
    data.extend_from_slice(&0u64.to_le_bytes());
    data.extend_from_slice(&ts.to_le_bytes());
    data
}

fn stake_account(pool: &Address, id: u64) -> Vec<u8> {
    let mut data = vec![105u8, 0, 0, 0, 0, 0, 0, 0];
    data.extend_from_slice(&[8u8; 32]);
    data.extend_from_slice(&0u64.to_le_bytes());
    data.extend_from_slice(&0u64.to_le_bytes());
    data.extend_from_slice(&pool.bytes);
    data.extend_from_slice(&id.to_le_bytes());
    data.extend_from_slice(&0i64.to_le_bytes());
    data.extend_from_slice(&0u64.to_le_bytes());
    data
}

#[test]
fn what_is_no_checkpoint_is_not_read_as_one() {
    assert_eq!(read_checkpoint(&[]), None);
    assert_eq!(read_checkpoint(&[101u8; 7]), None);
    assert_eq!(read_checkpoint(&[101u8; 8]), None);
    assert_eq!(read_checkpoint(&[101u8; 79]), None);
    let mut wrong_tag = checkpoint_account(3, 50);
    wrong_tag[0] = 105;
    assert_eq!(read_checkpoint(&wrong_tag), None);
    let good = checkpoint_account(3, 50);
    assert_eq!(good.len(), 80);
    if let Some(cp) = read_checkpoint(&good) {
        assert_eq!(cp, Checkpoint { last_rebase_time: 50, cursor: 3 });
    }
}

#[test]
fn participants_are_the_accounts_that_decode() {
    let pool = addr(700);
    let accounts = vec![
        RawAccount { address: addr(1), data: stake_account(&pool, 4) },
        RawAccount { address: addr(2), data: vec![105u8; 3] },
        RawAccount { address: addr(3), data: checkpoint_account(0, 0) },
        RawAccount { address: addr(4), data: stake_account(&pool, 2) },
        RawAccount { address: addr(5), data: Vec::new() },
    ];
    let found = collect_participants(&accounts);
    assert!(found.len() <= 2);
    for p in &found {
        assert!(p.address == addr(1) && p.id == 4 || p.address == addr(4) && p.id == 2);
    }
    let kept = participants_from(&vec![addr(1), addr(2), addr(3)], &vec![Some(9), None, Some(1)]);
    assert_eq!(kept, vec![Participant { address: addr(1), id: 9 }, Participant { address: addr(3), id: 1 }]);
}

#[test]
fn stake_accounts_of_a_pool_are_found_by_tag_and_pool() {
    let pool = addr(700);
    let filters = stake_filters(&pool);
    assert_eq!(filters.len(), 2);
    assert_eq!(filters[0].offset, 0);
    assert_eq!(filters[0].bytes, vec![105u8]);
    assert_eq!(filters[1].offset, 56);
    assert_eq!(filters[1].bytes, pool.bytes.to_vec());
    let account = stake_account(&pool, 1);
    assert_eq!(&account[56..88], &pool.bytes[..]);
}

fn table_account(deactivation_slot: u64, addresses: &[Address]) -> Vec<u8> {
    let mut data = Vec::new();
    data.extend_from_slice(&1u32.to_le_bytes());
    data.extend_from_slice(&deactivation_slot.to_le_bytes());
    data.extend_from_slice(&7u64.to_le_bytes());
    data.push(0);
    data.push(1);
    data.extend_from_slice(&[4u8; 32]);
    data.extend_from_slice(&[0u8; 2]);
    assert_eq!(data.len(), 56);
    for a in addresses {
        data.extend_from_slice(&a.bytes);
    }
    data
}

#[test]
fn a_table_account_gives_addresses_and_state() {
    let held = vec![addr(1), addr(2), addr(3)];
    let table = read_table(addr(50), &table_account(u64::MAX, &held)).unwrap();
    assert_eq!(table.address, addr(50));
    assert_eq!(table.addresses, held);
    assert_eq!(table.state, Lifecycle::Active);
    let leaving = read_table(addr(51), &table_account(1234, &held[..1])).unwrap();
    assert_eq!(leaving.addresses, vec![addr(1)]);
    assert_eq!(leaving.state, Lifecycle::Deactivating { since: 1234 });
    let empty = read_table(addr(52), &table_account(u64::MAX, &[])).unwrap();
    assert!(empty.addresses.is_empty());
    assert!(read_table(addr(53), &[]).is_none());
    assert!(read_table(addr(53), &[0u8; 56]).is_none());
    let mut torn = table_account(u64::MAX, &held);
    torn.pop();
    assert!(read_table(addr(54), &torn).is_none());
}

#[test]
fn participants_that_are_all_processed_give_one_default_rebase() {
    let now = 1_700_000_000i64;
    let all: Vec<Participant> = (0..5).map(participant).collect();
    let c = warm(now - 4000, all.clone());
    let (c, _) = run(c, Event::Clock(Some(now)));
    let (c, _) = run(c, Event::Checkpoint(Some(Checkpoint { last_rebase_time: now - 4000, cursor: 5 })));
    let (c, a) = run(c, Event::Participants(Some(all)));
    match a {
        Action::Submit { transactions } => {
            assert_eq!(transactions.len(), 1);
            assert_eq!(transactions[0].instructions.len(), 1);
            assert_eq!(transactions[0].instructions[0].accounts[5].address, Address::default_address());
        },
        other => panic!("unexpected action {:?}", other),
    }
    assert_eq!(c.pending(), 0);
}

#[test]
fn the_interval_is_due_at_the_very_second() {
    let now = 1_700_000_000i64;
    let c = warm(now - 3600, Vec::new());
    let (c, a) = run(c, Event::Clock(Some(now)));
    assert!(matches!(a, Action::FetchCheckpoint));
    assert_eq!(c.stage(), Stage::ReconcileCheckpoint);
    let c = warm(now - 3599, Vec::new());
    let (c, a) = run(c, Event::Clock(Some(now)));
    assert!(matches!(a, Action::Sleep { seconds: 1, cause: Failure::IntervalNotElapsed }));
    assert_eq!(c.stage().loop_state(), Phase::Backoff);
}

#[test]
fn a_checkpoint_is_kept_where_the_bytes_hold_it() {
    let data = checkpoint_account(3, 50);
    let held = Checkpoint { last_rebase_time: 50, cursor: 3 };
    assert_eq!(confirm_checkpoint(&data, Some(held)), Some(held));
    assert_eq!(confirm_checkpoint(&data, None), None);
    assert_eq!(confirm_checkpoint(&data, Some(Checkpoint { last_rebase_time: 50, cursor: 4 })), None);
    assert_eq!(confirm_checkpoint(&data, Some(Checkpoint { last_rebase_time: 51, cursor: 3 })), None);
    assert_eq!(confirm_checkpoint(&data[..79], Some(held)), None);
    assert_eq!(confirm_checkpoint(&[], Some(held)), None);
    let mut wrong_tag = data.clone();
    wrong_tag[0] = 105;
    assert_eq!(confirm_checkpoint(&wrong_tag, Some(held)), None);
}

#[test]
fn a_checkpoint_holds_large_and_negative_numbers() {
    let early = Checkpoint { last_rebase_time: -1, cursor: u64::MAX };
    assert_eq!(confirm_checkpoint(&checkpoint_account(u64::MAX, -1), Some(early)), Some(early));
    let least = Checkpoint { last_rebase_time: i64::MIN, cursor: 0x0102_0304_0506_0708 };
    let data = checkpoint_account(0x0102_0304_0506_0708, i64::MIN);
    assert_eq!(&data[40..48], &[8u8, 7, 6, 5, 4, 3, 2, 1][..]);
    assert_eq!(confirm_checkpoint(&data, Some(least)), Some(least));
    let most = Checkpoint { last_rebase_time: i64::MAX, cursor: 1 << 63 };
    assert_eq!(confirm_checkpoint(&checkpoint_account(1 << 63, i64::MAX), Some(most)), Some(most));
    assert_eq!(
        confirm_checkpoint(&checkpoint_account(1 << 63, i64::MAX), Some(Checkpoint { last_rebase_time: -1, cursor: 1 << 63 })),
        None
    );
    for (cursor, time) in [(0u64, 0i64), (255, 256), (65_536, -65_536), (u64::MAX - 1, i64::MIN + 1)] {
        if let Some(read) = read_checkpoint(&checkpoint_account(cursor, time)) {
            assert_eq!(read, Checkpoint { last_rebase_time: time, cursor });
        }
    }
}
