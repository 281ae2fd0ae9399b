//! Reading what accounts of the ledger hold.
//!
//! The layouts belong to the ledger's own libraries, which do the decoding;
//! this module decides what is kept of what they return.

use crate::address::Address;
use crate::stake::{Checkpoint, Participant};
use crate::tables::{Lifecycle, Table, TableView};
use steel::{AccountDeserialize, Discriminator};
use vstd::prelude::*;

verus! {

/// The first byte of a checkpoint account.
pub const CHECKPOINT_TAG: u8 = 101;

/// The first byte of a stake account.
pub const STAKE_TAG: u8 = 105;

/// The length of a checkpoint account: eight bytes of header, then a pool
/// address, four counters and a time.
pub const CHECKPOINT_ACCOUNT_BYTES: usize = 80;

/// The length of a stake account: eight bytes of header, then two addresses
/// and five counters and times.
pub const STAKE_ACCOUNT_BYTES: usize = 112;

/// Where a checkpoint account holds the id of the next participant.
pub const CHECKPOINT_CURSOR_OFFSET: usize = 40;

/// Where a checkpoint account holds the time of the last cycle.
pub const CHECKPOINT_TIME_OFFSET: usize = 72;

/// Where a stake account names its pool.
pub const STAKE_POOL_OFFSET: usize = 56;

/// The ledger's time as read from its clock account.
#[derive(Clone, Copy, Debug, PartialEq, Eq, Structural)]
pub struct ClockReading {
    /// Seconds since the epoch.
    pub unix_timestamp: i64,
    /// The current slot.
    pub slot: u64,
}

/// An account as read from the ledger.
#[derive(Debug)]
pub struct RawAccount {
    pub address: Address,
    pub data: Vec<u8>,
}

/// A condition on accounts: the bytes that an account holds from `offset` on.
#[derive(Debug, PartialEq, Eq)]
pub struct Filter {
    pub offset: usize,
    pub bytes: Vec<u8>,
}

/// What `bincode::deserialize` reads from the bytes of the clock account:
/// the time and the slot, or nothing where the bytes are no clock.
pub uninterp spec fn clock_of(data: Seq<u8>) -> Option<ClockReading>;

/// What `AddressLookupTable::deserialize` reads from the bytes of a lookup
/// table account: the addresses that the table holds and the slot of its
/// deactivation, or nothing where the bytes are no lookup table.
pub uninterp spec fn table_of(data: Seq<u8>) -> Option<(Seq<Address>, u64)>;

/// The bytes can be those of a checkpoint account.
pub open spec fn looks_like_checkpoint(data: Seq<u8>) -> bool {
    data.len() == CHECKPOINT_ACCOUNT_BYTES && data[0] == CHECKPOINT_TAG
}

/// The number that eight bytes hold, the lowest byte first.
pub open spec fn le_u64(b: Seq<u8>) -> int {
    b[0] + 256 * (b[1] + 256 * (b[2] + 256 * (b[3] + 256 * (b[4] + 256 * (b[5] + 256 * (b[6] + 256
        * b[7]))))))
}

/// The signed number that eight bytes hold, the lowest byte first, in two's
/// complement.
pub open spec fn le_i64(b: Seq<u8>) -> int {
    if le_u64(b) < 0x8000_0000_0000_0000 {
        le_u64(b)
    } else {
        le_u64(b) - 0x1_0000_0000_0000_0000
    }
}

/// The checkpoint that the bytes of a checkpoint account hold: the cursor is
/// the number at `CHECKPOINT_CURSOR_OFFSET`, the time of the last cycle the
/// signed number at `CHECKPOINT_TIME_OFFSET`.
pub open spec fn checkpoint_in(data: Seq<u8>) -> Checkpoint {
    Checkpoint {
        last_rebase_time: le_i64(
            data.subrange(CHECKPOINT_TIME_OFFSET as int, CHECKPOINT_TIME_OFFSET + 8),
        ) as i64,
        cursor: le_u64(
            data.subrange(CHECKPOINT_CURSOR_OFFSET as int, CHECKPOINT_CURSOR_OFFSET + 8),
        ) as u64,
    }
}

/// The bytes are those of a checkpoint account, and `checkpoint` is what they
/// hold.
pub open spec fn holds_checkpoint(data: Seq<u8>, checkpoint: Checkpoint) -> bool {
    looks_like_checkpoint(data) && checkpoint == checkpoint_in(data)
}

/// The bytes can be those of a stake account.
pub open spec fn looks_like_stake(data: Seq<u8>) -> bool {
    data.len() == STAKE_ACCOUNT_BYTES && data[0] == STAKE_TAG
}

/// Calls `bincode::deserialize` for the ledger's `Clock`. What is read is a
/// function of the bytes alone.
#[verifier::external_body]
fn decode_clock(data: &[u8]) -> (r: Option<ClockReading>)
    ensures
        r == clock_of(data@),
{
    match bincode::deserialize::<solana_sdk::clock::Clock>(data) {
        Ok(clock) => Some(ClockReading { unix_timestamp: clock.unix_timestamp, slot: clock.slot }),
        Err(_) => None,
    }
}

/// Calls `deserialize` of
/// `solana_sdk::address_lookup_table::state::AddressLookupTable` and keeps the
/// addresses and the deactivation slot. What is read is a function of the
/// bytes alone.
#[verifier::external_body]
fn decode_table(data: &[u8]) -> (r: Option<(Vec<Address>, u64)>)
    ensures
        r matches Some(found) ==> table_of(data@) == Some((found.0@, found.1)),
        r is None ==> table_of(data@) is None,
{
    match solana_sdk::address_lookup_table::state::AddressLookupTable::deserialize(data) {
        Ok(table) => Some((
            table.addresses.iter().map(|key| Address { bytes: key.to_bytes() }).collect(),
            table.meta.deactivation_slot,
        )),
        Err(_) => None,
    }
}

/// Calls `try_from_bytes` of `steel::AccountDeserialize` for the program's
/// `Checkpoint`, which reads the first byte and the bytes from the eighth on.
/// It succeeds only where the first byte is the checkpoint's tag and the rest
/// has the size of a checkpoint; it may still fail there, as it wants the
/// bytes aligned in memory.
#[verifier::external_body]
fn decode_checkpoint(data: &[u8]) -> (r: Option<Checkpoint>)
    requires
        data@.len() >= 8,
    ensures
        r is Some ==> looks_like_checkpoint(data@),
{
    match ore_boost_api::state::Checkpoint::try_from_bytes(data) {
        Ok(cp) => Some(Checkpoint { last_rebase_time: cp.ts, cursor: cp.current_id }),
        Err(_) => None,
    }
}

/// Calls `try_from_bytes` of `steel::AccountDeserialize` for the program's
/// `Stake` and gives the stake's id. It succeeds only where the first byte is
/// the stake's tag and the rest has the size of a stake; it may still fail
/// there, as it wants the bytes aligned in memory.
#[verifier::external_body]
fn decode_stake(data: &[u8]) -> (r: Option<u64>)
    requires
        data@.len() >= 8,
    ensures
        r is Some ==> looks_like_stake(data@),
{
    match ore_boost_api::state::Stake::try_from_bytes(data) {
        Ok(stake) => Some(stake.id),
        Err(_) => None,
    }
}

/// Calls `discriminator` of `steel::Discriminator` for the program's `Stake`:
/// the number of `Stake` among the program's kinds of account.
#[verifier::external_body]
fn stake_tag() -> (tag: u8)
    ensures
        tag == STAKE_TAG,
{
    ore_boost_api::state::Stake::discriminator()
}

/// Reads the ledger's time from the bytes of the clock account.
pub fn read_clock(data: &[u8]) -> (r: Option<ClockReading>)
    ensures
        r == clock_of(data@),
{
    decode_clock(data)
}

/// Where a table stands that records `deactivation_slot`: a table that was
/// never deactivated records the largest slot there is.
pub open spec fn state_at(deactivation_slot: u64) -> Lifecycle {
    if deactivation_slot == u64::MAX {
        Lifecycle::Active
    } else {
        Lifecycle::Deactivating { since: deactivation_slot }
    }
}

/// Reads the lookup table at `address` from the bytes of its account;
/// nothing where the bytes are no lookup table.
pub fn read_table(address: Address, data: &[u8]) -> (r: Option<Table>)
    ensures
        match table_of(data@) {
            Some(found) => r is Some && r->0@ == (TableView {
                address,
                addresses: found.0,
                state: state_at(found.1),
            }),
            None => r is None,
        },
{
    match decode_table(data) {
        Some(found) => {
            let state = if found.1 == u64::MAX {
                Lifecycle::Active
            } else {
                Lifecycle::Deactivating { since: found.1 }
            };
            Some(Table { address, addresses: found.0, state })
        },
        None => None,
    }
}

/// The number that the eight bytes from `from` on hold, the lowest byte first.
fn number_at(data: &[u8], from: usize) -> (v: u64)
    requires
        from + 8 <= data@.len(),
    ensures
        v == le_u64(data@.subrange(from as int, from + 8)),
{
    let n = data.len();
    assert(from + 8 <= n);
    let b7: u64 = data[from + 7] as u64;
    let b6: u64 = b7 * 256 + data[from + 6] as u64;
    let b5: u64 = b6 * 256 + data[from + 5] as u64;
    let b4: u64 = b5 * 256 + data[from + 4] as u64;
    let b3: u64 = b4 * 256 + data[from + 3] as u64;
    let b2: u64 = b3 * 256 + data[from + 2] as u64;
    let b1: u64 = b2 * 256 + data[from + 1] as u64;
    let b0: u64 = b1 * 256 + data[from] as u64;
    b0
}

/// Holds what the ledger's decoder read from the bytes of an account against
/// those bytes: the checkpoint is kept where the bytes are those of a
/// checkpoint account and hold that cursor and that time, and is dropped
/// otherwise.
pub fn confirm_checkpoint(data: &[u8], decoded: Option<Checkpoint>) -> (r: Option<Checkpoint>)
    ensures
        r == match decoded {
            Some(checkpoint) => if holds_checkpoint(data@, checkpoint) {
                Some(checkpoint)
            } else {
                None::<Checkpoint>
            },
            None => None::<Checkpoint>,
        },
{
    match decoded {
        None => None,
        Some(checkpoint) => {
            if data.len() != CHECKPOINT_ACCOUNT_BYTES || data[0] != CHECKPOINT_TAG {
                return None;
            }
            let cursor = number_at(data, CHECKPOINT_CURSOR_OFFSET);
            let time = number_at(data, CHECKPOINT_TIME_OFFSET);
            let signed: i128 = if time < 0x8000_0000_0000_0000 {
                time as i128
            } else {
                time as i128 - 0x1_0000_0000_0000_0000
            };
            if checkpoint.cursor == cursor && checkpoint.last_rebase_time as i128 == signed {
                Some(checkpoint)
            } else {
                None
            }
        },
    }
}

/// Reads a pool's checkpoint from the bytes of its account, with the
/// ledger's decoder. What is read is the checkpoint that the bytes hold;
/// nothing is read where the bytes are no checkpoint account. The decoder
/// may also find nothing in the bytes of a checkpoint account, as it wants
/// them aligned in memory.
pub fn read_checkpoint(data: &[u8]) -> (r: Option<Checkpoint>)
    ensures
        r matches Some(checkpoint) ==> holds_checkpoint(data@, checkpoint),
        !looks_like_checkpoint(data@) ==> r is None,
{
    if data.len() < 8 {
        None
    } else {
        confirm_checkpoint(data, decode_checkpoint(data))
    }
}

/// The participants among accounts whose ids were read, or not: account `i`
/// is a participant where `ids[i]` is an id, and the participants keep the
/// order of the accounts.
pub open spec fn kept(addresses: Seq<Address>, ids: Seq<Option<u64>>) -> Seq<Participant>
    decreases ids.len(),
{
    if ids.len() == 0 || addresses.len() != ids.len() {
        Seq::empty()
    } else {
        let before = kept(addresses.drop_last(), ids.drop_last());
        match ids.last() {
            Some(id) => before.push(Participant { address: addresses.last(), id }),
            None => before,
        }
    }
}

/// The addresses of accounts, in their order.
pub open spec fn account_addresses(accounts: Seq<RawAccount>) -> Seq<Address> {
    accounts.map_values(|a: RawAccount| a.address)
}

/// Makes participants of the accounts whose id could be read; of none where
/// the two lists differ in length.
pub fn participants_from(addresses: &Vec<Address>, ids: &Vec<Option<u64>>) -> (out: Vec<
    Participant,
>)
    ensures
        out@ == kept(addresses@, ids@),
{
    let mut out: Vec<Participant> = Vec::new();
    if addresses.len() != ids.len() {
        return out;
    }
    let mut i: usize = 0;
    while i < ids.len()
        invariant
            i <= ids.len(),
            addresses@.len() == ids@.len(),
            out@ == kept(addresses@.take(i as int), ids@.take(i as int)),
        decreases ids.len() - i,
    {
        proof {
            assert(ids@.take(i + 1).drop_last() =~= ids@.take(i as int));
            assert(addresses@.take(i + 1).drop_last() =~= addresses@.take(i as int));
        }
        match ids[i] {
            Some(id) => {
                out.push(Participant { address: addresses[i], id });
            },
            None => {},
        }
        i += 1;
    }
    proof {
        assert(ids@.take(ids.len() as int) =~= ids@);
        assert(addresses@.take(ids.len() as int) =~= addresses@);
    }
    out
}

/// Reads the participants from the accounts of a scan. Accounts that are no
/// stake accounts are left out, the others keep their order: the result is
/// made of the accounts in which an id was read, and an id is read only in an
/// account that can be a stake account.
pub fn collect_participants(accounts: &Vec<RawAccount>) -> (out: Vec<Participant>)
    ensures
        exists|ids: Seq<Option<u64>>|
            {
                &&& ids.len() == accounts@.len()
                &&& forall|i: int|
                    0 <= i < ids.len() && ids[i] is Some ==> looks_like_stake(
                        (#[trigger] accounts@[i]).data@,
                    )
                &&& out@ == #[trigger] kept(account_addresses(accounts@), ids)
            },
{
    let mut addresses: Vec<Address> = Vec::new();
    let mut ids: Vec<Option<u64>> = Vec::new();
    let mut i: usize = 0;
    while i < accounts.len()
        invariant
            i <= accounts.len(),
            ids@.len() == i,
            addresses@ == account_addresses(accounts@).take(i as int),
            forall|k: int|
                0 <= k < i && ids@[k] is Some ==> looks_like_stake((#[trigger] accounts@[k]).data@),
        decreases accounts.len() - i,
    {
        let account = &accounts[i];
        let id = if account.data.len() < 8 {
            None
        } else {
            decode_stake(account.data.as_slice())
        };
        proof {
            assert(account_addresses(accounts@).take(i + 1) =~= account_addresses(
                accounts@,
            ).take(i as int).push(account.address));
        }
        addresses.push(account.address);
        ids.push(id);
        i += 1;
    }
    assert(account_addresses(accounts@).take(accounts.len() as int) =~= account_addresses(
        accounts@,
    ));
    participants_from(&addresses, &ids)
}

/// The conditions that pick a pool's stake accounts out of the program's
/// accounts: the first byte is the stake's tag, and the bytes from
/// `STAKE_POOL_OFFSET` on are the pool's address.
pub fn stake_filters(pool: &Address) -> (filters: Vec<Filter>)
    ensures
        filters@.len() == 2,
        filters@[0].offset == 0,
        filters@[0].bytes@ == seq![STAKE_TAG],
        filters@[1].offset == STAKE_POOL_OFFSET,
        filters@[1].bytes@ == pool@,
{
    let mut tag: Vec<u8> = Vec::new();
    tag.push(stake_tag());
    assert(tag@ =~= seq![STAKE_TAG]);
    let mut filters: Vec<Filter> = Vec::new();
    filters.push(Filter { offset: 0, bytes: tag });
    filters.push(Filter { offset: STAKE_POOL_OFFSET, bytes: pool.to_vec() });
    filters
}

} // verus!
