//! Instructions for the ledger, as plain values, and the builders that the
//! ledger's own client libraries provide for them.

use crate::address::Address;
use vstd::prelude::*;

verus! {

/// One account that an instruction touches.
#[derive(Clone, Copy, Debug, PartialEq, Eq)]
pub struct AccountMeta {
    pub address: Address,
    pub is_signer: bool,
    pub is_writable: bool,
}

/// One instruction for a ledger program.
#[derive(Clone, Debug, PartialEq, Eq)]
pub struct Instruction {
    pub program_id: Address,
    pub accounts: Vec<AccountMeta>,
    pub data: Vec<u8>,
}

/// What an instruction holds.
pub struct InstructionView {
    pub program_id: Address,
    pub accounts: Seq<AccountMeta>,
    pub data: Seq<u8>,
}

impl View for Instruction {
    type V = InstructionView;

    open spec fn view(&self) -> InstructionView {
        InstructionView { program_id: self.program_id, accounts: self.accounts@, data: self.data@ }
    }
}

/// The contents of a sequence of instructions.
pub open spec fn instruction_views(ixs: Seq<Instruction>) -> Seq<InstructionView> {
    ixs.map_values(|ix: Instruction| ix@)
}

/// The rebase instruction that `ore_boost_api::sdk::rebase` builds for a
/// signer, a mint and a stake account.
pub uninterp spec fn rebase_instruction_of(
    signer: Address,
    mint: Address,
    stake: Address,
) -> InstructionView;

/// The instruction and the table address that
/// `solana_sdk::address_lookup_table::instruction::create_lookup_table` gives
/// for an authority, a payer and a recent slot.
pub uninterp spec fn create_table_of(authority: Address, payer: Address, recent_slot: u64) -> (
    InstructionView,
    Address,
);

/// The instruction that `extend_lookup_table` builds.
pub uninterp spec fn extend_table_of(
    table: Address,
    authority: Address,
    payer: Option<Address>,
    new_addresses: Seq<Address>,
) -> InstructionView;

/// The instruction that `deactivate_lookup_table` builds.
pub uninterp spec fn deactivate_table_of(table: Address, authority: Address) -> InstructionView;

/// The instruction that `close_lookup_table` builds.
pub uninterp spec fn close_table_of(
    table: Address,
    authority: Address,
    recipient: Address,
) -> InstructionView;

/// The address of the pool that `ore_boost_api::state::boost_pda` derives
/// for a mint.
pub uninterp spec fn pool_address_of(mint: Address) -> Address;

/// The address of the checkpoint that `ore_boost_api::state::checkpoint_pda`
/// derives for a pool.
pub uninterp spec fn checkpoint_address_of(pool: Address) -> Address;

/// The text that `Pubkey`'s `Display` writes for an address.
pub uninterp spec fn address_text_of(a: Address) -> Seq<char>;

/// Calls `ore_boost_api::state::boost_pda` and keeps the address. It is a
/// function of the mint alone, found with `Pubkey::find_program_address`,
/// which gives up only if none of 256 bump seeds leads to a valid address.
#[verifier::external_body]
pub(crate) fn derive_pool(mint: &Address) -> (pool: Address)
    ensures
        pool == pool_address_of(*mint),
{
    let (pda, _) = ore_boost_api::state::boost_pda(
        solana_sdk::pubkey::Pubkey::new_from_array(mint.bytes),
    );
    Address { bytes: pda.to_bytes() }
}

/// Calls `ore_boost_api::state::checkpoint_pda` and keeps the address. It is
/// a function of the pool's address alone, found as the pool's address is.
#[verifier::external_body]
pub(crate) fn derive_checkpoint(pool: &Address) -> (checkpoint: Address)
    ensures
        checkpoint == checkpoint_address_of(*pool),
{
    let (pda, _) = ore_boost_api::state::checkpoint_pda(
        solana_sdk::pubkey::Pubkey::new_from_array(pool.bytes),
    );
    Address { bytes: pda.to_bytes() }
}

/// Calls `to_string` on the `Pubkey` of the address: its `Display`, which
/// writes the 32 bytes in base 58.
#[verifier::external_body]
pub(crate) fn address_text(a: &Address) -> (text: String)
    ensures
        text@ == address_text_of(*a),
{
    solana_sdk::pubkey::Pubkey::new_from_array(a.bytes).to_string()
}

/// Calls `ore_boost_api::sdk::rebase`. The instruction is a function of the
/// three addresses alone: the program's id, ten accounts derived from the mint
/// and the two other addresses, and a fixed payload. The derivations use
/// `Pubkey::find_program_address`, which gives up only if none of 256 bump
/// seeds leads to a valid address.
#[verifier::external_body]
pub(crate) fn rebase_instruction(signer: &Address, mint: &Address, stake: &Address) -> (ix:
    Instruction)
    ensures
        ix@ == rebase_instruction_of(*signer, *mint, *stake),
{
    let ix = ore_boost_api::sdk::rebase(
        solana_sdk::pubkey::Pubkey::new_from_array(signer.bytes),
        solana_sdk::pubkey::Pubkey::new_from_array(mint.bytes),
        solana_sdk::pubkey::Pubkey::new_from_array(stake.bytes),
    );
    Instruction {
        program_id: Address { bytes: ix.program_id.to_bytes() },
        accounts: ix.accounts.iter().map(|m| AccountMeta { address: Address { bytes: m.pubkey.to_bytes() }, is_signer: m.is_signer, is_writable: m.is_writable }).collect(),
        data: ix.data,
    }
}

/// Calls `solana_sdk::address_lookup_table::instruction::create_lookup_table`.
/// The instruction and the address of the table it creates are a function of
/// authority, payer and slot alone; the address is derived with
/// `Pubkey::find_program_address` from the authority and the slot.
#[verifier::external_body]
pub(crate) fn create_table_instruction(authority: &Address, payer: &Address, recent_slot: u64) -> (r:
    (Instruction, Address))
    ensures
        (r.0@, r.1) == create_table_of(*authority, *payer, recent_slot),
{
    let (ix, table) = solana_sdk::address_lookup_table::instruction::create_lookup_table(
        solana_sdk::pubkey::Pubkey::new_from_array(authority.bytes),
        solana_sdk::pubkey::Pubkey::new_from_array(payer.bytes),
        recent_slot,
    );
    let plain = Instruction {
        program_id: Address { bytes: ix.program_id.to_bytes() },
        accounts: ix.accounts.iter().map(|m| AccountMeta { address: Address { bytes: m.pubkey.to_bytes() }, is_signer: m.is_signer, is_writable: m.is_writable }).collect(),
        data: ix.data,
    };
    (plain, Address { bytes: table.to_bytes() })
}

/// Calls `solana_sdk::address_lookup_table::instruction::extend_lookup_table`.
/// The instruction is a function of the table, the authority, the payer and
/// the addresses to add, in their order.
#[verifier::external_body]
pub(crate) fn extend_table_instruction(
    table: &Address,
    authority: &Address,
    payer: Option<Address>,
    new_addresses: &Vec<Address>,
) -> (ix: Instruction)
    ensures
        ix@ == extend_table_of(*table, *authority, payer, new_addresses@),
{
    let ix = solana_sdk::address_lookup_table::instruction::extend_lookup_table(
        solana_sdk::pubkey::Pubkey::new_from_array(table.bytes),
        solana_sdk::pubkey::Pubkey::new_from_array(authority.bytes),
        payer.map(|p| solana_sdk::pubkey::Pubkey::new_from_array(p.bytes)),
        new_addresses.iter().map(|a| solana_sdk::pubkey::Pubkey::new_from_array(a.bytes)).collect(),
    );
    Instruction {
        program_id: Address { bytes: ix.program_id.to_bytes() },
        accounts: ix.accounts.iter().map(|m| AccountMeta { address: Address { bytes: m.pubkey.to_bytes() }, is_signer: m.is_signer, is_writable: m.is_writable }).collect(),
        data: ix.data,
    }
}

/// Calls `solana_sdk::address_lookup_table::instruction::deactivate_lookup_table`.
/// The instruction is a function of the table and the authority alone.
#[verifier::external_body]
pub(crate) fn deactivate_table_instruction(table: &Address, authority: &Address) -> (ix:
    Instruction)
    ensures
        ix@ == deactivate_table_of(*table, *authority),
{
    let ix = solana_sdk::address_lookup_table::instruction::deactivate_lookup_table(
        solana_sdk::pubkey::Pubkey::new_from_array(table.bytes),
        solana_sdk::pubkey::Pubkey::new_from_array(authority.bytes),
    );
    Instruction {
        program_id: Address { bytes: ix.program_id.to_bytes() },
        accounts: ix.accounts.iter().map(|m| AccountMeta { address: Address { bytes: m.pubkey.to_bytes() }, is_signer: m.is_signer, is_writable: m.is_writable }).collect(),
        data: ix.data,
    }
}

/// Calls `solana_sdk::address_lookup_table::instruction::close_lookup_table`.
/// The instruction is a function of the table, the authority and the
/// recipient of the table's balance alone.
#[verifier::external_body]
pub(crate) fn close_table_instruction(
    table: &Address,
    authority: &Address,
    recipient: &Address,
) -> (ix: Instruction)
    ensures
        ix@ == close_table_of(*table, *authority, *recipient),
{
    let ix = solana_sdk::address_lookup_table::instruction::close_lookup_table(
        solana_sdk::pubkey::Pubkey::new_from_array(table.bytes),
        solana_sdk::pubkey::Pubkey::new_from_array(authority.bytes),
        solana_sdk::pubkey::Pubkey::new_from_array(recipient.bytes),
    );
    Instruction {
        program_id: Address { bytes: ix.program_id.to_bytes() },
        accounts: ix.accounts.iter().map(|m| AccountMeta { address: Address { bytes: m.pubkey.to_bytes() }, is_signer: m.is_signer, is_writable: m.is_writable }).collect(),
        data: ix.data,
    }
}

/// The accounts of a pool.
#[derive(Clone, Copy, Debug, PartialEq, Eq)]
pub struct PoolAddresses {
    /// The pool of a mint.
    pub pool: Address,
    /// The checkpoint of the pool.
    pub checkpoint: Address,
}

/// Derives the addresses of a mint's pool and of the pool's checkpoint.
pub fn pool_addresses(mint: &Address) -> (r: PoolAddresses)
    ensures
        r.pool == pool_address_of(*mint),
        r.checkpoint == checkpoint_address_of(r.pool),
{
    let pool = derive_pool(mint);
    let checkpoint = derive_checkpoint(&pool);
    PoolAddresses { pool, checkpoint }
}

/// One deactivate instruction for each table, in the tables' order.
pub open spec fn deactivations_of(tables: Seq<Address>, authority: Address) -> Seq<
    InstructionView,
> {
    tables.map_values(|t: Address| deactivate_table_of(t, authority))
}

/// One close instruction for each table, in the tables' order.
pub open spec fn closings_of(tables: Seq<Address>, authority: Address, recipient: Address) -> Seq<
    InstructionView,
> {
    tables.map_values(|t: Address| close_table_of(t, authority, recipient))
}

/// One rebase instruction for each stake account, in the accounts' order.
pub open spec fn rebases_of(signer: Address, mint: Address, stakes: Seq<Address>) -> Seq<
    InstructionView,
> {
    stakes.map_values(|s: Address| rebase_instruction_of(signer, mint, s))
}

/// Builds the instructions that deactivate `tables`, one for each table.
pub fn deactivate(tables: &Vec<Address>, authority: &Address) -> (ixs: Vec<Instruction>)
    ensures
        instruction_views(ixs@) == deactivations_of(tables@, *authority),
{
    let mut ixs: Vec<Instruction> = Vec::new();
    let mut i: usize = 0;
    while i < tables.len()
        invariant
            i <= tables.len(),
            instruction_views(ixs@) == deactivations_of(tables@.take(i as int), *authority),
        decreases tables.len() - i,
    {
        let ix = deactivate_table_instruction(&tables[i], authority);
        proof {
            assert(tables@.take(i + 1) =~= tables@.take(i as int).push(tables@[i as int]));
            assert(instruction_views(ixs@.push(ix)) =~= instruction_views(ixs@).push(ix@));
            assert(deactivations_of(tables@.take(i + 1), *authority) =~= deactivations_of(
                tables@.take(i as int),
                *authority,
            ).push(ix@));
        }
        ixs.push(ix);
        i += 1;
    }
    assert(tables@.take(tables.len() as int) =~= tables@);
    ixs
}

/// Builds the instructions that close `tables`, one for each table; what the
/// tables hold goes to `recipient`.
pub fn close(tables: &Vec<Address>, authority: &Address, recipient: &Address) -> (ixs: Vec<
    Instruction,
>)
    ensures
        instruction_views(ixs@) == closings_of(tables@, *authority, *recipient),
{
    let mut ixs: Vec<Instruction> = Vec::new();
    let mut i: usize = 0;
    while i < tables.len()
        invariant
            i <= tables.len(),
            instruction_views(ixs@) == closings_of(
                tables@.take(i as int),
                *authority,
                *recipient,
            ),
        decreases tables.len() - i,
    {
        let ix = close_table_instruction(&tables[i], authority, recipient);
        proof {
            assert(tables@.take(i + 1) =~= tables@.take(i as int).push(tables@[i as int]));
            assert(instruction_views(ixs@.push(ix)) =~= instruction_views(ixs@).push(ix@));
            assert(closings_of(tables@.take(i + 1), *authority, *recipient) =~= closings_of(
                tables@.take(i as int),
                *authority,
                *recipient,
            ).push(ix@));
        }
        ixs.push(ix);
        i += 1;
    }
    assert(tables@.take(tables.len() as int) =~= tables@);
    ixs
}

/// Builds the instructions that rebase `stakes`, one for each stake account.
pub fn rebase(signer: &Address, mint: &Address, stakes: &Vec<Address>) -> (ixs: Vec<Instruction>)
    ensures
        instruction_views(ixs@) == rebases_of(*signer, *mint, stakes@),
{
    let mut ixs: Vec<Instruction> = Vec::new();
    let mut i: usize = 0;
    while i < stakes.len()
        invariant
            i <= stakes.len(),
            instruction_views(ixs@) == rebases_of(*signer, *mint, stakes@.take(i as int)),
        decreases stakes.len() - i,
    {
        let ix = rebase_instruction(signer, mint, &stakes[i]);
        proof {
            assert(stakes@.take(i + 1) =~= stakes@.take(i as int).push(stakes@[i as int]));
            assert(instruction_views(ixs@.push(ix)) =~= instruction_views(ixs@).push(ix@));
            assert(rebases_of(*signer, *mint, stakes@.take(i + 1)) =~= rebases_of(
                *signer,
                *mint,
                stakes@.take(i as int),
            ).push(ix@));
        }
        ixs.push(ix);
        i += 1;
    }
    assert(stakes@.take(stakes.len() as int) =~= stakes@);
    ixs
}

} // verus!
