use boost_checkpoint::address::Address;
use boost_checkpoint::batch::chunks;
use boost_checkpoint::ledger::{close, deactivate, rebase};
use boost_checkpoint::stake::{addresses_of, remaining, Participant};
use boost_checkpoint::submit::{rebase_all, rebase_transaction, Strategy};

fn addr(n: u64) -> Address {
    let mut bytes = [0u8; 32];
    bytes[..8].copy_from_slice(&n.to_le_bytes());
    bytes[31] = 1;
    Address { bytes }
}

fn participant(id: u64) -> Participant {
    Participant { address: addr(id), id }
}

#[test]
fn chunks_of_seven_by_three() {
    let groups = chunks(vec![1, 2, 3, 4, 5, 6, 7], 3);
    assert_eq!(groups, vec![vec![1, 2, 3], vec![4, 5, 6], vec![7]]);
}

#[test]
fn chunks_exact_multiple_has_no_short_group() {
    let groups = chunks(vec![1, 2, 3, 4, 5, 6], 3);
    assert_eq!(groups, vec![vec![1, 2, 3], vec![4, 5, 6]]);
}

#[test]
fn chunks_of_nothing_are_none() {
    let groups: Vec<Vec<u8>> = chunks(Vec::new(), 4);
    assert!(groups.is_empty());
}

#[test]
fn chunks_larger_than_input_give_one_group() {
    assert_eq!(chunks(vec![1, 2], 10), vec![vec![1, 2]]);
    assert_eq!(chunks(vec![1, 2, 3], 1), vec![vec![1], vec![2], vec![3]]);
}

#[test]
fn chunk_count_is_length_over_size_rounded_up() {
    for n in 0usize..40 {
        for k in 1usize..9 {
            let items: Vec<usize> = (0..n).collect();
            let groups = chunks(items.clone(), k);
            assert_eq!(groups.len(), (n + k - 1) / k);
            assert!(groups.iter().all(|g| !g.is_empty() && g.len() <= k));
            let joined: Vec<usize> = groups.into_iter().flatten().collect();
            assert_eq!(joined, items);
        }
    }
}

#[test]
fn remaining_is_sorted_from_the_cursor() {
    let all = vec![participant(5), participant(2), participant(9), participant(0), participant(3)];
    let rest = remaining(&all, 3);
    let ids: Vec<u64> = rest.iter().map(|p| p.id).collect();
    assert_eq!(ids, vec![3, 5, 9]);
    assert_eq!(addresses_of(&rest), vec![addr(3), addr(5), addr(9)]);
}

#[test]
fn remaining_at_cursor_zero_is_everyone() {
    let all = vec![participant(2), participant(1), participant(0)];
    let ids: Vec<u64> = remaining(&all, 0).iter().map(|p| p.id).collect();
    assert_eq!(ids, vec![0, 1, 2]);
}

#[test]
fn remaining_past_the_last_id_is_empty() {
    let all = vec![participant(2), participant(1), participant(0)];
    assert!(remaining(&all, 3).is_empty());
    assert!(remaining(&Vec::new(), 0).is_empty());
}

#[test]
fn remaining_keeps_the_order_of_equal_ids() {
    let first = Participant { address: addr(100), id: 4 };
    let second = Participant { address: addr(50), id: 4 };
    let rest = remaining(&vec![participant(7), first, participant(1), second], 2);
    assert_eq!(rest, vec![first, second, participant(7)]);
}

#[test]
fn resuming_after_a_partial_pass_gives_the_rest() {
    let all: Vec<Participant> = (0..25u64).rev().map(participant).collect();
    let whole = remaining(&all, 0);
    for done in 0..=whole.len() {
        let cursor = if done == 0 { 0 } else { whole[done - 1].id + 1 };
        let rest = remaining(&all, cursor);
        assert_eq!(rest, whole[done..].to_vec());
    }
    assert_eq!(whole.last().unwrap().id + 1, 25);
}

#[test]
fn three_hundred_participants_in_tens_and_bundles_of_four() {
    let all: Vec<Participant> = (0..300u64).rev().map(participant).collect();
    let rest = remaining(&all, 0);
    let groups = chunks(rest.clone(), 10);
    assert_eq!(groups.len(), 30);
    let mut expected = 0u64;
    for group in &groups {
        assert_eq!(group.len(), 10);
        for p in group {
            assert_eq!(p.id, expected);
            expected += 1;
        }
    }
    assert_eq!(expected, 300);
    let bundles = chunks(groups, 4);
    assert_eq!(bundles.len(), 8);
    for bundle in &bundles[..7] {
        assert_eq!(bundle.len(), 4);
    }
    assert_eq!(bundles[7].len(), 2);

    let signer = addr(1000);
    let mint = addr(2000);
    let plan = rebase_all(&signer, &mint, addresses_of(&rest), 10, 1000, Strategy::Bundled { size: 4 });
    assert_eq!(plan.len(), 8);
    assert!(plan[..7].iter().all(|b| b.len() == 4));
    assert_eq!(plan[7].len(), 2);
    let mut next = 0u64;
    for bundle in &plan {
        for tx in bundle {
            assert_eq!(tx.instructions.len(), 10);
            assert_eq!(tx.compute_budget, 10_000);
            for ix in &tx.instructions {
                assert_eq!(ix.accounts[5].address, addr(next));
                next += 1;
            }
        }
    }
    assert_eq!(next, 300);
}

#[test]
fn sequential_plan_has_one_transaction_to_a_submission() {
    let signer = addr(1000);
    let mint = addr(2000);
    let stakes: Vec<Address> = (0..7).map(addr).collect();
    let plan = rebase_all(&signer, &mint, stakes, 3, 50, Strategy::Sequential);
    assert_eq!(plan.len(), 3);
    assert!(plan.iter().all(|s| s.len() == 1));
    let sizes: Vec<usize> = plan.iter().map(|s| s[0].instructions.len()).collect();
    assert_eq!(sizes, vec![3, 3, 1]);
    let budgets: Vec<u32> = plan.iter().map(|s| s[0].compute_budget).collect();
    assert_eq!(budgets, vec![150, 150, 50]);
}

#[test]
fn nothing_remaining_gives_one_rebase_of_the_default_address() {
    let signer = addr(1000);
    let mint = addr(2000);
    for strategy in [Strategy::Sequential, Strategy::Bundled { size: 4 }] {
        let plan = rebase_all(&signer, &mint, Vec::new(), 38, 100, strategy);
        assert_eq!(plan.len(), 1);
        assert_eq!(plan[0].len(), 1);
        assert_eq!(plan[0][0].instructions.len(), 1);
        assert_eq!(plan[0][0].compute_budget, 100);
        let ix = &plan[0][0].instructions[0];
        assert_eq!(ix.accounts[5].address, Address::default_address());
        assert_eq!(ix.accounts[0].address, signer);
    }
}

#[test]
fn rebase_instruction_is_the_one_of_the_program() {
    let signer = addr(1);
    let mint = addr(2);
    let stake = addr(3);
    let ixs = rebase(&signer, &mint, &vec![stake]);
    assert_eq!(ixs.len(), 1);
    let theirs = ore_boost_api::sdk::rebase(
        solana_sdk::pubkey::Pubkey::new_from_array(signer.bytes),
        solana_sdk::pubkey::Pubkey::new_from_array(mint.bytes),
        solana_sdk::pubkey::Pubkey::new_from_array(stake.bytes),
    );
    assert_eq!(ixs[0].program_id.bytes, theirs.program_id.to_bytes());
    assert_eq!(ixs[0].data, theirs.data);
    assert_eq!(ixs[0].accounts.len(), 10);
    assert_eq!(ixs[0].accounts.len(), theirs.accounts.len());
    for (ours, other) in ixs[0].accounts.iter().zip(theirs.accounts.iter()) {
        assert_eq!(ours.address.bytes, other.pubkey.to_bytes());
        assert_eq!(ours.is_signer, other.is_signer);
        assert_eq!(ours.is_writable, other.is_writable);
    }
    assert!(ixs[0].accounts[0].is_signer);
    assert_eq!(ixs[0].accounts[0].address, signer);
    assert_eq!(ixs[0].accounts[5].address, stake);
    assert_ne!(ixs[0].program_id, signer);
}

#[test]
fn rebase_transaction_asks_for_units_by_account() {
    let tx = rebase_transaction(&addr(1), &addr(2), &vec![addr(3), addr(4), addr(5)], 7);
    assert_eq!(tx.instructions.len(), 3);
    assert_eq!(tx.compute_budget, 21);
    let none = rebase_transaction(&addr(1), &addr(2), &vec![addr(3)], 0);
    assert_eq!(none.compute_budget, 0);
}

#[test]
fn deactivate_names_each_table_and_the_authority() {
    let authority = addr(9);
    let tables = vec![addr(1), addr(2)];
    let ixs = deactivate(&tables, &authority);
    assert_eq!(ixs.len(), 2);
    for (ix, table) in ixs.iter().zip(tables.iter()) {
        assert_eq!(ix.accounts.len(), 2);
        assert_eq!(ix.accounts[0].address, *table);
        assert!(ix.accounts[0].is_writable && !ix.accounts[0].is_signer);
        assert_eq!(ix.accounts[1].address, authority);
        assert!(ix.accounts[1].is_signer && !ix.accounts[1].is_writable);
        assert_eq!(ix.program_id.bytes, solana_sdk::address_lookup_table::program::id().to_bytes());
    }
    assert!(deactivate(&Vec::new(), &authority).is_empty());
}

#[test]
fn close_names_table_authority_and_recipient() {
    let authority = addr(9);
    let recipient = addr(10);
    let ixs = close(&vec![addr(1)], &authority, &recipient);
    assert_eq!(ixs.len(), 1);
    assert_eq!(ixs[0].accounts.len(), 3);
    assert_eq!(ixs[0].accounts[0].address, addr(1));
    assert_eq!(ixs[0].accounts[1].address, authority);
    assert!(ixs[0].accounts[1].is_signer);
    assert_eq!(ixs[0].accounts[2].address, recipient);
    assert!(ixs[0].accounts[2].is_writable);
    let other = deactivate(&vec![addr(1)], &authority);
    assert_ne!(ixs[0].data, other[0].data);
}
