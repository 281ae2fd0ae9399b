//! Packing what remains of a cycle into transactions and submissions.

use crate::address::Address;
use crate::batch::{chunks, chunks_of, contents, lemma_chunks_partition};
use crate::ledger::{
    instruction_views, rebase, rebase_instruction_of, rebases_of, Instruction, InstructionView,
};
use vstd::prelude::*;

verus! {

/// How transactions are handed to the ledger.
#[derive(Clone, Copy, Debug, PartialEq, Eq, Structural)]
pub enum Strategy {
    /// One transaction after the other.
    Sequential,
    /// Sets of `size` transactions, each set accepted or rejected as a whole.
    Bundled { size: usize },
}

impl Strategy {
    /// How many transactions one submission holds at most.
    pub open spec fn span(self) -> nat {
        match self {
            Strategy::Sequential => 1,
            Strategy::Bundled { size } => size as nat,
        }
    }

    /// How many transactions one submission holds at most.
    pub fn width(&self) -> (n: usize)
        ensures
            n == self.span(),
    {
        match self {
            Strategy::Sequential => 1,
            Strategy::Bundled { size } => *size,
        }
    }
}

/// One transaction: its instructions and the compute budget it asks for.
#[derive(Debug)]
pub struct Transaction {
    pub instructions: Vec<Instruction>,
    pub compute_budget: u32,
}

/// What a transaction holds.
pub struct TransactionView {
    pub instructions: Seq<InstructionView>,
    pub compute_budget: u32,
}

impl View for Transaction {
    type V = TransactionView;

    open spec fn view(&self) -> TransactionView {
        TransactionView {
            instructions: instruction_views(self.instructions@),
            compute_budget: self.compute_budget,
        }
    }
}

/// The contents of a sequence of transactions.
pub open spec fn transaction_views(txs: Seq<Transaction>) -> Seq<TransactionView> {
    txs.map_values(|t: Transaction| t@)
}

/// The contents of a sequence of submissions.
pub open spec fn submission_views(plan: Seq<Vec<Transaction>>) -> Seq<Seq<TransactionView>> {
    plan.map_values(|s: Vec<Transaction>| transaction_views(s@))
}

/// The transaction that rebases one group of stake accounts: one instruction
/// for each account, and a budget of `units_per_account` for each.
pub open spec fn transaction_of(
    signer: Address,
    mint: Address,
    group: Seq<Address>,
    units_per_account: u32,
) -> TransactionView {
    TransactionView {
        instructions: rebases_of(signer, mint, group),
        compute_budget: (group.len() * units_per_account) as u32,
    }
}

/// The transactions of a cycle. What remains is rebased `group_size` accounts
/// to a transaction, in order. Where nothing remains, a single rebase of the
/// default address advances the checkpoint all the same.
pub open spec fn transactions_of(
    signer: Address,
    mint: Address,
    remaining: Seq<Address>,
    group_size: nat,
    units_per_account: u32,
) -> Seq<TransactionView> {
    if remaining.len() == 0 {
        seq![transaction_of(signer, mint, seq![Address::zero()], units_per_account)]
    } else {
        chunks_of(remaining, group_size).map_values(
            |group: Seq<Address>| transaction_of(signer, mint, group, units_per_account),
        )
    }
}

/// The submissions of a cycle: its transactions, `strategy.span()` to a
/// submission, in order.
pub open spec fn submissions_of(
    signer: Address,
    mint: Address,
    remaining: Seq<Address>,
    group_size: nat,
    units_per_account: u32,
    strategy: Strategy,
) -> Seq<Seq<TransactionView>> {
    chunks_of(
        transactions_of(signer, mint, remaining, group_size, units_per_account),
        strategy.span(),
    )
}

/// The instructions of transactions, one transaction after the other.
pub open spec fn instructions_of(txs: Seq<TransactionView>) -> Seq<InstructionView> {
    txs.map_values(|t: TransactionView| t.instructions).flatten()
}

/// Rebasing group by group is rebasing all, in order.
proof fn lemma_rebases_of_groups(signer: Address, mint: Address, groups: Seq<Seq<Address>>)
    ensures
        groups.map_values(|g: Seq<Address>| rebases_of(signer, mint, g)).flatten() == rebases_of(
            signer,
            mint,
            groups.flatten(),
        ),
    decreases groups.len(),
{
    let each = |g: Seq<Address>| rebases_of(signer, mint, g);
    if groups.len() == 0 {
        assert(groups.map_values(each).flatten() =~= rebases_of(signer, mint, groups.flatten()));
    } else {
        let before = groups.drop_last();
        let last = groups.last();
        lemma_rebases_of_groups(signer, mint, before);
        assert(groups =~= before.push(last));
        assert(groups.map_values(each) =~= before.map_values(each).push(each(last)));
        before.lemma_flatten_push(last);
        before.map_values(each).lemma_flatten_push(each(last));
        assert(rebases_of(signer, mint, before.flatten() + last) =~= rebases_of(
            signer,
            mint,
            before.flatten(),
        ) + rebases_of(signer, mint, last));
    }
}

/// A plan rebases what remains, each stake account once and in order. The
/// submissions, one after the other, are the transactions of the cycle; the
/// instructions of those, one after the other, rebase what remains, account
/// by account; and no transaction rebases more than `group_size` accounts.
pub proof fn lemma_plan_rebases_in_order(
    signer: Address,
    mint: Address,
    remaining: Seq<Address>,
    group_size: nat,
    units_per_account: u32,
    strategy: Strategy,
)
    requires
        group_size > 0,
        strategy.span() > 0,
        remaining.len() > 0,
    ensures
        submissions_of(
            signer,
            mint,
            remaining,
            group_size,
            units_per_account,
            strategy,
        ).flatten() == transactions_of(signer, mint, remaining, group_size, units_per_account),
        instructions_of(
            transactions_of(signer, mint, remaining, group_size, units_per_account),
        ) == rebases_of(signer, mint, remaining),
        forall|i: int|
            0 <= i < transactions_of(
                signer,
                mint,
                remaining,
                group_size,
                units_per_account,
            ).len() ==> 0 < (#[trigger] transactions_of(
                signer,
                mint,
                remaining,
                group_size,
                units_per_account,
            )[i]).instructions.len() <= group_size,
{
    let txs = transactions_of(signer, mint, remaining, group_size, units_per_account);
    let groups = chunks_of(remaining, group_size);
    lemma_chunks_partition(txs, strategy.span());
    lemma_chunks_partition(remaining, group_size);
    lemma_rebases_of_groups(signer, mint, groups);
    assert(txs.map_values(|t: TransactionView| t.instructions) =~= groups.map_values(
        |g: Seq<Address>| rebases_of(signer, mint, g),
    ));
    assert forall|i: int| 0 <= i < txs.len() implies 0 < (#[trigger] txs[i]).instructions.len()
        <= group_size by {
        assert(txs[i].instructions.len() == groups[i].len());
    }
}

/// Grouping the images of a sequence is the same as taking the images of its
/// groups.
proof fn lemma_chunks_of_images(txs: Seq<Transaction>, size: nat)
    requires
        size > 0,
    ensures
        chunks_of(transaction_views(txs), size) == chunks_of(txs, size).map_values(
            |g: Seq<Transaction>| transaction_views(g),
        ),
{
    let left = chunks_of(transaction_views(txs), size);
    let right = chunks_of(txs, size).map_values(|g: Seq<Transaction>| transaction_views(g));
    assert(left.len() == right.len());
    assert forall|i: int| 0 <= i < left.len() implies left[i] == right[i] by {
        crate::batch::lemma_group_bounds(txs.len(), size, i);
        assert(left[i] =~= right[i]);
    }
    assert(left =~= right);
}

/// Builds the transaction that rebases one group of stake accounts.
pub fn rebase_transaction(
    signer: &Address,
    mint: &Address,
    group: &Vec<Address>,
    units_per_account: u32,
) -> (tx: Transaction)
    requires
        group@.len() * units_per_account <= u32::MAX,
    ensures
        tx@ == transaction_of(*signer, *mint, group@, units_per_account),
{
    let instructions = rebase(signer, mint, group);
    let n = group.len();
    proof {
        assert(n <= n * units_per_account || units_per_account == 0) by (nonlinear_arith);
        assert(units_per_account == 0 ==> n * units_per_account == 0) by (nonlinear_arith);
    }
    let budget: u32 = if units_per_account == 0 {
        0
    } else {
        (n as u32) * units_per_account
    };
    Transaction { instructions, compute_budget: budget }
}

/// Plans the submissions of a cycle from what remains of the pool's
/// participants, by ascending id.
pub fn rebase_all(
    signer: &Address,
    mint: &Address,
    remaining: Vec<Address>,
    group_size: usize,
    units_per_account: u32,
    strategy: Strategy,
) -> (plan: Vec<Vec<Transaction>>)
    requires
        group_size > 0,
        group_size * units_per_account <= u32::MAX,
        strategy.span() > 0,
    ensures
        submission_views(plan@) == submissions_of(
            *signer,
            *mint,
            remaining@,
            group_size as nat,
            units_per_account,
            strategy,
        ),
{
    let ghost want = transactions_of(
        *signer,
        *mint,
        remaining@,
        group_size as nat,
        units_per_account,
    );
    let mut txs: Vec<Transaction> = Vec::new();
    proof {
        assert(1 * units_per_account <= group_size * units_per_account) by (nonlinear_arith)
            requires
                group_size >= 1,
        ;
    }
    if remaining.len() == 0 {
        let mut group: Vec<Address> = Vec::new();
        group.push(Address::default_address());
        assert(group@ =~= seq![Address::zero()]);
        let tx = rebase_transaction(signer, mint, &group, units_per_account);
        txs.push(tx);
        assert(transaction_views(txs@) =~= want);
    } else {
        let ghost all = remaining@;
        let groups = chunks(remaining, group_size);
        proof {
            lemma_chunks_partition(all, group_size as nat);
        }
        let mut g: usize = 0;
        while g < groups.len()
            invariant
                g <= groups.len(),
                contents(groups@) == chunks_of(all, group_size as nat),
                group_size * units_per_account <= u32::MAX,
                forall|i: int|
                    0 <= i < chunks_of(all, group_size as nat).len() ==> 0 < (
                    #[trigger] chunks_of(all, group_size as nat)[i]).len() <= group_size,
                txs@.len() == g,
                forall|j: int|
                    0 <= j < g ==> (#[trigger] txs@[j])@ == transaction_of(
                        *signer,
                        *mint,
                        chunks_of(all, group_size as nat)[j],
                        units_per_account,
                    ),
            decreases groups.len() - g,
        {
            let group = &groups[g];
            proof {
                assert(contents(groups@)[g as int] == group@);
                let n = group@.len();
                assert(n * units_per_account <= group_size * units_per_account)
                    by (nonlinear_arith)
                    requires
                        n <= group_size,
                ;
            }
            let tx = rebase_transaction(signer, mint, group, units_per_account);
            txs.push(tx);
            g += 1;
        }
        assert(transaction_views(txs@) =~= want);
    }
    let ghost built = txs@;
    let plan = chunks(txs, strategy.width());
    proof {
        lemma_chunks_of_images(built, strategy.span());
        assert(submission_views(plan@) =~= contents(plan@).map_values(
            |g: Seq<Transaction>| transaction_views(g),
        ));
    }
    plan
}

} // verus!
