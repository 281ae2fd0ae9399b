//! The agent's settings and the ledger's limits they are held to.

use crate::error::Error;
use crate::submit::Strategy;
use vstd::prelude::*;
use vstd::string::StringExecFns;

verus! {

/// The clusters of the ledger that the agent can talk to.
#[derive(Clone, Copy, Debug, PartialEq, Eq, Structural)]
pub enum Cluster {
    MainnetBeta,
    StakedMainnetBeta,
    Devnet,
}

/// The cluster of a name: `mainnet`, `mainnet-staked` or `devnet`.
pub open spec fn cluster_named(name: Seq<char>) -> Option<Cluster> {
    if name == "mainnet"@ {
        Some(Cluster::MainnetBeta)
    } else if name == "mainnet-staked"@ {
        Some(Cluster::StakedMainnetBeta)
    } else if name == "devnet"@ {
        Some(Cluster::Devnet)
    } else {
        None
    }
}

/// Tells which cluster a name stands for.
pub fn helius_cluster(name: &str) -> (r: Result<Cluster, Error>)
    ensures
        match cluster_named(name@) {
            Some(cluster) => r == Ok::<Cluster, Error>(cluster),
            None => r == Err::<Cluster, Error>(Error::InvalidHeliusCluster),
        },
{
    let given = String::from_str(name);
    if given == String::from_str("mainnet") {
        Ok(Cluster::MainnetBeta)
    } else if given == String::from_str("mainnet-staked") {
        Ok(Cluster::StakedMainnetBeta)
    } else if given == String::from_str("devnet") {
        Ok(Cluster::Devnet)
    } else {
        Err(Error::InvalidHeliusCluster)
    }
}

/// The connection for asynchronous calls, which a client may lack.
pub fn get_async_client<T>(connection: Option<T>) -> (r: Result<T, Error>)
    ensures
        match connection {
            Some(c) => r == Ok::<T, Error>(c),
            None => r == Err::<T, Error>(Error::MissingHeliusSolanaAsyncClient),
        },
{
    match connection {
        Some(c) => Ok(c),
        None => Err(Error::MissingHeliusSolanaAsyncClient),
    }
}

/// What the ledger accepts.
#[derive(Clone, Copy, Debug, PartialEq, Eq, Structural)]
pub struct Limits {
    /// Stake accounts that one rebase transaction can name.
    pub accounts_per_transaction: usize,
    /// Compute units that one transaction can ask for.
    pub compute_units: u32,
    /// Transactions that one atomic bundle can hold.
    pub transactions_per_bundle: usize,
    /// Addresses that one lookup table can hold.
    pub addresses_per_table: usize,
    /// Addresses that one extend instruction can add.
    pub addresses_per_extend: usize,
    /// Tables that one transaction can deactivate or close.
    pub tables_per_transaction: usize,
}

/// The agent's settings.
#[derive(Clone, Copy, Debug, PartialEq, Eq, Structural)]
pub struct Config {
    /// Seconds that must lie between two cycles of a pool.
    pub interval: i64,
    /// The longest single wait for the interval to pass, in seconds.
    pub poll_cap: u64,
    /// Seconds to wait after a failure.
    pub backoff: u64,
    /// Stake accounts to a rebase transaction.
    pub group_size: usize,
    /// Compute units to ask for, for each stake account of a transaction.
    pub units_per_account: u32,
    /// How transactions are handed to the ledger.
    pub strategy: Strategy,
    /// Addresses to a lookup table.
    pub table_capacity: usize,
    /// Addresses to an extend instruction.
    pub extend_size: usize,
    /// Tables to a transaction that deactivates or closes them.
    pub close_size: usize,
    /// Seconds to wait between recording a new table and filling it.
    pub settle: u64,
    /// Slots that must pass between deactivating a table and closing it.
    pub cooldown: u64,
    /// Seconds to wait when a cooldown has not passed yet.
    pub cooldown_pause: u64,
}

/// The setting that a configuration has wrong.
#[derive(Clone, Copy, Debug, PartialEq, Eq, Structural)]
pub enum Fault {
    /// The interval is negative.
    Interval,
    /// The group size is zero or more than a transaction can name.
    GroupSize,
    /// A full group asks for more compute units than a transaction can have.
    ComputeBudget,
    /// The bundle size is zero.
    EmptyBundle,
    /// The bundle size is more than a bundle can hold.
    BundleTooLarge,
    /// The table capacity is zero or more than a table can hold.
    TableCapacity,
    /// The extend size is zero or more than an instruction can add.
    ExtendSize,
    /// The close size is zero or more than a transaction can take.
    CloseSize,
}

/// A bundle of that many transactions can be submitted.
pub open spec fn bundle_fits(transactions: nat, limit: nat) -> bool {
    0 < transactions <= limit
}

/// Tells whether a bundle of `transactions` transactions can be submitted
/// where a bundle holds `limit` at most.
pub fn check_bundle(transactions: usize, limit: usize) -> (r: Result<(), Error>)
    ensures
        bundle_fits(transactions as nat, limit as nat) <==> r is Ok,
        transactions == 0 <==> r == Err::<(), Error>(Error::EmptyJitoBundle),
        transactions > limit && transactions > 0 <==> r == Err::<(), Error>(
            Error::TooManyTransactionsInJitoBundle,
        ),
{
    if transactions == 0 {
        Err(Error::EmptyJitoBundle)
    } else if transactions > limit {
        Err(Error::TooManyTransactionsInJitoBundle)
    } else {
        Ok(())
    }
}

impl Config {
    /// The first setting that does not fit the limits, if there is one. The
    /// settings are looked at in the order of `Fault`.
    pub open spec fn fault(self, limits: Limits) -> Option<Fault> {
        if self.interval < 0 {
            Some(Fault::Interval)
        } else if self.group_size == 0 || self.group_size > limits.accounts_per_transaction {
            Some(Fault::GroupSize)
        } else if self.group_size * self.units_per_account > limits.compute_units {
            Some(Fault::ComputeBudget)
        } else if self.strategy matches Strategy::Bundled { size } && size == 0 {
            Some(Fault::EmptyBundle)
        } else if self.strategy matches Strategy::Bundled { size } && size
            > limits.transactions_per_bundle {
            Some(Fault::BundleTooLarge)
        } else if self.table_capacity == 0 || self.table_capacity > limits.addresses_per_table {
            Some(Fault::TableCapacity)
        } else if self.extend_size == 0 || self.extend_size > limits.addresses_per_extend {
            Some(Fault::ExtendSize)
        } else if self.close_size == 0 || self.close_size > limits.tables_per_transaction {
            Some(Fault::CloseSize)
        } else {
            None
        }
    }

    /// The settings can be worked with: every size is positive, the interval
    /// is not negative, and the budget of a full group fits 32 bits.
    pub open spec fn usable(self) -> bool {
        &&& self.interval >= 0
        &&& self.group_size > 0
        &&& self.group_size * self.units_per_account <= u32::MAX
        &&& self.strategy.span() > 0
        &&& self.table_capacity > 0
        &&& self.extend_size > 0
        &&& self.close_size > 0
    }

    /// Holds the settings to the ledger's limits.
    pub fn validate(&self, limits: &Limits) -> (r: Result<(), Fault>)
        ensures
            r == match self.fault(*limits) {
                Some(f) => Err::<(), Fault>(f),
                None => Ok::<(), Fault>(()),
            },
            r is Ok ==> self.usable(),
    {
        if self.interval < 0 {
            return Err(Fault::Interval);
        }
        if self.group_size == 0 || self.group_size > limits.accounts_per_transaction {
            return Err(Fault::GroupSize);
        }
        assert(self.group_size * self.units_per_account <= u128::MAX) by (nonlinear_arith)
            requires
                self.group_size <= 0xffff_ffff_ffff_ffff,
                self.units_per_account <= 0xffff_ffff,
        ;
        let budget: u128 = (self.group_size as u128) * (self.units_per_account as u128);
        if budget > limits.compute_units as u128 {
            return Err(Fault::ComputeBudget);
        }
        match self.strategy {
            Strategy::Sequential => {},
            Strategy::Bundled { size } => {
                match check_bundle(size, limits.transactions_per_bundle) {
                    Ok(_) => {},
                    Err(Error::EmptyJitoBundle) => {
                        return Err(Fault::EmptyBundle);
                    },
                    Err(_) => {
                        return Err(Fault::BundleTooLarge);
                    },
                }
            },
        }
        if self.table_capacity == 0 || self.table_capacity > limits.addresses_per_table {
            return Err(Fault::TableCapacity);
        }
        if self.extend_size == 0 || self.extend_size > limits.addresses_per_extend {
            return Err(Fault::ExtendSize);
        }
        if self.close_size == 0 || self.close_size > limits.tables_per_transaction {
            return Err(Fault::CloseSize);
        }
        Ok(())
    }
}

} // verus!
