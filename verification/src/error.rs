//! Failures the agent reports.

use vstd::prelude::*;
use vstd::string::StringExecFns;

verus! {

/// What can go wrong while the agent talks to the ledger or reads its own
/// records.
#[derive(Clone, Copy, Debug, PartialEq, Eq, Structural)]
pub enum Error {
    /// The name of the cluster is none that is known.
    InvalidHeliusCluster,
    /// The client has no connection for asynchronous calls.
    MissingHeliusSolanaAsyncClient,
    /// The bytes are not the 32 bytes of an address.
    InvalidPubkeyBytes,
    /// The interval between two cycles has not passed yet.
    ClockStillTicking,
    /// A bundle was submitted and not confirmed.
    UnconfirmedJitoBundle,
    /// A bundle holds more transactions than a bundle can.
    TooManyTransactionsInJitoBundle,
    /// A bundle holds no transaction.
    EmptyJitoBundle,
}

/// The kinds of failure that the agent tells apart.
#[derive(Clone, Copy, Debug, PartialEq, Eq, Structural)]
pub enum Failure {
    /// The interval between two cycles has not passed: a signal to wait, no
    /// fault.
    IntervalNotElapsed,
    /// The ledger could not be reached, or gave no answer.
    TransportFailure,
    /// A piece of the registry is no record.
    MalformedPersistedRecord,
    /// The ledger turned a submission down as too large or too costly.
    ResourceRejected,
    /// Some units of an operation failed while others went through.
    PartialBatchFailure,
}

impl Failure {
    /// The kind is a fault, not a signal to wait.
    pub fn is_fault(&self) -> (r: bool)
        ensures
            r == !(*self is IntervalNotElapsed),
    {
        match self {
            Failure::IntervalNotElapsed => false,
            _ => true,
        }
    }
}

impl Error {
    /// The kind of the failure.
    pub open spec fn kind_of(self) -> Failure {
        match self {
            Error::ClockStillTicking => Failure::IntervalNotElapsed,
            Error::InvalidPubkeyBytes => Failure::MalformedPersistedRecord,
            Error::TooManyTransactionsInJitoBundle | Error::EmptyJitoBundle =>
                Failure::ResourceRejected,
            Error::InvalidHeliusCluster
            | Error::MissingHeliusSolanaAsyncClient
            | Error::UnconfirmedJitoBundle => Failure::TransportFailure,
        }
    }

    /// The kind of the failure.
    pub fn kind(&self) -> (k: Failure)
        ensures
            k == self.kind_of(),
    {
        match self {
            Error::ClockStillTicking => Failure::IntervalNotElapsed,
            Error::InvalidPubkeyBytes => Failure::MalformedPersistedRecord,
            Error::TooManyTransactionsInJitoBundle | Error::EmptyJitoBundle =>
                Failure::ResourceRejected,
            Error::InvalidHeliusCluster
            | Error::MissingHeliusSolanaAsyncClient
            | Error::UnconfirmedJitoBundle => Failure::TransportFailure,
        }
    }

    /// What the failure is called in a log.
    pub open spec fn text(self) -> Seq<char> {
        match self {
            Error::InvalidHeliusCluster => "invalid helius cluster"@,
            Error::MissingHeliusSolanaAsyncClient => "missing async solana client"@,
            Error::InvalidPubkeyBytes => "invalid pubkey bytes"@,
            Error::ClockStillTicking => "clock still ticking"@,
            Error::UnconfirmedJitoBundle => "unconfirmed jito bundle"@,
            Error::TooManyTransactionsInJitoBundle => "too many transactions in jito bundle"@,
            Error::EmptyJitoBundle => "empty jito bundle"@,
        }
    }

    /// What the failure is called in a log.
    pub fn message(&self) -> (m: String)
        ensures
            m@ == self.text(),
    {
        match self {
            Error::InvalidHeliusCluster => String::from_str("invalid helius cluster"),
            Error::MissingHeliusSolanaAsyncClient => String::from_str(
                "missing async solana client",
            ),
            Error::InvalidPubkeyBytes => String::from_str("invalid pubkey bytes"),
            Error::ClockStillTicking => String::from_str("clock still ticking"),
            Error::UnconfirmedJitoBundle => String::from_str("unconfirmed jito bundle"),
            Error::TooManyTransactionsInJitoBundle => String::from_str(
                "too many transactions in jito bundle",
            ),
            Error::EmptyJitoBundle => String::from_str("empty jito bundle"),
        }
    }
}

} // verus!
