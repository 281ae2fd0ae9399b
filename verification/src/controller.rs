//! The reconciliation loop of one pool, as a machine that is told what
//! happened and says what to do next.
//!
//! The machine starts cold, waits for the interval to pass, reads what
//! remains of the pool's participants, submits it, retires the lookup tables,
//! opens tables for the next interval and waits again. Whatever fails leads to a pause and to another try from
//! what the ledger says, never to a stop.

use crate::address::Address;
use crate::config::{Config, Fault, Limits};
use crate::error::{Error, Failure};
use crate::stake::{
    addresses, addresses_of, remaining, remaining_of, Checkpoint, Participant,
};
use crate::submit::{
    rebase_all, submission_views, submissions_of, transaction_views, Transaction,
    TransactionView,
};
use vstd::prelude::*;

verus! {

/// The states of the loop.
#[derive(Clone, Copy, Debug, PartialEq, Eq, Structural)]
pub enum Phase {
    ColdStart,
    AwaitInterval,
    Reconcile,
    Submit,
    Rotate,
    Backoff,
}

/// Where a pause leads.
#[derive(Clone, Copy, Debug, PartialEq, Eq, Structural)]
pub enum Resume {
    ColdStart,
    AwaitInterval,
    Reconcile,
}

/// What the machine waits for.
#[derive(Clone, Copy, Debug, PartialEq, Eq, Structural)]
pub enum Stage {
    /// Nothing was asked for yet.
    Idle,
    /// Cold start: the checkpoint was asked for.
    ColdCheckpoint,
    /// Cold start: the participants were asked for.
    ColdParticipants,
    /// Cold start: the lookup tables are being synced.
    ColdSync,
    /// The ledger's time was asked for.
    AwaitClock,
    /// Reconcile: the checkpoint was asked for.
    ReconcileCheckpoint,
    /// Reconcile: the participants were asked for.
    ReconcileParticipants,
    /// Reconcile: the lookup tables are being synced for a new interval.
    ReconcileSync,
    /// A submission is under way.
    Submitting,
    /// The lookup tables are being retired.
    Rotating,
    /// Rotate: the participants of the next interval were asked for.
    RotateParticipants,
    /// Rotate: lookup tables are being opened for the next interval.
    RotateSync,
    /// A pause is under way.
    Sleeping { resume: Resume },
}

impl Stage {
    /// The state of the loop that the stage belongs to.
    pub open spec fn phase(self) -> Phase {
        match self {
            Stage::Idle | Stage::ColdCheckpoint | Stage::ColdParticipants | Stage::ColdSync =>
                Phase::ColdStart,
            Stage::AwaitClock => Phase::AwaitInterval,
            Stage::ReconcileCheckpoint | Stage::ReconcileParticipants | Stage::ReconcileSync =>
                Phase::Reconcile,
            Stage::Submitting => Phase::Submit,
            Stage::Rotating | Stage::RotateParticipants | Stage::RotateSync => Phase::Rotate,
            Stage::Sleeping { .. } => Phase::Backoff,
        }
    }

    /// The state of the loop that the stage belongs to.
    pub fn loop_state(&self) -> (p: Phase)
        ensures
            p == self.phase(),
    {
        match self {
            Stage::Idle | Stage::ColdCheckpoint | Stage::ColdParticipants | Stage::ColdSync =>
                Phase::ColdStart,
            Stage::AwaitClock => Phase::AwaitInterval,
            Stage::ReconcileCheckpoint | Stage::ReconcileParticipants | Stage::ReconcileSync =>
                Phase::Reconcile,
            Stage::Submitting => Phase::Submit,
            Stage::Rotating | Stage::RotateParticipants | Stage::RotateSync => Phase::Rotate,
            Stage::Sleeping { .. } => Phase::Backoff,
        }
    }
}

/// What happened: the outcome of the action that the machine asked for.
#[derive(Debug)]
pub enum Event {
    /// The agent was started.
    Started,
    /// The checkpoint, or `None` where it could not be read.
    Checkpoint(Option<Checkpoint>),
    /// The ledger's time in seconds, or `None` where it could not be read.
    Clock(Option<i64>),
    /// The pool's participants, or `None` where they could not be read.
    Participants(Option<Vec<Participant>>),
    /// The lookup tables were synced, but for `failures` actions.
    Synced { failures: u64 },
    /// The submission was accepted, or failed in the way given.
    Submitted(Result<(), Failure>),
    /// The lookup tables were rotated, but for `failures` actions.
    Rotated { failures: u64 },
    /// The pause is over.
    Woke,
}

/// What an event says.
pub enum EventView {
    Started,
    Checkpoint(Option<Checkpoint>),
    Clock(Option<i64>),
    Participants(Option<Seq<Participant>>),
    Synced { failures: u64 },
    Submitted(Result<(), Failure>),
    Rotated { failures: u64 },
    Woke,
}

impl View for Event {
    type V = EventView;

    open spec fn view(&self) -> EventView {
        match *self {
            Event::Started => EventView::Started,
            Event::Checkpoint(c) => EventView::Checkpoint(c),
            Event::Clock(t) => EventView::Clock(t),
            Event::Participants(p) => EventView::Participants(
                match p {
                    Some(list) => Some(list@),
                    None => None,
                },
            ),
            Event::Synced { failures } => EventView::Synced { failures },
            Event::Submitted(outcome) => EventView::Submitted(outcome),
            Event::Rotated { failures } => EventView::Rotated { failures },
            Event::Woke => EventView::Woke,
        }
    }
}

/// What the caller is to do next.
#[derive(Debug)]
pub enum Action {
    /// Read the pool's checkpoint.
    FetchCheckpoint,
    /// Read the ledger's time.
    FetchClock,
    /// Read the pool's participants.
    FetchParticipants,
    /// Bring the lookup tables in line with these participant addresses.
    Sync { participants: Vec<Address> },
    /// Submit these transactions: one alone, several as one atomic bundle.
    Submit { transactions: Vec<Transaction> },
    /// Retire the pool's lookup tables.
    Rotate,
    /// Pause; `cause` says why.
    Sleep { seconds: u64, cause: Failure },
}

/// What an action says.
pub enum ActionView {
    FetchCheckpoint,
    FetchClock,
    FetchParticipants,
    Sync { participants: Seq<Address> },
    Submit { transactions: Seq<TransactionView> },
    Rotate,
    Sleep { seconds: u64, cause: Failure },
}

impl View for Action {
    type V = ActionView;

    open spec fn view(&self) -> ActionView {
        match *self {
            Action::FetchCheckpoint => ActionView::FetchCheckpoint,
            Action::FetchClock => ActionView::FetchClock,
            Action::FetchParticipants => ActionView::FetchParticipants,
            Action::Sync { participants } => ActionView::Sync { participants: participants@ },
            Action::Submit { transactions } => ActionView::Submit {
                transactions: transaction_views(transactions@),
            },
            Action::Rotate => ActionView::Rotate,
            Action::Sleep { seconds, cause } => ActionView::Sleep { seconds, cause },
        }
    }
}

/// Seconds since the last cycle was completed.
pub open spec fn elapsed(now: i64, last_rebase_time: i64) -> int {
    now - last_rebase_time
}

/// The interval has passed.
pub open spec fn is_due(now: i64, last_rebase_time: i64, interval: i64) -> bool {
    elapsed(now, last_rebase_time) >= interval
}

/// How long to wait for the interval to pass: what is left of it, but no
/// longer than `poll_cap`; nothing where the interval has passed.
pub open spec fn wait_for(now: i64, last_rebase_time: i64, interval: i64, poll_cap: u64) -> int {
    if is_due(now, last_rebase_time, interval) {
        0
    } else if interval - elapsed(now, last_rebase_time) < poll_cap {
        interval - elapsed(now, last_rebase_time)
    } else {
        poll_cap as int
    }
}

/// Tells whether the interval has passed at time `now`.
pub fn check_for_time(now: i64, checkpoint: &Checkpoint, interval: i64) -> (r: Result<(), Error>)
    ensures
        is_due(now, checkpoint.last_rebase_time, interval) <==> r is Ok,
        r is Err ==> r == Err::<(), Error>(Error::ClockStillTicking),
{
    let since: i128 = now as i128 - checkpoint.last_rebase_time as i128;
    if since < interval as i128 {
        Err(Error::ClockStillTicking)
    } else {
        Ok(())
    }
}

/// How many seconds to wait at time `now` for the interval to pass.
pub fn time_to_wait(now: i64, checkpoint: &Checkpoint, interval: i64, poll_cap: u64) -> (seconds:
    u64)
    ensures
        seconds == wait_for(now, checkpoint.last_rebase_time, interval, poll_cap),
        seconds == 0 <==> is_due(now, checkpoint.last_rebase_time, interval) || poll_cap == 0,
{
    let since: i128 = now as i128 - checkpoint.last_rebase_time as i128;
    let left: i128 = interval as i128 - since;
    if left <= 0 {
        0
    } else if left < poll_cap as i128 {
        left as u64
    } else {
        poll_cap
    }
}

/// Why the machine pauses after `event`: a submission failed in the way it
/// reports, table work failed in part, or what was asked for did not come.
pub open spec fn cause_of(event: EventView) -> Failure {
    match event {
        EventView::Submitted(Err(failure)) => failure,
        EventView::Synced { failures } if failures > 0 => Failure::PartialBatchFailure,
        EventView::Rotated { failures } if failures > 0 => Failure::PartialBatchFailure,
        _ => Failure::TransportFailure,
    }
}

/// Why the machine pauses after `event`.
pub fn cause(event: &Event) -> (c: Failure)
    ensures
        c == cause_of(event@),
{
    match event {
        Event::Submitted(Err(failure)) => *failure,
        Event::Synced { failures } if *failures > 0 => Failure::PartialBatchFailure,
        Event::Rotated { failures } if *failures > 0 => Failure::PartialBatchFailure,
        _ => Failure::TransportFailure,
    }
}

/// The state of the machine.
pub struct ControllerState {
    pub config: Config,
    /// Who signs and pays.
    pub signer: Address,
    /// The asset of the pool.
    pub mint: Address,
    pub stage: Stage,
    /// The checkpoint as last read.
    pub checkpoint: Option<Checkpoint>,
    /// The ledger's time as last read.
    pub clock: Option<i64>,
    /// The completion time of the cycle for which the tables were synced.
    pub synced_for: Option<i64>,
    /// The participants as last read.
    pub participants: Seq<Participant>,
    /// The submissions of this pass that are not handed out yet, in order.
    pub queue: Seq<Seq<TransactionView>>,
}

impl ControllerState {
    /// The interval has passed, by the time and the checkpoint last read.
    pub open spec fn due(self) -> bool {
        &&& self.checkpoint matches Some(cp)
        &&& self.clock matches Some(now)
        &&& is_due(now, cp.last_rebase_time, self.config.interval)
    }

    /// The lookup tables were synced for the interval of the checkpoint last
    /// read.
    pub open spec fn synced(self) -> bool {
        self.checkpoint matches Some(cp) && self.synced_for == Some(cp.last_rebase_time)
    }

    pub open spec fn wf(self) -> bool {
        &&& self.config.usable()
        &&& match self.stage {
            Stage::Idle | Stage::ColdCheckpoint | Stage::Sleeping { resume: Resume::ColdStart } =>
                true,
            Stage::ColdParticipants
            | Stage::ColdSync
            | Stage::AwaitClock
            | Stage::Rotating
            | Stage::RotateParticipants
            | Stage::RotateSync
            | Stage::Sleeping { resume: Resume::AwaitInterval } => self.checkpoint is Some,
            Stage::ReconcileCheckpoint | Stage::Sleeping { resume: Resume::Reconcile } =>
                self.checkpoint is Some && self.clock is Some,
            Stage::ReconcileParticipants | Stage::ReconcileSync => self.due(),
            Stage::Submitting => self.due() && self.synced(),
        }
    }

    /// A pause after a failure.
    pub open spec fn back_off(self, resume: Resume, cause: Failure) -> (
        ControllerState,
        ActionView,
    ) {
        (
            ControllerState { stage: Stage::Sleeping { resume }, ..self },
            ActionView::Sleep { seconds: self.config.backoff, cause },
        )
    }

    /// The submissions for what remains of `participants` at the cursor.
    pub open spec fn planned(self, participants: Seq<Participant>) -> ControllerState {
        ControllerState {
            queue: submissions_of(
                self.signer,
                self.mint,
                addresses(remaining_of(participants, self.checkpoint->0.cursor)),
                self.config.group_size as nat,
                self.config.units_per_account,
                self.config.strategy,
            ),
            ..self
        }
    }

    /// Hands out the next submission; rotates the tables once none is left.
    pub open spec fn submit_next(self) -> (ControllerState, ActionView) {
        if self.queue.len() > 0 {
            (
                ControllerState { stage: Stage::Submitting, queue: self.queue.skip(1), ..self },
                ActionView::Submit { transactions: self.queue[0] },
            )
        } else {
            (ControllerState { stage: Stage::Rotating, ..self }, ActionView::Rotate)
        }
    }

    /// Goes on to reconcile if the interval has passed, by the time and the
    /// checkpoint last read; pauses if not.
    pub open spec fn when_due(self, next: Stage, action: ActionView) -> (
        ControllerState,
        ActionView,
    ) {
        if self.due() {
            (ControllerState { stage: next, ..self }, action)
        } else {
            (
                ControllerState {
                    stage: Stage::Sleeping { resume: Resume::AwaitInterval },
                    ..self
                },
                ActionView::Sleep {
                    seconds: wait_for(
                        self.clock->0,
                        self.checkpoint->0.last_rebase_time,
                        self.config.interval,
                        self.config.poll_cap,
                    ) as u64,
                    cause: Failure::IntervalNotElapsed,
                },
            )
        }
    }

    /// The state after `event`, and what is to be done next.
    pub open spec fn next(self, event: EventView) -> (ControllerState, ActionView) {
        match self.stage {
            Stage::Idle | Stage::Sleeping { resume: Resume::ColdStart } => (
                ControllerState { stage: Stage::ColdCheckpoint, ..self },
                ActionView::FetchCheckpoint,
            ),
            Stage::ColdCheckpoint => match event {
                EventView::Checkpoint(Some(cp)) => (
                    ControllerState {
                        stage: Stage::ColdParticipants,
                        checkpoint: Some(cp),
                        ..self
                    },
                    ActionView::FetchParticipants,
                ),
                _ => self.back_off(Resume::ColdStart, cause_of(event)),
            },
            Stage::ColdParticipants => match event {
                EventView::Participants(Some(found)) => (
                    ControllerState { stage: Stage::ColdSync, participants: found, ..self },
                    ActionView::Sync { participants: addresses(found) },
                ),
                _ => self.back_off(Resume::ColdStart, cause_of(event)),
            },
            Stage::ColdSync => match event {
                EventView::Synced { failures } if failures == 0 => (
                    ControllerState {
                        stage: Stage::AwaitClock,
                        synced_for: Some(self.checkpoint->0.last_rebase_time),
                        ..self
                    },
                    ActionView::FetchClock,
                ),
                _ => self.back_off(Resume::ColdStart, cause_of(event)),
            },
            Stage::Sleeping { resume: Resume::AwaitInterval } => (
                ControllerState { stage: Stage::AwaitClock, ..self },
                ActionView::FetchClock,
            ),
            Stage::AwaitClock => match event {
                EventView::Clock(Some(now)) => ControllerState {
                    clock: Some(now),
                    ..self
                }.when_due(Stage::ReconcileCheckpoint, ActionView::FetchCheckpoint),
                _ => self.back_off(Resume::AwaitInterval, cause_of(event)),
            },
            Stage::Sleeping { resume: Resume::Reconcile } => (
                ControllerState { stage: Stage::ReconcileCheckpoint, ..self },
                ActionView::FetchCheckpoint,
            ),
            Stage::ReconcileCheckpoint => match event {
                EventView::Checkpoint(Some(cp)) => ControllerState {
                    checkpoint: Some(cp),
                    ..self
                }.when_due(Stage::ReconcileParticipants, ActionView::FetchParticipants),
                _ => self.back_off(Resume::Reconcile, cause_of(event)),
            },
            Stage::ReconcileParticipants => match event {
                EventView::Participants(Some(found)) => if self.synced_for != Some(
                    self.checkpoint->0.last_rebase_time,
                ) {
                    (
                        ControllerState {
                            stage: Stage::ReconcileSync,
                            participants: found,
                            ..self
                        },
                        ActionView::Sync { participants: addresses(found) },
                    )
                } else {
                    ControllerState { participants: found, ..self }.planned(found).submit_next()
                },
                _ => self.back_off(Resume::Reconcile, cause_of(event)),
            },
            Stage::ReconcileSync => match event {
                EventView::Synced { failures } if failures == 0 => ControllerState {
                    synced_for: Some(self.checkpoint->0.last_rebase_time),
                    ..self
                }.planned(self.participants).submit_next(),
                _ => self.back_off(Resume::Reconcile, cause_of(event)),
            },
            Stage::Submitting => match event {
                EventView::Submitted(Ok(_)) => self.submit_next(),
                _ => self.back_off(Resume::Reconcile, cause_of(event)),
            },
            Stage::Rotating => match event {
                EventView::Rotated { failures } if failures == 0 => (
                    ControllerState { stage: Stage::RotateParticipants, ..self },
                    ActionView::FetchParticipants,
                ),
                _ => self.back_off(Resume::AwaitInterval, cause_of(event)),
            },
            Stage::RotateParticipants => match event {
                EventView::Participants(Some(found)) => (
                    ControllerState { stage: Stage::RotateSync, participants: found, ..self },
                    ActionView::Sync { participants: addresses(found) },
                ),
                _ => self.back_off(Resume::AwaitInterval, cause_of(event)),
            },
            Stage::RotateSync => match event {
                EventView::Synced { failures } if failures == 0 => (
                    ControllerState { stage: Stage::AwaitClock, ..self },
                    ActionView::FetchClock,
                ),
                _ => self.back_off(Resume::AwaitInterval, cause_of(event)),
            },
        }
    }

    /// The state in which the agent starts.
    pub open spec fn initial(config: Config, signer: Address, mint: Address) -> ControllerState {
        ControllerState {
            config,
            signer,
            mint,
            stage: Stage::Idle,
            checkpoint: None,
            clock: None,
            synced_for: None,
            participants: Seq::empty(),
            queue: Seq::empty(),
        }
    }
}

/// Every pass submits something: once the submissions of a pass are planned,
/// the next action is a submission, also where no participant remains, so
/// that the checkpoint advances all the same.
pub proof fn lemma_every_pass_submits(s: ControllerState, participants: Seq<Participant>)
    requires
        s.config.usable(),
    ensures
        s.planned(participants).queue.len() > 0,
        s.planned(participants).submit_next().1 is Submit,
        addresses(remaining_of(participants, s.checkpoint->0.cursor)).len() == 0 ==> s.planned(
            participants,
        ).queue.len() == 1 && s.planned(participants).queue[0].len() == 1,
{
    let rest = addresses(remaining_of(participants, s.checkpoint->0.cursor));
    let txs = crate::submit::transactions_of(
        s.signer,
        s.mint,
        rest,
        s.config.group_size as nat,
        s.config.units_per_account,
    );
    if rest.len() > 0 {
        crate::batch::lemma_group_count(rest.len(), s.config.group_size as nat);
    }
    assert(txs.len() > 0);
    crate::batch::lemma_chunks_partition(txs, s.config.strategy.span());
    if rest.len() == 0 {
        let span = s.config.strategy.span() as int;
        let count = crate::batch::group_count(1, s.config.strategy.span()) as int;
        assert(count == 1) by (nonlinear_arith)
            requires
                count * span >= 1,
                (count - 1) * span < 1,
                span > 0,
                count >= 0,
        ;
        crate::batch::lemma_group_bounds(txs.len(), s.config.strategy.span(), 0);
    }
}

/// The machine stays well formed whatever happens.
pub proof fn lemma_controller_stays_well_formed(s: ControllerState, event: EventView)
    requires
        s.wf(),
    ensures
        s.next(event).0.wf(),
        s.next(event).0.config == s.config,
{
}

/// A pause ends where it was meant to: whatever is reported then, the
/// machine takes up the cold start, the interval check or the reconciliation
/// by asking for what that state reads first.
pub proof fn lemma_pause_leads_back(s: ControllerState, event: EventView)
    requires
        s.wf(),
        s.stage is Sleeping,
    ensures
        s.stage->resume is ColdStart ==> s.next(event).0.stage is ColdCheckpoint && s.next(
            event,
        ).1 is FetchCheckpoint,
        s.stage->resume is AwaitInterval ==> s.next(event).0.stage is AwaitClock && s.next(
            event,
        ).1 is FetchClock,
        s.stage->resume is Reconcile ==> s.next(event).0.stage is ReconcileCheckpoint && s.next(
            event,
        ).1 is FetchCheckpoint,
{
}

/// A submission that fails sends the machine back to reconcile: it pauses
/// for the fixed time, and then reads the checkpoint anew, whatever was left
/// of the pass.
pub proof fn lemma_failed_submission_retries(s: ControllerState, failure: Failure)
    requires
        s.wf(),
        s.stage is Submitting,
    ensures
        s.next(EventView::Submitted(Err(failure))).0.stage == (Stage::Sleeping {
            resume: Resume::Reconcile,
        }),
        s.next(EventView::Submitted(Err(failure))).1 == (ActionView::Sleep {
            seconds: s.config.backoff,
            cause: failure,
        }),
{
}

/// Nothing is submitted before the interval has passed, nor before the
/// lookup tables are in step: when the machine hands out a submission, the
/// time last read lies at least an interval after the completion time of the
/// checkpoint last read, and the tables were synced for the interval of that
/// checkpoint.
pub proof fn lemma_submits_only_when_due(s: ControllerState, event: EventView)
    requires
        s.wf(),
    ensures
        s.next(event).1 is Submit ==> s.next(event).0.due() && s.next(event).0.synced(),
{
    lemma_controller_stays_well_formed(s, event);
}

/// While the interval has not passed, the machine pauses: on reading the
/// time it asks for a pause of what is left of the interval, capped, and for
/// nothing else.
pub proof fn lemma_waits_for_interval(s: ControllerState, now: i64)
    requires
        s.wf(),
        s.stage is AwaitClock,
        !is_due(now, s.checkpoint->0.last_rebase_time, s.config.interval),
    ensures
        s.next(EventView::Clock(Some(now))).0.stage.phase() is Backoff,
        s.next(EventView::Clock(Some(now))).1 == (ActionView::Sleep {
            seconds: wait_for(
                now,
                s.checkpoint->0.last_rebase_time,
                s.config.interval,
                s.config.poll_cap,
            ) as u64,
            cause: Failure::IntervalNotElapsed,
        }),
{
}

/// The reconciliation loop of one pool.
pub struct Controller {
    config: Config,
    signer: Address,
    mint: Address,
    stage: Stage,
    checkpoint: Option<Checkpoint>,
    clock: Option<i64>,
    synced_for: Option<i64>,
    participants: Vec<Participant>,
    // the submissions that are not handed out yet, the next one last
    queue: Vec<Vec<Transaction>>,
}

impl View for Controller {
    type V = ControllerState;

    closed spec fn view(&self) -> ControllerState {
        ControllerState {
            config: self.config,
            signer: self.signer,
            mint: self.mint,
            stage: self.stage,
            checkpoint: self.checkpoint,
            clock: self.clock,
            synced_for: self.synced_for,
            participants: self.participants@,
            queue: submission_views(self.queue@).reverse(),
        }
    }
}

/// The same list, last element first.
fn reversed(list: Vec<Vec<Transaction>>) -> (out: Vec<Vec<Transaction>>)
    ensures
        submission_views(out@) == submission_views(list@).reverse(),
{
    let ghost all = submission_views(list@);
    let mut rest = list;
    let mut out: Vec<Vec<Transaction>> = Vec::new();
    while rest.len() > 0
        invariant
            rest@.len() + out@.len() == all.len(),
            submission_views(rest@) == all.take(rest@.len() as int),
            forall|i: int|
                0 <= i < out@.len() ==> #[trigger] submission_views(out@)[i] == all[all.len() - 1
                    - i],
        decreases rest@.len(),
    {
        let ghost n = rest@.len() as int;
        let ghost before = submission_views(out@);
        let item = rest.pop().unwrap();
        proof {
            assert(submission_views(rest@) =~= all.take(n - 1));
            assert(all.take(n)[n - 1] == all[n - 1]);
            assert(submission_views(out@.push(item)) =~= before.push(all[n - 1]));
        }
        out.push(item);
    }
    assert(submission_views(out@) =~= all.reverse());
    out
}

impl Controller {
    /// A machine for the pool of `mint`, once the settings are found to fit
    /// the ledger's limits.
    pub fn new(config: Config, limits: &Limits, signer: Address, mint: Address) -> (r: Result<
        Controller,
        Fault,
    >)
        ensures
            match config.fault(*limits) {
                Some(f) => r == Err::<Controller, Fault>(f),
                None => r is Ok && r->Ok_0@ == ControllerState::initial(config, signer, mint)
                    && r->Ok_0@.wf(),
            },
    {
        match config.validate(limits) {
            Err(f) => Err(f),
            Ok(_) => {
                let c = Controller {
                    config,
                    signer,
                    mint,
                    stage: Stage::Idle,
                    checkpoint: None,
                    clock: None,
                    synced_for: None,
                    participants: Vec::new(),
                    queue: Vec::new(),
                };
                assert(c@.queue =~= Seq::<Seq<TransactionView>>::empty());
                Ok(c)
            },
        }
    }

    /// What the machine waits for.
    pub fn stage(&self) -> (s: Stage)
        ensures
            s == self@.stage,
    {
        self.stage
    }

    /// How many submissions of this pass are not handed out yet.
    pub fn pending(&self) -> (n: usize)
        ensures
            n == self@.queue.len(),
    {
        self.queue.len()
    }

    fn back_off(self, resume: Resume, cause: Failure) -> (r: (Controller, Action))
        ensures
            (r.0@, r.1@) == self@.back_off(resume, cause),
    {
        let mut c = self;
        c.stage = Stage::Sleeping { resume };
        let seconds = c.config.backoff;
        (c, Action::Sleep { seconds, cause })
    }

    fn when_due(self, next: Stage, action: Action) -> (r: (Controller, Action))
        requires
            self.checkpoint is Some,
            self.clock is Some,
        ensures
            (r.0@, r.1@) == self@.when_due(next, action@),
    {
        let mut c = self;
        let cp = c.checkpoint.unwrap();
        let now = c.clock.unwrap();
        match check_for_time(now, &cp, c.config.interval) {
            Ok(_) => {
                c.stage = next;
                (c, action)
            },
            Err(_) => {
                let seconds = time_to_wait(now, &cp, c.config.interval, c.config.poll_cap);
                c.stage = Stage::Sleeping { resume: Resume::AwaitInterval };
                (c, Action::Sleep { seconds, cause: Failure::IntervalNotElapsed })
            },
        }
    }

    fn plan(self) -> (c: Controller)
        requires
            self@.config.usable(),
            self.checkpoint is Some,
        ensures
            c@ == self@.planned(self@.participants),
    {
        let mut c = self;
        let cursor = c.checkpoint.unwrap().cursor;
        let rest = remaining(&c.participants, cursor);
        let list = addresses_of(&rest);
        let submissions = rebase_all(
            &c.signer,
            &c.mint,
            list,
            c.config.group_size,
            c.config.units_per_account,
            c.config.strategy,
        );
        let ghost want = submission_views(submissions@);
        c.queue = reversed(submissions);
        assert(c@.queue =~= want);
        c
    }

    fn submit_next(self) -> (r: (Controller, Action))
        ensures
            (r.0@, r.1@) == self@.submit_next(),
    {
        let mut c = self;
        let ghost before = c@.queue;
        let ghost n = c.queue@.len() as int;
        match c.queue.pop() {
            Some(transactions) => {
                c.stage = Stage::Submitting;
                proof {
                    assert(before[0] == transaction_views(transactions@));
                    assert(c@.queue =~= before.skip(1));
                }
                (c, Action::Submit { transactions })
            },
            None => {
                c.stage = Stage::Rotating;
                (c, Action::Rotate)
            },
        }
    }
}

/// Takes note of what happened and says what to do next.
pub fn run(controller: Controller, event: Event) -> (r: (Controller, Action))
    requires
        controller@.wf(),
    ensures
        (r.0@, r.1@) == controller@.next(event@),
        r.0@.wf(),
{
    proof {
        lemma_controller_stays_well_formed(controller@, event@);
    }
    let why = cause(&event);
    let mut c = controller;
    match c.stage {
        Stage::Idle | Stage::Sleeping { resume: Resume::ColdStart } => {
            c.stage = Stage::ColdCheckpoint;
            (c, Action::FetchCheckpoint)
        },
        Stage::ColdCheckpoint => match event {
            Event::Checkpoint(Some(cp)) => {
                c.stage = Stage::ColdParticipants;
                c.checkpoint = Some(cp);
                (c, Action::FetchParticipants)
            },
            _ => c.back_off(Resume::ColdStart, why),
        },
        Stage::ColdParticipants => match event {
            Event::Participants(Some(found)) => {
                let list = addresses_of(&found);
                c.stage = Stage::ColdSync;
                c.participants = found;
                (c, Action::Sync { participants: list })
            },
            _ => c.back_off(Resume::ColdStart, why),
        },
        Stage::ColdSync => match event {
            Event::Synced { failures } if failures == 0 => {
                c.stage = Stage::AwaitClock;
                c.synced_for = Some(c.checkpoint.unwrap().last_rebase_time);
                (c, Action::FetchClock)
            },
            _ => c.back_off(Resume::ColdStart, why),
        },
        Stage::Sleeping { resume: Resume::AwaitInterval } => {
            c.stage = Stage::AwaitClock;
            (c, Action::FetchClock)
        },
        Stage::AwaitClock => match event {
            Event::Clock(Some(now)) => {
                c.clock = Some(now);
                c.when_due(Stage::ReconcileCheckpoint, Action::FetchCheckpoint)
            },
            _ => c.back_off(Resume::AwaitInterval, why),
        },
        Stage::Sleeping { resume: Resume::Reconcile } => {
            c.stage = Stage::ReconcileCheckpoint;
            (c, Action::FetchCheckpoint)
        },
        Stage::ReconcileCheckpoint => match event {
            Event::Checkpoint(Some(cp)) => {
                c.checkpoint = Some(cp);
                c.when_due(Stage::ReconcileParticipants, Action::FetchParticipants)
            },
            _ => c.back_off(Resume::Reconcile, why),
        },
        Stage::ReconcileParticipants => match event {
            Event::Participants(Some(found)) => {
                let fresh = match c.synced_for {
                    Some(t) => t != c.checkpoint.unwrap().last_rebase_time,
                    None => true,
                };
                if fresh {
                    let list = addresses_of(&found);
                    c.stage = Stage::ReconcileSync;
                    c.participants = found;
                    (c, Action::Sync { participants: list })
                } else {
                    c.participants = found;
                    c.plan().submit_next()
                }
            },
            _ => c.back_off(Resume::Reconcile, why),
        },
        Stage::ReconcileSync => match event {
            Event::Synced { failures } if failures == 0 => {
                c.synced_for = Some(c.checkpoint.unwrap().last_rebase_time);
                c.plan().submit_next()
            },
            _ => c.back_off(Resume::Reconcile, why),
        },
        Stage::Submitting => match event {
            Event::Submitted(Ok(_)) => c.submit_next(),
            _ => c.back_off(Resume::Reconcile, why),
        },
        Stage::Rotating => match event {
            Event::Rotated { failures } if failures == 0 => {
                c.stage = Stage::RotateParticipants;
                (c, Action::FetchParticipants)
            },
            _ => c.back_off(Resume::AwaitInterval, why),
        },
        Stage::RotateParticipants => match event {
            Event::Participants(Some(found)) => {
                let list = addresses_of(&found);
                c.stage = Stage::RotateSync;
                c.participants = found;
                (c, Action::Sync { participants: list })
            },
            _ => c.back_off(Resume::AwaitInterval, why),
        },
        Stage::RotateSync => match event {
            Event::Synced { failures } if failures == 0 => {
                c.stage = Stage::AwaitClock;
                (c, Action::FetchClock)
            },
            _ => c.back_off(Resume::AwaitInterval, why),
        },
    }
}

} // verus!
