//! Retiring a pool's lookup tables: deactivate them, let the ledger's
//! cooldown pass, close them, and forget the ones that are gone.
//!
//! A rotation starts from what the ledger says of each table that the
//! registry lists, so that one that broke off can be taken up again. The
//! caller performs each action and reports how it went; the decisions are
//! made here.

use crate::address::Address;
use crate::ledger::{
    close, closings_of, deactivate, deactivations_of, instruction_views, Instruction,
    InstructionView,
};
use crate::tables::{Lifecycle, Table};
use vstd::prelude::*;

verus! {

/// How far a rotation has come.
#[derive(Clone, Copy, Debug, PartialEq, Eq, Structural)]
pub enum RotationPhase {
    /// Groups of active tables are being deactivated, one transaction each.
    Deactivating,
    /// Groups of deactivated tables are being closed, each once its
    /// cooldown has passed.
    Closing,
    /// The registry is to be rewritten with the tables that are not closed.
    Recording,
    /// Nothing is left to do.
    Finished,
}

/// What the caller is to do next.
#[derive(Debug)]
pub enum RotationAction {
    /// Submit one transaction that deactivates `tables`.
    Deactivate { tables: Vec<Address>, instructions: Vec<Instruction> },
    /// Let `seconds` pass, then ask again.
    Wait { seconds: u64 },
    /// Submit one transaction that closes `tables`.
    Close { tables: Vec<Address>, instructions: Vec<Instruction> },
    /// Replace the pool's registry by `survivors`.
    Record { survivors: Vec<Address> },
    /// The rotation is over; `failures` actions were not accepted.
    Finished { failures: u64 },
}

/// What an action says.
pub enum RotationStep {
    Deactivate { tables: Seq<Address>, instructions: Seq<InstructionView> },
    Wait { seconds: u64 },
    Close { tables: Seq<Address>, instructions: Seq<InstructionView> },
    Record { survivors: Seq<Address> },
    Finished { failures: u64 },
}

impl View for RotationAction {
    type V = RotationStep;

    open spec fn view(&self) -> RotationStep {
        match *self {
            RotationAction::Deactivate { tables, instructions } => RotationStep::Deactivate {
                tables: tables@,
                instructions: instruction_views(instructions@),
            },
            RotationAction::Wait { seconds } => RotationStep::Wait { seconds },
            RotationAction::Close { tables, instructions } => RotationStep::Close {
                tables: tables@,
                instructions: instruction_views(instructions@),
            },
            RotationAction::Record { survivors } => RotationStep::Record { survivors: survivors@ },
            RotationAction::Finished { failures } => RotationStep::Finished { failures },
        }
    }
}

/// A table that the registry lists, and where it stands in its life.
#[derive(Clone, Copy, Debug, PartialEq, Eq)]
pub struct Entry {
    pub address: Address,
    pub state: Lifecycle,
}

/// The entry of a table that the registry lists, as the ledger shows the
/// table: a table that the ledger does not hold is closed.
pub fn entry_of(address: Address, table: &Option<Table>) -> (e: Entry)
    ensures
        e.address == address,
        e.state == match *table {
            Some(t) => t.state,
            None => Lifecycle::Closed,
        },
{
    match table {
        Some(t) => Entry { address, state: t.state },
        None => Entry { address, state: Lifecycle::Closed },
    }
}

/// One more failure, unless the action was accepted; the count stops at the
/// largest `u64`.
pub open spec fn count_failure(failures: int, accepted: bool) -> int {
    if accepted || failures >= u64::MAX {
        failures
    } else {
        failures + 1
    }
}

/// The table is one that the phase works on: an active table while tables
/// are deactivated, a deactivated one while tables are closed.
pub open spec fn awaits(phase: RotationPhase, state: Lifecycle) -> bool {
    match phase {
        RotationPhase::Deactivating => state is Active,
        RotationPhase::Closing => state is Deactivating,
        _ => false,
    }
}

/// Where a table stands after the phase's action on it was accepted at slot
/// `now`.
pub open spec fn moved_on(phase: RotationPhase, now: u64) -> Lifecycle {
    match phase {
        RotationPhase::Deactivating => Lifecycle::Deactivating { since: now },
        _ => Lifecycle::Closed,
    }
}

/// The addresses of tables.
pub open spec fn entry_addresses(entries: Seq<Entry>) -> Seq<Address> {
    entries.map_values(|e: Entry| e.address)
}

/// The state of a rotation: the tables, where each stands, and how far the
/// rotation has come. The tables are worked on in groups: the first
/// `group_size` of them, the next `group_size`, and so on.
pub struct RotationState {
    pub entries: Seq<Entry>,
    /// The tables' authority, which also receives what closed tables held.
    pub authority: Address,
    pub group_size: nat,
    /// Slots that must pass between a deactivation and the closing.
    pub cooldown: u64,
    /// Seconds to wait when a cooldown has not passed yet.
    pub pause: u64,
    pub phase: RotationPhase,
    /// Where the group at hand begins.
    pub next: int,
    /// Actions that were not accepted so far.
    pub failures: int,
}

impl RotationState {
    /// Where the group that begins at `start` ends.
    pub open spec fn group_end(self, start: int) -> int {
        if start + self.group_size < self.entries.len() {
            start + self.group_size
        } else {
            self.entries.len() as int
        }
    }

    /// The tables of the group at `start` that `phase` works on.
    pub open spec fn targets(self, start: int, phase: RotationPhase) -> Seq<Address> {
        entry_addresses(
            self.entries.subrange(start, self.group_end(start)).filter(
                |e: Entry| awaits(phase, e.state),
            ),
        )
    }

    /// Where the first group begins, at or after `start`, that holds a table
    /// for `phase` to work on; the number of tables if there is none.
    pub open spec fn seek(self, start: int, phase: RotationPhase) -> int
        decreases self.entries.len() - start,
    {
        if start < 0 || start >= self.entries.len() || self.group_size == 0 {
            self.entries.len() as int
        } else if self.targets(start, phase).len() > 0 {
            start
        } else if start + self.group_size >= self.entries.len() {
            self.entries.len() as int
        } else {
            self.seek(start + self.group_size, phase)
        }
    }

    /// The cooldown of every deactivated table of the group at `start` has
    /// passed at slot `now`.
    pub open spec fn cooled(self, start: int, now: u64) -> bool {
        forall|i: int|
            start <= i < self.group_end(start) ==> (
            #[trigger] self.entries[i].state matches Lifecycle::Deactivating { since } ==> now
                - since >= self.cooldown)
    }

    /// The tables that are not closed, in their order.
    pub open spec fn survivors(self) -> Seq<Address> {
        entry_addresses(self.entries.filter(|e: Entry| !(e.state is Closed)))
    }

    /// What is to be done at slot `now`.
    pub open spec fn action(self, now: u64) -> RotationStep {
        match self.phase {
            RotationPhase::Deactivating => RotationStep::Deactivate {
                tables: self.targets(self.next, self.phase),
                instructions: deactivations_of(
                    self.targets(self.next, self.phase),
                    self.authority,
                ),
            },
            RotationPhase::Closing => if self.cooled(self.next, now) {
                RotationStep::Close {
                    tables: self.targets(self.next, self.phase),
                    instructions: closings_of(
                        self.targets(self.next, self.phase),
                        self.authority,
                        self.authority,
                    ),
                }
            } else {
                RotationStep::Wait { seconds: self.pause }
            },
            RotationPhase::Recording => RotationStep::Record { survivors: self.survivors() },
            RotationPhase::Finished => RotationStep::Finished { failures: self.failures as u64 },
        }
    }

    /// The tables once the action on the group at hand was accepted at slot
    /// `now`: the tables that the phase works on have moved on.
    pub open spec fn marked(self, now: u64) -> Seq<Entry> {
        Seq::new(
            self.entries.len(),
            |i: int|
                if self.next <= i < self.group_end(self.next) && awaits(
                    self.phase,
                    self.entries[i].state,
                ) {
                    Entry { address: self.entries[i].address, state: moved_on(self.phase, now) }
                } else {
                    self.entries[i]
                },
        )
    }

    /// The state once closing is to go on from the group at `start`.
    pub open spec fn closing_from(self, start: int) -> RotationState {
        let n = self.seek(start, RotationPhase::Closing);
        if n < self.entries.len() {
            RotationState { phase: RotationPhase::Closing, next: n, ..self }
        } else {
            RotationState { phase: RotationPhase::Recording, next: n, ..self }
        }
    }

    /// The state once deactivating is to go on from the group at `start`.
    pub open spec fn deactivating_from(self, start: int) -> RotationState {
        let n = self.seek(start, RotationPhase::Deactivating);
        if n < self.entries.len() {
            RotationState { phase: RotationPhase::Deactivating, next: n, ..self }
        } else {
            self.closing_from(0)
        }
    }

    /// The state after the action of this state was carried out at slot
    /// `now` and was accepted, or not.
    pub open spec fn after(self, now: u64, accepted: bool) -> RotationState {
        let noted = RotationState {
            entries: if accepted {
                self.marked(now)
            } else {
                self.entries
            },
            failures: count_failure(self.failures, accepted),
            ..self
        };
        match self.phase {
            RotationPhase::Deactivating => noted.deactivating_from(self.next + self.group_size),
            RotationPhase::Closing => noted.closing_from(self.next + self.group_size),
            RotationPhase::Recording => RotationState {
                phase: RotationPhase::Finished,
                failures: noted.failures,
                ..self
            },
            RotationPhase::Finished => self,
        }
    }

    /// The state in which a rotation starts: with the first group that holds
    /// an active table; with the first that holds a deactivated one if none
    /// is active; with the registry if all tables are gone.
    pub open spec fn start(
        entries: Seq<Entry>,
        authority: Address,
        group_size: nat,
        cooldown: u64,
        pause: u64,
    ) -> RotationState {
        let blank = RotationState {
            entries,
            authority,
            group_size,
            cooldown,
            pause,
            phase: RotationPhase::Finished,
            next: 0,
            failures: 0,
        };
        if entries.len() == 0 {
            blank
        } else {
            blank.deactivating_from(0)
        }
    }

    /// A bound on the reports that the rotation still takes: each group is
    /// reported on at most once while tables are deactivated and once while
    /// they are closed, and the registry once.
    pub open spec fn work_left(self) -> nat {
        match self.phase {
            RotationPhase::Deactivating => (2 * self.entries.len() + 2 - self.next) as nat,
            RotationPhase::Closing => (self.entries.len() + 1 - self.next) as nat,
            RotationPhase::Recording => 1,
            RotationPhase::Finished => 0,
        }
    }

    pub open spec fn wf(self) -> bool {
        &&& self.group_size > 0
        &&& 0 <= self.next <= self.entries.len()
        &&& 0 <= self.failures <= u64::MAX
        &&& self.phase is Deactivating || self.phase is Closing ==> self.next < self.entries.len()
            && self.targets(self.next, self.phase).len() > 0
    }
}

/// Where the search for a group ends.
pub proof fn lemma_seek(s: RotationState, start: int, phase: RotationPhase)
    requires
        0 <= start,
    ensures
        s.seek(start, phase) <= s.entries.len(),
        s.seek(start, phase) < s.entries.len() ==> start <= s.seek(start, phase) && s.targets(
            s.seek(start, phase),
            phase,
        ).len() > 0 && s.group_size > 0,
    decreases s.entries.len() - start,
{
    if start + s.group_size < s.entries.len() && s.group_size > 0 && s.targets(
        start,
        phase,
    ).len() == 0 {
        lemma_seek(s, start + s.group_size, phase);
    }
}

/// A rotation starts well formed.
pub proof fn lemma_rotation_starts_well_formed(
    entries: Seq<Entry>,
    authority: Address,
    group_size: nat,
    cooldown: u64,
    pause: u64,
)
    requires
        group_size > 0,
    ensures
        RotationState::start(entries, authority, group_size, cooldown, pause).wf(),
{
    let blank = RotationState {
        entries,
        authority,
        group_size,
        cooldown,
        pause,
        phase: RotationPhase::Finished,
        next: 0,
        failures: 0,
    };
    lemma_seek(blank, 0, RotationPhase::Deactivating);
    lemma_seek(blank, 0, RotationPhase::Closing);
}

/// A rotation stays well formed whatever is reported.
pub proof fn lemma_rotation_stays_well_formed(s: RotationState, now: u64, accepted: bool)
    requires
        s.wf(),
    ensures
        s.after(now, accepted).wf(),
{
    let noted = RotationState {
        entries: if accepted {
            s.marked(now)
        } else {
            s.entries
        },
        failures: count_failure(s.failures, accepted),
        ..s
    };
    lemma_seek(noted, s.next + s.group_size, RotationPhase::Deactivating);
    lemma_seek(noted, s.next + s.group_size, RotationPhase::Closing);
    lemma_seek(noted, 0, RotationPhase::Closing);
}

/// Every report brings a rotation nearer to its end, whether the action was
/// accepted or not: a rotation of `n` tables is over after `2 * n + 1`
/// reports at most.
pub proof fn lemma_rotation_comes_to_an_end(s: RotationState, now: u64, accepted: bool)
    requires
        s.wf(),
        !(s.phase is Finished),
    ensures
        s.after(now, accepted).work_left() < s.work_left(),
        s.work_left() <= 2 * s.entries.len() + 2,
{
    let noted = RotationState {
        entries: if accepted {
            s.marked(now)
        } else {
            s.entries
        },
        failures: count_failure(s.failures, accepted),
        ..s
    };
    lemma_seek(noted, s.next + s.group_size, RotationPhase::Deactivating);
    lemma_seek(noted, s.next + s.group_size, RotationPhase::Closing);
    lemma_seek(noted, 0, RotationPhase::Closing);
}

/// The tables that a phase works on in a group are tables of that group, in
/// the state that the phase works on.
pub proof fn lemma_targets(s: RotationState, start: int, phase: RotationPhase, k: int)
    requires
        0 <= start <= s.entries.len(),
        0 <= k < s.targets(start, phase).len(),
    ensures
        exists|i: int|
            start <= i < s.group_end(start) && (#[trigger] s.entries[i]).address == s.targets(
                start,
                phase,
            )[k] && awaits(phase, s.entries[i].state),
{
    let group = s.entries.subrange(start, s.group_end(start));
    let pred = |e: Entry| awaits(phase, e.state);
    let kept = group.filter(pred);
    group.lemma_filter_pred(pred, k);
    assert(kept.contains(kept[k]));
    group.lemma_filter_contains_rev(pred, kept[k]);
    let j = choose|j: int| 0 <= j < group.len() && group[j] == kept[k];
    assert(s.entries[start + j] == kept[k]);
}

/// A table is closed only after its cooldown. When the action is to close
/// tables, each of them is a table of the group at hand that was deactivated
/// at some slot, and at least `cooldown` slots have passed since.
pub proof fn lemma_close_waits_for_cooldown(s: RotationState, now: u64, k: int)
    requires
        s.wf(),
        s.action(now) is Close,
        0 <= k < s.action(now)->Close_tables.len(),
    ensures
        exists|i: int|
            0 <= i < s.entries.len() && (#[trigger] s.entries[i]).address == s.action(
                now,
            )->Close_tables[k] && (s.entries[i].state matches Lifecycle::Deactivating { since }
                && since + s.cooldown <= now),
{
    lemma_targets(s, s.next, s.phase, k);
    let i = choose|i: int|
        s.next <= i < s.group_end(s.next) && (#[trigger] s.entries[i]).address == s.targets(
            s.next,
            s.phase,
        )[k] && awaits(s.phase, s.entries[i].state);
    assert(s.entries[i].state is Deactivating);
}

/// A table moves on in its life only when an action on it is accepted: a step
/// leaves every table where it stood, but for the tables of the group at hand
/// that the phase works on, and those only if the action was accepted: then
/// an active table counts as deactivated at the slot of the report, and a
/// deactivated one as closed.
pub proof fn lemma_tables_move_on_when_accepted(
    s: RotationState,
    now: u64,
    accepted: bool,
    i: int,
)
    requires
        s.wf(),
        0 <= i < s.entries.len(),
    ensures
        s.after(now, accepted).entries.len() == s.entries.len(),
        s.after(now, accepted).entries[i].address == s.entries[i].address,
        s.after(now, accepted).entries[i].state != s.entries[i].state ==> {
            &&& accepted
            &&& s.next <= i < s.group_end(s.next)
            &&& awaits(s.phase, s.entries[i].state)
            &&& s.after(now, accepted).entries[i].state == moved_on(s.phase, now)
        },
{
}

/// Putting one table more behind a sequence of tables.
proof fn lemma_kept_push(entries: Seq<Entry>, e: Entry, pred: spec_fn(Entry) -> bool)
    ensures
        entry_addresses(entries.push(e).filter(pred)) == if pred(e) {
            entry_addresses(entries.filter(pred)).push(e.address)
        } else {
            entry_addresses(entries.filter(pred))
        },
{
    reveal(Seq::filter);
    assert(entries.push(e).drop_last() =~= entries);
    if pred(e) {
        assert(entry_addresses(entries.filter(pred).push(e)) =~= entry_addresses(
            entries.filter(pred),
        ).push(e.address));
    }
}

/// A rotation of a pool's lookup tables.
pub struct Rotation {
    entries: Vec<Entry>,
    authority: Address,
    group_size: usize,
    cooldown: u64,
    pause: u64,
    phase: RotationPhase,
    next: usize,
    failures: u64,
}

impl View for Rotation {
    type V = RotationState;

    closed spec fn view(&self) -> RotationState {
        RotationState {
            entries: self.entries@,
            authority: self.authority,
            group_size: self.group_size as nat,
            cooldown: self.cooldown,
            pause: self.pause,
            phase: self.phase,
            next: self.next as int,
            failures: self.failures as int,
        }
    }
}

/// Starts the rotation of the tables that a pool's registry lists, each as
/// the ledger shows it. The tables are handled `group_size` at a time. A table
/// is closed no sooner than `cooldown` slots after its deactivation; while that
/// time has not passed the caller is told to wait `pause` seconds.
pub fn close_prior(
    entries: Vec<Entry>,
    authority: Address,
    group_size: usize,
    cooldown: u64,
    pause: u64,
) -> (r: Rotation)
    requires
        group_size > 0,
    ensures
        r@ == RotationState::start(entries@, authority, group_size as nat, cooldown, pause),
        r@.wf(),
{
    proof {
        lemma_rotation_starts_well_formed(
            entries@,
            authority,
            group_size as nat,
            cooldown,
            pause,
        );
    }
    let blank = Rotation {
        entries,
        authority,
        group_size,
        cooldown,
        pause,
        phase: RotationPhase::Finished,
        next: 0,
        failures: 0,
    };
    if blank.entries.len() == 0 {
        blank
    } else {
        blank.deactivating_from(0)
    }
}

impl Rotation {
    /// Where the rotation stands.
    pub fn phase(&self) -> (p: RotationPhase)
        ensures
            p == self@.phase,
    {
        self.phase
    }

    /// How many actions were not accepted so far.
    pub fn failures(&self) -> (n: u64)
        ensures
            n == self@.failures,
    {
        self.failures
    }

    /// The tables, each where it stands now.
    pub fn entries(&self) -> (out: Vec<Entry>)
        ensures
            out@ == self@.entries,
    {
        let mut out: Vec<Entry> = Vec::new();
        let mut i: usize = 0;
        while i < self.entries.len()
            invariant
                i <= self.entries.len(),
                out@ == self.entries@.take(i as int),
            decreases self.entries.len() - i,
        {
            assert(self.entries@.take(i + 1) =~= self.entries@.take(i as int).push(
                self.entries@[i as int],
            ));
            out.push(self.entries[i]);
            i += 1;
        }
        assert(self.entries@.take(self.entries.len() as int) =~= self.entries@);
        out
    }

    /// The tables that are not closed, in their order.
    pub fn survivors(&self) -> (out: Vec<Address>)
        ensures
            out@ == self@.survivors(),
    {
        let ghost pred = |e: Entry| !(e.state is Closed);
        let mut out: Vec<Address> = Vec::new();
        let mut i: usize = 0;
        proof {
            reveal(Seq::filter);
            assert(self.entries@.take(0) =~= Seq::<Entry>::empty());
            assert(out@ =~= entry_addresses(self.entries@.take(0).filter(pred)));
        }
        while i < self.entries.len()
            invariant
                i <= self.entries.len(),
                pred == |e: Entry| !(e.state is Closed),
                out@ == entry_addresses(self.entries@.take(i as int).filter(pred)),
            decreases self.entries.len() - i,
        {
            let e = self.entries[i];
            proof {
                assert(self.entries@.take(i + 1) =~= self.entries@.take(i as int).push(e));
                lemma_kept_push(self.entries@.take(i as int), e, pred);
            }
            match e.state {
                Lifecycle::Closed => {},
                _ => {
                    out.push(e.address);
                },
            }
            i += 1;
        }
        assert(self.entries@.take(self.entries.len() as int) =~= self.entries@);
        out
    }

    /// Where the group that begins at `start` ends.
    fn group_end(&self, start: usize) -> (end: usize)
        requires
            start <= self.entries@.len(),
        ensures
            end == self@.group_end(start as int),
            start <= end <= self.entries@.len(),
    {
        if self.entries.len() - start > self.group_size {
            start + self.group_size
        } else {
            self.entries.len()
        }
    }

    /// The phase works on a table in this state.
    fn works_on(phase: RotationPhase, state: Lifecycle) -> (r: bool)
        ensures
            r == awaits(phase, state),
    {
        match phase {
            RotationPhase::Deactivating => match state {
                Lifecycle::Active => true,
                _ => false,
            },
            RotationPhase::Closing => match state {
                Lifecycle::Deactivating { .. } => true,
                _ => false,
            },
            _ => false,
        }
    }

    /// The tables of the group at `start` that `phase` works on.
    fn targets(&self, start: usize, phase: RotationPhase) -> (out: Vec<Address>)
        requires
            start <= self.entries@.len(),
        ensures
            out@ == self@.targets(start as int, phase),
    {
        let end = self.group_end(start);
        let ghost pred = |e: Entry| awaits(phase, e.state);
        let ghost group = self.entries@.subrange(start as int, end as int);
        let mut out: Vec<Address> = Vec::new();
        let mut i: usize = start;
        proof {
            reveal(Seq::filter);
            assert(group.take(0) =~= Seq::<Entry>::empty());
            assert(out@ =~= entry_addresses(group.take(0).filter(pred)));
        }
        while i < end
            invariant
                start <= i <= end <= self.entries@.len(),
                pred == |e: Entry| awaits(phase, e.state),
                group == self.entries@.subrange(start as int, end as int),
                out@ == entry_addresses(group.take(i - start).filter(pred)),
            decreases end - i,
        {
            let e = self.entries[i];
            proof {
                assert(group.take(i - start + 1) =~= group.take(i - start).push(e));
                lemma_kept_push(group.take(i - start), e, pred);
            }
            if Self::works_on(phase, e.state) {
                out.push(e.address);
            }
            i += 1;
        }
        assert(group.take(end - start) =~= group);
        out
    }

    /// The cooldown of every deactivated table of the group at `start` has
    /// passed at slot `now`.
    fn cooled(&self, start: usize, now: u64) -> (r: bool)
        requires
            start <= self.entries@.len(),
        ensures
            r == self@.cooled(start as int, now),
    {
        let end = self.group_end(start);
        let mut i: usize = start;
        while i < end
            invariant
                start <= i <= end <= self.entries@.len(),
                end == self@.group_end(start as int),
                forall|j: int|
                    start <= j < i ==> (
                    #[trigger] self.entries@[j].state matches Lifecycle::Deactivating { since }
                        ==> now - since >= self.cooldown),
            decreases end - i,
        {
            match self.entries[i].state {
                Lifecycle::Deactivating { since } => {
                    if now < since || now - since < self.cooldown {
                        return false;
                    }
                },
                _ => {},
            }
            i += 1;
        }
        true
    }

    /// What the caller is to do at slot `now`.
    pub fn next_action(&self, now: u64) -> (action: RotationAction)
        requires
            self@.wf(),
        ensures
            action@ == self@.action(now),
    {
        match self.phase {
            RotationPhase::Deactivating => {
                let tables = self.targets(self.next, self.phase);
                let instructions = deactivate(&tables, &self.authority);
                RotationAction::Deactivate { tables, instructions }
            },
            RotationPhase::Closing => {
                if self.cooled(self.next, now) {
                    let tables = self.targets(self.next, self.phase);
                    let instructions = close(&tables, &self.authority, &self.authority);
                    RotationAction::Close { tables, instructions }
                } else {
                    RotationAction::Wait { seconds: self.pause }
                }
            },
            RotationPhase::Recording => RotationAction::Record { survivors: self.survivors() },
            RotationPhase::Finished => RotationAction::Finished { failures: self.failures },
        }
    }

    /// Takes note of how the action of this state went: it was carried out at
    /// slot `now` and was accepted, or not.
    pub fn record(self, now: u64, accepted: bool) -> (r: Rotation)
        requires
            self@.wf(),
        ensures
            r@ == self@.after(now, accepted),
            r@.wf(),
    {
        proof {
            lemma_rotation_stays_well_formed(self@, now, accepted);
        }
        let counted: u64 = if accepted || self.failures == u64::MAX {
            self.failures
        } else {
            self.failures + 1
        };
        let mut r = self;
        match r.phase {
            RotationPhase::Deactivating => {
                if accepted {
                    r = r.mark(now);
                }
                r.failures = counted;
                let from = r.beyond();
                r.deactivating_from(from)
            },
            RotationPhase::Closing => {
                if accepted {
                    r = r.mark(now);
                }
                r.failures = counted;
                let from = r.beyond();
                r.closing_from(from)
            },
            RotationPhase::Recording => {
                r.failures = counted;
                r.phase = RotationPhase::Finished;
                r
            },
            RotationPhase::Finished => r,
        }
    }

    /// Where the group behind the group at hand begins: `next + group_size`,
    /// or the end of the tables if that lies behind them.
    fn beyond(&self) -> (from: usize)
        requires
            self.next <= self.entries@.len(),
        ensures
            self.next + self.group_size < self.entries@.len() ==> from == self.next
                + self.group_size,
            self.next + self.group_size >= self.entries@.len() ==> from == self.entries@.len(),
    {
        if self.entries.len() - self.next > self.group_size {
            self.next + self.group_size
        } else {
            self.entries.len()
        }
    }

    /// Moves on the tables of the group at hand that the phase works on.
    fn mark(self, now: u64) -> (r: Rotation)
        requires
            self.next <= self.entries@.len(),
        ensures
            r@ == (RotationState { entries: self@.marked(now), ..self@ }),
    {
        let ghost before = self@;
        let end = self.group_end(self.next);
        let mut r = self;
        let mut i: usize = r.next;
        while i < end
            invariant
                before.next <= i <= end <= before.entries.len(),
                end == before.group_end(before.next),
                r@ == (RotationState { entries: r@.entries, ..before }),
                r@.entries.len() == before.entries.len(),
                forall|j: int|
                    0 <= j < before.entries.len() ==> #[trigger] r@.entries[j] == if before.next
                        <= j < i && awaits(before.phase, before.entries[j].state) {
                        Entry {
                            address: before.entries[j].address,
                            state: moved_on(before.phase, now),
                        }
                    } else {
                        before.entries[j]
                    },
            decreases end - i,
        {
            let e = r.entries[i];
            if Self::works_on(r.phase, e.state) {
                let state = match r.phase {
                    RotationPhase::Deactivating => Lifecycle::Deactivating { since: now },
                    _ => Lifecycle::Closed,
                };
                r.entries.set(i, Entry { address: e.address, state });
            }
            i += 1;
        }
        assert(r@.entries =~= before.marked(now));
        r
    }

    /// Where the first group begins, at or after `start`, that holds a table
    /// for `phase` to work on; the end of the tables if there is none.
    fn seek(&self, start: usize, phase: RotationPhase) -> (n: usize)
        requires
            self.group_size > 0,
        ensures
            n == self@.seek(start as int, phase),
    {
        let mut at = start;
        while at < self.entries.len()
            invariant
                self.group_size > 0,
                self@.seek(at as int, phase) == self@.seek(start as int, phase),
            decreases self.entries.len() - at,
        {
            let found = self.targets(at, phase);
            if found.len() > 0 {
                return at;
            }
            if self.entries.len() - at > self.group_size {
                at = at + self.group_size;
            } else {
                return self.entries.len();
            }
        }
        self.entries.len()
    }

    /// Goes on with the closing from the group at `start`.
    fn closing_from(self, start: usize) -> (r: Rotation)
        requires
            self.group_size > 0,
        ensures
            r@ == self@.closing_from(start as int),
    {
        let n = self.seek(start, RotationPhase::Closing);
        let mut r = self;
        r.next = n;
        if n < r.entries.len() {
            r.phase = RotationPhase::Closing;
        } else {
            r.phase = RotationPhase::Recording;
        }
        r
    }

    /// Goes on with the deactivating from the group at `start`.
    fn deactivating_from(self, start: usize) -> (r: Rotation)
        requires
            self.group_size > 0,
        ensures
            r@ == self@.deactivating_from(start as int),
    {
        let n = self.seek(start, RotationPhase::Deactivating);
        if n < self.entries.len() {
            let mut r = self;
            r.phase = RotationPhase::Deactivating;
            r.next = n;
            r
        } else {
            self.closing_from(0)
        }
    }
}

} // verus!
