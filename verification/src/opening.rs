//! Carrying out a plan for the lookup tables: extending the tables that have
//! room, and creating, recording and filling new ones.
//!
//! A table is created, then written to the registry, and only then filled:
//! an empty table that the registry does not know is a small loss, a filled
//! one would be lost for good. The caller performs each action and reports
//! how it went; the decisions are made here.

use crate::address::{copy_addresses, Address};
use crate::batch::{chunks, chunks_of, contents};
use crate::ledger::{
    create_table_instruction, create_table_of, extend_table_instruction, extend_table_of,
    Instruction, InstructionView,
};
use crate::registry::{encode_record, record_of};
use crate::rotation::count_failure;
use crate::tables::{fill_views, FillView, SyncPlan};
use vstd::prelude::*;

verus! {

/// What is in flight.
#[derive(Clone, Copy, Debug, PartialEq, Eq, Structural)]
pub enum OpeningPhase {
    /// A table is being created.
    Creating,
    /// The created table is being written to the registry.
    Persisting,
    /// The recorded table is given time to become usable.
    Settling,
    /// Addresses are being added to a table.
    Extending,
    /// Nothing is left to do.
    Finished,
}

/// What the caller is to do next.
#[derive(Debug)]
pub enum OpenAction {
    /// Submit the instruction, which creates the table at `table`.
    Create { table: Address, instruction: Instruction },
    /// Append `record` to the pool's registry.
    Persist { table: Address, record: Vec<u8> },
    /// Let `seconds` pass.
    Wait { seconds: u64 },
    /// Submit the instruction, which adds `addresses` to `table`.
    Extend { table: Address, addresses: Vec<Address>, instruction: Instruction },
    /// All is done; `failures` actions were not accepted, and `opened` are
    /// the tables that were created and recorded.
    Finished { failures: u64, opened: Vec<Address> },
}

/// What an action says.
pub enum OpenStep {
    Create { table: Address, instruction: InstructionView },
    Persist { table: Address, record: Seq<u8> },
    Wait { seconds: u64 },
    Extend { table: Address, addresses: Seq<Address>, instruction: InstructionView },
    Finished { failures: u64, opened: Seq<Address> },
}

impl View for OpenAction {
    type V = OpenStep;

    open spec fn view(&self) -> OpenStep {
        match *self {
            OpenAction::Create { table, instruction } => OpenStep::Create {
                table,
                instruction: instruction@,
            },
            OpenAction::Persist { table, record } => OpenStep::Persist { table, record: record@ },
            OpenAction::Wait { seconds } => OpenStep::Wait { seconds },
            OpenAction::Extend { table, addresses, instruction } => OpenStep::Extend {
                table,
                addresses: addresses@,
                instruction: instruction@,
            },
            OpenAction::Finished { failures, opened } => OpenStep::Finished {
                failures,
                opened: opened@,
            },
        }
    }
}

/// The addresses that one table is to take, in the groups in which they are
/// added. `table` is the table's address if the table exists.
pub struct JobView {
    pub table: Option<Address>,
    pub groups: Seq<Seq<Address>>,
}

/// The state of an opening.
pub struct OpeningState {
    pub jobs: Seq<JobView>,
    /// The authority of the tables, which also pays for them.
    pub authority: Address,
    /// Seconds to wait between recording a table and filling it.
    pub settle: u64,
    pub phase: OpeningPhase,
    /// The job at hand.
    pub job: int,
    /// The group of the job that is being added.
    pub group: int,
    /// The table of the job at hand.
    pub table: Option<Address>,
    /// The tables that were created and written to the registry.
    pub opened: Seq<Address>,
    /// Actions that were not accepted so far.
    pub failures: int,
}

impl OpeningState {
    /// The registry knows the table: it listed the table from the start, or
    /// the table was created and recorded here.
    pub open spec fn on_record(self, table: Address) -> bool {
        self.opened.contains(table) || exists|j: int|
            0 <= j < self.jobs.len() && (#[trigger] self.jobs[j]).table == Some(table)
    }

    pub open spec fn wf(self) -> bool {
        &&& 0 <= self.job <= self.jobs.len()
        &&& 0 <= self.failures <= u64::MAX
        &&& self.phase is Finished ==> self.job == self.jobs.len()
        &&& !(self.phase is Finished) ==> {
            &&& self.job < self.jobs.len()
            &&& 0 <= self.group < self.jobs[self.job].groups.len()
            &&& self.table is Some
        }
        &&& self.phase is Creating || self.phase is Persisting ==> self.jobs[self.job].table
            is None && self.group == 0
        &&& self.phase is Settling ==> self.group == 0
        &&& self.phase is Settling || self.phase is Extending ==> self.on_record(self.table->0)
    }

    /// The first job at or after `from` that has something to add; the number
    /// of jobs if there is none.
    pub open spec fn seek(self, from: int) -> int
        decreases self.jobs.len() - from,
    {
        if from < 0 || from >= self.jobs.len() {
            self.jobs.len() as int
        } else if self.jobs[from].groups.len() > 0 {
            from
        } else {
            self.seek(from + 1)
        }
    }

    /// The action that adds group `g` of the job at hand to its table.
    pub open spec fn extend(self, g: int) -> OpenStep {
        OpenStep::Extend {
            table: self.table->0,
            addresses: self.jobs[self.job].groups[g],
            instruction: extend_table_of(
                self.table->0,
                self.authority,
                Some(self.authority),
                self.jobs[self.job].groups[g],
            ),
        }
    }

    /// Takes up the first job at or after `from` that has something to add:
    /// a table that exists is extended at once, a new one is created first,
    /// at the address that follows from the authority and the slot.
    pub open spec fn begin(self, from: int, slot: u64) -> (OpeningState, OpenStep) {
        let j = self.seek(from);
        if j >= self.jobs.len() {
            (
                OpeningState {
                    phase: OpeningPhase::Finished,
                    job: j,
                    group: 0,
                    table: None,
                    ..self
                },
                OpenStep::Finished { failures: self.failures as u64, opened: self.opened },
            )
        } else {
            match self.jobs[j].table {
                Some(t) => {
                    let s = OpeningState {
                        phase: OpeningPhase::Extending,
                        job: j,
                        group: 0,
                        table: Some(t),
                        ..self
                    };
                    (s, s.extend(0))
                },
                None => {
                    let made = create_table_of(self.authority, self.authority, slot);
                    (
                        OpeningState {
                            phase: OpeningPhase::Creating,
                            job: j,
                            group: 0,
                            table: Some(made.1),
                            ..self
                        },
                        OpenStep::Create { table: made.1, instruction: made.0 },
                    )
                },
            }
        }
    }

    /// The state after the action in flight was accepted, or not, and the
    /// action that follows; `slot` is the ledger's slot now.
    pub open spec fn step(self, slot: u64, accepted: bool) -> (OpeningState, OpenStep) {
        let counted = OpeningState { failures: count_failure(self.failures, accepted), ..self };
        match self.phase {
            OpeningPhase::Creating => if accepted {
                (
                    OpeningState { phase: OpeningPhase::Persisting, ..self },
                    OpenStep::Persist { table: self.table->0, record: record_of(self.table->0) },
                )
            } else {
                counted.begin(self.job + 1, slot)
            },
            OpeningPhase::Persisting => if accepted {
                (
                    OpeningState {
                        phase: OpeningPhase::Settling,
                        opened: self.opened.push(self.table->0),
                        ..self
                    },
                    OpenStep::Wait { seconds: self.settle },
                )
            } else {
                counted.begin(self.job + 1, slot)
            },
            OpeningPhase::Settling => (
                OpeningState { phase: OpeningPhase::Extending, ..self },
                self.extend(0),
            ),
            OpeningPhase::Extending => if self.group + 1 < self.jobs[self.job].groups.len() {
                (OpeningState { group: self.group + 1, ..counted }, counted.extend(self.group + 1))
            } else {
                counted.begin(self.job + 1, slot)
            },
            OpeningPhase::Finished => (
                self,
                OpenStep::Finished { failures: self.failures as u64, opened: self.opened },
            ),
        }
    }

    /// A bound on the reports that the jobs from job `from` on take: for each
    /// job one for the creation, one for the record, one for the wait, and
    /// one for each group.
    pub open spec fn work_from(self, from: int) -> nat
        decreases self.jobs.len() - from,
    {
        if from < 0 || from >= self.jobs.len() {
            0
        } else {
            3 + self.jobs[from].groups.len() + self.work_from(from + 1)
        }
    }

    /// A bound on the reports that the opening still takes.
    pub open spec fn work_left(self) -> nat {
        let groups = self.jobs[self.job].groups.len();
        match self.phase {
            OpeningPhase::Creating => 3 + groups + self.work_from(self.job + 1),
            OpeningPhase::Persisting => 2 + groups + self.work_from(self.job + 1),
            OpeningPhase::Settling => 1 + groups + self.work_from(self.job + 1),
            OpeningPhase::Extending => (groups - self.group) as nat + self.work_from(
                self.job + 1,
            ),
            OpeningPhase::Finished => 0,
        }
    }

    /// The jobs of a plan: the tables that take more addresses, then the
    /// tables to create, each with its addresses in groups of `group_size`.
    pub open spec fn jobs_of(
        fills: Seq<FillView>,
        fresh: Seq<Seq<Address>>,
        group_size: nat,
    ) -> Seq<JobView> {
        fills.map_values(
            |f: FillView|
                JobView { table: Some(f.table), groups: chunks_of(f.additions, group_size) },
        ) + fresh.map_values(
            |a: Seq<Address>| JobView { table: None, groups: chunks_of(a, group_size) },
        )
    }

    /// The state in which nothing of a plan is done yet.
    pub open spec fn idle(
        fills: Seq<FillView>,
        fresh: Seq<Seq<Address>>,
        authority: Address,
        group_size: nat,
        settle: u64,
    ) -> OpeningState {
        OpeningState {
            jobs: Self::jobs_of(fills, fresh, group_size),
            authority,
            settle,
            phase: OpeningPhase::Finished,
            job: 0,
            group: 0,
            table: None,
            opened: Seq::empty(),
            failures: 0,
        }
    }
}

/// Where the search for a job ends.
pub proof fn lemma_seek(s: OpeningState, from: int)
    requires
        0 <= from <= s.jobs.len(),
    ensures
        from <= s.seek(from) <= s.jobs.len(),
        s.seek(from) < s.jobs.len() ==> s.jobs[s.seek(from)].groups.len() > 0,
    decreases s.jobs.len() - from,
{
    if from < s.jobs.len() && s.jobs[from].groups.len() == 0 {
        lemma_seek(s, from + 1);
    }
}

/// Taking up a job leaves the state well formed.
proof fn lemma_begin_well_formed(s: OpeningState, from: int, slot: u64)
    requires
        0 <= from <= s.jobs.len(),
        0 <= s.failures <= u64::MAX,
    ensures
        s.begin(from, slot).0.wf(),
        s.begin(from, slot).0.opened == s.opened,
        s.begin(from, slot).0.jobs == s.jobs,
{
    lemma_seek(s, from);
    let j = s.seek(from);
    if j < s.jobs.len() {
        if let Some(t) = s.jobs[j].table {
            let after = s.begin(from, slot).0;
            assert(after.jobs[j].table == Some(t));
        }
    }
}

/// An opening stays well formed whatever is reported.
pub proof fn lemma_opening_stays_well_formed(s: OpeningState, slot: u64, accepted: bool)
    requires
        s.wf(),
    ensures
        s.step(slot, accepted).0.wf(),
{
    let counted = OpeningState { failures: count_failure(s.failures, accepted), ..s };
    match s.phase {
        OpeningPhase::Creating => {
            if !accepted {
                lemma_begin_well_formed(counted, s.job + 1, slot);
            }
        },
        OpeningPhase::Persisting => {
            if accepted {
                let after = s.step(slot, accepted).0;
                assert(after.opened.last() == s.table->0);
            } else {
                lemma_begin_well_formed(counted, s.job + 1, slot);
            }
        },
        OpeningPhase::Settling => {
            let after = s.step(slot, accepted).0;
            assert(after.on_record(s.table->0));
        },
        OpeningPhase::Extending => {
            if s.group + 1 < s.jobs[s.job].groups.len() {
                let after = s.step(slot, accepted).0;
                assert(after.on_record(s.table->0));
            } else {
                lemma_begin_well_formed(counted, s.job + 1, slot);
            }
        },
        OpeningPhase::Finished => {},
    }
}

/// Later jobs take no more work than they and the jobs before them.
proof fn lemma_work_from(s: OpeningState, from: int, to: int)
    requires
        0 <= from <= to,
    ensures
        s.work_from(to) <= s.work_from(from),
    decreases to - from,
{
    if from < to {
        lemma_work_from(s, from + 1, to);
    }
}

/// Taking up a job leaves no more work than the jobs from there on.
proof fn lemma_begin_work(s: OpeningState, from: int, slot: u64)
    requires
        0 <= from <= s.jobs.len(),
    ensures
        s.begin(from, slot).0.work_left() <= s.work_from(from),
{
    lemma_seek(s, from);
    let j = s.seek(from);
    lemma_work_from(s, from, j);
    let after = s.begin(from, slot).0;
    lemma_work_same(s, after, j + 1);
}

/// Every report brings an opening nearer to its end, whether the action was
/// accepted or not.
pub proof fn lemma_opening_comes_to_an_end(s: OpeningState, slot: u64, accepted: bool)
    requires
        s.wf(),
        !(s.phase is Finished),
    ensures
        s.step(slot, accepted).0.work_left() < s.work_left(),
{
    let counted = OpeningState { failures: count_failure(s.failures, accepted), ..s };
    let after = s.step(slot, accepted).0;
    lemma_begin_work(counted, s.job + 1, slot);
    lemma_work_same(s, counted, s.job + 1);
    lemma_work_same(s, after, s.job + 1);
}

/// The work of jobs does not hang on what else the state holds.
proof fn lemma_work_same(a: OpeningState, b: OpeningState, from: int)
    requires
        a.jobs == b.jobs,
    ensures
        a.work_from(from) == b.work_from(from),
    decreases a.jobs.len() - from,
{
    if 0 <= from < a.jobs.len() {
        lemma_work_same(a, b, from + 1);
    }
}

/// A table is filled only once the registry knows it. When a step asks to add
/// addresses to a table, the table is on record: the registry listed it from
/// the start, or it is among the tables created and recorded here. And a
/// table joins those only when the action in flight was to record it and was
/// accepted.
pub proof fn lemma_recorded_before_extended(s: OpeningState, slot: u64, accepted: bool)
    requires
        s.wf(),
    ensures
        s.step(slot, accepted).1 matches OpenStep::Extend { table, .. } ==> s.step(
            slot,
            accepted,
        ).0.on_record(table),
        s.step(slot, accepted).0.jobs == s.jobs,
        s.step(slot, accepted).0.opened != s.opened ==> {
            &&& s.phase is Persisting
            &&& accepted
            &&& s.step(slot, accepted).0.opened == s.opened.push(s.table->0)
        },
{
    lemma_opening_stays_well_formed(s, slot, accepted);
    if !(s.phase is Finished) {
        let counted = OpeningState { failures: count_failure(s.failures, accepted), ..s };
        lemma_begin_well_formed(counted, s.job + 1, slot);
    }
}

/// The addresses that one table is to take.
struct Job {
    table: Option<Address>,
    groups: Vec<Vec<Address>>,
}

impl View for Job {
    type V = JobView;

    closed spec fn view(&self) -> JobView {
        JobView { table: self.table, groups: contents(self.groups@) }
    }
}

/// An opening of lookup tables.
pub struct Opening {
    jobs: Vec<Job>,
    authority: Address,
    settle: u64,
    phase: OpeningPhase,
    job: usize,
    group: usize,
    table: Option<Address>,
    opened: Vec<Address>,
    failures: u64,
}

impl View for Opening {
    type V = OpeningState;

    closed spec fn view(&self) -> OpeningState {
        OpeningState {
            jobs: self.jobs@.map_values(|j: Job| j@),
            authority: self.authority,
            settle: self.settle,
            phase: self.phase,
            job: self.job as int,
            group: self.group as int,
            table: self.table,
            opened: self.opened@,
            failures: self.failures as int,
        }
    }
}

/// Starts to carry out a plan. Addresses are added to a table `group_size` at
/// a time; between recording a new table and filling it the caller is told to
/// wait `settle` seconds. `slot` is the ledger's slot now. Gives the state
/// and the first action.
pub fn open_new(
    plan: SyncPlan,
    authority: Address,
    group_size: usize,
    settle: u64,
    slot: u64,
) -> (r: (Opening, OpenAction))
    requires
        group_size > 0,
    ensures
        (r.0@, r.1@) == OpeningState::idle(
            fill_views(plan.fills@),
            contents(plan.fresh@),
            authority,
            group_size as nat,
            settle,
        ).begin(0, slot),
        r.0@.wf(),
{
    let ghost fills = fill_views(plan.fills@);
    let ghost fresh = contents(plan.fresh@);
    let ghost want = OpeningState::jobs_of(fills, fresh, group_size as nat);
    let SyncPlan { fills: mut fill_list, fresh: mut fresh_list } = plan;
    let mut jobs: Vec<Job> = Vec::new();
    // the lists are taken apart from their ends, so the jobs come out last first
    let mut reversed: Vec<Job> = Vec::new();
    while fresh_list.len() > 0
        invariant
            group_size > 0,
            fresh_list@.len() <= fresh.len(),
            contents(fresh_list@) == fresh.take(fresh_list@.len() as int),
            reversed@.len() == fresh.len() - fresh_list@.len(),
            forall|i: int|
                0 <= i < reversed@.len() ==> (#[trigger] reversed@[i])@ == want[want.len() - 1 - i],
            want.len() == fills.len() + fresh.len(),
            want == OpeningState::jobs_of(fills, fresh, group_size as nat),
        decreases fresh_list@.len(),
    {
        let ghost n = fresh_list@.len() as int;
        let item = fresh_list.pop().unwrap();
        proof {
            assert(contents(fresh_list@) =~= fresh.take(n - 1));
            assert(fresh[n - 1] == fresh.take(n)[n - 1]);
            assert(item@ == fresh[n - 1]);
            assert(want[fills.len() + n - 1] == JobView {
                table: None,
                groups: chunks_of(fresh[n - 1], group_size as nat),
            });
        }
        let groups = chunks(item, group_size);
        reversed.push(Job { table: None, groups });
    }
    while fill_list.len() > 0
        invariant
            group_size > 0,
            fill_list@.len() <= fills.len(),
            fill_views(fill_list@) == fills.take(fill_list@.len() as int),
            reversed@.len() == fresh.len() + fills.len() - fill_list@.len(),
            forall|i: int|
                0 <= i < reversed@.len() ==> (#[trigger] reversed@[i])@ == want[want.len() - 1 - i],
            want.len() == fills.len() + fresh.len(),
            want == OpeningState::jobs_of(fills, fresh, group_size as nat),
        decreases fill_list@.len(),
    {
        let ghost n = fill_list@.len() as int;
        let item = fill_list.pop().unwrap();
        proof {
            assert(fill_views(fill_list@) =~= fills.take(n - 1));
            assert(fills[n - 1] == fills.take(n)[n - 1]);
            assert(item@ == fills[n - 1]);
            assert(want[n - 1] == JobView {
                table: Some(fills[n - 1].table),
                groups: chunks_of(fills[n - 1].additions, group_size as nat),
            });
        }
        let groups = chunks(item.additions, group_size);
        reversed.push(Job { table: Some(item.table), groups });
    }
    while reversed.len() > 0
        invariant
            jobs@.len() + reversed@.len() == want.len(),
            forall|i: int| 0 <= i < jobs@.len() ==> (#[trigger] jobs@[i])@ == want[i],
            forall|i: int|
                0 <= i < reversed@.len() ==> (#[trigger] reversed@[i])@ == want[want.len() - 1 - i],
        decreases reversed@.len(),
    {
        let job = reversed.pop().unwrap();
        jobs.push(job);
    }
    let idle = Opening {
        jobs,
        authority,
        settle,
        phase: OpeningPhase::Finished,
        job: 0,
        group: 0,
        table: None,
        opened: Vec::new(),
        failures: 0,
    };
    proof {
        assert(idle@.jobs =~= want);
        lemma_begin_well_formed(idle@, 0, slot);
    }
    idle.begin(0, slot)
}

impl Opening {
    /// What is in flight.
    pub fn phase(&self) -> (p: OpeningPhase)
        ensures
            p == self@.phase,
    {
        self.phase
    }

    /// How many actions were not accepted so far.
    pub fn failures(&self) -> (n: u64)
        ensures
            n == self@.failures,
    {
        self.failures
    }

    /// Takes note of how the action in flight went, and gives the action
    /// that follows; `slot` is the ledger's slot now.
    pub fn step(self, slot: u64, accepted: bool) -> (r: (Opening, OpenAction))
        requires
            self@.wf(),
        ensures
            (r.0@, r.1@) == self@.step(slot, accepted),
            r.0@.wf(),
    {
        proof {
            lemma_opening_stays_well_formed(self@, slot, accepted);
        }
        let counted: u64 = if accepted || self.failures == u64::MAX {
            self.failures
        } else {
            self.failures + 1
        };
        assert(!(self@.phase is Finished) ==> self.job < self.jobs.len());
        let mut r = self;
        match r.phase {
            OpeningPhase::Creating => {
                if accepted {
                    let table = r.table.unwrap();
                    r.phase = OpeningPhase::Persisting;
                    let record = encode_record(&table);
                    (r, OpenAction::Persist { table, record })
                } else {
                    r.failures = counted;
                    let from = r.job + 1;
                    r.begin(from, slot)
                }
            },
            OpeningPhase::Persisting => {
                if accepted {
                    let table = r.table.unwrap();
                    r.phase = OpeningPhase::Settling;
                    r.opened.push(table);
                    let seconds = r.settle;
                    (r, OpenAction::Wait { seconds })
                } else {
                    r.failures = counted;
                    let from = r.job + 1;
                    r.begin(from, slot)
                }
            },
            OpeningPhase::Settling => {
                r.phase = OpeningPhase::Extending;
                let action = r.extend(0);
                (r, action)
            },
            OpeningPhase::Extending => {
                r.failures = counted;
                assert(r@.jobs[r.job as int] == r.jobs@[r.job as int]@);
                if r.jobs[r.job].groups.len() - r.group > 1 {
                    r.group = r.group + 1;
                    let g = r.group;
                    let action = r.extend(g);
                    (r, action)
                } else {
                    let from = r.job + 1;
                    r.begin(from, slot)
                }
            },
            OpeningPhase::Finished => {
                let action = OpenAction::Finished {
                    failures: r.failures,
                    opened: copy_addresses(&r.opened),
                };
                (r, action)
            },
        }
    }

    /// The action that adds group `g` of the job at hand to its table.
    fn extend(&self, g: usize) -> (action: OpenAction)
        requires
            self.job < self@.jobs.len(),
            g < self@.jobs[self.job as int].groups.len(),
            self.table is Some,
        ensures
            action@ == self@.extend(g as int),
    {
        let table = self.table.unwrap();
        assert(self@.jobs[self.job as int] == self.jobs@[self.job as int]@);
        let group = &self.jobs[self.job].groups[g];
        assert(self@.jobs[self.job as int].groups[g as int] == group@);
        let instruction = extend_table_instruction(
            &table,
            &self.authority,
            Some(self.authority),
            group,
        );
        OpenAction::Extend { table, addresses: copy_addresses(group), instruction }
    }

    /// Takes up the first job at or after `from` that has something to add.
    fn begin(self, from: usize, slot: u64) -> (r: (Opening, OpenAction))
        requires
            from <= self@.jobs.len(),
        ensures
            (r.0@, r.1@) == self@.begin(from as int, slot),
    {
        let mut j = from;
        while j < self.jobs.len() && self.jobs[j].groups.len() == 0
            invariant
                from <= j <= self.jobs.len(),
                self@.seek(j as int) == self@.seek(from as int),
            decreases self.jobs.len() - j,
        {
            assert(self@.jobs[j as int] == self.jobs@[j as int]@);
            j += 1;
        }
        proof {
            if j < self.jobs.len() {
                assert(self@.jobs[j as int] == self.jobs@[j as int]@);
            }
        }
        let mut r = self;
        r.job = j;
        r.group = 0;
        if j >= r.jobs.len() {
            r.phase = OpeningPhase::Finished;
            r.table = None;
            let action = OpenAction::Finished { failures: r.failures, opened: copy_addresses(&r.opened) };
            (r, action)
        } else {
            match r.jobs[j].table {
                Some(t) => {
                    r.phase = OpeningPhase::Extending;
                    r.table = Some(t);
                    let action = r.extend(0);
                    (r, action)
                },
                None => {
                    let made = create_table_instruction(&r.authority, &r.authority, slot);
                    r.phase = OpeningPhase::Creating;
                    r.table = Some(made.1);
                    (r, OpenAction::Create { table: made.1, instruction: made.0 })
                },
            }
        }
    }
}

} // verus!
