//! Deciding which lookup tables take which participant addresses.
//!
//! Addresses that no table holds yet go to the tables that have room, in the
//! order of the registry, and what is left over goes to new tables.

use crate::address::Address;
use crate::batch::{chunks, chunks_of, contents, lemma_chunks_partition, lemma_group_bounds};
use vstd::prelude::*;

verus! {

/// The life of a lookup table.
#[derive(Clone, Copy, Debug, PartialEq, Eq, Structural)]
pub enum Lifecycle {
    /// The table takes addresses and serves lookups.
    Active,
    /// The table was deactivated at slot `since` and waits to be closed.
    Deactivating { since: u64 },
    /// The table is gone.
    Closed,
}

/// A lookup table as read from the ledger.
#[derive(Debug)]
pub struct Table {
    /// Where the table lives.
    pub address: Address,
    /// The addresses that the table holds.
    pub addresses: Vec<Address>,
    /// Where the table stands in its life.
    pub state: Lifecycle,
}

/// What a table holds.
pub struct TableView {
    pub address: Address,
    pub addresses: Seq<Address>,
    pub state: Lifecycle,
}

impl View for Table {
    type V = TableView;

    open spec fn view(&self) -> TableView {
        TableView { address: self.address, addresses: self.addresses@, state: self.state }
    }
}

/// The tables that are active, in their order.
pub open spec fn active_views(tables: Seq<TableView>) -> Seq<TableView> {
    tables.filter(|t: TableView| t.state is Active)
}

/// The tables that are active, in their order. Only these take part in a
/// sync: a table on its way out takes no addresses, and what it holds will
/// need another place.
pub fn active_tables(tables: &Vec<Table>) -> (out: Vec<Table>)
    ensures
        table_views(out@) == active_views(table_views(tables@)),
{
    let mut out: Vec<Table> = Vec::new();
    let mut i: usize = 0;
    proof {
        reveal(Seq::filter);
        assert(table_views(tables@).take(0) =~= Seq::<TableView>::empty());
        assert(table_views(out@) =~= active_views(table_views(tables@).take(0)));
    }
    while i < tables.len()
        invariant
            i <= tables.len(),
            table_views(out@) == active_views(table_views(tables@).take(i as int)),
        decreases tables.len() - i,
    {
        let table = &tables[i];
        proof {
            reveal(Seq::filter);
            let next = table_views(tables@).take(i + 1);
            assert(next.drop_last() =~= table_views(tables@).take(i as int));
            assert(next.last() == table@);
        }
        match table.state {
            Lifecycle::Active => {
                let copy = Table {
                    address: table.address,
                    addresses: crate::address::copy_addresses(&table.addresses),
                    state: table.state,
                };
                proof {
                    assert(table_views(out@.push(copy)) =~= table_views(out@).push(table@));
                }
                out.push(copy);
            },
            _ => {},
        }
        i += 1;
    }
    assert(table_views(tables@).take(tables.len() as int) =~= table_views(tables@));
    out
}

/// The contents of a sequence of tables.
pub open spec fn table_views(tables: Seq<Table>) -> Seq<TableView> {
    tables.map_values(|t: Table| t@)
}

/// Addresses to add to a table that exists.
#[derive(Debug)]
pub struct Fill {
    pub table: Address,
    pub additions: Vec<Address>,
}

/// What a fill holds.
pub struct FillView {
    pub table: Address,
    pub additions: Seq<Address>,
}

impl View for Fill {
    type V = FillView;

    open spec fn view(&self) -> FillView {
        FillView { table: self.table, additions: self.additions@ }
    }
}

/// The contents of a sequence of fills.
pub open spec fn fill_views(fills: Seq<Fill>) -> Seq<FillView> {
    fills.map_values(|f: Fill| f@)
}

/// What is to be done so that every participant address stands in a table.
#[derive(Debug)]
pub struct SyncPlan {
    /// The tables that take more addresses, in the order of the registry.
    pub fills: Vec<Fill>,
    /// The addresses of each table that is to be created.
    pub fresh: Vec<Vec<Address>>,
}

/// Some table holds the address.
pub open spec fn is_tabled(tables: Seq<TableView>, a: Address) -> bool {
    exists|k: int| 0 <= k < tables.len() && #[trigger] tables[k].addresses.contains(a)
}

/// The participant addresses that no table holds, each once, in the order in
/// which they first occur.
pub open spec fn untabled(tables: Seq<TableView>, participants: Seq<Address>) -> Seq<Address>
    decreases participants.len(),
{
    if participants.len() == 0 {
        Seq::empty()
    } else {
        let before = untabled(tables, participants.drop_last());
        let a = participants.last();
        if is_tabled(tables, a) || before.contains(a) {
            before
        } else {
            before.push(a)
        }
    }
}

/// How many addresses a table can still take.
pub open spec fn spare(table: TableView, capacity: nat) -> nat {
    if table.addresses.len() < capacity {
        (capacity - table.addresses.len()) as nat
    } else {
        0
    }
}

/// How many addresses the first `k` tables can still take together.
pub open spec fn room_before(tables: Seq<TableView>, capacity: nat, k: int) -> nat
    decreases k,
{
    if k <= 0 {
        0
    } else {
        room_before(tables, capacity, k - 1) + spare(tables[k - 1], capacity)
    }
}

/// The smaller of the two.
pub open spec fn capped(x: int, n: int) -> int {
    if x < n {
        x
    } else {
        n
    }
}

/// The addresses that table `k` takes: the tables before it take what they
/// have room for, it takes what follows, as far as it has room.
pub open spec fn additions_for(
    tables: Seq<TableView>,
    pending: Seq<Address>,
    capacity: nat,
    k: int,
) -> Seq<Address> {
    pending.subrange(
        capped(room_before(tables, capacity, k) as int, pending.len() as int),
        capped(room_before(tables, capacity, k + 1) as int, pending.len() as int),
    )
}

/// The addresses that no existing table has room for.
pub open spec fn overflow(tables: Seq<TableView>, pending: Seq<Address>, capacity: nat) -> Seq<
    Address,
> {
    pending.skip(capped(room_before(tables, capacity, tables.len() as int) as int, pending.len() as int))
}

/// For each table, what it takes.
pub open spec fn shares(tables: Seq<TableView>, pending: Seq<Address>, capacity: nat) -> Seq<
    FillView,
> {
    Seq::new(
        tables.len(),
        |k: int|
            FillView {
                table: tables[k].address,
                additions: additions_for(tables, pending, capacity, k),
            },
    )
}

/// The fills of a plan: the tables that take at least one address.
pub open spec fn fills_of(tables: Seq<TableView>, pending: Seq<Address>, capacity: nat) -> Seq<
    FillView,
> {
    shares(tables, pending, capacity).filter(|f: FillView| f.additions.len() > 0)
}

/// The tables as they stand once a plan is carried out: each existing table
/// with what it takes, then the new tables.
pub open spec fn synced(tables: Seq<TableView>, pending: Seq<Address>, capacity: nat) -> Seq<
    Seq<Address>,
> {
    Seq::new(
        tables.len(),
        |k: int| tables[k].addresses + additions_for(tables, pending, capacity, k),
    ) + chunks_of(overflow(tables, pending, capacity), capacity)
}

/// No address stands at two places, in one table or in two.
pub open spec fn nowhere_twice(tables: Seq<Seq<Address>>) -> bool {
    forall|k1: int, i1: int, k2: int, i2: int|
        0 <= k1 < tables.len() && 0 <= i1 < tables[k1].len() && 0 <= k2 < tables.len() && 0 <= i2
            < tables[k2].len() && (k1 != k2 || i1 != i2) ==> #[trigger] tables[k1][i1]
            != #[trigger] tables[k2][i2]
}

/// One of the tables holds the address.
pub open spec fn placed(tables: Seq<Seq<Address>>, a: Address) -> bool {
    exists|k: int| 0 <= k < tables.len() && (#[trigger] tables[k]).contains(a)
}

/// The addresses of each table.
pub open spec fn held(tables: Seq<TableView>) -> Seq<Seq<Address>> {
    tables.map_values(|t: TableView| t.addresses)
}

/// The list holds the address.
pub fn holds(list: &Vec<Address>, a: &Address) -> (r: bool)
    ensures
        r == list@.contains(*a),
{
    let mut i: usize = 0;
    while i < list.len()
        invariant
            i <= list.len(),
            forall|j: int| 0 <= j < i ==> list@[j] != *a,
        decreases list.len() - i,
    {
        if list[i] == *a {
            return true;
        }
        i += 1;
    }
    false
}

/// Some table holds the address.
pub fn tabled(tables: &Vec<Table>, a: &Address) -> (r: bool)
    ensures
        r == is_tabled(table_views(tables@), *a),
{
    let mut k: usize = 0;
    while k < tables.len()
        invariant
            k <= tables.len(),
            forall|j: int| 0 <= j < k ==> !table_views(tables@)[j].addresses.contains(*a),
        decreases tables.len() - k,
    {
        if holds(&tables[k].addresses, a) {
            assert(table_views(tables@)[k as int].addresses.contains(*a));
            return true;
        }
        k += 1;
    }
    false
}

/// More tables have no less room.
proof fn lemma_room_grows(tables: Seq<TableView>, capacity: nat, j: int, k: int)
    requires
        0 <= j <= k,
    ensures
        room_before(tables, capacity, j) <= room_before(tables, capacity, k),
    decreases k - j,
{
    if j < k {
        lemma_room_grows(tables, capacity, j, k - 1);
    }
}

/// What the pending addresses are: no address twice, none that a table holds,
/// every one a participant address, and every participant address that no
/// table holds among them.
pub proof fn lemma_untabled(tables: Seq<TableView>, participants: Seq<Address>)
    ensures
        untabled(tables, participants).no_duplicates(),
        forall|i: int|
            0 <= i < untabled(tables, participants).len() ==> !is_tabled(
                tables,
                #[trigger] untabled(tables, participants)[i],
            ) && participants.contains(untabled(tables, participants)[i]),
        forall|j: int|
            0 <= j < participants.len() ==> is_tabled(tables, #[trigger] participants[j])
                || untabled(tables, participants).contains(participants[j]),
    decreases participants.len(),
{
    let u = untabled(tables, participants);
    if participants.len() > 0 {
        let head = participants.drop_last();
        let before = untabled(tables, head);
        let a = participants.last();
        lemma_untabled(tables, head);
        assert forall|i: int| 0 <= i < u.len() implies !is_tabled(tables, #[trigger] u[i])
            && participants.contains(u[i]) by {
            if i < before.len() {
                assert(u[i] == before[i]);
                let j = choose|j: int| 0 <= j < head.len() && head[j] == before[i];
                assert(participants[j] == u[i]);
            } else {
                assert(u[i] == a);
                assert(participants[participants.len() - 1] == a);
            }
        }
        assert forall|j: int| 0 <= j < participants.len() implies is_tabled(
            tables,
            #[trigger] participants[j],
        ) || u.contains(participants[j]) by {
            if j < head.len() {
                assert(head[j] == participants[j]);
                if !is_tabled(tables, participants[j]) {
                    let i = choose|i: int| 0 <= i < before.len() && before[i] == head[j];
                    assert(u[i] == participants[j]);
                }
            } else if !is_tabled(tables, a) {
                if before.contains(a) {
                    let i = choose|i: int| 0 <= i < before.len() && before[i] == a;
                    assert(u[i] == a);
                } else {
                    assert(u[u.len() - 1] == a);
                }
            }
        }
    }
}

/// Where in the pending addresses a newly placed address comes from: the
/// address at place `i` of table `k` once the plan is carried out.
pub open spec fn pending_index(
    tables: Seq<TableView>,
    pending: Seq<Address>,
    capacity: nat,
    k: int,
    i: int,
) -> int {
    if k < tables.len() {
        capped(room_before(tables, capacity, k) as int, pending.len() as int) + (i
            - tables[k].addresses.len())
    } else {
        capped(room_before(tables, capacity, tables.len() as int) as int, pending.len() as int) + (
        k - tables.len()) * capacity + i
    }
}

/// The place is one that the plan fills, not one that a table held before.
pub open spec fn is_new_place(tables: Seq<TableView>, k: int, i: int) -> bool {
    k >= tables.len() || i >= tables[k].addresses.len()
}

/// A newly placed address is the pending address at its index, and the
/// places that follow in the same table or in later tables come later in the
/// pending addresses.
proof fn lemma_new_place(
    tables: Seq<TableView>,
    pending: Seq<Address>,
    capacity: nat,
    k: int,
    i: int,
)
    requires
        capacity > 0,
        0 <= k < synced(tables, pending, capacity).len(),
        0 <= i < synced(tables, pending, capacity)[k].len(),
        is_new_place(tables, k, i),
    ensures
        0 <= pending_index(tables, pending, capacity, k, i) < pending.len(),
        synced(tables, pending, capacity)[k][i] == pending[pending_index(
            tables,
            pending,
            capacity,
            k,
            i,
        )],
        k < tables.len() ==> pending_index(tables, pending, capacity, k, i) < capped(
            room_before(tables, capacity, k + 1) as int,
            pending.len() as int,
        ),
        k >= tables.len() ==> pending_index(tables, pending, capacity, k, i) < capped(
            room_before(tables, capacity, tables.len() as int) as int,
            pending.len() as int,
        ) + (k - tables.len() + 1) * capacity,
        k >= tables.len() ==> pending_index(tables, pending, capacity, k, i) >= capped(
            room_before(tables, capacity, tables.len() as int) as int,
            pending.len() as int,
        ) + (k - tables.len()) * capacity,
{
    let m = tables.len() as int;
    let n = pending.len() as int;
    if k < m {
        lemma_room_grows(tables, capacity, k, k + 1);
    } else {
        let rest = overflow(tables, pending, capacity);
        let j = k - m;
        lemma_room_grows(tables, capacity, 0, m);
        lemma_group_bounds(rest.len(), capacity, j);
        assert(synced(tables, pending, capacity)[k] == chunks_of(rest, capacity)[j]);
        assert((j + 1) * capacity == j * capacity + capacity) by (nonlinear_arith);
    }
}

/// Two places that the plan fills hold different pending addresses.
proof fn lemma_new_places_differ(
    tables: Seq<TableView>,
    pending: Seq<Address>,
    capacity: nat,
    k1: int,
    i1: int,
    k2: int,
    i2: int,
)
    requires
        capacity > 0,
        0 <= k1 < synced(tables, pending, capacity).len(),
        0 <= i1 < synced(tables, pending, capacity)[k1].len(),
        is_new_place(tables, k1, i1),
        0 <= k2 < synced(tables, pending, capacity).len(),
        0 <= i2 < synced(tables, pending, capacity)[k2].len(),
        is_new_place(tables, k2, i2),
        k1 < k2 || (k1 == k2 && i1 < i2),
    ensures
        pending_index(tables, pending, capacity, k1, i1) < pending_index(
            tables,
            pending,
            capacity,
            k2,
            i2,
        ),
{
    let m = tables.len() as int;
    lemma_new_place(tables, pending, capacity, k1, i1);
    lemma_new_place(tables, pending, capacity, k2, i2);
    if k1 < k2 {
        if k2 < m {
            lemma_room_grows(tables, capacity, k1 + 1, k2);
        } else if k1 < m {
            lemma_room_grows(tables, capacity, k1 + 1, m);
            assert((k2 - m) * capacity >= 0) by (nonlinear_arith)
                requires
                    k2 - m >= 0,
                    capacity > 0,
            ;
        } else {
            assert((k1 - m + 1) * capacity <= (k2 - m) * capacity) by (nonlinear_arith)
                requires
                    k1 - m + 1 <= k2 - m,
                    capacity > 0,
            ;
        }
    }
}

/// A pending address below the room of the tables goes to one of them.
proof fn lemma_share_found(
    tables: Seq<TableView>,
    pending: Seq<Address>,
    capacity: nat,
    q: int,
    upto: int,
) -> (k: int)
    requires
        0 <= upto <= tables.len(),
        0 <= q < capped(room_before(tables, capacity, upto) as int, pending.len() as int),
    ensures
        0 <= k < upto,
        capped(room_before(tables, capacity, k) as int, pending.len() as int) <= q < capped(
            room_before(tables, capacity, k + 1) as int,
            pending.len() as int,
        ),
    decreases upto,
{
    if q >= capped(room_before(tables, capacity, upto - 1) as int, pending.len() as int) {
        upto - 1
    } else {
        lemma_share_found(tables, pending, capacity, q, upto - 1)
    }
}

/// Once a plan is carried out, no table holds more than `capacity` addresses
/// and no address stands in two tables, or twice in one, provided that this
/// held before; every participant address stands in a table; and what a table
/// held before it still holds, at the same places.
pub proof fn lemma_sync_keeps_tables_sound(
    tables: Seq<TableView>,
    participants: Seq<Address>,
    capacity: nat,
)
    requires
        capacity > 0,
        forall|k: int| 0 <= k < tables.len() ==> (#[trigger] tables[k]).addresses.len() <= capacity,
        nowhere_twice(held(tables)),
    ensures
        ({
            let after = synced(tables, untabled(tables, participants), capacity);
            &&& forall|k: int| 0 <= k < after.len() ==> (#[trigger] after[k]).len() <= capacity
            &&& nowhere_twice(after)
            &&& forall|j: int|
                0 <= j < participants.len() ==> placed(after, #[trigger] participants[j])
            &&& forall|k: int|
                0 <= k < tables.len() ==> (#[trigger] after[k]).take(
                    tables[k].addresses.len() as int,
                ) == tables[k].addresses
        }),
{
    let pending = untabled(tables, participants);
    let after = synced(tables, pending, capacity);
    let m = tables.len() as int;
    let n = pending.len() as int;
    let rest = overflow(tables, pending, capacity);
    let base = capped(room_before(tables, capacity, m) as int, n);
    lemma_untabled(tables, participants);
    lemma_chunks_partition(rest, capacity);
    lemma_room_grows(tables, capacity, 0, m);
    // no table over capacity
    assert forall|k: int| 0 <= k < after.len() implies (#[trigger] after[k]).len() <= capacity by {
        if k < m {
            lemma_room_grows(tables, capacity, k, k + 1);
            assert(room_before(tables, capacity, k + 1) == room_before(tables, capacity, k)
                + spare(tables[k], capacity));
        } else {
            assert(after[k] == chunks_of(rest, capacity)[k - m]);
        }
    }
    // no address at two places
    assert forall|k1: int, i1: int, k2: int, i2: int|
        0 <= k1 < after.len() && 0 <= i1 < after[k1].len() && 0 <= k2 < after.len() && 0 <= i2
            < after[k2].len() && (k1 != k2 || i1 != i2) implies #[trigger] after[k1][i1]
        != #[trigger] after[k2][i2] by {
        let new1 = is_new_place(tables, k1, i1);
        let new2 = is_new_place(tables, k2, i2);
        if new1 && new2 {
            if k1 < k2 || (k1 == k2 && i1 < i2) {
                lemma_new_places_differ(tables, pending, capacity, k1, i1, k2, i2);
            } else {
                lemma_new_places_differ(tables, pending, capacity, k2, i2, k1, i1);
            }
            lemma_new_place(tables, pending, capacity, k1, i1);
            lemma_new_place(tables, pending, capacity, k2, i2);
        } else if new1 {
            lemma_new_place(tables, pending, capacity, k1, i1);
            assert(after[k2][i2] == tables[k2].addresses[i2]);
            assert(tables[k2].addresses.contains(after[k2][i2]));
            assert(is_tabled(tables, after[k2][i2]));
        } else if new2 {
            lemma_new_place(tables, pending, capacity, k2, i2);
            assert(after[k1][i1] == tables[k1].addresses[i1]);
            assert(tables[k1].addresses.contains(after[k1][i1]));
            assert(is_tabled(tables, after[k1][i1]));
        } else {
            assert(held(tables)[k1][i1] == after[k1][i1]);
            assert(held(tables)[k2][i2] == after[k2][i2]);
        }
    }
    // what a table held it still holds
    assert forall|k: int| 0 <= k < tables.len() implies (#[trigger] after[k]).take(
        tables[k].addresses.len() as int,
    ) == tables[k].addresses by {
        lemma_room_grows(tables, capacity, k, k + 1);
        assert(after[k].take(tables[k].addresses.len() as int) =~= tables[k].addresses);
    }
    // every participant address in a table
    assert forall|j: int| 0 <= j < participants.len() implies placed(
        after,
        #[trigger] participants[j],
    ) by {
        let a = participants[j];
        if is_tabled(tables, a) {
            let k = choose|k: int| 0 <= k < tables.len() && #[trigger] tables[k].addresses.contains(a);
            let i = choose|i: int| 0 <= i < tables[k].addresses.len() && tables[k].addresses[i] == a;
            assert(after[k][i] == a);
            assert(after[k].contains(a));
        } else {
            let q = choose|q: int| 0 <= q < pending.len() && pending[q] == a;
            if q < base {
                let k = lemma_share_found(tables, pending, capacity, q, m);
                let lo = capped(room_before(tables, capacity, k) as int, n);
                let i = tables[k].addresses.len() + (q - lo);
                assert(after[k][i] == a);
                assert(after[k].contains(a));
            } else {
                let d = capacity as int;
                let off = q - base;
                let g = off / d;
                let i = off % d;
                assert(off == d * g + i && 0 <= i < d) by {
                    vstd::arithmetic::div_mod::lemma_fundamental_div_mod(off, d);
                    vstd::arithmetic::div_mod::lemma_mod_bound(off, d);
                }
                assert(0 <= g) by (nonlinear_arith)
                    requires
                        off == d * g + i,
                        0 <= i < d,
                        off >= 0,
                        d > 0,
                ;
                let c = crate::batch::group_count(rest.len(), capacity) as int;
                assert(g < c) by (nonlinear_arith)
                    requires
                        off == d * g + i,
                        0 <= i,
                        off < rest.len(),
                        c * d >= rest.len(),
                        d > 0,
                ;
                lemma_group_bounds(rest.len(), capacity, g);
                assert(g * d == d * g) by (nonlinear_arith);
                assert((g + 1) * d == g * d + d) by (nonlinear_arith);
                let group = chunks_of(rest, capacity)[g];
                assert(group[i] == rest[off]);
                assert(after[m + g] == group);
                assert(after[m + g].contains(a));
            }
        }
    }
}

/// Plans which tables take which participant addresses. `tables` are the
/// pool's tables as the registry lists them, each with what it holds now, and
/// no table is to hold more than `capacity` addresses.
pub fn plan_sync(tables: &Vec<Table>, participants: &Vec<Address>, capacity: usize) -> (plan:
    SyncPlan)
    requires
        capacity > 0,
    ensures
        fill_views(plan.fills@) == fills_of(
            table_views(tables@),
            untabled(table_views(tables@), participants@),
            capacity as nat,
        ),
        contents(plan.fresh@) == chunks_of(
            overflow(
                table_views(tables@),
                untabled(table_views(tables@), participants@),
                capacity as nat,
            ),
            capacity as nat,
        ),
{
    let ghost known = table_views(tables@);
    let ghost cap = capacity as nat;
    // the addresses that no table holds
    let mut pending: Vec<Address> = Vec::new();
    let mut i: usize = 0;
    while i < participants.len()
        invariant
            i <= participants.len(),
            known == table_views(tables@),
            pending@ == untabled(known, participants@.take(i as int)),
        decreases participants.len() - i,
    {
        let a = participants[i];
        proof {
            let next = participants@.take(i + 1);
            assert(next.drop_last() =~= participants@.take(i as int));
            assert(next.last() == a);
        }
        if !tabled(tables, &a) && !holds(&pending, &a) {
            pending.push(a);
        }
        i += 1;
    }
    assert(participants@.take(participants.len() as int) =~= participants@);
    let ghost todo = pending@;
    let ghost every = shares(known, todo, cap);
    let n = pending.len();
    // what each table takes
    let mut fills: Vec<Fill> = Vec::new();
    let mut offset: usize = 0;
    let mut k: usize = 0;
    proof {
        reveal(Seq::filter);
        assert(every.take(0) =~= Seq::<FillView>::empty());
        assert(fill_views(fills@) =~= every.take(0).filter(|f: FillView| f.additions.len() > 0));
    }
    while k < tables.len()
        invariant
            k <= tables.len(),
            known == table_views(tables@),
            todo == pending@,
            n == pending.len(),
            every == shares(known, todo, cap),
            cap == capacity,
            offset == capped(room_before(known, cap, k as int) as int, n as int),
            fill_views(fills@) == every.take(k as int).filter(
                |f: FillView| f.additions.len() > 0,
            ),
        decreases tables.len() - k,
    {
        let table = &tables[k];
        let held = table.addresses.len();
        let room: usize = if held < capacity {
            capacity - held
        } else {
            0
        };
        let take: usize = if room < n - offset {
            room
        } else {
            n - offset
        };
        proof {
            assert(known[k as int] == table@);
            assert(room == spare(known[k as int], cap));
            assert(room_before(known, cap, k + 1) == room_before(known, cap, k as int) + room);
            assert(offset + take == capped(room_before(known, cap, k + 1) as int, n as int));
        }
        let mut additions: Vec<Address> = Vec::new();
        let mut j: usize = 0;
        while j < take
            invariant
                j <= take,
                offset + take <= n,
                n == pending.len(),
                additions@ == pending@.subrange(offset as int, offset + j),
            decreases take - j,
        {
            assert(pending@.subrange(offset as int, offset + j + 1) =~= pending@.subrange(
                offset as int,
                offset + j,
            ).push(pending@[offset + j]));
            additions.push(pending[offset + j]);
            j += 1;
        }
        proof {
            let share = every[k as int];
            assert(share == FillView { table: table.address, additions: additions@ });
            assert(every.take(k + 1) =~= every.take(k as int).push(share));
            reveal(Seq::filter);
            assert(every.take(k as int).push(share).drop_last() =~= every.take(k as int));
        }
        if take > 0 {
            let fill = Fill { table: table.address, additions };
            proof {
                assert(fill_views(fills@.push(fill)) =~= fill_views(fills@).push(fill@));
            }
            fills.push(fill);
        }
        offset = offset + take;
        k += 1;
    }
    assert(every.take(tables.len() as int) =~= every);
    // what is left over goes to new tables
    let rest = pending.split_off(offset);
    assert(rest@ =~= overflow(known, todo, cap));
    let fresh = chunks(rest, capacity);
    SyncPlan { fills, fresh }
}

} // verus!
