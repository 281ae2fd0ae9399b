//! A pool's participants and what is left of them to process in a cycle.

use crate::address::Address;
use vstd::prelude::*;

verus! {

/// One staker's position in a pool.
#[derive(Clone, Copy, Debug, PartialEq, Eq)]
pub struct Participant {
    /// Where the position lives on the ledger.
    pub address: Address,
    /// The position's number, given in the order in which stakers joined.
    pub id: u64,
}

/// A pool's checkpoint as read from the ledger.
#[derive(Clone, Copy, Debug, PartialEq, Eq, Structural)]
pub struct Checkpoint {
    /// When the last cycle was completed, in seconds.
    pub last_rebase_time: i64,
    /// The id of the next participant to process.
    pub cursor: u64,
}

/// Ids do not fall along the sequence.
pub open spec fn ascending(r: Seq<Participant>) -> bool {
    forall|i: int, j: int| 0 <= i < j < r.len() ==> r[i].id <= r[j].id
}

/// The participants of `s` that carry `id`, in their order.
pub open spec fn with_id(s: Seq<Participant>, id: u64) -> Seq<Participant> {
    s.filter(|p: Participant| p.id == id)
}

/// `r` is what remains of `all` at `cursor`: the participants whose id is
/// `cursor` or more, by ascending id. Participants that share an id keep the
/// order they have in `all`.
pub open spec fn is_remaining(r: Seq<Participant>, all: Seq<Participant>, cursor: u64) -> bool {
    &&& ascending(r)
    &&& forall|id: u64|
        #[trigger] with_id(r, id) == if id >= cursor {
            with_id(all, id)
        } else {
            Seq::<Participant>::empty()
        }
}

/// No two participants carry the same id.
pub open spec fn distinct_ids(s: Seq<Participant>) -> bool {
    forall|i: int, j: int| 0 <= i < j < s.len() ==> s[i].id != s[j].id
}

/// The addresses of participants, in their order.
pub open spec fn addresses(s: Seq<Participant>) -> Seq<Address> {
    s.map_values(|p: Participant| p.address)
}

/// The ledger's cursor once it has processed the first `done` participants
/// of the batch `r`, which it was handed while the cursor stood at `cursor`:
/// one past the last id processed.
pub open spec fn cursor_after(r: Seq<Participant>, cursor: u64, done: int) -> int {
    if done <= 0 {
        cursor as int
    } else {
        r[done - 1].id + 1
    }
}

proof fn lemma_with_id_push(s: Seq<Participant>, x: Participant, id: u64)
    ensures
        with_id(s.push(x), id) == if x.id == id {
            with_id(s, id).push(x)
        } else {
            with_id(s, id)
        },
{
    reveal(Seq::filter);
    assert(s.push(x).drop_last() =~= s);
}

proof fn lemma_with_id_none(s: Seq<Participant>, id: u64)
    requires
        forall|j: int| 0 <= j < s.len() ==> s[j].id != id,
    ensures
        with_id(s, id) == Seq::<Participant>::empty(),
    decreases s.len(),
{
    reveal(Seq::filter);
    if s.len() > 0 {
        lemma_with_id_none(s.drop_last(), id);
    }
}

proof fn lemma_with_id_split(s: Seq<Participant>, k: int, id: u64)
    requires
        0 <= k <= s.len(),
    ensures
        with_id(s, id) == with_id(s.take(k), id) + with_id(s.skip(k), id),
{
    assert(s =~= s.take(k) + s.skip(k));
    Seq::filter_distributes_over_add(s.take(k), s.skip(k), |p: Participant| p.id == id);
}

/// Putting `x` behind the participants of `s` that come no later by id adds
/// `x` to those of its own id, last, and changes nothing for another id.
proof fn lemma_with_id_insert(s: Seq<Participant>, k: int, x: Participant, id: u64)
    requires
        0 <= k <= s.len(),
        forall|j: int| k <= j < s.len() ==> s[j].id > x.id,
    ensures
        with_id(s.insert(k, x), id) == if x.id == id {
            with_id(s, id).push(x)
        } else {
            with_id(s, id)
        },
{
    let head = s.take(k);
    let tail = s.skip(k);
    assert(s.insert(k, x) =~= head.push(x) + tail);
    Seq::filter_distributes_over_add(head.push(x), tail, |p: Participant| p.id == id);
    lemma_with_id_push(head, x, id);
    lemma_with_id_split(s, k, id);
    if x.id == id {
        lemma_with_id_none(tail, id);
        assert(with_id(head, id).push(x) + Seq::<Participant>::empty() =~= with_id(head, id).push(
            x,
        ));
        assert(with_id(head, id) + Seq::<Participant>::empty() =~= with_id(head, id));
    }
}

/// A participant of a sequence is among those of its id.
proof fn lemma_with_id_has(s: Seq<Participant>, i: int)
    requires
        0 <= i < s.len(),
    ensures
        with_id(s, s[i].id).contains(s[i]),
        with_id(s, s[i].id).len() > 0,
{
    s.lemma_filter_contains(|p: Participant| p.id == s[i].id, i);
}

/// Those of an id are participants of the sequence, and carry that id.
proof fn lemma_with_id_from(s: Seq<Participant>, id: u64, k: int)
    requires
        0 <= k < with_id(s, id).len(),
    ensures
        with_id(s, id)[k].id == id,
        s.contains(with_id(s, id)[k]),
{
    let pred = |p: Participant| p.id == id;
    s.lemma_filter_pred(pred, k);
    assert(s.filter(pred).contains(s.filter(pred)[k]));
    s.lemma_filter_contains_rev(pred, s.filter(pred)[k]);
}

/// Two ascending sequences that hold, for every id, the same participants in
/// the same order are the same sequence.
proof fn lemma_same_by_id(a: Seq<Participant>, b: Seq<Participant>)
    requires
        ascending(a),
        ascending(b),
        forall|id: u64| #[trigger] with_id(a, id) == with_id(b, id),
    ensures
        a == b,
    decreases a.len(),
{
    reveal(Seq::filter);
    if a.len() == 0 {
        if b.len() > 0 {
            lemma_with_id_has(b, b.len() - 1);
            assert(with_id(a, b.last().id) == with_id(b, b.last().id));
        }
        assert(a =~= b);
    } else {
        let x = a.last();
        lemma_with_id_has(a, a.len() - 1);
        assert(with_id(a, x.id) == with_id(b, x.id));
        assert(b.len() > 0);
        let y = b.last();
        lemma_with_id_has(b, b.len() - 1);
        assert(with_id(a, y.id) == with_id(b, y.id));
        // the last of each is found in the other, so neither id exceeds the other
        let ix = choose|k: int| 0 <= k < with_id(b, x.id).len() && with_id(b, x.id)[k] == x;
        lemma_with_id_from(b, x.id, ix);
        let jx = choose|j: int| 0 <= j < b.len() && b[j] == x;
        assert(b[jx].id <= y.id);
        let iy = choose|k: int| 0 <= k < with_id(a, y.id).len() && with_id(a, y.id)[k] == y;
        lemma_with_id_from(a, y.id, iy);
        let jy = choose|j: int| 0 <= j < a.len() && a[j] == y;
        assert(a[jy].id <= x.id);
        assert(x.id == y.id);
        let a0 = a.drop_last();
        let b0 = b.drop_last();
        assert(a =~= a0.push(x));
        assert(b =~= b0.push(y));
        assert forall|id: u64| #[trigger] with_id(a0, id) == with_id(b0, id) by {
            lemma_with_id_push(a0, x, id);
            lemma_with_id_push(b0, y, id);
            assert(with_id(a, id) == with_id(b, id));
            if id == x.id {
                assert(with_id(a0, id).push(x) == with_id(b0, id).push(y));
                assert(with_id(a0, id) =~= with_id(a0, id).push(x).drop_last());
                assert(with_id(b0, id) =~= with_id(b0, id).push(y).drop_last());
            }
        }
        assert(with_id(a0, x.id).push(x) == with_id(b0, x.id).push(y)) by {
            lemma_with_id_push(a0, x, x.id);
            lemma_with_id_push(b0, y, x.id);
            assert(with_id(a, x.id) == with_id(b, x.id));
        }
        assert(x == with_id(a0, x.id).push(x).last());
        assert(y == with_id(b0, x.id).push(y).last());
        lemma_same_by_id(a0, b0);
    }
}

/// Where `x` goes in an ascending sequence: behind the last participant
/// whose id is no greater.
spec fn place_for(r: Seq<Participant>, x: Participant) -> int
    decreases r.len(),
{
    if r.len() == 0 || r.last().id <= x.id {
        r.len() as int
    } else {
        place_for(r.drop_last(), x)
    }
}

proof fn lemma_place_for(r: Seq<Participant>, x: Participant)
    requires
        ascending(r),
    ensures
        0 <= place_for(r, x) <= r.len(),
        forall|j: int| 0 <= j < place_for(r, x) ==> r[j].id <= x.id,
        forall|j: int| place_for(r, x) <= j < r.len() ==> r[j].id > x.id,
    decreases r.len(),
{
    if r.len() > 0 && r.last().id > x.id {
        let before = r.drop_last();
        assert(ascending(before)) by {
            assert forall|i: int, j: int| 0 <= i < j < before.len() implies before[i].id
                <= before[j].id by {
                assert(before[i] == r[i] && before[j] == r[j]);
            }
        }
        lemma_place_for(before, x);
        assert forall|j: int| 0 <= j < place_for(r, x) implies r[j].id <= x.id by {
            assert(before[j] == r[j]);
        }
        assert forall|j: int| place_for(r, x) <= j < r.len() implies r[j].id > x.id by {
            if j < before.len() {
                assert(before[j] == r[j]);
            }
        }
    }
}

/// There always is what remains: for every sequence of participants and
/// every cursor some sequence is what remains.
pub proof fn lemma_remaining_exists(all: Seq<Participant>, cursor: u64) -> (r: Seq<Participant>)
    ensures
        is_remaining(r, all, cursor),
    decreases all.len(),
{
    if all.len() == 0 {
        let r = Seq::<Participant>::empty();
        assert forall|id: u64| #[trigger]
            with_id(r, id) == if id >= cursor {
                with_id(all, id)
            } else {
                Seq::<Participant>::empty()
            } by {
            lemma_with_id_none(r, id);
            lemma_with_id_none(all, id);
        }
        r
    } else {
        let head = all.drop_last();
        let x = all.last();
        let before = lemma_remaining_exists(head, cursor);
        assert(all =~= head.push(x));
        if x.id >= cursor {
            lemma_place_for(before, x);
            let k = place_for(before, x);
            let r = before.insert(k, x);
            assert forall|a: int, b: int| 0 <= a < b < r.len() implies r[a].id <= r[b].id by {
                if a < k && b > k {
                    assert(r[a] == before[a] && r[b] == before[b - 1]);
                } else if a < k && b == k {
                    assert(r[a] == before[a]);
                } else if a < k {
                    assert(r[a] == before[a] && r[b] == before[b]);
                } else if a == k {
                    assert(r[b] == before[b - 1]);
                } else {
                    assert(r[a] == before[a - 1] && r[b] == before[b - 1]);
                }
            }
            assert forall|id: u64| #[trigger]
                with_id(r, id) == if id >= cursor {
                    with_id(all, id)
                } else {
                    Seq::<Participant>::empty()
                } by {
                lemma_with_id_insert(before, k, x, id);
                lemma_with_id_push(head, x, id);
                assert(with_id(before, id) == if id >= cursor {
                    with_id(head, id)
                } else {
                    Seq::<Participant>::empty()
                });
            }
            r
        } else {
            assert forall|id: u64| #[trigger]
                with_id(before, id) == if id >= cursor {
                    with_id(all, id)
                } else {
                    Seq::<Participant>::empty()
                } by {
                lemma_with_id_push(head, x, id);
                assert(with_id(before, id) == if id >= cursor {
                    with_id(head, id)
                } else {
                    Seq::<Participant>::empty()
                });
            }
            before
        }
    }
}

/// What remains is fixed by the participants and the cursor: two sequences
/// that both are what remains are the same.
pub proof fn lemma_remaining_is_unique(
    a: Seq<Participant>,
    b: Seq<Participant>,
    all: Seq<Participant>,
    cursor: u64,
)
    requires
        is_remaining(a, all, cursor),
        is_remaining(b, all, cursor),
    ensures
        a == b,
{
    assert forall|id: u64| #[trigger] with_id(a, id) == with_id(b, id) by {
        assert(with_id(a, id) == if id >= cursor {
            with_id(all, id)
        } else {
            Seq::<Participant>::empty()
        });
        assert(with_id(b, id) == if id >= cursor {
            with_id(all, id)
        } else {
            Seq::<Participant>::empty()
        });
    }
    lemma_same_by_id(a, b);
}

/// What remains of the participants at the cursor.
pub open spec fn remaining_of(all: Seq<Participant>, cursor: u64) -> Seq<Participant> {
    choose|r: Seq<Participant>| is_remaining(r, all, cursor)
}

/// `remaining_of` names what remains, and nothing else is what remains.
pub proof fn lemma_remaining_of(r: Seq<Participant>, all: Seq<Participant>, cursor: u64)
    ensures
        is_remaining(remaining_of(all, cursor), all, cursor),
        is_remaining(r, all, cursor) ==> r == remaining_of(all, cursor),
{
    let some = lemma_remaining_exists(all, cursor);
    if is_remaining(r, all, cursor) {
        lemma_remaining_is_unique(r, remaining_of(all, cursor), all, cursor);
    }
}

/// What remains holds exactly the participants at or past the cursor: each
/// of its members is a participant with such an id, and each such
/// participant is a member.
pub proof fn lemma_remaining_members(r: Seq<Participant>, all: Seq<Participant>, cursor: u64)
    requires
        is_remaining(r, all, cursor),
    ensures
        forall|i: int| 0 <= i < r.len() ==> (#[trigger] r[i]).id >= cursor && all.contains(r[i]),
        forall|j: int| 0 <= j < all.len() && (#[trigger] all[j]).id >= cursor ==> r.contains(all[j]),
{
    assert forall|i: int| 0 <= i < r.len() implies (#[trigger] r[i]).id >= cursor && all.contains(
        r[i],
    ) by {
        let id = r[i].id;
        lemma_with_id_has(r, i);
        assert(with_id(r, id) == if id >= cursor {
            with_id(all, id)
        } else {
            Seq::<Participant>::empty()
        });
        let k = choose|k: int| 0 <= k < with_id(r, id).len() && with_id(r, id)[k] == r[i];
        lemma_with_id_from(all, id, k);
    }
    assert forall|j: int| 0 <= j < all.len() && (#[trigger] all[j]).id >= cursor implies r.contains(
        all[j],
    ) by {
        let id = all[j].id;
        lemma_with_id_has(all, j);
        assert(with_id(r, id) == if id >= cursor {
            with_id(all, id)
        } else {
            Seq::<Participant>::empty()
        });
        let k = choose|k: int| 0 <= k < with_id(all, id).len() && with_id(all, id)[k] == all[j];
        lemma_with_id_from(r, id, k);
    }
}

/// Where ids are distinct, at most one participant carries a given id.
proof fn lemma_distinct_at_most_one(s: Seq<Participant>, id: u64)
    requires
        distinct_ids(s),
    ensures
        with_id(s, id).len() <= 1,
    decreases s.len(),
{
    reveal(Seq::filter);
    if s.len() > 0 {
        let before = s.drop_last();
        if s.last().id == id {
            lemma_with_id_none(before, id);
        } else {
            lemma_distinct_at_most_one(before, id);
        }
    }
}

/// Where the participants' ids are distinct, ids rise strictly along what
/// remains: no participant occurs in it twice.
pub proof fn lemma_remaining_strictly_ascending(
    r: Seq<Participant>,
    all: Seq<Participant>,
    cursor: u64,
)
    requires
        distinct_ids(all),
        is_remaining(r, all, cursor),
    ensures
        forall|i: int, j: int| 0 <= i < j < r.len() ==> r[i].id < r[j].id,
{
    assert forall|i: int, j: int| 0 <= i < j < r.len() implies r[i].id < r[j].id by {
        if r[i].id == r[j].id {
            let id = r[i].id;
            lemma_with_id_split(r, j, id);
            assert(r.take(j)[i] == r[i]);
            lemma_with_id_has(r.take(j), i);
            assert(r.skip(j)[0] == r[j]);
            lemma_with_id_has(r.skip(j), 0);
            lemma_remaining_members(r, all, cursor);
            assert(with_id(r, id) == if id >= cursor {
                with_id(all, id)
            } else {
                Seq::<Participant>::empty()
            });
            lemma_distinct_at_most_one(all, id);
        }
    }
}

/// What is left of a batch when the ledger has processed the first `done` of
/// it is what remains at the cursor that the ledger then holds.
pub proof fn lemma_rest_remains(
    all: Seq<Participant>,
    cursor: u64,
    r: Seq<Participant>,
    done: int,
)
    requires
        distinct_ids(all),
        is_remaining(r, all, cursor),
        0 <= done <= r.len(),
        cursor_after(r, cursor, done) <= u64::MAX,
    ensures
        is_remaining(r.skip(done), all, cursor_after(r, cursor, done) as u64),
{
    let next = cursor_after(r, cursor, done) as u64;
    let rest = r.skip(done);
    if done == 0 {
        assert(rest =~= r);
    } else {
        lemma_remaining_strictly_ascending(r, all, cursor);
        lemma_remaining_members(r, all, cursor);
        let last = r[done - 1].id;
        assert(last >= cursor);
        assert forall|id: u64| #[trigger]
            with_id(rest, id) == if id >= next {
                with_id(all, id)
            } else {
                Seq::<Participant>::empty()
            } by {
            lemma_with_id_split(r, done, id);
            assert(with_id(r, id) == if id >= cursor {
                with_id(all, id)
            } else {
                Seq::<Participant>::empty()
            });
            if id >= next {
                assert forall|j: int| 0 <= j < r.take(done).len() implies r.take(done)[j].id
                    != id by {
                    assert(r.take(done)[j] == r[j]);
                    assert(j < done - 1 ==> r[j].id < r[done - 1].id);
                }
                lemma_with_id_none(r.take(done), id);
                assert(Seq::<Participant>::empty() + with_id(rest, id) =~= with_id(rest, id));
            } else {
                assert forall|j: int| 0 <= j < rest.len() implies rest[j].id != id by {
                    assert(rest[j] == r[done + j]);
                    assert(r[done - 1].id < r[done + j].id);
                }
                lemma_with_id_none(rest, id);
            }
        }
        assert(ascending(rest)) by {
            assert forall|i: int, j: int| 0 <= i < j < rest.len() implies rest[i].id
                <= rest[j].id by {
                assert(rest[i] == r[done + i] && rest[j] == r[done + j]);
            }
        }
    }
}

/// A cycle can be taken up where it stopped. Let `r` be what remained at
/// `cursor`, and let the ledger have processed the first `done` of it, so
/// that its cursor stands one past the last id processed. Then what remains
/// at that cursor is the rest of `r`, no participant skipped and none
/// repeated: what was processed before and what remains now make up `r`.
pub proof fn lemma_resume_where_stopped(
    all: Seq<Participant>,
    cursor: u64,
    r: Seq<Participant>,
    done: int,
    resumed: Seq<Participant>,
)
    requires
        distinct_ids(all),
        is_remaining(r, all, cursor),
        0 <= done <= r.len(),
        cursor_after(r, cursor, done) <= u64::MAX,
        is_remaining(resumed, all, cursor_after(r, cursor, done) as u64),
    ensures
        resumed == r.skip(done),
        r.take(done) + resumed == r,
{
    lemma_rest_remains(all, cursor, r, done);
    lemma_remaining_is_unique(resumed, r.skip(done), all, cursor_after(r, cursor, done) as u64);
    assert(r.take(done) + r.skip(done) =~= r);
}

/// One pass of the agent: the batch that it derived, and how many of the
/// batch the ledger processed before the pass ended or broke off.
pub struct Attempt {
    pub batch: Seq<Participant>,
    pub done: int,
}

/// The passes follow one another from `cursor`: the batch of each is what
/// remains at the cursor that the pass before it left.
pub open spec fn follow_on(all: Seq<Participant>, cursor: u64, attempts: Seq<Attempt>) -> bool
    decreases attempts.len(),
{
    attempts.len() == 0 || {
        let first = attempts[0];
        &&& is_remaining(first.batch, all, cursor)
        &&& 0 <= first.done <= first.batch.len()
        &&& cursor_after(first.batch, cursor, first.done) <= u64::MAX
        &&& follow_on(
            all,
            cursor_after(first.batch, cursor, first.done) as u64,
            attempts.drop_first(),
        )
    }
}

/// What the ledger processed over the passes, in order.
pub open spec fn processed(attempts: Seq<Attempt>) -> Seq<Participant>
    decreases attempts.len(),
{
    if attempts.len() == 0 {
        Seq::empty()
    } else {
        attempts[0].batch.take(attempts[0].done) + processed(attempts.drop_first())
    }
}

/// The cursor that the passes leave.
pub open spec fn cursor_left(cursor: u64, attempts: Seq<Attempt>) -> int
    decreases attempts.len(),
{
    if attempts.len() == 0 {
        cursor as int
    } else {
        cursor_left(
            cursor_after(attempts[0].batch, cursor, attempts[0].done) as u64,
            attempts.drop_first(),
        )
    }
}

/// However often a cycle breaks off and is taken up again, the ledger
/// processes what remained at the start, in order, no participant skipped and
/// none repeated: over all passes it has processed a beginning of what
/// remained, and its cursor stands where that beginning ends. If the last
/// pass runs to its end, all of what remained is processed, each participant
/// once, and the cursor stands one past the largest id of all participants.
pub proof fn lemma_passes_make_one_cycle(
    all: Seq<Participant>,
    cursor: u64,
    r: Seq<Participant>,
    attempts: Seq<Attempt>,
)
    requires
        distinct_ids(all),
        is_remaining(r, all, cursor),
        follow_on(all, cursor, attempts),
    ensures
        processed(attempts).len() <= r.len(),
        processed(attempts) == r.take(processed(attempts).len() as int),
        cursor_left(cursor, attempts) == cursor_after(r, cursor, processed(attempts).len() as int),
        attempts.len() > 0 && attempts.last().done == attempts.last().batch.len() ==> processed(
            attempts,
        ) == r,
        attempts.len() > 0 && attempts.last().done == attempts.last().batch.len() && r.len() > 0
            ==> all.contains(r.last()) && cursor_left(cursor, attempts) == r.last().id + 1
            && forall|j: int|
            0 <= j < all.len() ==> (#[trigger] all[j]).id < cursor_left(cursor, attempts),
    decreases attempts.len(),
{
    if r.len() > 0 {
        lemma_cycle_completes(all, cursor, r);
    }
    if attempts.len() == 0 {
        assert(r.take(0) =~= Seq::<Participant>::empty());
    } else {
        let first = attempts[0];
        let later = attempts.drop_first();
        let next = cursor_after(first.batch, cursor, first.done) as u64;
        lemma_remaining_is_unique(first.batch, r, all, cursor);
        lemma_rest_remains(all, cursor, r, first.done);
        let rest = r.skip(first.done);
        lemma_passes_make_one_cycle(all, next, rest, later);
        let n = processed(later).len() as int;
        assert(r.take(first.done) + rest.take(n) =~= r.take(first.done + n));
        if later.len() > 0 {
            assert(later.last() == attempts.last());
            if attempts.last().done == attempts.last().batch.len() {
                assert(r.take(first.done) + rest =~= r);
            }
        } else {
            assert(processed(later) =~= Seq::<Participant>::empty());
            assert(r.take(first.done) + Seq::<Participant>::empty() =~= r.take(first.done));
            if first.done == first.batch.len() {
                assert(r.take(first.done) =~= r);
            }
        }
        if n > 0 {
            assert(rest[n - 1] == r[first.done + n - 1]);
        }
    }
}

/// A cycle that runs to its end leaves the cursor one past the largest id,
/// and has processed every participant at or past the cursor exactly once.
pub proof fn lemma_cycle_completes(all: Seq<Participant>, cursor: u64, r: Seq<Participant>)
    requires
        distinct_ids(all),
        is_remaining(r, all, cursor),
        r.len() > 0,
    ensures
        forall|j: int| 0 <= j < all.len() ==> (#[trigger] all[j]).id < cursor_after(r, cursor, r.len() as int),
        all.contains(r.last()),
        forall|j: int|
            0 <= j < all.len() && (#[trigger] all[j]).id >= cursor ==> exists|i: int|
                0 <= i < r.len() && r[i] == all[j] && forall|k: int|
                    0 <= k < r.len() && r[k] == all[j] ==> k == i,
{
    lemma_remaining_members(r, all, cursor);
    lemma_remaining_strictly_ascending(r, all, cursor);
    assert forall|j: int| 0 <= j < all.len() implies (#[trigger] all[j]).id < cursor_after(
        r,
        cursor,
        r.len() as int,
    ) by {
        if all[j].id >= cursor {
            let i = choose|i: int| 0 <= i < r.len() && r[i] == all[j];
            assert(i < r.len() - 1 ==> r[i].id < r[r.len() - 1].id);
        } else {
            assert(r[r.len() - 1].id >= cursor);
        }
    }
    assert forall|j: int| 0 <= j < all.len() && (#[trigger] all[j]).id >= cursor implies exists|
        i: int,
    |
        0 <= i < r.len() && r[i] == all[j] && forall|k: int|
            0 <= k < r.len() && r[k] == all[j] ==> k == i by {
        let i = choose|i: int| 0 <= i < r.len() && r[i] == all[j];
        assert forall|k: int| 0 <= k < r.len() && r[k] == all[j] implies k == i by {
            if k < i {
                assert(r[k].id < r[i].id);
            } else if i < k {
                assert(r[i].id < r[k].id);
            }
        }
    }
}

/// What remains of `participants` at `cursor`: those whose id is `cursor` or
/// more, by ascending id.
pub fn remaining(participants: &Vec<Participant>, cursor: u64) -> (r: Vec<Participant>)
    ensures
        is_remaining(r@, participants@, cursor),
        r@ == remaining_of(participants@, cursor),
{
    let ghost all = participants@;
    let mut out: Vec<Participant> = Vec::new();
    let mut i: usize = 0;
    proof {
        reveal(Seq::filter);
        assert(all.take(0) =~= Seq::<Participant>::empty());
        assert forall|id: u64| #[trigger]
            with_id(out@, id) == if id >= cursor {
                with_id(all.take(0), id)
            } else {
                Seq::<Participant>::empty()
            } by {
            assert(with_id(out@, id) =~= Seq::<Participant>::empty());
        }
    }
    while i < participants.len()
        invariant
            i <= participants.len(),
            all == participants@,
            ascending(out@),
            forall|id: u64|
                #[trigger] with_id(out@, id) == if id >= cursor {
                    with_id(all.take(i as int), id)
                } else {
                    Seq::<Participant>::empty()
                },
        decreases participants.len() - i,
    {
        let p = participants[i];
        let ghost before = out@;
        proof {
            assert(all.take(i + 1) =~= all.take(i as int).push(p));
        }
        if p.id >= cursor {
            let mut k: usize = out.len();
            while k > 0 && out[k - 1].id > p.id
                invariant
                    k <= out.len(),
                    out@ == before,
                    forall|j: int| k <= j < out.len() ==> out@[j].id > p.id,
                decreases k,
            {
                k -= 1;
            }
            out.insert(k, p);
            proof {
                assert forall|a: int, b: int| 0 <= a < b < out@.len() implies out@[a].id
                    <= out@[b].id by {
                    if a < k && b > k {
                        assert(out@[a] == before[a] && out@[b] == before[b - 1]);
                    } else if a < k && b == k {
                        assert(out@[a] == before[a]);
                        if k > 0 {
                            assert(before[a].id <= before[k - 1].id);
                        }
                    } else if a < k {
                        assert(out@[a] == before[a] && out@[b] == before[b]);
                    } else if a == k {
                        assert(out@[b] == before[b - 1]);
                    } else {
                        assert(out@[a] == before[a - 1] && out@[b] == before[b - 1]);
                    }
                }
                assert forall|id: u64| #[trigger]
                    with_id(out@, id) == if id >= cursor {
                        with_id(all.take(i + 1), id)
                    } else {
                        Seq::<Participant>::empty()
                    } by {
                    lemma_with_id_insert(before, k as int, p, id);
                    lemma_with_id_push(all.take(i as int), p, id);
                    assert(with_id(before, id) == if id >= cursor {
                        with_id(all.take(i as int), id)
                    } else {
                        Seq::<Participant>::empty()
                    });
                }
            }
        } else {
            proof {
                assert forall|id: u64| #[trigger]
                    with_id(out@, id) == if id >= cursor {
                        with_id(all.take(i + 1), id)
                    } else {
                        Seq::<Participant>::empty()
                    } by {
                    lemma_with_id_push(all.take(i as int), p, id);
                    assert(with_id(before, id) == if id >= cursor {
                        with_id(all.take(i as int), id)
                    } else {
                        Seq::<Participant>::empty()
                    });
                }
            }
        }
        i += 1;
    }
    proof {
        assert(all.take(participants.len() as int) =~= all);
        lemma_remaining_of(out@, all, cursor);
    }
    out
}

/// The addresses of `participants`, in their order.
pub fn addresses_of(participants: &Vec<Participant>) -> (out: Vec<Address>)
    ensures
        out@ == addresses(participants@),
{
    let mut out: Vec<Address> = Vec::new();
    let mut i: usize = 0;
    while i < participants.len()
        invariant
            i <= participants.len(),
            out@ == addresses(participants@.take(i as int)),
        decreases participants.len() - i,
    {
        proof {
            assert(participants@.take(i + 1) =~= participants@.take(i as int).push(
                participants@[i as int],
            ));
            assert(addresses(participants@.take(i + 1)) =~= addresses(
                participants@.take(i as int),
            ).push(participants@[i as int].address));
        }
        out.push(participants[i].address);
        i += 1;
    }
    assert(participants@.take(participants.len() as int) =~= participants@);
    out
}

} // verus!
