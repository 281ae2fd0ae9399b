//! Partitioning a sequence into consecutive groups of bounded size.

use vstd::prelude::*;

verus! {

/// Number of groups that `len` elements fill at `size` elements per group:
/// `len / size`, rounded up.
pub open spec fn group_count(len: nat, size: nat) -> nat {
    if size == 0 {
        0
    } else {
        ((len + size - 1) / (size as int)) as nat
    }
}

/// Where group `i` ends in a sequence of `len` elements.
pub open spec fn group_end(i: int, size: nat, len: nat) -> int {
    if (i + 1) * size <= len {
        (i + 1) * size
    } else {
        len as int
    }
}

/// The consecutive groups of `s`: group `i` holds the elements from index
/// `i * size` up to `(i + 1) * size`, the last group stopping where `s` ends.
pub open spec fn chunks_of<T>(s: Seq<T>, size: nat) -> Seq<Seq<T>> {
    Seq::new(
        group_count(s.len(), size),
        |i: int| s.subrange(i * size, group_end(i, size, s.len())),
    )
}

/// The contents of a vector of groups.
pub open spec fn contents<T>(groups: Seq<Vec<T>>) -> Seq<Seq<T>> {
    groups.map_values(|g: Vec<T>| g@)
}

/// `count` groups of `size` cover `len` elements and `count - 1` groups do not.
pub proof fn lemma_group_count(len: nat, size: nat)
    requires
        size > 0,
    ensures
        group_count(len, size) * size >= len,
        len > 0 ==> (group_count(len, size) - 1) * size < len,
        len == 0 <==> group_count(len, size) == 0,
{
    let c = group_count(len, size) as int;
    let n = (len + size - 1) as int;
    let d = size as int;
    let r = n % d;
    assert(n == d * c + r && 0 <= r < d) by {
        vstd::arithmetic::div_mod::lemma_fundamental_div_mod(n, d);
        vstd::arithmetic::div_mod::lemma_mod_bound(n, d);
    }
    assert(c * d == d * c) by (nonlinear_arith);
    assert((c - 1) * d == c * d - d) by (nonlinear_arith);
    if len == 0 {
        assert(c == 0) by (nonlinear_arith)
            requires
                n == d * c + r,
                0 <= r,
                n < d,
                d > 0,
                c >= 0,
        ;
    } else {
        assert(c > 0) by (nonlinear_arith)
            requires
                n == d * c + r,
                r < d,
                n >= d,
                d > 0,
        ;
    }
}

/// Where the groups lie: group `i` starts inside `s`, is not empty, holds at
/// most `size` elements, and holds exactly `size` unless it is the last.
pub proof fn lemma_group_bounds(len: nat, size: nat, i: int)
    requires
        size > 0,
        0 <= i < group_count(len, size),
    ensures
        0 <= i * size < len,
        i * size < group_end(i, size, len) <= len,
        group_end(i, size, len) - i * size <= size,
        i + 1 < group_count(len, size) ==> group_end(i, size, len) == (i + 1) * size,
        i + 1 == group_count(len, size) ==> group_end(i, size, len) == len,
{
    lemma_group_count(len, size);
    let c = group_count(len, size) as int;
    let d = size as int;
    assert(i * d <= (c - 1) * d) by (nonlinear_arith)
        requires
            0 <= i <= c - 1,
            d > 0,
    ;
    assert(0 <= i * d) by (nonlinear_arith)
        requires
            0 <= i,
            d > 0,
    ;
    assert((i + 1) * d == i * d + d) by (nonlinear_arith);
    if i + 1 < c {
        assert((i + 1) * d <= (c - 1) * d) by (nonlinear_arith)
            requires
                i + 1 <= c - 1,
                d > 0,
        ;
    } else {
        assert((i + 1) * d == c * d);
    }
}

/// The first `n` groups, joined in order, are the elements that come before
/// group `n`.
proof fn lemma_join_prefix<T>(s: Seq<T>, size: nat, n: int)
    requires
        size > 0,
        0 <= n <= group_count(s.len(), size),
    ensures
        chunks_of(s, size).take(n).flatten() == s.take(
            if n == 0 {
                0
            } else {
                group_end(n - 1, size, s.len())
            },
        ),
    decreases n,
{
    let groups = chunks_of(s, size);
    if n == 0 {
        assert(groups.take(0).flatten() =~= s.take(0));
    } else {
        lemma_join_prefix(s, size, n - 1);
        lemma_group_bounds(s.len(), size, n - 1);
        if n > 1 {
            lemma_group_bounds(s.len(), size, n - 2);
        }
        let before = groups.take(n - 1);
        assert(groups.take(n) =~= before.push(groups[n - 1]));
        before.lemma_flatten_push(groups[n - 1]);
        if n == 1 {
            assert((n - 1) * size == 0) by (nonlinear_arith)
                requires
                    n == 1,
            ;
        }
        assert(groups.take(n).flatten() =~= s.take(group_end(n - 1, size, s.len())));
    }
}

/// The groups partition the sequence: there are `len / size` of them, rounded
/// up; none is empty and none holds more than `size` elements; joined in
/// order they give back the sequence, every element in its place.
pub proof fn lemma_chunks_partition<T>(s: Seq<T>, size: nat)
    requires
        size > 0,
    ensures
        chunks_of(s, size).len() == group_count(s.len(), size),
        group_count(s.len(), size) * size >= s.len(),
        s.len() > 0 ==> (group_count(s.len(), size) - 1) * size < s.len(),
        forall|i: int|
            0 <= i < chunks_of(s, size).len() ==> 0 < (#[trigger] chunks_of(s, size)[i]).len()
                <= size,
        forall|i: int|
            0 <= i < chunks_of(s, size).len() - 1 ==> (#[trigger] chunks_of(s, size)[i]).len()
                == size,
        chunks_of(s, size).flatten() == s,
{
    let groups = chunks_of(s, size);
    let c = groups.len() as int;
    lemma_group_count(s.len(), size);
    assert forall|i: int| 0 <= i < c implies 0 < (#[trigger] groups[i]).len() <= size && (i < c
        - 1 ==> groups[i].len() == size) by {
        lemma_group_bounds(s.len(), size, i);
        assert((i + 1) * size == i * size + size) by (nonlinear_arith);
    }
    lemma_join_prefix(s, size, c);
    assert(groups.take(c) =~= groups);
    if c > 0 {
        lemma_group_bounds(s.len(), size, c - 1);
    }
    assert(s.take(s.len() as int) =~= s);
}

/// Splits `items` into consecutive groups of `size` elements; the last group
/// holds what is left over.
pub fn chunks<T>(items: Vec<T>, size: usize) -> (groups: Vec<Vec<T>>)
    requires
        size > 0,
    ensures
        contents(groups@) == chunks_of(items@, size as nat),
{
    let ghost all = items@;
    let mut groups: Vec<Vec<T>> = Vec::new();
    let mut rest = items;
    let ghost mut start: int = 0;
    proof {
        assert(0 * size == 0) by (nonlinear_arith);
        assert(rest@ =~= all.skip(0));
    }
    while rest.len() > size
        invariant
            size > 0,
            start == groups@.len() * size,
            start + rest@.len() == all.len(),
            rest@ == all.skip(start),
            forall|j: int|
                0 <= j < groups@.len() ==> (#[trigger] groups@[j])@ == all.subrange(
                    j * size,
                    (j + 1) * size,
                ),
        decreases rest@.len(),
    {
        let ghost n = groups@.len() as int;
        let tail = rest.split_off(size);
        proof {
            assert((n + 1) * size == n * size + size) by (nonlinear_arith);
            assert(n * size >= 0) by (nonlinear_arith)
                requires
                    n >= 0,
                    size > 0,
            ;
            assert(rest@ =~= all.subrange(n * size, (n + 1) * size));
            assert(tail@ =~= all.skip((n + 1) * size));
            start = start + size;
        }
        groups.push(rest);
        rest = tail;
    }
    let ghost n = groups@.len() as int;
    if rest.len() > 0 {
        proof {
            assert(n * size >= 0) by (nonlinear_arith)
                requires
                    n >= 0,
                    size > 0,
            ;
            assert(rest@ =~= all.subrange(n * size, all.len() as int));
        }
        groups.push(rest);
    }
    proof {
        let size_n = size as nat;
        let want = chunks_of(all, size_n);
        let got = contents(groups@);
        lemma_group_count(all.len(), size_n);
        let c = group_count(all.len(), size_n) as int;
        assert(n * size >= 0) by (nonlinear_arith)
            requires
                n >= 0,
                size > 0,
        ;
        assert((n + 1) * size == n * size + size) by (nonlinear_arith);
        // the number of groups built is the number the partition has
        if all.len() == n * size {
            assert(n == 0 <==> all.len() == 0) by (nonlinear_arith)
                requires
                    all.len() == n * size,
                    size > 0,
                    n >= 0,
            ;
            assert(c == n) by (nonlinear_arith)
                requires
                    c * size >= n * size,
                    n > 0 ==> (c - 1) * size < n * size,
                    n == 0 <==> c == 0,
                    size > 0,
                    n >= 0,
                    c >= 0,
            ;
        } else {
            assert(c == n + 1) by (nonlinear_arith)
                requires
                    c * size >= all.len(),
                    (c - 1) * size < all.len(),
                    n * size < all.len() <= n * size + size,
                    size > 0,
                    n >= 0,
                    c >= 0,
            ;
        }
        assert(got.len() == want.len());
        assert forall|j: int| 0 <= j < got.len() implies got[j] == want[j] by {
            lemma_group_bounds(all.len(), size_n, j);
            assert(got[j] == groups@[j]@);
        }
        assert(got =~= want);
    }
    groups
}

} // verus!
