//! The registry of a pool's open lookup tables: a byte string of records,
//! each the 32 bytes of a table address followed by a line feed.
//!
//! Records are only ever appended. A read takes the records one after the
//! other; where the bytes are no record it goes on behind the next line feed,
//! so that damage in one place does not hide the records that follow.

use crate::address::Address;
use crate::ledger::{address_text, address_text_of};
use vstd::prelude::*;
use vstd::string::StringExecFns;

verus! {

/// The byte that ends a record.
pub const RECORD_END: u8 = 10;

/// The record of one table address.
pub open spec fn record_of(table: Address) -> Seq<u8> {
    table@.push(RECORD_END)
}

/// The registry that holds `tables`, in the order in which they were appended.
pub open spec fn encoding(tables: Seq<Address>) -> Seq<u8>
    decreases tables.len(),
{
    if tables.len() == 0 {
        Seq::empty()
    } else {
        encoding(tables.drop_last()) + record_of(tables.last())
    }
}

/// A record stands at index `i`: 32 bytes and then the record end.
pub open spec fn record_at(bytes: Seq<u8>, i: int) -> bool {
    0 <= i && i + 32 < bytes.len() && bytes[i + 32] == RECORD_END
}

/// The records that a read finds from index `i` on. Where a record may begin
/// a record is taken if one stands there; what is no record is passed over,
/// up to and with the next record end, and `skipping` says that the read is
/// in the middle of that.
pub open spec fn scan(bytes: Seq<u8>, i: int, skipping: bool) -> Seq<Seq<u8>>
    decreases bytes.len() - i,
{
    if i < 0 || i >= bytes.len() {
        Seq::empty()
    } else if !skipping && record_at(bytes, i) {
        seq![bytes.subrange(i, i + 32)] + scan(bytes, i + 33, false)
    } else if bytes[i] == RECORD_END {
        scan(bytes, i + 1, false)
    } else {
        scan(bytes, i + 1, true)
    }
}

/// How many pieces a read passes over from index `i` on.
pub open spec fn passed_over(bytes: Seq<u8>, i: int, skipping: bool) -> nat
    decreases bytes.len() - i,
{
    if i < 0 || i >= bytes.len() {
        0
    } else if !skipping && record_at(bytes, i) {
        passed_over(bytes, i + 33, false)
    } else {
        let begun: nat = if skipping {
            0
        } else {
            1
        };
        begun + if bytes[i] == RECORD_END {
            passed_over(bytes, i + 1, false)
        } else {
            passed_over(bytes, i + 1, true)
        }
    }
}

/// The table addresses on record, as bytes, in the order of the registry.
pub open spec fn records(bytes: Seq<u8>) -> Seq<Seq<u8>> {
    scan(bytes, 0, false)
}

/// How many pieces of the registry are no records: each run of bytes that
/// stands where a record may begin and is none.
pub open spec fn malformed(bytes: Seq<u8>) -> nat {
    passed_over(bytes, 0, false)
}

/// The bytes of each address.
pub open spec fn byte_views(tables: Seq<Address>) -> Seq<Seq<u8>> {
    tables.map_values(|a: Address| a@)
}

/// No byte of the string is the record end.
pub open spec fn free_of_record_end(line: Seq<u8>) -> bool {
    forall|i: int| 0 <= i < line.len() ==> line[i] != RECORD_END
}

/// What a read of the registry found.
#[derive(Debug)]
pub struct RegistryScan {
    /// The tables on record, in the order in which they were appended.
    pub tables: Vec<Address>,
    /// How many pieces of the registry were passed over as malformed.
    pub malformed: usize,
}

/// Where the registry of a pool is kept: below `root`, under the pool's
/// address as text.
pub open spec fn path_of(root: Seq<char>, pool: Address) -> Seq<char> {
    root + seq!['/'] + address_text_of(pool)
}

/// Where the registry of a pool is kept.
pub fn registry_path(root: &str, pool: &Address) -> (path: String)
    ensures
        path@ == path_of(root@, *pool),
{
    let mut path = String::from_str(root);
    proof {
        reveal_strlit("/");
        assert("/"@ =~= seq!['/']);
    }
    path.append("/");
    let name = address_text(pool);
    path.append(name.as_str());
    path
}

/// The record to append for a newly created table.
pub fn encode_record(table: &Address) -> (out: Vec<u8>)
    ensures
        out@ == record_of(*table),
{
    let mut out = table.to_vec();
    out.push(RECORD_END);
    out
}

/// The registry that holds `tables` and nothing else.
pub fn encode_records(tables: &Vec<Address>) -> (out: Vec<u8>)
    ensures
        out@ == encoding(tables@),
{
    let mut out: Vec<u8> = Vec::new();
    let mut i: usize = 0;
    while i < tables.len()
        invariant
            i <= tables.len(),
            out@ == encoding(tables@.take(i as int)),
        decreases tables.len() - i,
    {
        let mut record = encode_record(&tables[i]);
        proof {
            let next = tables@.take(i + 1);
            assert(next.drop_last() =~= tables@.take(i as int));
            assert(next.last() == tables@[i as int]);
        }
        out.append(&mut record);
        i += 1;
    }
    assert(tables@.take(tables.len() as int) =~= tables@);
    out
}

/// Reads the registry: every record, in order, and the number of pieces that
/// were passed over as malformed.
pub fn decode_records(bytes: &[u8]) -> (found: RegistryScan)
    ensures
        byte_views(found.tables@) == records(bytes@),
        found.malformed == malformed(bytes@),
{
    let mut tables: Vec<Address> = Vec::new();
    let mut count: usize = 0;
    let mut i: usize = 0;
    let mut skipping = false;
    let n = bytes.len();
    assert(byte_views(tables@) + scan(bytes@, 0, false) =~= records(bytes@));
    while i < n
        invariant
            i <= n,
            n == bytes@.len(),
            byte_views(tables@) + scan(bytes@, i as int, skipping) == records(bytes@),
            count + passed_over(bytes@, i as int, skipping) == malformed(bytes@),
            count <= i,
        decreases n - i,
    {
        if !skipping && n - i > 32 && bytes[i + 32] == RECORD_END {
            let table = Address::at(bytes, i);
            proof {
                let record = bytes@.subrange(i as int, i + 32);
                assert(byte_views(tables@.push(table)) =~= byte_views(tables@).push(record));
                assert(byte_views(tables@) + (seq![record] + scan(bytes@, i + 33, false))
                    =~= byte_views(tables@).push(record) + scan(bytes@, i + 33, false));
            }
            tables.push(table);
            i = i + 33;
        } else {
            if !skipping {
                count += 1;
            }
            skipping = bytes[i] != RECORD_END;
            i += 1;
        }
    }
    assert(byte_views(tables@) + Seq::<Seq<u8>>::empty() =~= byte_views(tables@));
    RegistryScan { tables, malformed: count }
}

/// A read that starts further on in a longer registry finds the same.
proof fn lemma_scan_shifts(head: Seq<u8>, rest: Seq<u8>, i: int, skipping: bool)
    requires
        0 <= i,
    ensures
        scan(head + rest, head.len() + i, skipping) == scan(rest, i, skipping),
        passed_over(head + rest, head.len() + i, skipping) == passed_over(rest, i, skipping),
    decreases rest.len() - i,
{
    let whole = head + rest;
    if i < rest.len() {
        assert(whole[head.len() + i] == rest[i]);
        if i + 32 < rest.len() {
            assert(whole[head.len() + i + 32] == rest[i + 32]);
        }
        if !skipping && record_at(rest, i) {
            lemma_scan_shifts(head, rest, i + 33, false);
            assert(whole.subrange(head.len() + i, head.len() + i + 32) =~= rest.subrange(
                i,
                i + 32,
            ));
        } else if rest[i] == RECORD_END {
            lemma_scan_shifts(head, rest, i + 1, false);
        } else {
            lemma_scan_shifts(head, rest, i + 1, true);
        }
    }
}

/// The registry of some tables begins with the record of the first.
proof fn lemma_encoding_begins(tables: Seq<Address>)
    requires
        tables.len() > 0,
    ensures
        encoding(tables) == record_of(tables.first()) + encoding(tables.drop_first()),
    decreases tables.len(),
{
    if tables.len() == 1 {
        assert(tables.drop_last() =~= Seq::<Address>::empty());
        assert(tables.drop_first() =~= Seq::<Address>::empty());
        assert(encoding(tables) =~= record_of(tables.first()) + encoding(tables.drop_first()));
    } else {
        let before = tables.drop_last();
        lemma_encoding_begins(before);
        assert(before.first() == tables.first());
        assert(before.drop_first() =~= tables.drop_first().drop_last());
        assert(tables.drop_first().last() == tables.last());
        assert(encoding(tables) =~= record_of(tables.first()) + encoding(tables.drop_first()));
    }
}

/// What stands before the bytes that follow the records of some tables is
/// read as those tables, and the rest as if it stood alone.
pub proof fn lemma_records_then_rest(tables: Seq<Address>, rest: Seq<u8>)
    ensures
        records(encoding(tables) + rest) == byte_views(tables) + records(rest),
        malformed(encoding(tables) + rest) == malformed(rest),
    decreases tables.len(),
{
    if tables.len() == 0 {
        assert(encoding(tables) + rest =~= rest);
        assert(byte_views(tables) + records(rest) =~= records(rest));
    } else {
        let first = tables.first();
        let later = tables.drop_first();
        let head = record_of(first);
        let tail = encoding(later) + rest;
        crate::address::lemma_address_by_bytes(first, first);
        lemma_encoding_begins(tables);
        let whole = encoding(tables) + rest;
        assert(whole =~= head + tail);
        assert(whole[32] == RECORD_END);
        assert(whole.subrange(0, 32) =~= first@);
        lemma_scan_shifts(head, tail, 0, false);
        lemma_records_then_rest(later, rest);
        assert(byte_views(tables) =~= seq![first@] + byte_views(later));
        assert(seq![first@] + (byte_views(later) + records(rest)) =~= (seq![first@] + byte_views(
            later,
        )) + records(rest));
    }
}

/// Passing over bytes that hold no record end leads to what follows the
/// record end that closes them.
proof fn lemma_scan_passes_over(line: Seq<u8>, rest: Seq<u8>, i: int)
    requires
        free_of_record_end(line),
        0 <= i <= line.len(),
    ensures
        scan(line.push(RECORD_END) + rest, i, true) == records(rest),
        passed_over(line.push(RECORD_END) + rest, i, true) == malformed(rest),
    decreases line.len() - i,
{
    let head = line.push(RECORD_END);
    let whole = head + rest;
    if i < line.len() {
        assert(whole[i] == line[i]);
        lemma_scan_passes_over(line, rest, i + 1);
    } else {
        assert(whole[i] == RECORD_END);
        lemma_scan_shifts(head, rest, 0, false);
    }
}

/// A registry written by appends alone has 33 bytes for each table.
pub proof fn lemma_encoding_len(tables: Seq<Address>)
    ensures
        encoding(tables).len() == 33 * tables.len(),
    decreases tables.len(),
{
    if tables.len() > 0 {
        lemma_encoding_len(tables.drop_last());
        crate::address::lemma_address_by_bytes(tables.last(), tables.last());
    }
}

/// Writing tables and reading them back gives the same tables in the order
/// in which they were written, and nothing is passed over.
pub proof fn lemma_round_trip(tables: Seq<Address>)
    ensures
        records(encoding(tables)) == byte_views(tables),
        malformed(encoding(tables)) == 0,
{
    let none = Seq::<u8>::empty();
    lemma_records_then_rest(tables, none);
    assert(encoding(tables) + none =~= encoding(tables));
    assert(byte_views(tables) + records(none) =~= byte_views(tables));
}

/// Appending a table's record to a registry written by appends alone adds
/// that table to what a read finds, after all that it found before.
pub proof fn lemma_append_adds_record(tables: Seq<Address>, table: Address)
    ensures
        encoding(tables.push(table)) == encoding(tables) + record_of(table),
        records(encoding(tables) + record_of(table)) == records(encoding(tables)).push(table@),
{
    let more = tables.push(table);
    assert(more.drop_last() =~= tables);
    lemma_round_trip(tables);
    lemma_round_trip(more);
    assert(byte_views(more) =~= byte_views(tables).push(table@));
}

/// A piece of the wrong length is passed over and nothing else is lost. Let
/// `line` hold no record end and not have the length of a record, and let it
/// stand, closed by a record end, between the records of some tables and
/// whatever follows. Then a read finds those tables and what it would find
/// in what follows, and counts the piece once; provided that the byte 32
/// places after the beginning of the piece is no record end, which cannot be
/// if the piece is longer than a record.
pub proof fn lemma_malformed_piece_is_passed_over(
    tables: Seq<Address>,
    line: Seq<u8>,
    rest: Seq<u8>,
)
    requires
        free_of_record_end(line),
        line.len() != 32,
        !record_at(line.push(RECORD_END) + rest, 0),
    ensures
        records(encoding(tables) + (line.push(RECORD_END) + rest)) == byte_views(tables) + records(
            rest,
        ),
        malformed(encoding(tables) + (line.push(RECORD_END) + rest)) == 1 + malformed(rest),
{
    let piece = line.push(RECORD_END);
    let tail = piece + rest;
    lemma_records_then_rest(tables, tail);
    if line.len() == 0 {
        assert(tail[0] == RECORD_END);
        lemma_scan_shifts(piece, rest, 0, false);
    } else {
        assert(tail[0] == line[0]);
        lemma_scan_passes_over(line, rest, 1);
    }
}

/// A piece that is longer than a record and holds no record end is no record.
pub proof fn lemma_long_piece_is_no_record(line: Seq<u8>, rest: Seq<u8>)
    requires
        free_of_record_end(line),
        line.len() > 32,
    ensures
        !record_at(line.push(RECORD_END) + rest, 0),
{
    assert((line.push(RECORD_END) + rest)[32] == line[32]);
}

/// A piece that is shorter than a record is no record where the table that
/// follows it holds no record end among its bytes.
pub proof fn lemma_short_piece_is_no_record(line: Seq<u8>, next: Address, rest: Seq<u8>)
    requires
        line.len() < 32,
        free_of_record_end(next@),
    ensures
        !record_at(line.push(RECORD_END) + (record_of(next) + rest), 0),
{
    crate::address::lemma_address_by_bytes(next, next);
    let whole = line.push(RECORD_END) + (record_of(next) + rest);
    assert(whole[32] == next@[31 - line.len()]);
}

} // verus!
