//! Ledger addresses as plain 32-byte values.

use crate::error::Error;
use vstd::prelude::*;
use vstd::std_specs::cmp::PartialEqSpecImpl;

verus! {

/// A ledger address: exactly 32 bytes, compared byte by byte.
#[derive(Clone, Copy, Debug, Hash)]
pub struct Address {
    pub bytes: [u8; 32],
}

impl View for Address {
    type V = Seq<u8>;

    open spec fn view(&self) -> Seq<u8> {
        self.bytes@
    }
}

impl PartialEq for Address {
    fn eq(&self, other: &Address) -> (r: bool) {
        let mut i: usize = 0;
        while i < 32
            invariant
                i <= 32,
                forall|j: int| 0 <= j < i ==> self.bytes[j] == other.bytes[j],
            decreases 32 - i,
        {
            if self.bytes[i] != other.bytes[i] {
                return false;
            }
            i += 1;
        }
        assert(self.bytes =~= other.bytes);
        true
    }
}

impl Eq for Address {

}

impl PartialEqSpecImpl for Address {
    open spec fn obeys_eq_spec() -> bool {
        true
    }

    open spec fn eq_spec(&self, other: &Address) -> bool {
        *self == *other
    }
}

/// Two addresses are the same value exactly when they hold the same bytes.
pub proof fn lemma_address_by_bytes(a: Address, b: Address)
    ensures
        a@.len() == 32,
        (a == b) <==> (a@ == b@),
{
    if a@ == b@ {
        assert forall|i: int| 0 <= i < 32 implies a.bytes[i] == b.bytes[i] by {
            assert(a@[i] == b@[i]);
        }
        assert(a.bytes =~= b.bytes);
    }
}

impl Address {
    /// The canonical default address: thirty-two zero bytes.
    pub open spec fn zero() -> Address {
        Address { bytes: vstd::array::spec_array_fill_for_copy_type::<u8, 32>(0u8) }
    }

    /// The canonical default address.
    pub fn default_address() -> (a: Address)
        ensures
            a == Address::zero(),
            a@ == Seq::new(32, |i: int| 0u8),
    {
        let a = Address { bytes: [0u8; 32] };
        assert(a@ =~= Seq::new(32, |i: int| 0u8));
        a
    }

    /// The address that stands in a byte string from index `from` on.
    pub fn at(bytes: &[u8], from: usize) -> (a: Address)
        requires
            from + 32 <= bytes@.len(),
        ensures
            a@ == bytes@.subrange(from as int, from + 32),
    {
        let n = bytes.len();
        let mut out = [0u8; 32];
        let mut i: usize = 0;
        while i < 32
            invariant
                i <= 32,
                n == bytes@.len(),
                from + 32 <= n,
                forall|j: int| 0 <= j < i ==> out[j] == bytes[from + j],
            decreases 32 - i,
        {
            out[i] = bytes[from + i];
            i += 1;
        }
        let a = Address { bytes: out };
        assert(a@ =~= bytes@.subrange(from as int, from + 32));
        a
    }

    /// Reads an address from a byte string, which must be exactly 32 bytes long.
    pub fn from_slice(bytes: &[u8]) -> (r: Result<Address, Error>)
        ensures
            bytes@.len() == 32 ==> r.is_ok() && r.unwrap()@ == bytes@,
            bytes@.len() != 32 ==> r == Err::<Address, Error>(Error::InvalidPubkeyBytes),
    {
        if bytes.len() != 32 {
            return Err(Error::InvalidPubkeyBytes);
        }
        let a = Address::at(bytes, 0);
        assert(bytes@.subrange(0, 32) =~= bytes@);
        Ok(a)
    }

    /// The address as a byte vector.
    pub fn to_vec(&self) -> (v: Vec<u8>)
        ensures
            v@ == self@,
    {
        let mut v: Vec<u8> = Vec::new();
        let mut i: usize = 0;
        while i < 32
            invariant
                i <= 32,
                v@.len() == i,
                forall|j: int| 0 <= j < i ==> v@[j] == self.bytes[j],
            decreases 32 - i,
        {
            v.push(self.bytes[i]);
            i += 1;
        }
        assert(v@ =~= self@);
        v
    }
}

/// A copy of a list of addresses.
pub fn copy_addresses(list: &Vec<Address>) -> (out: Vec<Address>)
    ensures
        out@ == list@,
{
    let mut out: Vec<Address> = Vec::new();
    let mut i: usize = 0;
    while i < list.len()
        invariant
            i <= list.len(),
            out@ == list@.take(i as int),
        decreases list.len() - i,
    {
        assert(list@.take(i + 1) =~= list@.take(i as int).push(list@[i as int]));
        out.push(list[i]);
        i += 1;
    }
    assert(list@.take(list.len() as int) =~= list@);
    out
}

} // verus!
