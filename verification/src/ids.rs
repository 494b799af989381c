//! Identifiers: 32-byte words and references to transaction outputs.

use vstd::prelude::*;

verus! {

/// A 32-byte word: a transaction id, an address, an asset id or a root.
#[derive(Clone, Copy, Debug, Eq)]
pub struct Bytes32 {
    pub bytes: [u8; 32],
}

/// The content-derived identifier of a transaction.
pub type TxId = Bytes32;

/// The owner of a coin.
pub type Address = Bytes32;

/// The asset a coin is denominated in.
pub type AssetId = Bytes32;

/// The identifier of a deployed contract.
pub type ContractId = Bytes32;

/// Byte-wise comparison of two 32-byte arrays.
pub fn same_bytes(a: &[u8; 32], b: &[u8; 32]) -> (r: bool)
    ensures
        r == (*a == *b),
{
    let mut i: usize = 0;
    while i < 32
        invariant
            i <= 32,
            forall|j: int| 0 <= j < i ==> a[j] == b[j],
        decreases 32 - i,
    {
        if a[i] != b[i] {
            return false;
        }
        i += 1;
    }
    assert(*a =~= *b);
    true
}

impl Bytes32 {
    /// The word made of the given bytes.
    pub fn new(bytes: [u8; 32]) -> (r: Bytes32)
        ensures
            r.bytes == bytes,
    {
        Bytes32 { bytes }
    }

    /// The word whose bytes are all zero.
    pub open spec fn zero() -> Bytes32 {
        Bytes32 { bytes: vstd::array::spec_array_fill_for_copy_type::<u8, 32>(0u8) }
    }

    /// The word whose bytes are all zero.
    pub fn zeroed() -> (r: Bytes32)
        ensures
            r == Bytes32::zero(),
            forall|i: int| 0 <= i < 32 ==> r.bytes[i] == 0u8,
    {
        Bytes32 { bytes: [0u8; 32] }
    }
}

impl PartialEq for Bytes32 {
    fn eq(&self, other: &Bytes32) -> (r: bool) {
        same_bytes(&self.bytes, &other.bytes)
    }
}

impl vstd::std_specs::cmp::PartialEqSpecImpl for Bytes32 {
    open spec fn obeys_eq_spec() -> bool {
        true
    }

    open spec fn eq_spec(&self, other: &Bytes32) -> bool {
        *self == *other
    }
}

/// A reference to one output of a transaction: the unit a later
/// transaction consumes as an input.
#[derive(Clone, Copy, Debug, Eq)]
pub struct UtxoRef {
    /// The transaction that produced the output.
    pub tx_id: TxId,
    /// The position of the output among that transaction's outputs.
    pub output_index: u64,
}

impl UtxoRef {
    /// The reference to output `output_index` of transaction `tx_id`.
    pub fn new(tx_id: TxId, output_index: u64) -> (r: UtxoRef)
        ensures
            r.tx_id == tx_id,
            r.output_index == output_index,
    {
        UtxoRef { tx_id, output_index }
    }
}

impl PartialEq for UtxoRef {
    fn eq(&self, other: &UtxoRef) -> (r: bool) {
        self.output_index == other.output_index && self.tx_id == other.tx_id
    }
}

impl vstd::std_specs::cmp::PartialEqSpecImpl for UtxoRef {
    open spec fn obeys_eq_spec() -> bool {
        true
    }

    open spec fn eq_spec(&self, other: &UtxoRef) -> bool {
        *self == *other
    }
}

} // verus!
