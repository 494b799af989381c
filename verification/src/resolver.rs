//! The UTXO reference resolver: what a transaction consumes and creates,
//! and which pending transactions a candidate collides with.

use vstd::prelude::*;
use crate::ids::{TxId, UtxoRef};
use crate::transaction::{PooledView, Transaction, TransactionView};

verus! {

/// Whether two input lists name a common output.
pub open spec fn overlap(a: Seq<UtxoRef>, b: Seq<UtxoRef>) -> bool {
    exists|i: int, j: int| 0 <= i < a.len() && 0 <= j < b.len() && #[trigger] a[i] == #[trigger] b[j]
}

/// The outputs a transaction consumes.
pub open spec fn consumed(tx: TransactionView) -> Set<UtxoRef> {
    tx.inputs.to_set()
}

/// The outputs a transaction creates: one reference per output, in order.
pub open spec fn created(tx: TransactionView) -> Seq<UtxoRef> {
    Seq::new(tx.outputs.len(), |i: int| UtxoRef { tx_id: tx.id, output_index: i as u64 })
}

/// The ids of the entries that consume an output named in `inputs`, in the
/// order of the entries.
pub open spec fn conflict_ids(entries: Seq<PooledView>, inputs: Seq<UtxoRef>) -> Seq<TxId>
    decreases entries.len(),
{
    if entries.len() == 0 {
        Seq::empty()
    } else {
        let rest = conflict_ids(entries.drop_last(), inputs);
        if overlap(entries.last().tx.inputs, inputs) {
            rest.push(entries.last().tx.id)
        } else {
            rest
        }
    }
}

/// Whether `utxo` is one of the first `k` of `inputs`.
pub open spec fn among(inputs: Seq<UtxoRef>, k: int, utxo: UtxoRef) -> bool {
    exists|t: int| 0 <= t < k && #[trigger] inputs[t] == utxo
}

/// The first `k + 1` inputs are the first `k` and the one after them.
pub proof fn lemma_among_next(inputs: Seq<UtxoRef>, k: int, utxo: UtxoRef)
    requires
        0 <= k < inputs.len(),
    ensures
        among(inputs, k + 1, utxo) == (among(inputs, k, utxo) || inputs[k] == utxo),
{
    if among(inputs, k + 1, utxo) {
        let t = choose|t: int| 0 <= t < k + 1 && #[trigger] inputs[t] == utxo;
        if t < k {
            assert(among(inputs, k, utxo));
        }
    }
    if among(inputs, k, utxo) {
        let t = choose|t: int| 0 <= t < k && #[trigger] inputs[t] == utxo;
        assert(among(inputs, k + 1, utxo));
    }
    if inputs[k] == utxo {
        assert(among(inputs, k + 1, utxo));
    }
}

/// Whether the transaction consumes `utxo`.
pub fn consumes(tx: &Transaction, utxo: &UtxoRef) -> (r: bool)
    ensures
        r == consumed(tx@).contains(*utxo),
{
    let mut i: usize = 0;
    while i < tx.inputs.len()
        invariant
            i <= tx.inputs@.len(),
            forall|j: int| 0 <= j < i ==> tx.inputs@[j] != *utxo,
        decreases tx.inputs@.len() - i,
    {
        if tx.inputs[i] == *utxo {
            assert(tx@.inputs.contains(*utxo));
            return true;
        }
        i += 1;
    }
    false
}

/// The outputs the transaction creates: one reference per output, in order.
pub fn created_outputs(tx: &Transaction) -> (r: Vec<UtxoRef>)
    ensures
        r@ == created(tx@),
{
    let mut out: Vec<UtxoRef> = Vec::new();
    let mut i: usize = 0;
    while i < tx.outputs.len()
        invariant
            i <= tx.outputs@.len(),
            out@.len() == i,
            forall|j: int| 0 <= j < i ==> out@[j] == (UtxoRef { tx_id: tx.id, output_index: j as u64 }),
        decreases tx.outputs@.len() - i,
    {
        out.push(UtxoRef::new(tx.id, i as u64));
        i += 1;
    }
    assert(out@ =~= created(tx@));
    out
}

/// Whether two input lists name a common output.
pub fn shares_input(a: &Vec<UtxoRef>, b: &Vec<UtxoRef>) -> (r: bool)
    ensures
        r == overlap(a@, b@),
{
    let mut i: usize = 0;
    while i < a.len()
        invariant
            i <= a@.len(),
            forall|s: int, t: int| 0 <= s < i && 0 <= t < b@.len() ==> #[trigger] a@[s] != #[trigger] b@[t],
        decreases a@.len() - i,
    {
        let mut j: usize = 0;
        while j < b.len()
            invariant
                i < a@.len(),
                j <= b@.len(),
                forall|t: int| 0 <= t < j ==> a@[i as int] != #[trigger] b@[t],
            decreases b@.len() - j,
        {
            if a[i] == b[j] {
                return true;
            }
            j += 1;
        }
        i += 1;
    }
    false
}

/// Overlap does not depend on the order of its arguments.
pub proof fn lemma_overlap_symmetric(a: Seq<UtxoRef>, b: Seq<UtxoRef>)
    ensures
        overlap(a, b) == overlap(b, a),
{
    if overlap(a, b) {
        let (i, j) = choose|i: int, j: int| 0 <= i < a.len() && 0 <= j < b.len() && #[trigger] a[i] == #[trigger] b[j];
        assert(b[j] == a[i]);
    }
    if overlap(b, a) {
        let (i, j) = choose|i: int, j: int| 0 <= i < b.len() && 0 <= j < a.len() && #[trigger] b[i] == #[trigger] a[j];
        assert(a[j] == b[i]);
    }
}

/// The conflict list is empty exactly when no entry overlaps the inputs.
pub proof fn lemma_conflict_free(entries: Seq<PooledView>, inputs: Seq<UtxoRef>)
    ensures
        conflict_ids(entries, inputs).len() == 0 <==> (forall|i: int|
            0 <= i < entries.len() ==> !overlap((#[trigger] entries[i]).tx.inputs, inputs)),
        conflict_ids(entries, inputs).len() <= entries.len(),
    decreases entries.len(),
{
    if entries.len() > 0 {
        let front = entries.drop_last();
        lemma_conflict_free(front, inputs);
        if conflict_ids(entries, inputs).len() == 0 {
            assert forall|i: int| 0 <= i < entries.len() implies !overlap((#[trigger] entries[i]).tx.inputs, inputs) by {
                if i < front.len() {
                    assert(front[i] == entries[i]);
                }
            }
        } else if !overlap(entries.last().tx.inputs, inputs) {
            let i = choose|i: int| 0 <= i < front.len() && overlap((#[trigger] front[i]).tx.inputs, inputs);
            assert(front[i] == entries[i]);
        } else {
            assert(entries[entries.len() - 1] == entries.last());
        }
    }
}

} // verus!
