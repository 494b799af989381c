//! The conflict index: which pending transaction consumes which output.
//!
//! Claims are kept in hash buckets, so that a lookup reads one bucket
//! rather than the whole pending set.

use vstd::prelude::*;
use std::collections::HashMap;
use crate::ids::{TxId, UtxoRef};

verus! {

broadcast use vstd::std_specs::hash::group_hash_axioms;

/// One entry of the index: `holder` consumes `utxo`.
#[derive(Clone, Copy, Debug)]
struct Claim {
    utxo: UtxoRef,
    holder: TxId,
}

/// Whether some claim names `utxo`.
spec fn held(claims: Seq<Claim>, utxo: UtxoRef) -> bool {
    exists|i: int| 0 <= i < claims.len() && (#[trigger] claims[i]).utxo == utxo
}

/// The position of a claim that names `utxo`.
spec fn slot(claims: Seq<Claim>, utxo: UtxoRef) -> int {
    choose|i: int| 0 <= i < claims.len() && (#[trigger] claims[i]).utxo == utxo
}

/// No two claims name the same output.
spec fn distinct(claims: Seq<Claim>) -> bool {
    forall|i: int, j: int|
        0 <= i < j < claims.len() ==> (#[trigger] claims[i]).utxo != (#[trigger] claims[j]).utxo
}

/// The mapping that a list of claims stands for.
spec fn mapping(claims: Seq<Claim>) -> Map<UtxoRef, TxId> {
    Map::new(|u: UtxoRef| held(claims, u), |u: UtxoRef| claims[slot(claims, u)].holder)
}

/// The bucket that the claims on an output are kept in: the first eight
/// bytes of the transaction id, mixed with the output index.
spec fn bucket_of(utxo: UtxoRef) -> u64 {
    let b = utxo.tx_id.bytes;
    ((b[0] as u64) | ((b[1] as u64) << 8) | ((b[2] as u64) << 16) | ((b[3] as u64) << 24) | ((b[4] as u64) << 32) | ((b[5] as u64)
        << 40) | ((b[6] as u64) << 48) | ((b[7] as u64) << 56)) ^ utxo.output_index
}

/// Every claim belongs in bucket `k`.
spec fn within(claims: Seq<Claim>, k: u64) -> bool {
    forall|i: int| 0 <= i < claims.len() ==> bucket_of((#[trigger] claims[i]).utxo) == k
}

/// Among distinct claims, the claim at `i` is the one found for its output.
proof fn lemma_slot(claims: Seq<Claim>, i: int)
    requires
        distinct(claims),
        0 <= i < claims.len(),
    ensures
        held(claims, claims[i].utxo),
        slot(claims, claims[i].utxo) == i,
        mapping(claims).contains_key(claims[i].utxo),
        mapping(claims)[claims[i].utxo] == claims[i].holder,
{
    let u = claims[i].utxo;
    let k = slot(claims, u);
    assert(claims[k].utxo == u);
    if k < i {
        assert(claims[k].utxo != claims[i].utxo);
    } else if i < k {
        assert(claims[i].utxo != claims[k].utxo);
    }
}

/// The bucket of an output.
fn bucket(utxo: &UtxoRef) -> (r: u64)
    ensures
        r == bucket_of(*utxo),
{
    let b = &utxo.tx_id.bytes;
    ((b[0] as u64) | ((b[1] as u64) << 8) | ((b[2] as u64) << 16) | ((b[3] as u64) << 24) | ((b[4] as u64) << 32) | ((b[5] as u64)
        << 40) | ((b[6] as u64) << 48) | ((b[7] as u64) << 56)) ^ utxo.output_index
}

/// The position of the claim on `utxo`, if there is one.
fn find_claim(claims: &Vec<Claim>, utxo: &UtxoRef) -> (r: Option<usize>)
    ensures
        match r {
            Some(i) => i < claims@.len() && claims@[i as int].utxo == *utxo,
            None => !held(claims@, *utxo),
        },
{
    let mut i: usize = 0;
    while i < claims.len()
        invariant
            i <= claims@.len(),
            forall|j: int| 0 <= j < i ==> (#[trigger] claims@[j]).utxo != *utxo,
        decreases claims@.len() - i,
    {
        if claims[i].utxo == *utxo {
            return Some(i);
        }
        i += 1;
    }
    None
}

/// Records in one bucket that `holder` consumes `utxo`.
fn put_claim(claims: &mut Vec<Claim>, utxo: UtxoRef, holder: TxId)
    requires
        distinct(old(claims)@),
        within(old(claims)@, bucket_of(utxo)),
    ensures
        distinct(final(claims)@),
        within(final(claims)@, bucket_of(utxo)),
        mapping(final(claims)@) == mapping(old(claims)@).insert(utxo, holder),
{
    let ghost before = claims@;
    match find_claim(claims, &utxo) {
        Some(i) => {
            claims[i] = Claim { utxo, holder };
            proof {
                let after = claims@;
                assert(distinct(after));
                assert forall|w: UtxoRef| held(after, w) == (held(before, w) || w == utxo) by {
                    if held(before, w) {
                        let k = slot(before, w);
                        assert(after[k].utxo == w);
                    }
                    if held(after, w) {
                        let k = slot(after, w);
                        assert(before[k].utxo == w);
                    }
                    assert(after[i as int].utxo == utxo);
                }
                assert forall|w: UtxoRef| held(after, w) implies mapping(after)[w] == (if w == utxo {
                    holder
                } else {
                    mapping(before)[w]
                }) by {
                    let k = slot(after, w);
                    lemma_slot(after, k);
                    lemma_slot(before, k);
                }
                assert(mapping(after) =~= mapping(before).insert(utxo, holder));
                assert forall|j: int| 0 <= j < after.len() implies bucket_of((#[trigger] after[j]).utxo) == bucket_of(utxo) by {
                    assert(after[j].utxo == before[j].utxo);
                }
            }
        },
        None => {
            claims.push(Claim { utxo, holder });
            proof {
                let after = claims@;
                let n = before.len() as int;
                assert(distinct(after)) by {
                    assert forall|a: int, b: int| 0 <= a < b < after.len() implies (#[trigger] after[a]).utxo != (#[trigger] after[b]).utxo by {
                        if b < n {
                            assert(before[a].utxo != before[b].utxo);
                        } else {
                            assert(before[a].utxo != utxo);
                        }
                    }
                }
                assert forall|w: UtxoRef| held(after, w) == (held(before, w) || w == utxo) by {
                    if held(before, w) {
                        let k = slot(before, w);
                        assert(after[k].utxo == w);
                    }
                    if held(after, w) {
                        let k = slot(after, w);
                        if k < n {
                            assert(before[k].utxo == w);
                        }
                    }
                    assert(after[n].utxo == utxo);
                }
                assert forall|w: UtxoRef| held(after, w) implies mapping(after)[w] == (if w == utxo {
                    holder
                } else {
                    mapping(before)[w]
                }) by {
                    let k = slot(after, w);
                    lemma_slot(after, k);
                    if k < n {
                        lemma_slot(before, k);
                    }
                }
                assert(mapping(after) =~= mapping(before).insert(utxo, holder));
                assert forall|j: int| 0 <= j < after.len() implies bucket_of((#[trigger] after[j]).utxo) == bucket_of(utxo) by {
                    if j < n {
                        assert(after[j].utxo == before[j].utxo);
                    }
                }
            }
        },
    }
}

/// Forgets in one bucket who consumes `utxo`.
fn drop_claim(claims: &mut Vec<Claim>, utxo: &UtxoRef)
    requires
        distinct(old(claims)@),
        within(old(claims)@, bucket_of(*utxo)),
    ensures
        distinct(final(claims)@),
        within(final(claims)@, bucket_of(*utxo)),
        mapping(final(claims)@) == mapping(old(claims)@).remove(*utxo),
{
    let ghost before = claims@;
    match find_claim(claims, utxo) {
        Some(i) => {
            claims.remove(i);
            proof {
                let after = claims@;
                assert(distinct(after)) by {
                    assert forall|a: int, b: int| 0 <= a < b < after.len() implies (#[trigger] after[a]).utxo != (#[trigger] after[b]).utxo by {
                        let a0 = if a < i { a } else { a + 1 };
                        let b0 = if b < i { b } else { b + 1 };
                        assert(before[a0].utxo != before[b0].utxo);
                    }
                }
                assert forall|w: UtxoRef| held(after, w) == (held(before, w) && w != *utxo) by {
                    if held(before, w) && w != *utxo {
                        let k = slot(before, w);
                        let k1 = if k < i { k } else { k - 1 };
                        assert(after[k1].utxo == w);
                    }
                    if held(after, w) {
                        let k = slot(after, w);
                        let k0 = if k < i { k } else { k + 1 };
                        assert(before[k0].utxo == w);
                        if k0 < i {
                            assert(before[k0].utxo != before[i as int].utxo);
                        } else {
                            assert(before[i as int].utxo != before[k0].utxo);
                        }
                    }
                }
                assert forall|w: UtxoRef| held(after, w) implies mapping(after)[w] == mapping(before)[w] by {
                    let k = slot(after, w);
                    let k0 = if k < i { k } else { k + 1 };
                    lemma_slot(after, k);
                    lemma_slot(before, k0);
                }
                assert(mapping(after) =~= mapping(before).remove(*utxo));
                assert forall|j: int| 0 <= j < after.len() implies bucket_of((#[trigger] after[j]).utxo) == bucket_of(*utxo) by {
                    let j0 = if j < i { j } else { j + 1 };
                    assert(after[j].utxo == before[j0].utxo);
                }
            }
        },
        None => {
            assert(mapping(before) =~= mapping(before).remove(*utxo));
        },
    }
}

/// The mapping that a set of buckets stands for.
spec fn combined(buckets: Map<u64, Vec<Claim>>) -> Map<UtxoRef, TxId> {
    Map::new(
        |u: UtxoRef| buckets.contains_key(bucket_of(u)) && held(buckets[bucket_of(u)]@, u),
        |u: UtxoRef| mapping(buckets[bucket_of(u)]@)[u],
    )
}

/// Every bucket holds distinct claims, all of which belong in it.
spec fn orderly(buckets: Map<u64, Vec<Claim>>) -> bool {
    forall|k: u64| #[trigger] buckets.contains_key(k) ==> distinct(buckets[k]@) && within(buckets[k]@, k)
}

/// A mapping from consumed outputs to the ids of the transactions that
/// consume them.
pub struct ConflictIndex {
    buckets: HashMap<u64, Vec<Claim>>,
}

impl View for ConflictIndex {
    type V = Map<UtxoRef, TxId>;

    closed spec fn view(&self) -> Map<UtxoRef, TxId> {
        combined(self.buckets@)
    }
}

impl ConflictIndex {
    /// The invariant of the index.
    pub closed spec fn wf(&self) -> bool {
        orderly(self.buckets@)
    }

    /// The empty index.
    pub fn new() -> (r: ConflictIndex)
        ensures
            r.wf(),
            r@ == Map::<UtxoRef, TxId>::empty(),
    {
        let r = ConflictIndex { buckets: HashMap::new() };
        assert(r@ =~= Map::<UtxoRef, TxId>::empty());
        r
    }

    /// The transaction that consumes `utxo`, if one does.
    pub fn lookup(&self, utxo: &UtxoRef) -> (r: Option<TxId>)
        requires
            self.wf(),
        ensures
            r == (if self@.contains_key(*utxo) {
                Some(self@[*utxo])
            } else {
                None
            }),
    {
        let k = bucket(utxo);
        match self.buckets.get(&k) {
            Some(claims) => match find_claim(claims, utxo) {
                Some(i) => {
                    proof {
                        lemma_slot(claims@, i as int);
                    }
                    Some(claims[i].holder)
                },
                None => None,
            },
            None => None,
        }
    }

    /// Records that `holder` consumes `utxo`.
    pub fn claim(&mut self, utxo: UtxoRef, holder: TxId)
        requires
            old(self).wf(),
        ensures
            final(self).wf(),
            final(self)@ == old(self)@.insert(utxo, holder),
    {
        let ghost before = self.buckets@;
        let k = bucket(&utxo);
        let mut claims = match self.buckets.remove(&k) {
            Some(claims) => claims,
            None => Vec::new(),
        };
        let ghost c0 = claims@;
        put_claim(&mut claims, utxo, holder);
        let ghost c1 = claims@;
        self.buckets.insert(k, claims);
        proof {
            let after = self.buckets@;
            assert(before.contains_key(k) ==> before[k]@ == c0);
            assert(!before.contains_key(k) ==> c0.len() == 0);
            assert forall|w: UtxoRef| #[trigger]
                combined(after).contains_key(w) == (combined(before).contains_key(w) || w == utxo) by {
                if bucket_of(w) == k {
                    assert(mapping(c1).contains_key(w) == (mapping(c0).contains_key(w) || w == utxo));
                } else {
                    assert(after.contains_key(bucket_of(w)) == before.contains_key(bucket_of(w)));
                }
            }
            assert forall|w: UtxoRef| combined(after).contains_key(w) implies #[trigger] combined(after)[w] == (if w
                == utxo {
                holder
            } else {
                combined(before)[w]
            }) by {
                if bucket_of(w) == k {
                    assert(mapping(c1)[w] == mapping(c0).insert(utxo, holder)[w]);
                }
            }
            assert(combined(after) =~= combined(before).insert(utxo, holder));
        }
    }

    /// Forgets who consumes `utxo`.
    pub fn release(&mut self, utxo: &UtxoRef)
        requires
            old(self).wf(),
        ensures
            final(self).wf(),
            final(self)@ == old(self)@.remove(*utxo),
    {
        let ghost before = self.buckets@;
        let k = bucket(utxo);
        match self.buckets.remove(&k) {
            Some(mut claims) => {
                let ghost c0 = claims@;
                drop_claim(&mut claims, utxo);
                let ghost c1 = claims@;
                if claims.len() > 0 {
                    self.buckets.insert(k, claims);
                }
                proof {
                    let after = self.buckets@;
                    assert forall|w: UtxoRef| #[trigger]
                        combined(after).contains_key(w) == (combined(before).contains_key(w) && w != *utxo) by {
                        if bucket_of(w) == k {
                            assert(mapping(c1).contains_key(w) == (mapping(c0).contains_key(w) && w != *utxo));
                            if c1.len() == 0 {
                                assert(!held(c1, w));
                            }
                        } else {
                            assert(after.contains_key(bucket_of(w)) == before.contains_key(bucket_of(w)));
                        }
                    }
                    assert forall|w: UtxoRef| combined(after).contains_key(w) implies #[trigger] combined(after)[w]
                        == combined(before)[w] by {
                        if bucket_of(w) == k {
                            assert(mapping(c1)[w] == mapping(c0).remove(*utxo)[w]);
                        }
                    }
                    assert(combined(after) =~= combined(before).remove(*utxo));
                }
            },
            None => {
                assert(combined(before) =~= combined(before).remove(*utxo));
            },
        }
    }
}

} // verus!
