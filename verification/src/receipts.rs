//! Deterministic commitment to the receipts of a block.
use crate::codec::{be64, push_bytes, push_u64};
use crate::execution::ExecutionReceipt;
use crate::hashing::{sha256_of, simple_hash};
use vstd::prelude::*;

verus! {

/// The bytes committed to for a list of receipts: for each, the transaction
/// identifier, the success flag, the gas used and the hash of the returned data.
pub open spec fn receipts_bytes(rs: Seq<ExecutionReceipt>) -> Seq<u8>
    decreases rs.len(),
{
    if rs.len() == 0 {
        Seq::empty()
    } else {
        let r = rs.last();
        receipts_bytes(rs.drop_last()) + r.tx_id@ + seq![if r.success { 1u8 } else { 0u8 }] + be64(
            r.gas_used,
        ) + sha256_of(r.return_data@)
    }
}

pub fn root(receipts: &[ExecutionReceipt]) -> (r: [u8; 32])
    ensures
        r@ == sha256_of(receipts_bytes(receipts@)),
{
    let ghost rs = receipts@;
    let mut b: Vec<u8> = Vec::new();
    let mut i: usize = 0;
    assert(rs.take(0) =~= Seq::<ExecutionReceipt>::empty());
    while i < receipts.len()
        invariant
            rs == receipts@,
            i <= rs.len(),
            b@ == receipts_bytes(rs.take(i as int)),
        decreases rs.len() - i,
    {
        let r = &receipts[i];
        push_bytes(&mut b, r.tx_id.as_slice());
        b.push(if r.success {
            1
        } else {
            0
        });
        push_u64(&mut b, r.gas_used);
        let h = simple_hash(r.return_data.as_slice());
        push_bytes(&mut b, h.as_slice());
        proof {
            assert(rs.take(i as int + 1).drop_last() =~= rs.take(i as int));
            assert(b@ =~= receipts_bytes(rs.take(i as int + 1)));
        }
        i = i + 1;
    }
    assert(rs.take(rs.len() as int) =~= rs);
    simple_hash(b.as_slice())
}

} // verus!
