//! The live-tail decisions: what one raw mempool transaction does to
//! the mempool and which status updates it publishes, and what one
//! raw block does to the store and the sync position. The pub-sub
//! transport that feeds them runs outside; it hands raw frames in
//! and carries the produced notifications out.

use vstd::prelude::*;

use crate::codec::{decode_block, decode_transaction, compute_txid, script_hash_transaction,
    spec_parse_block, spec_parse_tx, txid_of, le32_bytes, TxModel};
use crate::hashes::sha256d_of;
use crate::mempool::{digest_of, id_views, insert_sorted, Mempool};
use crate::state::{gate_inv, GateModel, StateMananger, wrap_inc32};
use crate::store::{sync_key, Database, StoreError};
use crate::sync::{kv_after_block, BlockProcessingError, PERSIST_SYNC_POS_INTERVAL};

verus! {

/// A failure while folding a mempool transaction in.
#[derive(Debug)]
pub enum MempoolError {
    /// The raw transaction did not decode.
    TxDecode,
    /// The transaction feed failed.
    Subscription,
}

/// A failure of the live tail.
#[derive(Debug)]
pub enum HandlerError {
    Block(BlockProcessingError),
    Mempool(MempoolError),
    /// The pub-sub connection failed.
    Connection,
    /// A notification could not be handed to the fan-out bus.
    Broker,
    Increment(StoreError),
}

/// The script hashes of a transaction's outputs, in output order.
pub open spec fn spec_script_hashes(tx: TxModel) -> Seq<Seq<u8>> {
    Seq::new(tx.outputs.len(), |i: int| sha256d_of(tx.outputs[i].script))
}

/// The status tables after appending `id` under the first `k` script
/// hashes in order.
pub open spec fn status_fold(
    m: Map<Seq<u8>, Seq<Seq<u8>>>,
    shs: Seq<Seq<u8>>,
    id: Seq<u8>,
    k: nat,
) -> Map<Seq<u8>, Seq<Seq<u8>>>
    decreases k,
{
    if k == 0 {
        m
    } else {
        let prev = status_fold(m, shs, id, (k - 1) as nat);
        let sh = shs[k - 1];
        let list = if prev.contains_key(sh) {
            prev[sh]
        } else {
            Seq::<Seq<u8>>::empty()
        };
        prev.insert(sh, insert_sorted(list, id))
    }
}

/// The status digest produced by the append under `shs[k]`, after
/// the appends under the previous script hashes.
pub open spec fn step_digest(
    m: Map<Seq<u8>, Seq<Seq<u8>>>,
    shs: Seq<Seq<u8>>,
    id: Seq<u8>,
    k: nat,
) -> Seq<u8> {
    let prev = status_fold(m, shs, id, k);
    let list = if prev.contains_key(shs[k as int]) {
        prev[shs[k as int]]
    } else {
        Seq::<Seq<u8>>::empty()
    };
    digest_of(insert_sorted(list, id))
}

/// Fold one raw mempool transaction in: decode it, compute its
/// display-order id, record it in the pool, and append the id to the
/// status of each output's script hash. Returns one
/// script-hash/digest pair per output, in output order, each digest
/// being the status digest right after that output's append.
pub fn handle_mempool_tx(raw_tx: &Vec<u8>, mempool: &mut Mempool) -> (r: Result<
    Vec<([u8; 32], [u8; 32])>,
    MempoolError,
>)
    requires
        old(mempool).wf(),
    ensures
        final(mempool).wf(),
        r is Ok <==> (spec_parse_tx(raw_tx@, 0) matches Some(p) && p.1 == raw_tx@.len()),
        r is Err ==> *final(mempool) == *old(mempool) && (r matches Err(MempoolError::TxDecode)),
        r matches Ok(v) ==> ({
            let tx = spec_parse_tx(raw_tx@, 0)->Some_0.0;
            let id = txid_of(tx);
            let shs = spec_script_hashes(tx);
            &&& final(mempool).pool() == old(mempool).pool().insert(id, tx)
            &&& final(mempool).status() == status_fold(old(mempool).status(), shs, id, shs.len())
            &&& v@.len() == shs.len()
            &&& forall|k: int|
                0 <= k < v@.len() ==> (#[trigger] v@[k]).0@ == shs[k] && v@[k].1@ == step_digest(
                    old(mempool).status(),
                    shs,
                    id,
                    k as nat,
                )
        }),
{
    let tx = match decode_transaction(raw_tx.as_slice()) {
        Some(tx) => tx,
        None => {
            return Err(MempoolError::TxDecode);
        },
    };
    let tx_id = compute_txid(&tx);
    let hashes = script_hash_transaction(&tx);
    let ghost txm = tx@;
    let ghost id = txid_of(txm);
    let ghost shs = spec_script_hashes(txm);
    assert(shs =~= id_views(hashes@)) by {
        assert(forall|i: int|
            0 <= i < hashes@.len() ==> (#[trigger] hashes@[i])@ == sha256d_of(
                txm.outputs[i].script,
            ));
    }
    mempool.put_transaction(&tx_id, tx);
    let ghost status0 = mempool.status();
    let mut out: Vec<([u8; 32], [u8; 32])> = Vec::new();
    let n = hashes.len();
    let mut k: usize = 0;
    while k < n
        invariant
            k <= n,
            n == hashes@.len(),
            shs == id_views(hashes@),
            tx_id@ == id,
            mempool.wf(),
            mempool.pool() == old(mempool).pool().insert(id, txm),
            mempool.status() == status_fold(status0, shs, id, k as nat),
            out@.len() == k,
            status0 == old(mempool).status(),
            forall|t: int|
                0 <= t < k ==> (#[trigger] out@[t]).0@ == shs[t] && out@[t].1@ == step_digest(
                    status0,
                    shs,
                    id,
                    t as nat,
                ),
        decreases n - k,
    {
        assert(shs[k as int] == hashes@[k as int]@);
        let ghost prevm = status_fold(status0, shs, id, k as nat);
        let digest = mempool.append_status(&hashes[k], &tx_id);
        proof {
            let list = if prevm.contains_key(shs[k as int]) {
                prevm[shs[k as int]]
            } else {
                Seq::<Seq<u8>>::empty()
            };
            assert((k + 1) as nat != 0);
            assert(((k + 1) as nat - 1) as nat == k as nat);
            assert(status_fold(status0, shs, id, (k + 1) as nat) == prevm.insert(
                shs[k as int],
                insert_sorted(list, id),
            ));
            assert(step_digest(status0, shs, id, k as nat) == digest_of(insert_sorted(list, id)));
        }
        out.push((hashes[k], digest));
        k = k + 1;
    }
    Ok(out)
}

/// Fold one raw block in: pair it with the current sync position as
/// its tentative height, write its header and records, advance the
/// position, and persist it when the height is aligned to the
/// checkpoint interval. Returns the height and header for
/// publication on the header bus.
pub fn handle_block(raw_block: &Vec<u8>, db: &mut Database, mgr: &mut StateMananger) -> (r: Result<
    (u32, [u8; 80]),
    HandlerError,
>)
    requires
        old(db).wf(),
        gate_inv(old(mgr)@),
    ensures
        final(db).wf(),
        gate_inv(final(mgr)@),
        r is Ok <==> spec_parse_block(raw_block@) is Some,
        r is Err ==> *final(db) == *old(db) && *final(mgr) == *old(mgr) && (r matches Err(
            HandlerError::Block(BlockProcessingError::BlockDecoding),
        )),
        r matches Ok(p) ==> ({
            let height = old(mgr)@.position;
            let bm = spec_parse_block(raw_block@)->Some_0.0;
            &&& p.0 == height
            &&& p.1@ == bm.header
            &&& final(db).kv() == (if height % PERSIST_SYNC_POS_INTERVAL == 0 {
                kv_after_block(old(db).kv(), height, bm.header, bm.txs).insert(
                    sync_key(),
                    le32_bytes(wrap_inc32(height)),
                )
            } else {
                kv_after_block(old(db).kv(), height, bm.header, bm.txs)
            })
            &&& final(mgr)@ == (GateModel { position: wrap_inc32(height), ..old(mgr)@ })
        }),
{
    let block = match decode_block(raw_block.as_slice()) {
        Some(b) => b,
        None => {
            return Err(HandlerError::Block(BlockProcessingError::BlockDecoding));
        },
    };
    let height = mgr.sync_position();
    assert(block@.header.len() == 80);
    let pair = match crate::sync::process_block(height, block, db) {
        Ok(p) => p,
        Err(_) => {
            assert(false);
            return Err(HandlerError::Block(BlockProcessingError::BlockDecoding));
        },
    };
    let position = mgr.increment_sync_position();
    assert(position == height);
    if position % PERSIST_SYNC_POS_INTERVAL == 0 {
        match db.set_sync_position(position.wrapping_add(1)) {
            Ok(_) => {},
            Err(e) => {
                assert(false);
                return Err(HandlerError::Increment(e));
            },
        }
        assert(position.wrapping_add(1) == wrap_inc32(height));
    }
    Ok(pair)
}

} // verus!
