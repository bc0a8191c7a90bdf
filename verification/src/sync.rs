//! The historical block-sync engine: determine the resume point,
//! decode each fetched block, persist its header and transaction
//! records, advance the sync position, and checkpoint it
//! periodically. The fetching itself is a caller's concern: the
//! engine takes the raw blocks as values.

use vstd::prelude::*;

use crate::codec::{bytes_views, spec_parse_block, decode_block, Block, TxModel, compute_txid,
    txid_of, le32_at, le32_bytes};
use crate::record::{record_bytes, TransactionResponse, TransactionResponseModel, TxMerkleInfo,
    TxMerkleInfoModel};
use crate::rpc::BitcoinError;
use crate::state::{gate_inv, GateModel, StateMananger, wrap_inc32};
use crate::store::{header_key, sync_key, tx_key, Database, StoreError};

verus! {

/// A failure while writing a block's transaction records.
#[derive(Debug)]
pub enum TxProcessingError {
    Database(StoreError),
}

/// A failure while processing one block.
#[derive(Debug)]
pub enum BlockProcessingError {
    /// The node call that produced the block failed.
    Bitcoin(BitcoinError),
    /// The raw block did not decode.
    BlockDecoding,
    /// A transaction record could not be written.
    Transaction(TxProcessingError),
    /// A header could not be written.
    Database(StoreError),
}

/// A failure of the historical sync run.
#[derive(Debug)]
pub enum SyncingError {
    /// Error grabbing chain tip
    Chaintip(BitcoinError),
    /// Error grabbing last sync position
    LastSyncGet(StoreError),
    /// Error during block processing
    BlockProcessing(BlockProcessingError),
    /// Error during state increment
    Increment(StoreError),
}

/// The record written for the transaction at `pos` of the block at
/// `height` during sync: no cached raw bytes, no path siblings yet.
pub open spec fn tx_record_model(height: u32, pos: u32) -> TransactionResponseModel {
    TransactionResponseModel {
        raw_tx: Seq::<u8>::empty(),
        merkle: Some(
            TxMerkleInfoModel { block_height: height, merkle: Seq::<Seq<u8>>::empty(), pos },
        ),
    }
}

/// The store contents after writing the records of `txs`, each keyed
/// by its id prefix and carrying its position.
pub open spec fn kv_after_txs(kv: Map<Seq<u8>, Seq<u8>>, txs: Seq<TxModel>, height: u32) -> Map<
    Seq<u8>,
    Seq<u8>,
>
    decreases txs.len(),
{
    if txs.len() == 0 {
        kv
    } else {
        kv_after_txs(kv, txs.drop_last(), height).insert(
            tx_key(txid_of(txs.last())),
            record_bytes(tx_record_model(height, (txs.len() - 1) as u32)),
        )
    }
}

/// The store contents after processing one decoded block: its header
/// under the height key, then every transaction record.
pub open spec fn kv_after_block(
    kv: Map<Seq<u8>, Seq<u8>>,
    height: u32,
    header: Seq<u8>,
    txs: Seq<TxModel>,
) -> Map<Seq<u8>, Seq<u8>> {
    kv_after_txs(kv.insert(header_key(height), header), txs, height)
}

impl Default for TransactionResponse {
    /// A record with no cached bytes and no placement.
    fn default() -> (r: TransactionResponse)
        ensures
            r@.raw_tx.len() == 0,
            r@.merkle is None,
    {
        TransactionResponse { raw_tx: Vec::new(), merkle: None }
    }
}

/// Write the record of every transaction of the block at
/// `block_height`: empty raw bytes, the containing height, and the
/// position within the block.
pub fn process_transactions(
    block_height: u32,
    txs: &Vec<crate::codec::Transaction>,
    db: &mut Database,
) -> (r: Result<(), TxProcessingError>)
    requires
        old(db).wf(),
    ensures
        r is Ok,
        final(db).wf(),
        final(db).kv() == kv_after_txs(old(db).kv(), crate::codec::tx_views(txs@), block_height),
{
    let ghost views = crate::codec::tx_views(txs@);
    let n = txs.len();
    let mut i: usize = 0;
    while i < n
        invariant
            i <= n,
            n == txs@.len(),
            views == crate::codec::tx_views(txs@),
            db.wf(),
            db.kv() == kv_after_txs(old(db).kv(), views.take(i as int), block_height),
        decreases n - i,
    {
        let tx_id = compute_txid(&txs[i]);
        #[verifier::truncate]
        let pos = i as u32;
        let data = TransactionResponse {
            raw_tx: Vec::new(),
            merkle: Some(TxMerkleInfo { block_height, merkle: Vec::new(), pos }),
        };
        proof {
            assert(bytes_views(Seq::<Vec<u8>>::empty()) =~= Seq::<
                Seq<u8>,
            >::empty());
            assert(data@ == tx_record_model(block_height, pos));
        }
        let res = db.put_tx(&tx_id, &data);
        match res {
            Ok(_) => {},
            Err(e) => {
                assert(false);
                return Err(TxProcessingError::Database(e));
            },
        }
        proof {
            assert(views.take(i + 1).drop_last() =~= views.take(i as int));
            assert(views.take(i + 1).last() == views[i as int]);
            assert(views[i as int] == txs@[i as int]@);
            assert((views.take(i + 1).len() - 1) as u32 == pos);
        }
        i = i + 1;
    }
    assert(views.take(n as int) =~= views);
    Ok(())
}

/// Process one decoded block at `height`: write its 80-byte header
/// under the height key, then every transaction record, and hand the
/// header back for publication.
pub fn process_block(height: u32, block: Block, db: &mut Database) -> (r: Result<
    (u32, [u8; 80]),
    BlockProcessingError,
>)
    requires
        old(db).wf(),
        block@.header.len() == 80,
    ensures
        final(db).wf(),
        final(db).kv() == kv_after_block(old(db).kv(), height, block@.header, block@.txs),
        r matches Ok(p) && p.0 == height && p.1@ == block@.header,
{
    let mut raw_header: [u8; 80] = [0; 80];
    let mut j: usize = 0;
    while j < 80
        invariant
            j <= 80,
            block@.header.len() == 80,
            block.header@.len() == 80,
            raw_header@.len() == 80,
            forall|t: int| 0 <= t < j ==> raw_header@[t] == block.header@[t],
        decreases 80 - j,
    {
        raw_header[j] = block.header[j];
        j = j + 1;
    }
    assert(raw_header@ =~= block@.header);
    match db.put_header(height, raw_header.as_slice()) {
        Ok(_) => {},
        Err(e) => {
            assert(false);
            return Err(BlockProcessingError::Database(e));
        },
    }
    match process_transactions(height, &block.txs, db) {
        Ok(_) => {},
        Err(e) => {
            assert(false);
            return Err(BlockProcessingError::Transaction(e));
        },
    }
    Ok((height, raw_header))
}

} // verus!

verus! {

/// How often the sync position is checkpointed to the store during
/// historical sync, in blocks.
pub const PERSIST_SYNC_POS_INTERVAL: u32 = 128;

/// The height historical sync starts from: an explicit resync height
/// wins; otherwise the persisted sync position; otherwise zero.
pub open spec fn spec_sync_start(kv: Map<Seq<u8>, Seq<u8>>, resync: Option<u32>) -> u32 {
    match resync {
        Some(h) => h,
        None => if kv.contains_key(sync_key()) {
            le32_at(kv[sync_key()], 0) as u32
        } else {
            0
        },
    }
}

/// Whether a raw block decodes.
#[verifier::opaque]
pub open spec fn block_decodes(b: Seq<u8>) -> bool {
    spec_parse_block(b) is Some
}

/// The first height in `[h, end)` whose raw block does not decode,
/// or `end` when they all do.
#[verifier::opaque]
pub open spec fn first_undecodable(bs: Seq<Seq<u8>>, h: int, end: int) -> int
    decreases end - h,
{
    if h >= end {
        end
    } else if !block_decodes(bs[h]) {
        h
    } else {
        first_undecodable(bs, h + 1, end)
    }
}

/// A decodable prefix moves the first undecodable height past it.
pub proof fn lemma_first_undecodable_skip(bs: Seq<Seq<u8>>, s: int, h: int, end: int)
    requires
        s <= h <= end,
        forall|k: int| s <= k < h ==> block_decodes(#[trigger] bs[k]),
    ensures
        first_undecodable(bs, s, end) == first_undecodable(bs, h, end),
    decreases h - s,
{
    reveal(first_undecodable);
    if s < h {
        lemma_first_undecodable_skip(bs, s + 1, h, end);
    }
}

/// The store contents after one block of the sync loop: the block's
/// header and records, then the periodic checkpoint when the height
/// hits the interval.
#[verifier::opaque]
pub open spec fn kv_after_step(kv: Map<Seq<u8>, Seq<u8>>, height: u32, b: Seq<u8>) -> Map<
    Seq<u8>,
    Seq<u8>,
> {
    let bm = spec_parse_block(b)->Some_0.0;
    let kv1 = kv_after_block(kv, height, bm.header, bm.txs);
    if height % PERSIST_SYNC_POS_INTERVAL == 0 {
        kv1.insert(sync_key(), le32_bytes(wrap_inc32(height)))
    } else {
        kv1
    }
}

/// The store contents after the first `i` blocks of a sync run from
/// `start`, the block at height `h` being `bs[h]`.
#[verifier::opaque]
pub open spec fn kv_after_range(
    kv: Map<Seq<u8>, Seq<u8>>,
    bs: Seq<Seq<u8>>,
    start: u32,
    i: nat,
) -> Map<Seq<u8>, Seq<u8>>
    decreases i,
{
    if i == 0 {
        kv
    } else {
        kv_after_step(
            kv_after_range(kv, bs, start, (i - 1) as nat),
            (start + i - 1) as u32,
            bs[start + i - 1],
        )
    }
}

/// Extending a processed range by one block applies one step.
pub proof fn lemma_range_extend(
    base: Map<Seq<u8>, Seq<u8>>,
    bs: Seq<Seq<u8>>,
    start: u32,
    h: u32,
)
    requires
        start <= h,
        h < u32::MAX,
    ensures
        kv_after_range(base, bs, start, (h + 1 - start) as nat) == kv_after_step(
            kv_after_range(base, bs, start, (h - start) as nat),
            h,
            bs[h as int],
        ),
{
    reveal(kv_after_range);
    let i = (h + 1 - start) as nat;
    assert(i > 0);
    assert((i - 1) as nat == (h - start) as nat);
    assert((start + i - 1) as u32 == h);
}

/// One block of the sync loop: decode the raw block at `h`, write
/// its header and records, advance the position, and checkpoint when
/// the height hits the interval.
fn sync_block_step(db: &mut Database, mgr: &mut StateMananger, raw_block: &Vec<u8>, h: u32) -> (r:
    Result<(), SyncingError>)
    requires
        old(db).wf(),
        gate_inv(old(mgr)@),
        old(mgr)@.position == h,
        h < u32::MAX,
    ensures
        final(db).wf(),
        gate_inv(final(mgr)@),
        r is Ok <==> block_decodes(raw_block@),
        r is Ok ==> final(db).kv() == kv_after_step(old(db).kv(), h, raw_block@)
            && final(mgr)@ == (GateModel { position: (h + 1) as u32, ..old(mgr)@ }),
        r is Err ==> final(db).kv() == old(db).kv() && final(mgr)@ == old(mgr)@ && (r matches Err(
            SyncingError::BlockProcessing(BlockProcessingError::BlockDecoding),
        )),
{
    proof {
        reveal(block_decodes);
        reveal(kv_after_step);
    }
    let block = match decode_block(raw_block.as_slice()) {
        Some(b) => b,
        None => {
            return Err(SyncingError::BlockProcessing(BlockProcessingError::BlockDecoding));
        },
    };
    assert(block@ == spec_parse_block(raw_block@)->Some_0.0);
    assert(block@.header.len() == 80);
    match process_block(h, block, db) {
        Ok(_) => {},
        Err(_) => {
            assert(false);
            return Err(SyncingError::BlockProcessing(BlockProcessingError::BlockDecoding));
        },
    }
    let position = mgr.increment_sync_position();
    assert(position == h);
    if position % PERSIST_SYNC_POS_INTERVAL == 0 {
        match db.set_sync_position(position.wrapping_add(1)) {
            Ok(_) => {},
            Err(e) => {
                assert(false);
                return Err(SyncingError::Increment(e));
            },
        }
        assert(position.wrapping_add(1) == wrap_inc32(h));
    }
    assert(wrap_inc32(h) == (h + 1) as u32);
    Ok(())
}

/// Synchronise the store with the chain: determine the resume point,
/// process the blocks from there to the chain length in height
/// order — header, transaction records, position increment, periodic
/// checkpoint — and persist the final sync position. `blocks[h]` is
/// the raw block at height `h`; the run consumes heights from the
/// resume point up to `block_count`.
#[verifier::rlimit(100)]
pub fn synchronize(
    db: &mut Database,
    mgr: &mut StateMananger,
    blocks: &Vec<Vec<u8>>,
    block_count: u32,
    resync: Option<u32>,
) -> (r: Result<(), SyncingError>)
    requires
        old(db).wf(),
        gate_inv(old(mgr)@),
        blocks@.len() == block_count,
    ensures
        final(db).wf(),
        gate_inv(final(mgr)@),
        ({
            let start = spec_sync_start(old(db).kv(), resync);
            let bviews = bytes_views(blocks@);
            let fb = first_undecodable(bviews, start as int, block_count as int);
            let base = old(db).kv();
            &&& (r is Ok <==> fb == block_count || start as int >= block_count as int)
            &&& start == block_count ==> final(db).kv() == base
                && final(mgr)@ == (GateModel { position: start, ..old(mgr)@ })
            &&& (start as int) > block_count as int ==> final(db).kv() == base.insert(
                sync_key(),
                le32_bytes(start),
            ) && final(mgr)@ == (GateModel { position: start, ..old(mgr)@ })
            &&& ((start as int) < block_count as int && fb == block_count) ==> final(db).kv()
                == kv_after_range(
                base,
                bviews,
                start,
                (block_count - start) as nat,
            ).insert(sync_key(), le32_bytes(block_count)) && final(mgr)@ == (GateModel {
                position: block_count,
                ..old(mgr)@
            })
            &&& fb < block_count ==> final(db).kv() == kv_after_range(
                base,
                bviews,
                start,
                (fb - start) as nat,
            ) && (r matches Err(SyncingError::BlockProcessing(
                BlockProcessingError::BlockDecoding,
            ))) && final(mgr)@ == (GateModel { position: fb as u32, ..old(mgr)@ })
        }),
{
    let ghost base = old(db).kv();
    let ghost bviews = bytes_views(blocks@);
    // Determine the resume point and align the in-memory position
    // with it.
    let start: u32 = match resync {
        Some(h) => h,
        None => {
            match db.get_sync_position() {
                Ok(opt) => match opt {
                    Some(p) => p,
                    None => 0,
                },
                Err(e) => {
                    assert(false);
                    return Err(SyncingError::LastSyncGet(e));
                },
            }
        },
    };
    mgr.set_sync_position(start);
    proof {
        reveal(kv_after_range);
        assert(kv_after_range(base, bviews, start, 0) == base);
    }
    assert(start == spec_sync_start(base, resync));
    if start >= block_count {
        proof {
            reveal(first_undecodable);
            assert(first_undecodable(bviews, start as int, block_count as int)
                == block_count as int);
        }
        if start == block_count {
            return Ok(());
        }
        // Past the tip: nothing to process, but the position is
        // still persisted, as any completed run persists it.
        match db.set_sync_position(start) {
            Ok(_) => {},
            Err(e) => {
                assert(false);
                return Err(SyncingError::Increment(e));
            },
        }
        return Ok(());
    }
    let ghost fb = first_undecodable(bviews, start as int, block_count as int);
    let mut h: u32 = start;
    while h < block_count
        invariant
            start <= h <= block_count,
            block_count == blocks@.len(),
            bviews == bytes_views(blocks@),
            base == old(db).kv(),
            start == spec_sync_start(base, resync),
            fb == first_undecodable(bviews, start as int, block_count as int),
            db.wf(),
            gate_inv(mgr@),
            db.kv() == kv_after_range(base, bviews, start, (h - start) as nat),
            mgr@ == (GateModel { position: h, ..old(mgr)@ }),
            forall|k: int| start <= k < h ==> block_decodes(#[trigger] bviews[k]),
        decreases block_count - h,
    {
        assert(bviews[h as int] == blocks@[h as int]@);
        let step = sync_block_step(db, mgr, &blocks[h as usize], h);
        match step {
            Ok(_) => {},
            Err(e) => {
                proof {
                    lemma_first_undecodable_skip(bviews, start as int, h as int, block_count as int);
                    reveal(first_undecodable);
                    assert(fb == h);
                    assert(fb as u32 == h);
                }
                return Err(e);
            },
        }
        proof {
            lemma_range_extend(base, bviews, start, h);
        }
        h = h + 1;
    }
    proof {
        lemma_first_undecodable_skip(bviews, start as int, block_count as int, block_count as int);
        reveal(first_undecodable);
        assert(fb == block_count);
    }
    // Finalize state position
    let position = mgr.sync_position();
    assert(position == block_count);
    match db.set_sync_position(position) {
        Ok(_) => {},
        Err(e) => {
            assert(false);
            return Err(SyncingError::Increment(e));
        },
    }
    Ok(())
}

} // verus!

verus! {

/// The position the store holds, or minus one when none was
/// persisted yet.
pub open spec fn persisted_position(kv: Map<Seq<u8>, Seq<u8>>) -> int {
    if kv.contains_key(sync_key()) {
        le32_at(kv[sync_key()], 0)
    } else {
        -1
    }
}

/// Writing transaction records leaves the persisted position alone:
/// record keys live in another namespace.
pub proof fn lemma_txs_keep_position(kv: Map<Seq<u8>, Seq<u8>>, txs: Seq<TxModel>, height: u32)
    ensures
        persisted_position(kv_after_txs(kv, txs, height)) == persisted_position(kv),
    decreases txs.len(),
{
    if txs.len() > 0 {
        lemma_txs_keep_position(kv, txs.drop_last(), height);
        assert(tx_key(txid_of(txs.last()))[0] == 0x74u8);
        assert(sync_key()[0] == 0x73u8);
        assert(tx_key(txid_of(txs.last())) != sync_key());
    }
}

/// One sync step leaves the persisted position alone, or checkpoints
/// it to just past its height.
#[verifier::rlimit(100)]
pub proof fn lemma_step_position(kv: Map<Seq<u8>, Seq<u8>>, h: u32, b: Seq<u8>)
    requires
        h < u32::MAX,
    ensures
        persisted_position(kv_after_step(kv, h, b)) == if h % PERSIST_SYNC_POS_INTERVAL == 0 {
            h + 1
        } else {
            persisted_position(kv)
        },
{
    reveal(kv_after_step);
    let bm = spec_parse_block(b)->Some_0.0;
    let kv1 = kv_after_block(kv, h, bm.header, bm.txs);
    assert(header_key(h) != sync_key()) by {
        assert(header_key(h)[0] == 0x68u8);
        assert(sync_key()[0] == 0x73u8);
    }
    assert(persisted_position(kv1) == persisted_position(kv)) by {
        lemma_txs_keep_position(kv.insert(header_key(h), bm.header), bm.txs, h);
    }
    if h % PERSIST_SYNC_POS_INTERVAL == 0 {
        assert(persisted_position(kv1.insert(sync_key(), le32_bytes(wrap_inc32(h)))) == h + 1) by {
            assert(le32_bytes(wrap_inc32(h)).subrange(0, 4) =~= le32_bytes(wrap_inc32(h)));
            crate::codec::lemma_le32_encoding(le32_bytes(wrap_inc32(h)), 0, wrap_inc32(h));
            assert(wrap_inc32(h) == h + 1);
        }
    }
}

/// After `i` blocks the persisted position is at most `start + i`,
/// and it never decreased along the way.
pub proof fn lemma_range_position(
    base: Map<Seq<u8>, Seq<u8>>,
    bs: Seq<Seq<u8>>,
    start: u32,
    i: nat,
)
    requires
        persisted_position(base) <= start as int,
        start + i <= u32::MAX,
    ensures
        persisted_position(kv_after_range(base, bs, start, i)) <= start + i,
        i > 0 ==> persisted_position(kv_after_range(base, bs, start, (i - 1) as nat))
            <= persisted_position(kv_after_range(base, bs, start, i)),
    decreases i,
{
    reveal(kv_after_range);
    if i > 0 {
        lemma_range_position(base, bs, start, (i - 1) as nat);
        let h = (start + i - 1) as u32;
        lemma_step_position(kv_after_range(base, bs, start, (i - 1) as nat), h, bs[start + i - 1]);
    }
}

/// Monotonic sync: across any successful run that starts at or past
/// the position already persisted, the persisted sync position never
/// decreases as blocks are processed.
pub proof fn lemma_sync_position_monotonic(
    base: Map<Seq<u8>, Seq<u8>>,
    bs: Seq<Seq<u8>>,
    start: u32,
    i: nat,
    j: nat,
)
    requires
        persisted_position(base) <= start as int,
        i <= j,
        start + j <= u32::MAX,
    ensures
        persisted_position(kv_after_range(base, bs, start, i)) <= persisted_position(
            kv_after_range(base, bs, start, j),
        ),
    decreases j - i,
{
    if i < j {
        lemma_sync_position_monotonic(base, bs, start, i, (j - 1) as nat);
        lemma_range_position(base, bs, start, j);
    }
}

} // verus!

verus! {

/// Header keys are injective in the height.
pub proof fn lemma_header_key_injective(a: u32, b: u32)
    requires
        header_key(a) == header_key(b),
    ensures
        a == b,
{
    let ba = crate::codec::be32_bytes(a);
    let bb = crate::codec::be32_bytes(b);
    assert(ba =~= bb) by {
        assert(forall|j: int| 0 <= j < 4 ==> (#[trigger] ba[j]) == header_key(a)[j + 1]);
        assert(forall|j: int| 0 <= j < 4 ==> (#[trigger] bb[j]) == header_key(b)[j + 1]);
    }
    crate::codec::lemma_be32_roundtrip(a);
    crate::codec::lemma_be32_roundtrip(b);
}

/// A key no record of `txs` is written under keeps its mapping.
pub proof fn lemma_kv_after_txs_other(
    kv: Map<Seq<u8>, Seq<u8>>,
    txs: Seq<TxModel>,
    height: u32,
    k: Seq<u8>,
)
    requires
        forall|p: int| 0 <= p < txs.len() ==> tx_key(txid_of(#[trigger] txs[p])) != k,
    ensures
        kv_after_txs(kv, txs, height).contains_key(k) == kv.contains_key(k),
        kv.contains_key(k) ==> kv_after_txs(kv, txs, height)[k] == kv[k],
    decreases txs.len(),
{
    if txs.len() > 0 {
        assert(forall|p: int|
            0 <= p < txs.drop_last().len() ==> tx_key(txid_of(#[trigger] txs.drop_last()[p]))
                != k) by {
            assert(forall|p: int|
                0 <= p < txs.len() - 1 ==> (#[trigger] txs.drop_last()[p]) == txs[p]);
        }
        lemma_kv_after_txs_other(kv, txs.drop_last(), height, k);
        assert(txs[txs.len() - 1] == txs.last());
        assert(tx_key(txid_of(txs.last())) != k);
    }
}

/// Each record written for `txs` is in the result, with its height
/// and position, when no later record of the same batch shares its
/// key.
pub proof fn lemma_kv_after_txs_at(
    kv: Map<Seq<u8>, Seq<u8>>,
    txs: Seq<TxModel>,
    height: u32,
    p: int,
)
    requires
        0 <= p < txs.len(),
        forall|q: int|
            p < q < txs.len() ==> tx_key(txid_of(#[trigger] txs[q])) != tx_key(txid_of(txs[p])),
    ensures
        kv_after_txs(kv, txs, height).contains_key(tx_key(txid_of(txs[p]))),
        kv_after_txs(kv, txs, height)[tx_key(txid_of(txs[p]))] == record_bytes(
            tx_record_model(height, p as u32),
        ),
    decreases txs.len(),
{
    if p == txs.len() - 1 {
        assert(txs.last() == txs[p]);
    } else {
        assert(forall|q: int|
            p < q < txs.drop_last().len() ==> tx_key(txid_of(#[trigger] txs.drop_last()[q]))
                != tx_key(txid_of(txs.drop_last()[p]))) by {
            assert(forall|q: int|
                0 <= q < txs.len() - 1 ==> (#[trigger] txs.drop_last()[q]) == txs[q]);
        }
        assert(txs.drop_last()[p] == txs[p]);
        lemma_kv_after_txs_at(kv, txs.drop_last(), height, p);
        assert(txs[txs.len() - 1] == txs.last());
        assert(tx_key(txid_of(txs.last())) != tx_key(txid_of(txs[p])));
    }
}

/// The decoded model of the block at height `h`.
pub open spec fn block_model_at(bs: Seq<Seq<u8>>, h: int) -> crate::codec::BlockModel {
    spec_parse_block(bs[h])->Some_0.0
}

/// No two indexed transactions of the blocks in `[start, end)` share
/// a record key: the id prefixes do not collide.
pub open spec fn tx_keys_distinct(bs: Seq<Seq<u8>>, start: int, end: int) -> bool {
    forall|h1: int, p1: int, h2: int, p2: int|
        #![trigger tx_key(txid_of(block_model_at(bs, h1).txs[p1])), tx_key(txid_of(block_model_at(bs, h2).txs[p2]))]
        start <= h1 < end && start <= h2 < end && 0 <= p1 < block_model_at(bs, h1).txs.len() && 0
            <= p2 < block_model_at(bs, h2).txs.len() && (h1 != h2 || p1 != p2) ==> tx_key(
            txid_of(block_model_at(bs, h1).txs[p1]),
        ) != tx_key(txid_of(block_model_at(bs, h2).txs[p2]))
}

/// A key one sync step writes nothing under keeps its mapping.
pub proof fn lemma_step_other(kv: Map<Seq<u8>, Seq<u8>>, height: u32, b: Seq<u8>, k: Seq<u8>)
    requires
        k != header_key(height),
        k != sync_key(),
        forall|p: int|
            0 <= p < (spec_parse_block(b)->Some_0.0).txs.len() ==> tx_key(
                txid_of(#[trigger] (spec_parse_block(b)->Some_0.0).txs[p]),
            ) != k,
    ensures
        kv_after_step(kv, height, b).contains_key(k) == kv.contains_key(k),
        kv.contains_key(k) ==> kv_after_step(kv, height, b)[k] == kv[k],
{
    reveal(kv_after_step);
    let bm = spec_parse_block(b)->Some_0.0;
    lemma_kv_after_txs_other(kv.insert(header_key(height), bm.header), bm.txs, height, k);
}

} // verus!

verus! {

/// Header/transaction coupling: after a sync run over decodable
/// blocks whose indexed id prefixes do not collide, the store holds,
/// for every processed height, that height's header and the record
/// of every one of its transactions at its correct position.
pub proof fn lemma_header_tx_coupling(
    base: Map<Seq<u8>, Seq<u8>>,
    bs: Seq<Seq<u8>>,
    start: u32,
    n: nat,
    h: int,
)
    requires
        start + n <= u32::MAX,
        start <= h < start + n,
        forall|k: int| start <= k < start + n ==> block_decodes(#[trigger] bs[k]),
        tx_keys_distinct(bs, start as int, start + n),
    ensures
        kv_after_range(base, bs, start, n).contains_key(header_key(h as u32)),
        kv_after_range(base, bs, start, n)[header_key(h as u32)] == block_model_at(bs, h).header,
        forall|p: int|
            0 <= p < block_model_at(bs, h).txs.len() ==> kv_after_range(
                base,
                bs,
                start,
                n,
            ).contains_key(tx_key(txid_of(#[trigger] block_model_at(bs, h).txs[p])))
                && kv_after_range(base, bs, start, n)[tx_key(txid_of(block_model_at(bs, h).txs[p]))]
                == record_bytes(tx_record_model(h as u32, p as u32)),
    decreases n,
{
    reveal(kv_after_range);
    let last = start + n - 1;
    let prev = kv_after_range(base, bs, start, (n - 1) as nat);
    let bm = block_model_at(bs, last);
    assert(kv_after_range(base, bs, start, n) == kv_after_step(prev, last as u32, bs[last]));
    if h == last {
        reveal(kv_after_step);
        let kv1 = prev.insert(header_key(h as u32), bm.header);
        // The header write survives the record writes: record keys
        // open with another tag byte.
        assert forall|p: int| 0 <= p < bm.txs.len() implies tx_key(
            txid_of(#[trigger] bm.txs[p]),
        ) != header_key(h as u32) by {
            assert(tx_key(txid_of(bm.txs[p]))[0] == 0x74u8);
            assert(header_key(h as u32)[0] == 0x68u8);
        }
        lemma_kv_after_txs_other(kv1, bm.txs, h as u32, header_key(h as u32));
        // Each record survives the later records of the same block.
        assert forall|p: int| 0 <= p < bm.txs.len() implies kv_after_txs(
            kv1,
            bm.txs,
            h as u32,
        ).contains_key(tx_key(txid_of(#[trigger] bm.txs[p]))) && kv_after_txs(
            kv1,
            bm.txs,
            h as u32,
        )[tx_key(txid_of(bm.txs[p]))] == record_bytes(tx_record_model(h as u32, p as u32)) by {
            assert(forall|q: int|
                p < q < bm.txs.len() ==> tx_key(txid_of(#[trigger] bm.txs[q])) != tx_key(
                    txid_of(bm.txs[p]),
                ));
            lemma_kv_after_txs_at(kv1, bm.txs, h as u32, p);
        }
        // The checkpoint, if any, writes under the position key.
        assert forall|p: int| 0 <= p < bm.txs.len() implies tx_key(
            txid_of(#[trigger] bm.txs[p]),
        ) != sync_key() by {
            assert(tx_key(txid_of(bm.txs[p]))[0] == 0x74u8);
            assert(sync_key()[0] == 0x73u8);
        }
        assert(header_key(h as u32) != sync_key()) by {
            assert(header_key(h as u32)[0] == 0x68u8);
            assert(sync_key()[0] == 0x73u8);
        }
    } else {
        lemma_header_tx_coupling(base, bs, start, (n - 1) as nat, h);
        let hm = block_model_at(bs, h);
        // The later block writes under other keys: another height's
        // header key, records whose prefixes do not collide, and the
        // position key.
        assert(header_key(h as u32) != header_key(last as u32)) by {
            if header_key(h as u32) == header_key(last as u32) {
                lemma_header_key_injective(h as u32, last as u32);
            }
        }
        assert(header_key(h as u32) != sync_key()) by {
            assert(header_key(h as u32)[0] == 0x68u8);
            assert(sync_key()[0] == 0x73u8);
        }
        assert forall|p: int| 0 <= p < bm.txs.len() implies tx_key(
            txid_of(#[trigger] bm.txs[p]),
        ) != header_key(h as u32) by {
            assert(tx_key(txid_of(bm.txs[p]))[0] == 0x74u8);
            assert(header_key(h as u32)[0] == 0x68u8);
        }
        lemma_step_other(prev, last as u32, bs[last], header_key(h as u32));
        assert forall|p: int| 0 <= p < hm.txs.len() implies kv_after_step(
            prev,
            last as u32,
            bs[last],
        ).contains_key(tx_key(txid_of(#[trigger] hm.txs[p]))) && kv_after_step(
            prev,
            last as u32,
            bs[last],
        )[tx_key(txid_of(hm.txs[p]))] == record_bytes(tx_record_model(h as u32, p as u32)) by {
            let k = tx_key(txid_of(hm.txs[p]));
            assert forall|q: int| 0 <= q < bm.txs.len() implies tx_key(
                txid_of(#[trigger] bm.txs[q]),
            ) != k by {
                assert(tx_key(txid_of(block_model_at(bs, last).txs[q])) != tx_key(
                    txid_of(block_model_at(bs, h).txs[p]),
                ));
            }
            assert(k != header_key(last as u32)) by {
                assert(k[0] == 0x74u8);
                assert(header_key(last as u32)[0] == 0x68u8);
            }
            assert(k != sync_key()) by {
                assert(k[0] == 0x74u8);
                assert(sync_key()[0] == 0x73u8);
            }
            lemma_step_other(prev, last as u32, bs[last], k);
        }
    }
}

} // verus!
