//! The transaction service: broadcast through the node, and record
//! lookup with write-through caching of raw bytes fetched on demand.

use vstd::prelude::*;
use vstd::string::StringExecFns;

use crate::net::{Code, RpcStatus};
use crate::record::{record_bytes, spec_decode_record, TransactionResponse};
use crate::rpc::{BitcoinError, ClientError};
use crate::store::{tx_key, CachedOption, Database};

verus! {

/// A broadcast acknowledgement: the transaction id the node
/// assigned.
pub struct BroadcastResponse {
    pub tx_id: Vec<u8>,
}

/// The transaction service over the index store.
pub struct TransactionService {
    pub db: Database,
}

/// What a record lookup decided: absent, served from the cache, or
/// in need of a raw-bytes fetch before it can be served.
pub enum TxLookup {
    /// Served as stored; the Merkle portion already stripped when it
    /// was not asked for.
    Ready(TransactionResponse),
    /// Indexed but not cached: fetch the raw bytes, then finish with
    /// the stored record.
    NeedsFetch(TransactionResponse),
}

/// Strip the Merkle portion of a record before returning it.
pub fn strip_merkle(rec: TransactionResponse) -> (r: TransactionResponse)
    ensures
        r@.raw_tx == rec@.raw_tx,
        r@.merkle is None,
{
    TransactionResponse { raw_tx: rec.raw_tx, merkle: None }
}

impl TransactionService {
    /// A transaction service over the given store.
    pub fn new(db: Database) -> (r: TransactionService)
        ensures
            r.db == db,
    {
        TransactionService { db }
    }

    /// Map the node's answer to a broadcast: an RPC-layer rejection
    /// is a failed precondition — an insufficient fee or a double
    /// spend — and every other failure is internal, with no detail
    /// revealed.
    pub fn broadcast(node_result: Result<Vec<u8>, BitcoinError>) -> (r: Result<
        BroadcastResponse,
        RpcStatus,
    >)
        ensures
            node_result matches Ok(id) ==> r matches Ok(b) && b.tx_id@ == id@,
            node_result matches Err(e) ==> r matches Err(st) && st.code == (match e {
                BitcoinError::Client(ClientError::Rpc(_)) => Code::FailedPrecondition,
                _ => Code::Internal,
            }),
    {
        match node_result {
            Ok(tx_id) => Ok(BroadcastResponse { tx_id }),
            Err(e) => match e {
                BitcoinError::Client(inner) => match inner {
                    ClientError::Rpc(_) => Err(
                        RpcStatus { code: Code::FailedPrecondition, message: String::new() },
                    ),
                    _ => Err(RpcStatus { code: Code::Internal, message: String::new() }),
                },
                _ => Err(RpcStatus { code: Code::Internal, message: String::new() }),
            },
        }
    }

    /// Look a transaction record up by id. A malformed id is an
    /// invalid argument; an absent record is not found; a cached
    /// record is served as it stands, with the Merkle portion
    /// stripped unless asked for; an uncached one asks the caller to
    /// fetch the raw bytes and finish.
    pub fn transaction_lookup(&self, tx_id: &Vec<u8>, merkle: bool) -> (r: Result<
        TxLookup,
        RpcStatus,
    >)
        requires
            self.db.wf(),
        ensures
            tx_id@.len() != 32 ==> (r matches Err(st) && st.code == Code::InvalidArgument),
            tx_id@.len() == 32 ==> match r {
                Err(st) => st.code == Code::NotFound && !self.db.kv().contains_key(
                    tx_key(tx_id@),
                ),
                Ok(TxLookup::Ready(rec)) => {
                    let stored = spec_decode_record(self.db.kv()[tx_key(tx_id@)])->Some_0;
                    &&& self.db.kv().contains_key(tx_key(tx_id@))
                    &&& stored.raw_tx.len() > 0
                    &&& rec@.raw_tx == stored.raw_tx
                    &&& rec@.merkle == (if merkle {
                        stored.merkle
                    } else {
                        None
                    })
                },
                Ok(TxLookup::NeedsFetch(rec)) => {
                    &&& self.db.kv().contains_key(tx_key(tx_id@))
                    &&& spec_decode_record(self.db.kv()[tx_key(tx_id@)]) == Some(rec@)
                    &&& rec@.raw_tx.len() == 0
                },
            },
    {
        if tx_id.len() != 32 {
            return Err(
                RpcStatus {
                    code: Code::InvalidArgument,
                    message: String::from_str("invalid transaction id"),
                },
            );
        }
        let mut id: [u8; 32] = [0; 32];
        let mut j: usize = 0;
        while j < 32
            invariant
                j <= 32,
                tx_id@.len() == 32,
                id@.len() == 32,
                forall|t: int| 0 <= t < j ==> id@[t] == tx_id@[t],
            decreases 32 - j,
        {
            id[j] = tx_id[j];
            j = j + 1;
        }
        assert(id@ =~= tx_id@);
        match self.db.get_tx(&id) {
            Ok(CachedOption::Missing) => Err(
                RpcStatus { code: Code::NotFound, message: String::new() },
            ),
            Ok(CachedOption::Cached(rec)) => {
                if merkle {
                    Ok(TxLookup::Ready(rec))
                } else {
                    Ok(TxLookup::Ready(strip_merkle(rec)))
                }
            },
            Ok(CachedOption::Uncached(rec)) => Ok(TxLookup::NeedsFetch(rec)),
            Err(_) => {
                assert(false);
                Err(RpcStatus { code: Code::Internal, message: String::new() })
            },
        }
    }

    /// Finish an uncached lookup with the fetched raw bytes: a
    /// failed fetch is not found; otherwise the bytes are written
    /// through into the stored record and the completed record is
    /// served, with the Merkle portion stripped unless asked for.
    pub fn transaction_complete(
        &mut self,
        tx_id: &[u8; 32],
        rec: TransactionResponse,
        fetched: Result<Vec<u8>, BitcoinError>,
        merkle: bool,
    ) -> (r: Result<TransactionResponse, RpcStatus>)
        requires
            old(self).db.wf(),
        ensures
            final(self).db.wf(),
            fetched is Err ==> (r matches Err(st) && st.code == Code::NotFound
                && final(self).db == old(self).db),
            fetched matches Ok(raw) ==> {
                let filled = crate::record::TransactionResponseModel {
                    raw_tx: raw@,
                    merkle: rec@.merkle,
                };
                &&& final(self).db.kv() == old(self).db.kv().insert(
                    tx_key(tx_id@),
                    record_bytes(filled),
                )
                &&& r matches Ok(out) && out@.raw_tx == raw@ && out@.merkle == (if merkle {
                    rec@.merkle
                } else {
                    None
                })
            },
    {
        let raw = match fetched {
            Ok(raw) => raw,
            Err(_) => {
                return Err(RpcStatus { code: Code::NotFound, message: String::new() });
            },
        };
        let filled = TransactionResponse { raw_tx: raw, merkle: rec.merkle };
        match self.db.put_tx(tx_id, &filled) {
            Ok(_) => {},
            Err(_) => {
                assert(false);
                return Err(RpcStatus { code: Code::Internal, message: String::new() });
            },
        }
        if merkle {
            Ok(filled)
        } else {
            Ok(strip_merkle(filled))
        }
    }
}

} // verus!
