//! The script-hash service: mempool history for a script hash, and
//! the per-key filter its subscription stream applies.

use vstd::prelude::*;
use vstd::string::StringExecFns;

use crate::mempool::{id_views, Mempool};
use crate::net::{Code, RpcStatus};

verus! {

/// One unconfirmed touch of a script hash.
pub struct MempoolItem {
    pub tx_id: Vec<u8>,
    pub fee: u64,
    pub has_unconfirmed_parent: bool,
}

/// The history of a script hash: confirmed items — none in this
/// revision — and the unconfirmed touches.
pub struct HistoryResponse {
    pub confirmed_items: Vec<Vec<u8>>,
    pub mempool_items: Vec<MempoolItem>,
}

/// One update on a subscribed script hash.
pub struct SubscribeResponse {
    pub confirmed_status: Vec<u8>,
    pub unconfirmed_status: Vec<u8>,
}

/// The script-hash service.
pub struct ScriptHashService {}

impl ScriptHashService {
    /// A script-hash service.
    pub fn new() -> (r: ScriptHashService) {
        ScriptHashService {}
    }

    /// The history of a script hash: a malformed hash is an invalid
    /// argument; without mempool items the confirmed history is not
    /// implemented in this revision; with them, one item per
    /// touching transaction id, in identifier order, fee and parent
    /// flag not filled yet.
    pub fn history(&self, mempool: &Mempool, script_hash: &Vec<u8>, include_mempool_items: bool)
        -> (r: Result<HistoryResponse, RpcStatus>)
        requires
            mempool.wf(),
        ensures
            script_hash@.len() != 32 ==> (r matches Err(st) && st.code == Code::InvalidArgument),
            script_hash@.len() == 32 && !include_mempool_items ==> (r matches Err(st)
                && st.code == Code::Unimplemented),
            script_hash@.len() == 32 && include_mempool_items ==> (r matches Ok(v) && {
                let ids = mempool.spec_status_list(script_hash@);
                &&& v.confirmed_items@.len() == 0
                &&& v.mempool_items@.len() == ids.len()
                &&& forall|i: int|
                    0 <= i < ids.len() ==> (#[trigger] v.mempool_items@[i]).tx_id@ == ids[i]
                        && v.mempool_items@[i].fee == 0
                        && !v.mempool_items@[i].has_unconfirmed_parent
            }),
    {
        if script_hash.len() != 32 {
            return Err(
                RpcStatus {
                    code: Code::InvalidArgument,
                    message: String::from_str("invalid script hash"),
                },
            );
        }
        if !include_mempool_items {
            return Err(RpcStatus { code: Code::Unimplemented, message: String::new() });
        }
        let mut sh: [u8; 32] = [0; 32];
        let mut j: usize = 0;
        while j < 32
            invariant
                j <= 32,
                script_hash@.len() == 32,
                sh@.len() == 32,
                forall|t: int| 0 <= t < j ==> sh@[t] == script_hash@[t],
            decreases 32 - j,
        {
            sh[j] = script_hash[j];
            j = j + 1;
        }
        assert(sh@ =~= script_hash@);
        let ids: Vec<[u8; 32]> = match mempool.get_transactions_ids(&sh) {
            Some(ids) => ids,
            None => Vec::new(),
        };
        let ghost idv = mempool.spec_status_list(script_hash@);
        assert(id_views(ids@) =~= idv);
        let mut items: Vec<MempoolItem> = Vec::new();
        let n = ids.len();
        let mut i: usize = 0;
        while i < n
            invariant
                i <= n,
                n == ids@.len(),
                id_views(ids@) == idv,
                items@.len() == i,
                forall|t: int|
                    0 <= t < i ==> (#[trigger] items@[t]).tx_id@ == idv[t] && items@[t].fee == 0
                        && !items@[t].has_unconfirmed_parent,
            decreases n - i,
        {
            assert(idv[i as int] == ids@[i as int]@);
            items.push(
                MempoolItem {
                    tx_id: vstd::slice::slice_to_vec(ids[i].as_slice()),
                    fee: 0,
                    has_unconfirmed_parent: false,
                },
            );
            i = i + 1;
        }
        Ok(HistoryResponse { confirmed_items: Vec::new(), mempool_items: items })
    }

    /// Filter one script-hash-bus item for a subscriber: only
    /// updates of the subscribed hash pass, re-shaped for the
    /// client.
    pub fn subscribe_item(
        request_script_hash: &Vec<u8>,
        script_hash: &[u8; 32],
        status: &[u8; 32],
    ) -> (r: Option<SubscribeResponse>)
        ensures
            r is Some <==> request_script_hash@ == script_hash@,
            r matches Some(v) ==> v.confirmed_status@.len() == 0 && v.unconfirmed_status@
                == status@,
    {
        if crate::rpc::slice_eq(request_script_hash.as_slice(), script_hash.as_slice()) {
            Some(
                SubscribeResponse {
                    confirmed_status: Vec::new(),
                    unconfirmed_status: vstd::slice::slice_to_vec(status.as_slice()),
                },
            )
        } else {
            None
        }
    }
}

} // verus!
