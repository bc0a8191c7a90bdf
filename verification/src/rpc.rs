//! Decision logic of the node RPC client: request building with a
//! monotonically increasing nonce, nonce matching, content-type
//! discrimination of failure modes, the result/error envelope, and
//! the hex decoding of each call's payload. The transport itself is
//! not here: callers hand over what was received.

use vstd::prelude::*;

use crate::hex::{hex_decode, hex_decode_ok, hex_decoded, hex_encode, hex_of};
use vstd::string::StringSliceAdditionalSpecFns;

verus! {

/// A failure of the RPC exchange with the node.
#[derive(Debug)]
pub enum ClientError {
    /// Json decoding error.
    Json(Vec<u8>),
    /// Transport error, as reported by the carrier.
    Client(Vec<u8>),
    /// Rpc error: the raw error object from the response envelope.
    Rpc(Vec<u8>),
    /// Response has neither error nor result.
    NoErrorOrResult,
    /// Response to a request did not have the expected nonce
    NonceMismatch,
    /// No content type
    MissingContentType,
    /// The node's work queue is full.
    WorkQueueFull,
    /// The node answered with its credentials-rejected page.
    IncorrectCredentials,
    /// Received unexpected content type
    Unexpected(Vec<u8>),
    /// Unexpected text error
    UnexpectedText(Vec<u8>),
}

/// A failure of a node call: the exchange failed, a hex payload was
/// malformed, or no active chain tip was reported.
#[derive(Debug)]
pub enum BitcoinError {
    Client(ClientError),
    Decoding,
    NoActiveTip,
}

/// A parameter of an RPC request, carried as plain values; text is
/// ASCII bytes.
#[derive(Debug)]
pub enum ParamValue {
    Text(Vec<u8>),
    Num(u64),
    Bool(bool),
}

/// An RPC request: the method name, its parameters, and the nonce.
pub struct Request {
    pub method: Vec<u8>,
    pub params: Vec<ParamValue>,
    pub id: u64,
}

/// An RPC response envelope: the raw result and error objects, and
/// the echoed nonce.
pub struct Response {
    pub result: Option<Vec<u8>>,
    pub error: Option<Vec<u8>>,
    pub id: u64,
}

impl Response {
    /// Extract the result from a response: a reported RPC error wins,
    /// then the result payload; an envelope with neither is an error
    /// of its own.
    pub fn into_result(self) -> (r: Result<Vec<u8>, ClientError>)
        ensures
            r == (match self.error {
                Some(e) => Err::<Vec<u8>, ClientError>(ClientError::Rpc(e)),
                None => match self.result {
                    Some(p) => Ok::<Vec<u8>, ClientError>(p),
                    None => Err::<Vec<u8>, ClientError>(ClientError::NoErrorOrResult),
                },
            }),
    {
        match self.error {
            Some(e) => Err(ClientError::Rpc(e)),
            None => match self.result {
                Some(p) => Ok(p),
                None => Err(ClientError::NoErrorOrResult),
            },
        }
    }
}

/// The RPC client's request-side state: endpoint, credentials, and
/// the nonce counter.
pub struct JsonClient {
    pub endpoint: Vec<u8>,
    pub username: Vec<u8>,
    pub password: Vec<u8>,
    pub nonce: u64,
}

/// The next value of the wrapping nonce counter.
pub open spec fn wrap_inc_nonce(x: u64) -> u64 {
    if x == u64::MAX {
        0
    } else {
        (x + 1) as u64
    }
}

impl JsonClient {
    /// A client for the given endpoint and credentials, with the
    /// nonce at zero.
    pub fn new(endpoint: Vec<u8>, username: Vec<u8>, password: Vec<u8>) -> (r: JsonClient)
        ensures
            r.endpoint@ == endpoint@,
            r.username@ == username@,
            r.password@ == password@,
            r.nonce() == 0,
    {
        JsonClient { endpoint, username, password, nonce: 0 }
    }

    /// The nonce counter.
    pub open spec fn nonce(self) -> u64 {
        self.nonce
    }

    /// Build a request: the nonce advances and stamps the request, so
    /// every request carries a fresh id.
    pub fn build_request(&mut self, method: Vec<u8>, params: Vec<ParamValue>) -> (r: Request)
        ensures
            r.method@ == method@,
            r.params == params,
            r.id == wrap_inc_nonce(old(self).nonce()),
            final(self).nonce() == wrap_inc_nonce(old(self).nonce()),
            final(self).endpoint@ == old(self).endpoint@,
            final(self).username@ == old(self).username@,
            final(self).password@ == old(self).password@,
    {
        self.nonce = self.nonce.wrapping_add(1);
        Request { method, params, id: self.nonce }
    }
}

/// Check that a response answers the request it is paired with: the
/// echoed id must equal the request's nonce.
pub fn check_nonce(request_id: u64, response_id: u64) -> (r: Result<(), ClientError>)
    ensures
        r is Ok <==> request_id == response_id,
        r is Err ==> r matches Err(ClientError::NonceMismatch),
{
    if request_id == response_id {
        Ok(())
    } else {
        Err(ClientError::NonceMismatch)
    }
}

/// Whether two byte strings are equal.
pub fn slice_eq(a: &[u8], b: &[u8]) -> (r: bool)
    ensures
        r == (a@ == b@),
{
    let n = a.len();
    if n != b.len() {
        assert(a@ != b@);
        return false;
    }
    let mut i: usize = 0;
    while i < n
        invariant
            i <= n,
            n == a@.len(),
            n == b@.len(),
            forall|j: int| 0 <= j < i ==> a@[j] == b@[j],
        decreases n - i,
    {
        if a[i] != b[i] {
            assert(a@ != b@);
            return false;
        }
        i = i + 1;
    }
    assert(a@ =~= b@);
    true
}

/// The content type of a well-formed node reply.
pub open spec fn json_content_type() -> Seq<u8> {
    "application/json".spec_bytes()
}

/// The content type of the node's credentials-rejected page.
pub open spec fn html_content_type() -> Seq<u8> {
    "text/html; charset=ISO-8859-1".spec_bytes()
}

/// Discriminate the node's failure modes by the reply's content
/// type: a missing one means the node's work queue is full, the
/// HTML error page means the credentials were rejected, and any
/// other non-JSON type is unexpected.
pub fn check_misc_errors(content_type: Option<&Vec<u8>>) -> (r: Result<(), ClientError>)
    ensures
        match content_type {
            None => r matches Err(ClientError::WorkQueueFull),
            Some(ct) => if ct@ == json_content_type() {
                r is Ok
            } else if ct@ == html_content_type() {
                r matches Err(ClientError::IncorrectCredentials)
            } else {
                r matches Err(ClientError::Unexpected(u)) && u@ == ct@
            },
        },
{
    match content_type {
        None => Err(ClientError::WorkQueueFull),
        Some(ct) => {
            if slice_eq(ct.as_slice(), "application/json".as_bytes()) {
                Ok(())
            } else if slice_eq(ct.as_slice(), "text/html; charset=ISO-8859-1".as_bytes()) {
                Err(ClientError::IncorrectCredentials)
            } else {
                Err(ClientError::Unexpected(crate::codec::clone_vec_u8(ct)))
            }
        },
    }
}

/// Decode the hex payload a node call answered with: the raw bytes,
/// or the decoding failure the caller reports.
pub fn decode_hex_payload(payload: &Vec<u8>) -> (r: Result<Vec<u8>, BitcoinError>)
    ensures
        r is Ok <==> hex_decode_ok(payload@),
        r matches Ok(v) ==> v@ == hex_decoded(payload@),
        r is Err ==> r matches Err(BitcoinError::Decoding),
{
    match hex_decode(payload.as_slice()) {
        Some(v) => Ok(v),
        None => Err(BitcoinError::Decoding),
    }
}

/// One reported chain tip: its height, its hash in hex, and its
/// status tag.
pub struct ChainTipStatus {
    pub height: u32,
    pub hash: Vec<u8>,
    pub status: Vec<u8>,
}

/// The active chain tip: its height and raw hash.
pub struct ChainTip {
    pub height: u32,
    pub hash: Vec<u8>,
}

/// The status tag of the node's canonical tip.
pub open spec fn active_tag() -> Seq<u8> {
    "active".spec_bytes()
}

/// Select the node's active tip from the reported chain tips: the
/// first tip tagged active, its hash hex-decoded; no active tip, or
/// a malformed hash, is an error.
pub fn select_active_tip(tips: &Vec<ChainTipStatus>) -> (r: Result<ChainTip, BitcoinError>)
    ensures
        (forall|i: int| 0 <= i < tips@.len() ==> (#[trigger] tips@[i]).status@ != active_tag())
            ==> r matches Err(BitcoinError::NoActiveTip),
        forall|i: int|
            0 <= i < tips@.len() && (#[trigger] tips@[i]).status@ == active_tag() && (forall|j: int|
                0 <= j < i ==> (#[trigger] tips@[j]).status@ != active_tag()) ==> if hex_decode_ok(
                tips@[i].hash@,
            ) {
                r matches Ok(t) && t.height == tips@[i].height && t.hash@ == hex_decoded(
                    tips@[i].hash@,
                )
            } else {
                r matches Err(BitcoinError::Decoding)
            },
{
    let n = tips.len();
    let mut i: usize = 0;
    while i < n
        invariant
            i <= n,
            n == tips@.len(),
            forall|j: int| 0 <= j < i ==> (#[trigger] tips@[j]).status@ != active_tag(),
        decreases n - i,
    {
        if slice_eq(tips[i].status.as_slice(), "active".as_bytes()) {
            let r = match decode_hex_payload(&tips[i].hash) {
                Ok(h) => Ok(ChainTip { height: tips[i].height, hash: h }),
                Err(e) => Err(e),
            };
            return r;
        }
        i = i + 1;
    }
    Err(BitcoinError::NoActiveTip)
}

/// The node RPC client: the underlying JSON client.
pub struct BitcoinClient(pub JsonClient);

impl BitcoinClient {
    /// A client for the given endpoint and credentials.
    pub fn new(endpoint: Vec<u8>, username: Vec<u8>, password: Vec<u8>) -> (r: BitcoinClient)
        ensures
            r.0.endpoint@ == endpoint@,
            r.0.username@ == username@,
            r.0.password@ == password@,
            r.0.nonce() == 0,
    {
        BitcoinClient(JsonClient::new(endpoint, username, password))
    }

    /// The request that broadcasts a raw transaction: its hex
    /// encoding as the single parameter.
    pub fn broadcast_tx_request(&mut self, raw_tx: &[u8]) -> (r: Request)
        ensures
            r.method@ == "sendrawtransaction".spec_bytes(),
            r.params@.len() == 1,
            r.params@[0] matches ParamValue::Text(t) && t@ == hex_of(raw_tx@),
            r.id == wrap_inc_nonce(old(self).0.nonce()),
            final(self).0.nonce() == wrap_inc_nonce(old(self).0.nonce()),
    {
        let mut params: Vec<ParamValue> = Vec::new();
        params.push(ParamValue::Text(hex_encode(raw_tx)));
        self.0.build_request(vstd::slice::slice_to_vec("sendrawtransaction".as_bytes()), params)
    }

    /// The request that fetches a raw transaction by display-order
    /// id.
    pub fn raw_tx_request(&mut self, tx_id: &[u8; 32]) -> (r: Request)
        ensures
            r.method@ == "getrawtransaction".spec_bytes(),
            r.params@.len() == 1,
            r.params@[0] matches ParamValue::Text(t) && t@ == hex_of(tx_id@),
            r.id == wrap_inc_nonce(old(self).0.nonce()),
            final(self).0.nonce() == wrap_inc_nonce(old(self).0.nonce()),
    {
        let mut params: Vec<ParamValue> = Vec::new();
        params.push(ParamValue::Text(hex_encode(tx_id.as_slice())));
        self.0.build_request(vstd::slice::slice_to_vec("getrawtransaction".as_bytes()), params)
    }

    /// The request that resolves a height to a block hash.
    pub fn block_hash_request(&mut self, height: u32) -> (r: Request)
        ensures
            r.method@ == "getblockhash".spec_bytes(),
            r.params@.len() == 1,
            r.params@[0] matches ParamValue::Num(h) && h == height as u64,
            r.id == wrap_inc_nonce(old(self).0.nonce()),
            final(self).0.nonce() == wrap_inc_nonce(old(self).0.nonce()),
    {
        let mut params: Vec<ParamValue> = Vec::new();
        params.push(ParamValue::Num(height as u64));
        self.0.build_request(vstd::slice::slice_to_vec("getblockhash".as_bytes()), params)
    }

    /// The request that fetches a raw block by its hex hash, in
    /// non-verbose form.
    pub fn block_request(&mut self, block_hash_hex: Vec<u8>) -> (r: Request)
        ensures
            r.method@ == "getblock".spec_bytes(),
            r.params@.len() == 2,
            r.params@[0] matches ParamValue::Text(t) && t@ == block_hash_hex@,
            r.params@[1] matches ParamValue::Bool(b) && !b,
            r.id == wrap_inc_nonce(old(self).0.nonce()),
            final(self).0.nonce() == wrap_inc_nonce(old(self).0.nonce()),
    {
        let mut params: Vec<ParamValue> = Vec::new();
        params.push(ParamValue::Text(block_hash_hex));
        params.push(ParamValue::Bool(false));
        self.0.build_request(vstd::slice::slice_to_vec("getblock".as_bytes()), params)
    }

    /// The request that asks for the chain length.
    pub fn block_count_request(&mut self) -> (r: Request)
        ensures
            r.method@ == "getblockcount".spec_bytes(),
            r.params@.len() == 0,
            r.id == wrap_inc_nonce(old(self).0.nonce()),
            final(self).0.nonce() == wrap_inc_nonce(old(self).0.nonce()),
    {
        self.0.build_request(vstd::slice::slice_to_vec("getblockcount".as_bytes()), Vec::new())
    }

    /// The request that lists the chain tips.
    pub fn chain_tip_request(&mut self) -> (r: Request)
        ensures
            r.method@ == "getchaintips".spec_bytes(),
            r.params@.len() == 0,
            r.id == wrap_inc_nonce(old(self).0.nonce()),
            final(self).0.nonce() == wrap_inc_nonce(old(self).0.nonce()),
    {
        self.0.build_request(vstd::slice::slice_to_vec("getchaintips".as_bytes()), Vec::new())
    }
}

} // verus!
