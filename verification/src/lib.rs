//! Indexer core for a UTXO-based blockchain: block and transaction
//! decoding, a typed index store over an ordered key-value layout, a
//! mempool view with per-script-hash status digests, the service state
//! machine that gates requests against reorganisations, the historical
//! block-sync engine, the live-tail handlers, and the decision logic
//! of the query services.

pub mod bus;
pub mod codec;
pub mod hashes;
pub mod hex;
pub mod mempool;
pub mod net;
pub mod record;
pub mod router;
pub mod rpc;
pub mod settings;
pub mod state;
pub mod store;
pub mod sync;
pub mod zmq;
