//! Live-tail tests: mempool transactions and pushed blocks.

const TX0: &[u8] = &[1, 0, 0, 0, 1, 0, 0, 0, 0, 0, 0, 0, 0, 0, 0, 0, 0, 0, 0, 0, 0, 0, 0, 0, 0, 0, 0, 0, 0, 0, 0, 0, 0, 0, 0, 0, 0, 255, 255, 255, 255, 1, 81, 255, 255, 255, 255, 1, 0, 242, 5, 42, 1, 0, 0, 0, 1, 81, 0, 0, 0, 0];

const TX1: &[u8] = &[1, 0, 0, 0, 1, 0, 0, 0, 0, 0, 0, 0, 0, 0, 0, 0, 0, 0, 0, 0, 0, 0, 0, 0, 0, 0, 0, 0, 0, 0, 0, 0, 0, 0, 0, 0, 0, 255, 255, 255, 255, 1, 82, 255, 255, 255, 255, 1, 0, 249, 2, 149, 0, 0, 0, 0, 1, 82, 0, 0, 0, 0];

const TX2: &[u8] = &[1, 0, 0, 0, 1, 0, 0, 0, 0, 0, 0, 0, 0, 0, 0, 0, 0, 0, 0, 0, 0, 0, 0, 0, 0, 0, 0, 0, 0, 0, 0, 0, 0, 0, 0, 0, 0, 255, 255, 255, 255, 1, 83, 255, 255, 255, 255, 1, 128, 124, 129, 74, 0, 0, 0, 0, 2, 83, 83, 0, 0, 0, 0];

const TXW: &[u8] = &[1, 0, 0, 0, 0, 1, 1, 0, 0, 0, 0, 0, 0, 0, 0, 0, 0, 0, 0, 0, 0, 0, 0, 0, 0, 0, 0, 0, 0, 0, 0, 0, 0, 0, 0, 0, 0, 0, 0, 255, 255, 255, 255, 1, 81, 255, 255, 255, 255, 1, 0, 242, 5, 42, 1, 0, 0, 0, 1, 81, 1, 2, 170, 187, 0, 0, 0, 0];

const TX0_ID: [u8; 32] = [138, 128, 211, 253, 215, 191, 172, 191, 236, 163, 197, 140, 132, 16, 45, 59, 183, 214, 162, 170, 223, 103, 192, 190, 216, 200, 72, 144, 71, 12, 78, 154];

const TX1_ID: [u8; 32] = [71, 149, 166, 89, 252, 188, 242, 142, 130, 3, 199, 242, 215, 79, 52, 115, 236, 178, 235, 131, 143, 189, 11, 78, 25, 191, 254, 107, 179, 254, 147, 59];

const TX2_ID: [u8; 32] = [251, 125, 103, 92, 139, 50, 63, 65, 178, 203, 183, 185, 72, 141, 115, 157, 99, 225, 32, 56, 64, 125, 41, 68, 57, 50, 56, 171, 17, 169, 163, 95];

const TXW_ID: [u8; 32] = [138, 128, 211, 253, 215, 191, 172, 191, 236, 163, 197, 140, 132, 16, 45, 59, 183, 214, 162, 170, 223, 103, 192, 190, 216, 200, 72, 144, 71, 12, 78, 154];

const HDR0: &[u8] = &[0, 1, 2, 3, 4, 5, 6, 7, 8, 9, 10, 11, 12, 13, 14, 15, 16, 17, 18, 19, 20, 21, 22, 23, 24, 25, 26, 27, 28, 29, 30, 31, 32, 33, 34, 35, 36, 37, 38, 39, 40, 41, 42, 43, 44, 45, 46, 47, 48, 49, 50, 51, 52, 53, 54, 55, 56, 57, 58, 59, 60, 61, 62, 63, 64, 65, 66, 67, 68, 69, 70, 71, 72, 73, 74, 75, 76, 77, 78, 79];

const HDR1: &[u8] = &[1, 2, 3, 4, 5, 6, 7, 8, 9, 10, 11, 12, 13, 14, 15, 16, 17, 18, 19, 20, 21, 22, 23, 24, 25, 26, 27, 28, 29, 30, 31, 32, 33, 34, 35, 36, 37, 38, 39, 40, 41, 42, 43, 44, 45, 46, 47, 48, 49, 50, 51, 52, 53, 54, 55, 56, 57, 58, 59, 60, 61, 62, 63, 64, 65, 66, 67, 68, 69, 70, 71, 72, 73, 74, 75, 76, 77, 78, 79, 80];

const HDR2: &[u8] = &[2, 3, 4, 5, 6, 7, 8, 9, 10, 11, 12, 13, 14, 15, 16, 17, 18, 19, 20, 21, 22, 23, 24, 25, 26, 27, 28, 29, 30, 31, 32, 33, 34, 35, 36, 37, 38, 39, 40, 41, 42, 43, 44, 45, 46, 47, 48, 49, 50, 51, 52, 53, 54, 55, 56, 57, 58, 59, 60, 61, 62, 63, 64, 65, 66, 67, 68, 69, 70, 71, 72, 73, 74, 75, 76, 77, 78, 79, 80, 81];

const BLOCK0: &[u8] = &[0, 1, 2, 3, 4, 5, 6, 7, 8, 9, 10, 11, 12, 13, 14, 15, 16, 17, 18, 19, 20, 21, 22, 23, 24, 25, 26, 27, 28, 29, 30, 31, 32, 33, 34, 35, 36, 37, 38, 39, 40, 41, 42, 43, 44, 45, 46, 47, 48, 49, 50, 51, 52, 53, 54, 55, 56, 57, 58, 59, 60, 61, 62, 63, 64, 65, 66, 67, 68, 69, 70, 71, 72, 73, 74, 75, 76, 77, 78, 79, 1, 1, 0, 0, 0, 1, 0, 0, 0, 0, 0, 0, 0, 0, 0, 0, 0, 0, 0, 0, 0, 0, 0, 0, 0, 0, 0, 0, 0, 0, 0, 0, 0, 0, 0, 0, 0, 0, 255, 255, 255, 255, 1, 81, 255, 255, 255, 255, 1, 0, 242, 5, 42, 1, 0, 0, 0, 1, 81, 0, 0, 0, 0];

const BLOCK1: &[u8] = &[1, 2, 3, 4, 5, 6, 7, 8, 9, 10, 11, 12, 13, 14, 15, 16, 17, 18, 19, 20, 21, 22, 23, 24, 25, 26, 27, 28, 29, 30, 31, 32, 33, 34, 35, 36, 37, 38, 39, 40, 41, 42, 43, 44, 45, 46, 47, 48, 49, 50, 51, 52, 53, 54, 55, 56, 57, 58, 59, 60, 61, 62, 63, 64, 65, 66, 67, 68, 69, 70, 71, 72, 73, 74, 75, 76, 77, 78, 79, 80, 1, 1, 0, 0, 0, 1, 0, 0, 0, 0, 0, 0, 0, 0, 0, 0, 0, 0, 0, 0, 0, 0, 0, 0, 0, 0, 0, 0, 0, 0, 0, 0, 0, 0, 0, 0, 0, 0, 255, 255, 255, 255, 1, 82, 255, 255, 255, 255, 1, 0, 249, 2, 149, 0, 0, 0, 0, 1, 82, 0, 0, 0, 0];

const BLOCK2: &[u8] = &[2, 3, 4, 5, 6, 7, 8, 9, 10, 11, 12, 13, 14, 15, 16, 17, 18, 19, 20, 21, 22, 23, 24, 25, 26, 27, 28, 29, 30, 31, 32, 33, 34, 35, 36, 37, 38, 39, 40, 41, 42, 43, 44, 45, 46, 47, 48, 49, 50, 51, 52, 53, 54, 55, 56, 57, 58, 59, 60, 61, 62, 63, 64, 65, 66, 67, 68, 69, 70, 71, 72, 73, 74, 75, 76, 77, 78, 79, 80, 81, 1, 1, 0, 0, 0, 1, 0, 0, 0, 0, 0, 0, 0, 0, 0, 0, 0, 0, 0, 0, 0, 0, 0, 0, 0, 0, 0, 0, 0, 0, 0, 0, 0, 0, 0, 0, 0, 0, 255, 255, 255, 255, 1, 83, 255, 255, 255, 255, 1, 128, 124, 129, 74, 0, 0, 0, 0, 2, 83, 83, 0, 0, 0, 0];

const SHA256D_EMPTY: [u8; 32] = [93, 246, 224, 226, 118, 19, 89, 211, 10, 130, 117, 5, 142, 41, 159, 204, 3, 129, 83, 69, 69, 245, 92, 244, 62, 65, 152, 63, 93, 76, 148, 86];

const SH_51: [u8; 32] = [149, 60, 207, 165, 150, 166, 198, 211, 158, 89, 128, 25, 69, 57, 18, 79, 220, 255, 17, 106, 87, 20, 85, 162, 18, 186, 237, 129, 31, 88, 94, 224];

const DIGEST_T0: [u8; 32] = [75, 65, 158, 158, 1, 225, 128, 235, 54, 142, 48, 31, 175, 161, 246, 50, 254, 116, 198, 99, 215, 16, 174, 37, 92, 144, 160, 160, 90, 107, 159, 211];

const DIGEST_T0_T1: [u8; 32] = [105, 97, 90, 1, 213, 104, 179, 66, 228, 130, 231, 223, 202, 224, 6, 98, 174, 5, 202, 245, 179, 13, 137, 83, 205, 249, 165, 85, 61, 56, 39, 109];

const T0_LT_T1: bool = false;


#[test]
fn mempool_tx_produces_status_updates() {
    let mut mp = photon::mempool::Mempool::default();
    let updates = photon::zmq::handle_mempool_tx(&TX0.to_vec(), &mut mp).expect("decode");
    assert_eq!(updates.len(), 1);
    assert_eq!(updates[0].0, SH_51);
    assert_eq!(updates[0].1, DIGEST_T0);
    assert!(mp.get_transaction_by_id(&TX0_ID).is_some());
    assert_eq!(mp.get_status(&SH_51), Some(DIGEST_T0));
}

#[test]
fn mempool_tx_rejects_garbage() {
    let mut mp = photon::mempool::Mempool::default();
    let r = photon::zmq::handle_mempool_tx(&vec![1, 2, 3], &mut mp);
    assert!(matches!(r, Err(photon::zmq::MempoolError::TxDecode)));
    assert!(mp.get_transaction_by_id(&TX0_ID).is_none());
}

#[test]
fn pushed_block_lands_at_tentative_height() {
    let mut db = photon::store::Database::try_new();
    let mut mgr = photon::state::StateMananger::default();
    mgr.set_sync_position(42);
    let (height, header) =
        photon::zmq::handle_block(&BLOCK0.to_vec(), &mut db, &mut mgr).expect("decode");
    assert_eq!(height, 42);
    assert_eq!(header.to_vec(), HDR0.to_vec());
    assert_eq!(db.get_header(42).unwrap(), Some(HDR0.to_vec()));
    // Height 42 is not aligned to the checkpoint interval: the
    // position advances in memory but is not persisted.
    assert_eq!(db.get_sync_position().unwrap(), None);
    assert_eq!(mgr.sync_position(), 43);
}

#[test]
fn pushed_block_checkpoints_at_aligned_height() {
    let mut db = photon::store::Database::try_new();
    let mut mgr = photon::state::StateMananger::default();
    mgr.set_sync_position(128);
    let (height, _header) =
        photon::zmq::handle_block(&BLOCK1.to_vec(), &mut db, &mut mgr).expect("decode");
    assert_eq!(height, 128);
    assert_eq!(db.get_header(128).unwrap(), Some(HDR1.to_vec()));
    // Height 128 is aligned: the new position is persisted.
    assert_eq!(db.get_sync_position().unwrap(), Some(129));
    assert_eq!(mgr.sync_position(), 129);
}

#[test]
fn pushed_garbage_block_fails_cleanly() {
    let mut db = photon::store::Database::try_new();
    let mut mgr = photon::state::StateMananger::default();
    let r = photon::zmq::handle_block(&vec![0, 1], &mut db, &mut mgr);
    assert!(matches!(
        r,
        Err(photon::zmq::HandlerError::Block(
            photon::sync::BlockProcessingError::BlockDecoding
        ))
    ));
    assert!(db.export().is_empty());
    assert_eq!(mgr.sync_position(), 0);
}
