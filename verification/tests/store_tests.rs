//! Index store tests: the typed key layout and the range scan.

const TX0: &[u8] = &[1, 0, 0, 0, 1, 0, 0, 0, 0, 0, 0, 0, 0, 0, 0, 0, 0, 0, 0, 0, 0, 0, 0, 0, 0, 0, 0, 0, 0, 0, 0, 0, 0, 0, 0, 0, 0, 255, 255, 255, 255, 1, 81, 255, 255, 255, 255, 1, 0, 242, 5, 42, 1, 0, 0, 0, 1, 81, 0, 0, 0, 0];

const TX1: &[u8] = &[1, 0, 0, 0, 1, 0, 0, 0, 0, 0, 0, 0, 0, 0, 0, 0, 0, 0, 0, 0, 0, 0, 0, 0, 0, 0, 0, 0, 0, 0, 0, 0, 0, 0, 0, 0, 0, 255, 255, 255, 255, 1, 82, 255, 255, 255, 255, 1, 0, 249, 2, 149, 0, 0, 0, 0, 1, 82, 0, 0, 0, 0];

const TX2: &[u8] = &[1, 0, 0, 0, 1, 0, 0, 0, 0, 0, 0, 0, 0, 0, 0, 0, 0, 0, 0, 0, 0, 0, 0, 0, 0, 0, 0, 0, 0, 0, 0, 0, 0, 0, 0, 0, 0, 255, 255, 255, 255, 1, 83, 255, 255, 255, 255, 1, 128, 124, 129, 74, 0, 0, 0, 0, 2, 83, 83, 0, 0, 0, 0];

const TXW: &[u8] = &[1, 0, 0, 0, 0, 1, 1, 0, 0, 0, 0, 0, 0, 0, 0, 0, 0, 0, 0, 0, 0, 0, 0, 0, 0, 0, 0, 0, 0, 0, 0, 0, 0, 0, 0, 0, 0, 0, 0, 255, 255, 255, 255, 1, 81, 255, 255, 255, 255, 1, 0, 242, 5, 42, 1, 0, 0, 0, 1, 81, 1, 2, 170, 187, 0, 0, 0, 0];

const TX0_ID: [u8; 32] = [138, 128, 211, 253, 215, 191, 172, 191, 236, 163, 197, 140, 132, 16, 45, 59, 183, 214, 162, 170, 223, 103, 192, 190, 216, 200, 72, 144, 71, 12, 78, 154];

const TX1_ID: [u8; 32] = [71, 149, 166, 89, 252, 188, 242, 142, 130, 3, 199, 242, 215, 79, 52, 115, 236, 178, 235, 131, 143, 189, 11, 78, 25, 191, 254, 107, 179, 254, 147, 59];

const TX2_ID: [u8; 32] = [251, 125, 103, 92, 139, 50, 63, 65, 178, 203, 183, 185, 72, 141, 115, 157, 99, 225, 32, 56, 64, 125, 41, 68, 57, 50, 56, 171, 17, 169, 163, 95];

const TXW_ID: [u8; 32] = [138, 128, 211, 253, 215, 191, 172, 191, 236, 163, 197, 140, 132, 16, 45, 59, 183, 214, 162, 170, 223, 103, 192, 190, 216, 200, 72, 144, 71, 12, 78, 154];

const HDR0: &[u8] = &[0, 1, 2, 3, 4, 5, 6, 7, 8, 9, 10, 11, 12, 13, 14, 15, 16, 17, 18, 19, 20, 21, 22, 23, 24, 25, 26, 27, 28, 29, 30, 31, 32, 33, 34, 35, 36, 37, 38, 39, 40, 41, 42, 43, 44, 45, 46, 47, 48, 49, 50, 51, 52, 53, 54, 55, 56, 57, 58, 59, 60, 61, 62, 63, 64, 65, 66, 67, 68, 69, 70, 71, 72, 73, 74, 75, 76, 77, 78, 79];

const HDR1: &[u8] = &[1, 2, 3, 4, 5, 6, 7, 8, 9, 10, 11, 12, 13, 14, 15, 16, 17, 18, 19, 20, 21, 22, 23, 24, 25, 26, 27, 28, 29, 30, 31, 32, 33, 34, 35, 36, 37, 38, 39, 40, 41, 42, 43, 44, 45, 46, 47, 48, 49, 50, 51, 52, 53, 54, 55, 56, 57, 58, 59, 60, 61, 62, 63, 64, 65, 66, 67, 68, 69, 70, 71, 72, 73, 74, 75, 76, 77, 78, 79, 80];

const HDR2: &[u8] = &[2, 3, 4, 5, 6, 7, 8, 9, 10, 11, 12, 13, 14, 15, 16, 17, 18, 19, 20, 21, 22, 23, 24, 25, 26, 27, 28, 29, 30, 31, 32, 33, 34, 35, 36, 37, 38, 39, 40, 41, 42, 43, 44, 45, 46, 47, 48, 49, 50, 51, 52, 53, 54, 55, 56, 57, 58, 59, 60, 61, 62, 63, 64, 65, 66, 67, 68, 69, 70, 71, 72, 73, 74, 75, 76, 77, 78, 79, 80, 81];

const BLOCK0: &[u8] = &[0, 1, 2, 3, 4, 5, 6, 7, 8, 9, 10, 11, 12, 13, 14, 15, 16, 17, 18, 19, 20, 21, 22, 23, 24, 25, 26, 27, 28, 29, 30, 31, 32, 33, 34, 35, 36, 37, 38, 39, 40, 41, 42, 43, 44, 45, 46, 47, 48, 49, 50, 51, 52, 53, 54, 55, 56, 57, 58, 59, 60, 61, 62, 63, 64, 65, 66, 67, 68, 69, 70, 71, 72, 73, 74, 75, 76, 77, 78, 79, 1, 1, 0, 0, 0, 1, 0, 0, 0, 0, 0, 0, 0, 0, 0, 0, 0, 0, 0, 0, 0, 0, 0, 0, 0, 0, 0, 0, 0, 0, 0, 0, 0, 0, 0, 0, 0, 0, 255, 255, 255, 255, 1, 81, 255, 255, 255, 255, 1, 0, 242, 5, 42, 1, 0, 0, 0, 1, 81, 0, 0, 0, 0];

const BLOCK1: &[u8] = &[1, 2, 3, 4, 5, 6, 7, 8, 9, 10, 11, 12, 13, 14, 15, 16, 17, 18, 19, 20, 21, 22, 23, 24, 25, 26, 27, 28, 29, 30, 31, 32, 33, 34, 35, 36, 37, 38, 39, 40, 41, 42, 43, 44, 45, 46, 47, 48, 49, 50, 51, 52, 53, 54, 55, 56, 57, 58, 59, 60, 61, 62, 63, 64, 65, 66, 67, 68, 69, 70, 71, 72, 73, 74, 75, 76, 77, 78, 79, 80, 1, 1, 0, 0, 0, 1, 0, 0, 0, 0, 0, 0, 0, 0, 0, 0, 0, 0, 0, 0, 0, 0, 0, 0, 0, 0, 0, 0, 0, 0, 0, 0, 0, 0, 0, 0, 0, 0, 255, 255, 255, 255, 1, 82, 255, 255, 255, 255, 1, 0, 249, 2, 149, 0, 0, 0, 0, 1, 82, 0, 0, 0, 0];

const BLOCK2: &[u8] = &[2, 3, 4, 5, 6, 7, 8, 9, 10, 11, 12, 13, 14, 15, 16, 17, 18, 19, 20, 21, 22, 23, 24, 25, 26, 27, 28, 29, 30, 31, 32, 33, 34, 35, 36, 37, 38, 39, 40, 41, 42, 43, 44, 45, 46, 47, 48, 49, 50, 51, 52, 53, 54, 55, 56, 57, 58, 59, 60, 61, 62, 63, 64, 65, 66, 67, 68, 69, 70, 71, 72, 73, 74, 75, 76, 77, 78, 79, 80, 81, 1, 1, 0, 0, 0, 1, 0, 0, 0, 0, 0, 0, 0, 0, 0, 0, 0, 0, 0, 0, 0, 0, 0, 0, 0, 0, 0, 0, 0, 0, 0, 0, 0, 0, 0, 0, 0, 0, 255, 255, 255, 255, 1, 83, 255, 255, 255, 255, 1, 128, 124, 129, 74, 0, 0, 0, 0, 2, 83, 83, 0, 0, 0, 0];

const SHA256D_EMPTY: [u8; 32] = [93, 246, 224, 226, 118, 19, 89, 211, 10, 130, 117, 5, 142, 41, 159, 204, 3, 129, 83, 69, 69, 245, 92, 244, 62, 65, 152, 63, 93, 76, 148, 86];

const SH_51: [u8; 32] = [149, 60, 207, 165, 150, 166, 198, 211, 158, 89, 128, 25, 69, 57, 18, 79, 220, 255, 17, 106, 87, 20, 85, 162, 18, 186, 237, 129, 31, 88, 94, 224];

const DIGEST_T0: [u8; 32] = [75, 65, 158, 158, 1, 225, 128, 235, 54, 142, 48, 31, 175, 161, 246, 50, 254, 116, 198, 99, 215, 16, 174, 37, 92, 144, 160, 160, 90, 107, 159, 211];

const DIGEST_T0_T1: [u8; 32] = [105, 97, 90, 1, 213, 104, 179, 66, 228, 130, 231, 223, 202, 224, 6, 98, 174, 5, 202, 245, 179, 13, 137, 83, 205, 249, 165, 85, 61, 56, 39, 109];

const T0_LT_T1: bool = false;


#[test]
fn headers_store_and_scan() {
    let mut db = photon::store::Database::try_new();
    db.put_header(0, HDR0).unwrap();
    db.put_header(2, HDR2).unwrap();
    db.put_header(1, HDR1).unwrap();
    assert_eq!(db.get_header(1).unwrap(), Some(HDR1.to_vec()));
    assert_eq!(db.get_header(9).unwrap(), None);
    // count == 0 scans to the end of the namespace, in height order.
    let all = db.get_headers(0, 0).unwrap();
    assert_eq!(all, vec![HDR0.to_vec(), HDR1.to_vec(), HDR2.to_vec()]);
    let some = db.get_headers(1, 0).unwrap();
    assert_eq!(some, vec![HDR1.to_vec(), HDR2.to_vec()]);
    let capped = db.get_headers(0, 2).unwrap();
    assert_eq!(capped, vec![HDR0.to_vec(), HDR1.to_vec()]);
    let one = db.get_headers(2, 1).unwrap();
    assert_eq!(one, vec![HDR2.to_vec()]);
    let none = db.get_headers(3, 0).unwrap();
    assert!(none.is_empty());
}

#[test]
fn header_overwrite_keeps_single_entry() {
    let mut db = photon::store::Database::try_new();
    db.put_header(5, HDR0).unwrap();
    db.put_header(5, HDR1).unwrap();
    assert_eq!(db.get_header(5).unwrap(), Some(HDR1.to_vec()));
    assert_eq!(db.get_headers(0, 0).unwrap().len(), 1);
}

#[test]
fn tx_records_cache_discrimination() {
    let mut db = photon::store::Database::try_new();
    let rec = photon::record::TransactionResponse {
        raw_tx: vec![],
        merkle: Some(photon::record::TxMerkleInfo { block_height: 3, merkle: vec![], pos: 0 }),
    };
    db.put_tx(&TX0_ID, &rec).unwrap();
    match db.get_tx(&TX0_ID).unwrap() {
        photon::store::CachedOption::Uncached(r) => {
            assert!(r.raw_tx.is_empty());
            assert_eq!(r.merkle.unwrap().block_height, 3);
        }
        _ => panic!("expected an uncached record"),
    }
    let cached = photon::record::TransactionResponse {
        raw_tx: vec![9, 9, 9],
        merkle: Some(photon::record::TxMerkleInfo { block_height: 3, merkle: vec![], pos: 0 }),
    };
    db.put_tx(&TX0_ID, &cached).unwrap();
    match db.get_tx(&TX0_ID).unwrap() {
        photon::store::CachedOption::Cached(r) => assert_eq!(r.raw_tx, vec![9, 9, 9]),
        _ => panic!("expected a cached record"),
    }
    match db.get_tx(&TX1_ID).unwrap() {
        photon::store::CachedOption::Missing => {}
        _ => panic!("expected no record"),
    }
}

#[test]
fn sync_position_persists() {
    let mut db = photon::store::Database::try_new();
    assert_eq!(db.get_sync_position().unwrap(), None);
    db.set_sync_position(42).unwrap();
    assert_eq!(db.get_sync_position().unwrap(), Some(42));
    db.set_sync_position(43).unwrap();
    assert_eq!(db.get_sync_position().unwrap(), Some(43));
}

#[test]
fn export_lists_entries_in_key_order() {
    let mut db = photon::store::Database::try_new();
    db.put_header(1, HDR1).unwrap();
    db.put_header(0, HDR0).unwrap();
    db.set_sync_position(2).unwrap();
    let entries = db.export();
    assert_eq!(entries.len(), 3);
    // Header keys (tag 0x68) sort before the sync key (tag 0x73).
    assert_eq!(entries[0].0, vec![0x68, 0, 0, 0, 0]);
    assert_eq!(entries[1].0, vec![0x68, 0, 0, 0, 1]);
    assert_eq!(entries[2].0, vec![0x73]);
    assert_eq!(entries[2].1, vec![2, 0, 0, 0]);
}

#[test]
fn load_rebuilds_an_exported_table() {
    let mut db = photon::store::Database::try_new();
    db.put_header(0, HDR0).unwrap();
    db.put_header(7, HDR1).unwrap();
    let rec = photon::record::TransactionResponse {
        raw_tx: vec![],
        merkle: Some(photon::record::TxMerkleInfo { block_height: 7, merkle: vec![], pos: 0 }),
    };
    db.put_tx(&TX0_ID, &rec).unwrap();
    db.set_sync_position(8).unwrap();
    let back = photon::store::Database::load(db.export()).expect("valid entries");
    assert_eq!(back.export(), db.export());
    assert_eq!(back.get_header(7).unwrap(), Some(HDR1.to_vec()));
    assert_eq!(back.get_sync_position().unwrap(), Some(8));
}

#[test]
fn load_refuses_entries_no_write_produced() {
    // A transaction-namespace key whose value is no record frame.
    let bad_record = vec![(vec![0x74, 1, 2, 3, 4, 5, 6, 7, 8], vec![0xff, 0xff])];
    assert!(photon::store::Database::load(bad_record).is_err());
    // A sync-position value of the wrong width.
    let bad_sync = vec![(vec![0x73], vec![1, 2, 3])];
    assert!(photon::store::Database::load(bad_sync).is_err());
}
