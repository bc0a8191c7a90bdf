//! Decoding, encoding and identifier tests.

const TX0: &[u8] = &[1, 0, 0, 0, 1, 0, 0, 0, 0, 0, 0, 0, 0, 0, 0, 0, 0, 0, 0, 0, 0, 0, 0, 0, 0, 0, 0, 0, 0, 0, 0, 0, 0, 0, 0, 0, 0, 255, 255, 255, 255, 1, 81, 255, 255, 255, 255, 1, 0, 242, 5, 42, 1, 0, 0, 0, 1, 81, 0, 0, 0, 0];

const TX1: &[u8] = &[1, 0, 0, 0, 1, 0, 0, 0, 0, 0, 0, 0, 0, 0, 0, 0, 0, 0, 0, 0, 0, 0, 0, 0, 0, 0, 0, 0, 0, 0, 0, 0, 0, 0, 0, 0, 0, 255, 255, 255, 255, 1, 82, 255, 255, 255, 255, 1, 0, 249, 2, 149, 0, 0, 0, 0, 1, 82, 0, 0, 0, 0];

const TX2: &[u8] = &[1, 0, 0, 0, 1, 0, 0, 0, 0, 0, 0, 0, 0, 0, 0, 0, 0, 0, 0, 0, 0, 0, 0, 0, 0, 0, 0, 0, 0, 0, 0, 0, 0, 0, 0, 0, 0, 255, 255, 255, 255, 1, 83, 255, 255, 255, 255, 1, 128, 124, 129, 74, 0, 0, 0, 0, 2, 83, 83, 0, 0, 0, 0];

const TXW: &[u8] = &[1, 0, 0, 0, 0, 1, 1, 0, 0, 0, 0, 0, 0, 0, 0, 0, 0, 0, 0, 0, 0, 0, 0, 0, 0, 0, 0, 0, 0, 0, 0, 0, 0, 0, 0, 0, 0, 0, 0, 255, 255, 255, 255, 1, 81, 255, 255, 255, 255, 1, 0, 242, 5, 42, 1, 0, 0, 0, 1, 81, 1, 2, 170, 187, 0, 0, 0, 0];

const TX0_ID: [u8; 32] = [138, 128, 211, 253, 215, 191, 172, 191, 236, 163, 197, 140, 132, 16, 45, 59, 183, 214, 162, 170, 223, 103, 192, 190, 216, 200, 72, 144, 71, 12, 78, 154];

const TX1_ID: [u8; 32] = [71, 149, 166, 89, 252, 188, 242, 142, 130, 3, 199, 242, 215, 79, 52, 115, 236, 178, 235, 131, 143, 189, 11, 78, 25, 191, 254, 107, 179, 254, 147, 59];

const TX2_ID: [u8; 32] = [251, 125, 103, 92, 139, 50, 63, 65, 178, 203, 183, 185, 72, 141, 115, 157, 99, 225, 32, 56, 64, 125, 41, 68, 57, 50, 56, 171, 17, 169, 163, 95];

const TXW_ID: [u8; 32] = [138, 128, 211, 253, 215, 191, 172, 191, 236, 163, 197, 140, 132, 16, 45, 59, 183, 214, 162, 170, 223, 103, 192, 190, 216, 200, 72, 144, 71, 12, 78, 154];

const HDR0: &[u8] = &[0, 1, 2, 3, 4, 5, 6, 7, 8, 9, 10, 11, 12, 13, 14, 15, 16, 17, 18, 19, 20, 21, 22, 23, 24, 25, 26, 27, 28, 29, 30, 31, 32, 33, 34, 35, 36, 37, 38, 39, 40, 41, 42, 43, 44, 45, 46, 47, 48, 49, 50, 51, 52, 53, 54, 55, 56, 57, 58, 59, 60, 61, 62, 63, 64, 65, 66, 67, 68, 69, 70, 71, 72, 73, 74, 75, 76, 77, 78, 79];

const HDR1: &[u8] = &[1, 2, 3, 4, 5, 6, 7, 8, 9, 10, 11, 12, 13, 14, 15, 16, 17, 18, 19, 20, 21, 22, 23, 24, 25, 26, 27, 28, 29, 30, 31, 32, 33, 34, 35, 36, 37, 38, 39, 40, 41, 42, 43, 44, 45, 46, 47, 48, 49, 50, 51, 52, 53, 54, 55, 56, 57, 58, 59, 60, 61, 62, 63, 64, 65, 66, 67, 68, 69, 70, 71, 72, 73, 74, 75, 76, 77, 78, 79, 80];

const HDR2: &[u8] = &[2, 3, 4, 5, 6, 7, 8, 9, 10, 11, 12, 13, 14, 15, 16, 17, 18, 19, 20, 21, 22, 23, 24, 25, 26, 27, 28, 29, 30, 31, 32, 33, 34, 35, 36, 37, 38, 39, 40, 41, 42, 43, 44, 45, 46, 47, 48, 49, 50, 51, 52, 53, 54, 55, 56, 57, 58, 59, 60, 61, 62, 63, 64, 65, 66, 67, 68, 69, 70, 71, 72, 73, 74, 75, 76, 77, 78, 79, 80, 81];

const BLOCK0: &[u8] = &[0, 1, 2, 3, 4, 5, 6, 7, 8, 9, 10, 11, 12, 13, 14, 15, 16, 17, 18, 19, 20, 21, 22, 23, 24, 25, 26, 27, 28, 29, 30, 31, 32, 33, 34, 35, 36, 37, 38, 39, 40, 41, 42, 43, 44, 45, 46, 47, 48, 49, 50, 51, 52, 53, 54, 55, 56, 57, 58, 59, 60, 61, 62, 63, 64, 65, 66, 67, 68, 69, 70, 71, 72, 73, 74, 75, 76, 77, 78, 79, 1, 1, 0, 0, 0, 1, 0, 0, 0, 0, 0, 0, 0, 0, 0, 0, 0, 0, 0, 0, 0, 0, 0, 0, 0, 0, 0, 0, 0, 0, 0, 0, 0, 0, 0, 0, 0, 0, 255, 255, 255, 255, 1, 81, 255, 255, 255, 255, 1, 0, 242, 5, 42, 1, 0, 0, 0, 1, 81, 0, 0, 0, 0];

const BLOCK1: &[u8] = &[1, 2, 3, 4, 5, 6, 7, 8, 9, 10, 11, 12, 13, 14, 15, 16, 17, 18, 19, 20, 21, 22, 23, 24, 25, 26, 27, 28, 29, 30, 31, 32, 33, 34, 35, 36, 37, 38, 39, 40, 41, 42, 43, 44, 45, 46, 47, 48, 49, 50, 51, 52, 53, 54, 55, 56, 57, 58, 59, 60, 61, 62, 63, 64, 65, 66, 67, 68, 69, 70, 71, 72, 73, 74, 75, 76, 77, 78, 79, 80, 1, 1, 0, 0, 0, 1, 0, 0, 0, 0, 0, 0, 0, 0, 0, 0, 0, 0, 0, 0, 0, 0, 0, 0, 0, 0, 0, 0, 0, 0, 0, 0, 0, 0, 0, 0, 0, 0, 255, 255, 255, 255, 1, 82, 255, 255, 255, 255, 1, 0, 249, 2, 149, 0, 0, 0, 0, 1, 82, 0, 0, 0, 0];

const BLOCK2: &[u8] = &[2, 3, 4, 5, 6, 7, 8, 9, 10, 11, 12, 13, 14, 15, 16, 17, 18, 19, 20, 21, 22, 23, 24, 25, 26, 27, 28, 29, 30, 31, 32, 33, 34, 35, 36, 37, 38, 39, 40, 41, 42, 43, 44, 45, 46, 47, 48, 49, 50, 51, 52, 53, 54, 55, 56, 57, 58, 59, 60, 61, 62, 63, 64, 65, 66, 67, 68, 69, 70, 71, 72, 73, 74, 75, 76, 77, 78, 79, 80, 81, 1, 1, 0, 0, 0, 1, 0, 0, 0, 0, 0, 0, 0, 0, 0, 0, 0, 0, 0, 0, 0, 0, 0, 0, 0, 0, 0, 0, 0, 0, 0, 0, 0, 0, 0, 0, 0, 0, 255, 255, 255, 255, 1, 83, 255, 255, 255, 255, 1, 128, 124, 129, 74, 0, 0, 0, 0, 2, 83, 83, 0, 0, 0, 0];

const SHA256D_EMPTY: [u8; 32] = [93, 246, 224, 226, 118, 19, 89, 211, 10, 130, 117, 5, 142, 41, 159, 204, 3, 129, 83, 69, 69, 245, 92, 244, 62, 65, 152, 63, 93, 76, 148, 86];

const SH_51: [u8; 32] = [149, 60, 207, 165, 150, 166, 198, 211, 158, 89, 128, 25, 69, 57, 18, 79, 220, 255, 17, 106, 87, 20, 85, 162, 18, 186, 237, 129, 31, 88, 94, 224];

const DIGEST_T0: [u8; 32] = [75, 65, 158, 158, 1, 225, 128, 235, 54, 142, 48, 31, 175, 161, 246, 50, 254, 116, 198, 99, 215, 16, 174, 37, 92, 144, 160, 160, 90, 107, 159, 211];

const DIGEST_T0_T1: [u8; 32] = [105, 97, 90, 1, 213, 104, 179, 66, 228, 130, 231, 223, 202, 224, 6, 98, 174, 5, 202, 245, 179, 13, 137, 83, 205, 249, 165, 85, 61, 56, 39, 109];

const T0_LT_T1: bool = false;


#[test]
fn compact_size_small_values() {
    assert_eq!(photon::codec::parse_compact(&[0x00], 0), Some((0, 1)));
    assert_eq!(photon::codec::parse_compact(&[0xfc], 0), Some((0xfc, 1)));
    assert_eq!(photon::codec::parse_compact(&[0xfd, 0xfd, 0x00], 0), Some((0xfd, 3)));
    assert_eq!(photon::codec::parse_compact(&[0xfd, 0xff, 0xff], 0), Some((0xffff, 3)));
    assert_eq!(
        photon::codec::parse_compact(&[0xfe, 0x00, 0x00, 0x01, 0x00], 0),
        Some((0x10000, 5))
    );
    assert_eq!(photon::codec::parse_compact(&[], 0), None);
}

#[test]
fn compact_size_rejects_non_minimal() {
    // 5 must be a single byte, not a 0xfd form.
    assert_eq!(photon::codec::parse_compact(&[0xfd, 0x05, 0x00], 0), None);
    assert_eq!(photon::codec::parse_compact(&[0xfe, 0x05, 0x00, 0x00, 0x00], 0), None);
}

#[test]
fn compact_size_round_trips() {
    for v in [0u64, 1, 0xfc, 0xfd, 0xffff, 0x10000, 0xffff_ffff, 0x1_0000_0000, u64::MAX] {
        let mut out = Vec::new();
        photon::codec::push_compact(&mut out, v);
        assert_eq!(photon::codec::parse_compact(&out, 0), Some((v, out.len())));
    }
}

#[test]
fn hex_encodes_lower_case() {
    assert_eq!(photon::hex::hex_encode(&[]), Vec::<u8>::new());
    assert_eq!(photon::hex::hex_encode(&[0x00, 0xff, 0x1a]), b"00ff1a".to_vec());
}

#[test]
fn hex_decodes_and_rejects() {
    assert_eq!(photon::hex::hex_decode(b"00ff1a"), Some(vec![0x00, 0xff, 0x1a]));
    assert_eq!(photon::hex::hex_decode(b"AbCd"), Some(vec![0xab, 0xcd]));
    assert_eq!(photon::hex::hex_decode(b"abc"), None);
    assert_eq!(photon::hex::hex_decode(b"zz"), None);
}

#[test]
fn sha256d_matches_known_vector() {
    let h = photon::hashes::sha256d(&[]);
    assert_eq!(h, SHA256D_EMPTY);
}

#[test]
fn reverse_id_reverses() {
    let mut id = [0u8; 32];
    for i in 0..32 {
        id[i] = i as u8;
    }
    let r = photon::hashes::reverse_id(&id);
    for i in 0..32 {
        assert_eq!(r[i], (31 - i) as u8);
    }
}

#[test]
fn legacy_transaction_decodes() {
    let tx = photon::codec::decode_transaction(TX0).expect("decode");
    assert_eq!(tx.version, 1);
    assert_eq!(tx.inputs.len(), 1);
    assert_eq!(tx.inputs[0].script, vec![0x51]);
    assert_eq!(tx.inputs[0].sequence, 0xffff_ffff);
    assert_eq!(tx.outputs.len(), 1);
    assert_eq!(tx.outputs[0].value, 5_000_000_000);
    assert_eq!(tx.outputs[0].script, vec![0x51]);
    assert!(!tx.has_witness);
    assert_eq!(tx.lock_time, 0);
}

#[test]
fn transaction_rejects_trailing_bytes() {
    let mut raw = TX0.to_vec();
    raw.push(0);
    assert!(photon::codec::decode_transaction(&raw).is_none());
}

#[test]
fn txid_is_display_order_double_hash() {
    let tx = photon::codec::decode_transaction(TX0).expect("decode");
    assert_eq!(photon::codec::compute_txid(&tx), TX0_ID);
}

#[test]
fn segwit_transaction_decodes_and_keeps_legacy_id() {
    let tx = photon::codec::decode_transaction(TXW).expect("decode");
    assert!(tx.has_witness);
    assert_eq!(tx.witnesses.len(), 1);
    assert_eq!(tx.witnesses[0], vec![vec![0xaa, 0xbb]]);
    // The id excludes the witness section: same as the legacy form.
    assert_eq!(photon::codec::compute_txid(&tx), TXW_ID);
}

#[test]
fn segwit_rejects_bad_flag() {
    let mut raw = TXW.to_vec();
    raw[5] = 2;
    assert!(photon::codec::decode_transaction(&raw).is_none());
}

#[test]
fn block_decodes_header_and_transactions() {
    let block = photon::codec::decode_block(BLOCK0).expect("decode");
    assert_eq!(block.header, HDR0.to_vec());
    assert_eq!(block.txs.len(), 1);
    assert_eq!(photon::codec::compute_txid(&block.txs[0]), TX0_ID);
}

#[test]
fn block_rejects_short_input() {
    assert!(photon::codec::decode_block(&BLOCK0[..70]).is_none());
}

#[test]
fn script_hashes_cover_outputs() {
    let tx = photon::codec::decode_transaction(TX0).expect("decode");
    let hashes = photon::codec::script_hash_transaction(&tx);
    assert_eq!(hashes.len(), 1);
    assert_eq!(hashes[0], SH_51);
}

#[test]
fn record_frame_round_trips() {
    let rec = photon::record::TransactionResponse {
        raw_tx: vec![1, 2, 3],
        merkle: Some(photon::record::TxMerkleInfo {
            block_height: 7,
            merkle: vec![vec![9, 9], vec![]],
            pos: 3,
        }),
    };
    let bytes = photon::record::encode_record(&rec);
    let back = photon::record::decode_record(&bytes).expect("decode");
    assert_eq!(back.raw_tx, vec![1, 2, 3]);
    let m = back.merkle.expect("merkle");
    assert_eq!(m.block_height, 7);
    assert_eq!(m.merkle, vec![vec![9, 9], vec![]]);
    assert_eq!(m.pos, 3);
}

#[test]
fn record_frame_without_merkle_round_trips() {
    let rec = photon::record::TransactionResponse { raw_tx: vec![], merkle: None };
    let bytes = photon::record::encode_record(&rec);
    let back = photon::record::decode_record(&bytes).expect("decode");
    assert!(back.raw_tx.is_empty());
    assert!(back.merkle.is_none());
}

#[test]
fn record_frame_rejects_trailing_bytes() {
    let rec = photon::record::TransactionResponse { raw_tx: vec![1], merkle: None };
    let mut bytes = photon::record::encode_record(&rec);
    bytes.push(0);
    assert!(photon::record::decode_record(&bytes).is_none());
}

#[test]
fn segwit_rejects_all_empty_witnesses() {
    // The witness form with inputs but only empty stacks is not a
    // valid encoding.
    const TX_EMPTY_WITNESS: &[u8] = &[1, 0, 0, 0, 0, 1, 1, 0, 0, 0, 0, 0, 0, 0, 0, 0, 0, 0, 0, 0, 0, 0, 0, 0, 0, 0, 0, 0, 0, 0, 0, 0, 0, 0, 0, 0, 0, 0, 0, 255, 255, 255, 255, 1, 81, 255, 255, 255, 255, 1, 0, 242, 5, 42, 1, 0, 0, 0, 1, 81, 0, 0, 0, 0, 0];
    assert!(photon::codec::decode_transaction(TX_EMPTY_WITNESS).is_none());
}
