//! The framed transaction record persisted under a transaction-id
//! prefix: optional raw transaction bytes (empty until a client fetch
//! caches them), the containing block height, the position within that
//! block, and reserved Merkle-path siblings. The spec functions define
//! the frame; encoding and decoding are proved inverse.

use vstd::prelude::*;

use crate::codec::{compact_bytes, le32_at, le32_bytes, push_bytes, push_compact, push_le32,
    read_le32, spec_parse_compact, copy_range, parse_compact, bytes_views,
    lemma_le32_encoding, lemma_parse_compact_encoding};

verus! {

/// Merkle placement of a transaction: its containing block height,
/// its position in that block, and the reserved path siblings.
pub struct TxMerkleInfo {
    pub block_height: u32,
    /// Reserved: the Merkle-path siblings, none yet produced.
    pub merkle: Vec<Vec<u8>>,
    pub pos: u32,
}

/// Mathematical model of [`TxMerkleInfo`].
pub ghost struct TxMerkleInfoModel {
    pub block_height: u32,
    pub merkle: Seq<Seq<u8>>,
    pub pos: u32,
}

impl View for TxMerkleInfo {
    type V = TxMerkleInfoModel;

    open spec fn view(&self) -> TxMerkleInfoModel {
        TxMerkleInfoModel {
            block_height: self.block_height,
            merkle: bytes_views(self.merkle@),
            pos: self.pos,
        }
    }
}

/// The framed transaction record. An empty `raw_tx` means indexed but
/// not cached.
pub struct TransactionResponse {
    pub raw_tx: Vec<u8>,
    pub merkle: Option<TxMerkleInfo>,
}

/// Mathematical model of [`TransactionResponse`].
pub ghost struct TransactionResponseModel {
    pub raw_tx: Seq<u8>,
    pub merkle: Option<TxMerkleInfoModel>,
}

impl View for TransactionResponse {
    type V = TransactionResponseModel;

    open spec fn view(&self) -> TransactionResponseModel {
        TransactionResponseModel {
            raw_tx: self.raw_tx@,
            merkle: match self.merkle {
                Some(ref m) => Some(m@),
                None => None,
            },
        }
    }
}

/// The concatenated length-prefixed encodings of the path siblings.
pub open spec fn ser_siblings(s: Seq<Seq<u8>>) -> Seq<u8>
    decreases s.len(),
{
    if s.len() == 0 {
        Seq::<u8>::empty()
    } else {
        compact_bytes(s.first().len() as u64) + s.first() + ser_siblings(s.drop_first())
    }
}

/// The frame of a record: the length-prefixed raw bytes, then either a
/// zero byte (no placement) or a one byte followed by the height, the
/// position, and the length-prefixed sibling list.
pub open spec fn record_bytes(r: TransactionResponseModel) -> Seq<u8> {
    compact_bytes(r.raw_tx.len() as u64) + r.raw_tx + (match r.merkle {
        None => seq![0u8],
        Some(m) => seq![1u8] + le32_bytes(m.block_height) + le32_bytes(m.pos) + compact_bytes(
            m.merkle.len() as u64,
        ) + ser_siblings(m.merkle),
    })
}

/// Parse the sibling list: `n` length-prefixed items at `i`.
pub open spec fn spec_parse_siblings(b: Seq<u8>, i: int, n: nat) -> Option<(Seq<Seq<u8>>, int)>
    decreases n,
{
    if n == 0 {
        Some((Seq::<Seq<u8>>::empty(), i))
    } else {
        match spec_parse_compact(b, i) {
            None => None,
            Some((len, j)) => if j + len <= b.len() {
                match spec_parse_siblings(b, j + len, (n - 1) as nat) {
                    None => None,
                    Some((xs, e)) => Some((seq![b.subrange(j, j + len)] + xs, e)),
                }
            } else {
                None
            },
        }
    }
}

/// Parse a record frame, requiring the whole buffer to be consumed.
pub open spec fn spec_decode_record(b: Seq<u8>) -> Option<TransactionResponseModel> {
    match spec_parse_compact(b, 0) {
        None => None,
        Some((len, j)) => if j + len + 1 <= b.len() {
            let raw_tx = b.subrange(j, j + len);
            let t = j + len;
            if b[t] == 0 {
                if t + 1 == b.len() {
                    Some(TransactionResponseModel { raw_tx, merkle: None })
                } else {
                    None
                }
            } else if b[t] == 1 {
                if t + 9 <= b.len() {
                    match spec_parse_compact(b, t + 9) {
                        None => None,
                        Some((n, j2)) => match spec_parse_siblings(b, j2, n as nat) {
                            None => None,
                            Some((sibs, e)) => if e == b.len() {
                                Some(
                                    TransactionResponseModel {
                                        raw_tx,
                                        merkle: Some(
                                            TxMerkleInfoModel {
                                                block_height: le32_at(b, t + 1) as u32,
                                                merkle: sibs,
                                                pos: le32_at(b, t + 5) as u32,
                                            },
                                        ),
                                    },
                                )
                            } else {
                                None
                            },
                        },
                    }
                } else {
                    None
                }
            } else {
                None
            }
        } else {
            None
        },
    }
}

/// Encode a record frame.
pub fn encode_record(r: &TransactionResponse) -> (out: Vec<u8>)
    ensures
        out@ == record_bytes(r@),
{
    let mut out: Vec<u8> = Vec::new();
    push_compact(&mut out, r.raw_tx.len() as u64);
    push_bytes(&mut out, &r.raw_tx);
    match r.merkle {
        None => {
            out.push(0u8);
            assert(out@ =~= record_bytes(r@));
        },
        Some(ref m) => {
            out.push(1u8);
            push_le32(&mut out, m.block_height);
            push_le32(&mut out, m.pos);
            push_compact(&mut out, m.merkle.len() as u64);
            let ghost sibs = bytes_views(m.merkle@);
            let ghost prefix = out@;
            assert(out@ =~= prefix + ser_siblings(sibs.take(0)));
            let n = m.merkle.len();
            let mut k: usize = 0;
            while k < n
                invariant
                    k <= n,
                    n == m.merkle@.len(),
                    sibs == bytes_views(m.merkle@),
                    out@ == prefix + ser_siblings(sibs.take(k as int)),
                decreases n - k,
            {
                push_compact(&mut out, m.merkle[k].len() as u64);
                push_bytes(&mut out, &m.merkle[k]);
                proof {
                    lemma_ser_siblings_take(sibs, k as int);
                    assert(sibs[k as int] == m.merkle@[k as int]@);
                }
                assert(out@ =~= prefix + ser_siblings(sibs.take(k + 1)));
                k = k + 1;
            }
            assert(sibs.take(n as int) =~= sibs);
            assert(out@ =~= record_bytes(r@));
        },
    }
    out
}

/// Serializing one more sibling appends its encoding.
pub proof fn lemma_ser_siblings_take(s: Seq<Seq<u8>>, k: int)
    requires
        0 <= k < s.len(),
    ensures
        ser_siblings(s.take(k + 1)) == ser_siblings(s.take(k)) + (compact_bytes(
            s[k].len() as u64,
        ) + s[k]),
    decreases k,
{
    if k == 0 {
        assert(s.take(1) =~= seq![s[0]]);
        assert(s.take(0) =~= Seq::<Seq<u8>>::empty());
        assert(seq![s[0]].drop_first() =~= Seq::<Seq<u8>>::empty());
        assert((compact_bytes(s[0].len() as u64) + s[0]) + Seq::<u8>::empty() =~= compact_bytes(
            s[0].len() as u64,
        ) + s[0]);
        assert(Seq::<u8>::empty() + (compact_bytes(s[0].len() as u64) + s[0]) =~= compact_bytes(
            s[0].len() as u64,
        ) + s[0]);
    } else {
        let t = s.drop_first();
        lemma_ser_siblings_take(t, k - 1);
        assert(s.take(k + 1).drop_first() =~= t.take(k));
        assert(s.take(k).drop_first() =~= t.take(k - 1));
        assert(s.take(k + 1).first() == s[0]);
        assert(s.take(k).first() == s[0]);
        assert(t[k - 1] == s[k]);
        let h = compact_bytes(s[0].len() as u64) + s[0];
        let x = compact_bytes(s[k].len() as u64) + s[k];
        assert(h + (ser_siblings(t.take(k - 1)) + x) =~= (h + ser_siblings(t.take(k - 1))) + x);
    }
}

/// Decode a record frame.
pub fn decode_record(b: &Vec<u8>) -> (r: Option<TransactionResponse>)
    ensures
        r is Some <==> spec_decode_record(b@) is Some,
        r matches Some(rec) ==> spec_decode_record(b@) == Some(rec@),
{
    match parse_compact(b.as_slice(), 0) {
        None => None,
        Some((len, j)) => {
            if len > (b.len() - j) as u64 {
                return None;
            }
            let t = j + (len as usize);
            if b.len() - t < 1 {
                return None;
            }
            let raw_tx = copy_range(b.as_slice(), j, t);
            let tag = b[t];
            if tag == 0 {
                if t + 1 == b.len() {
                    Some(TransactionResponse { raw_tx, merkle: None })
                } else {
                    None
                }
            } else if tag == 1 {
                if b.len() - t < 9 {
                    return None;
                }
                let block_height = read_le32(b.as_slice(), t + 1) as u32;
                let pos = read_le32(b.as_slice(), t + 5) as u32;
                match parse_compact(b.as_slice(), t + 9) {
                    None => None,
                    Some((n, j2)) => match parse_siblings(b.as_slice(), j2, n) {
                        None => None,
                        Some((sibs, e)) => {
                            if e == b.len() {
                                Some(
                                    TransactionResponse {
                                        raw_tx,
                                        merkle: Some(
                                            TxMerkleInfo { block_height, merkle: sibs, pos },
                                        ),
                                    },
                                )
                            } else {
                                None
                            }
                        },
                    },
                }
            } else {
                None
            }
        },
    }
}

/// Parse `n` length-prefixed siblings.
pub fn parse_siblings(b: &[u8], i: usize, n: u64) -> (r: Option<(Vec<Vec<u8>>, usize)>)
    requires
        i <= b@.len(),
    ensures
        r is Some <==> spec_parse_siblings(b@, i as int, n as nat) is Some,
        r matches Some(p) ==> spec_parse_siblings(b@, i as int, n as nat) == Some(
            (bytes_views(p.0@), p.1 as int),
        ),
        r matches Some(p) ==> i <= p.1 <= b@.len(),
    decreases n,
{
    if n == 0 {
        let v: Vec<Vec<u8>> = Vec::new();
        assert(bytes_views(v@) =~= Seq::<Seq<u8>>::empty());
        return Some((v, i));
    }
    match parse_compact(b, i) {
        None => None,
        Some((len, j)) => {
            if len > (b.len() - j) as u64 {
                return None;
            }
            let j2 = j + (len as usize);
            let item = copy_range(b, j, j2);
            match parse_siblings(b, j2, n - 1) {
                None => None,
                Some((xs, e)) => {
                    let ghost pre = xs@;
                    let ghost xv = item@;
                    let mut xs = xs;
                    xs.insert(0, item);
                    assert(bytes_views(xs@) =~= seq![xv] + bytes_views(pre));
                    Some((xs, e))
                },
            }
        },
    }
}

} // verus!

verus! {

/// Parsing at the site of an encoded sibling list yields the encoded
/// items.
pub proof fn lemma_parse_siblings_encoding(b: Seq<u8>, i: int, s: Seq<Seq<u8>>)
    requires
        0 <= i,
        forall|k: int| 0 <= k < s.len() ==> (#[trigger] s[k]).len() <= u64::MAX,
        i + ser_siblings(s).len() <= b.len(),
        b.subrange(i, i + ser_siblings(s).len() as int) == ser_siblings(s),
    ensures
        spec_parse_siblings(b, i, s.len()) == Some((s, i + ser_siblings(s).len() as int)),
    decreases s.len(),
{
    if s.len() == 0 {
    } else {
        let x = s.first();
        let c = compact_bytes(x.len() as u64);
        let rest = ser_siblings(s.drop_first());
        let whole = ser_siblings(s);
        assert(whole == (c + x) + rest);
        assert forall|j: int| 0 <= j < whole.len() implies b[i + j] == #[trigger] whole[j] by {
            assert(b.subrange(i, i + whole.len() as int)[j] == whole[j]);
        }
        assert forall|j: int| 0 <= j < c.len() implies #[trigger] b.subrange(
            i,
            i + c.len() as int,
        )[j] == c[j] by {
            assert(whole[j] == (c + x)[j]);
        }
        assert(b.subrange(i, i + c.len() as int) =~= c);
        lemma_parse_compact_encoding(b, i, x.len() as u64);
        let j0 = i + c.len() as int;
        assert forall|j: int| 0 <= j < x.len() implies #[trigger] b.subrange(
            j0,
            j0 + x.len() as int,
        )[j] == x[j] by {
            assert(whole[c.len() + j] == (c + x)[c.len() + j]);
            assert(b[i + (c.len() + j)] == whole[c.len() + j]);
        }
        assert(b.subrange(j0, j0 + x.len() as int) =~= x);
        let j1 = j0 + x.len() as int;
        assert forall|j: int| 0 <= j < rest.len() implies #[trigger] b.subrange(
            j1,
            j1 + rest.len() as int,
        )[j] == rest[j] by {
            assert(whole[(c.len() + x.len()) + j] == rest[j]);
            assert(b[i + ((c.len() + x.len()) + j)] == whole[(c.len() + x.len()) + j]);
        }
        assert(b.subrange(j1, j1 + rest.len() as int) =~= rest);
        assert(forall|k: int| 0 <= k < s.drop_first().len() ==> (#[trigger] s.drop_first()[
            k
        ]).len() <= u64::MAX);
        lemma_parse_siblings_encoding(b, j1, s.drop_first());
        assert(seq![x] + s.drop_first() =~= s);
    }
}

/// Decoding an encoded record yields the record: the frame round
/// trips, so a record read back from the store is the record that was
/// written.
#[verifier::rlimit(60)]
pub proof fn lemma_record_roundtrip(m: TransactionResponseModel)
    requires
        m.raw_tx.len() <= u64::MAX,
        m.merkle matches Some(mm) ==> mm.merkle.len() <= u64::MAX && forall|k: int|
            0 <= k < mm.merkle.len() ==> (#[trigger] mm.merkle[k]).len() <= u64::MAX,
    ensures
        spec_decode_record(record_bytes(m)) == Some(m),
{
    let b = record_bytes(m);
    let c = compact_bytes(m.raw_tx.len() as u64);
    let tail: Seq<u8> = match m.merkle {
        None => seq![0u8],
        Some(mm) => seq![1u8] + le32_bytes(mm.block_height) + le32_bytes(mm.pos) + compact_bytes(
            mm.merkle.len() as u64,
        ) + ser_siblings(mm.merkle),
    };
    assert(b == (c + m.raw_tx) + tail);
    assert forall|j: int| 0 <= j < c.len() implies #[trigger] b.subrange(0, c.len() as int)[j]
        == c[j] by {
        assert(b[j] == (c + m.raw_tx)[j]);
    }
    assert(b.subrange(0, c.len() as int) =~= c);
    lemma_parse_compact_encoding(b, 0, m.raw_tx.len() as u64);
    let j0 = c.len() as int;
    assert forall|j: int| 0 <= j < m.raw_tx.len() implies #[trigger] b.subrange(
        j0,
        j0 + m.raw_tx.len() as int,
    )[j] == m.raw_tx[j] by {
        assert(b[j0 + j] == (c + m.raw_tx)[j0 + j]);
    }
    assert(b.subrange(j0, j0 + m.raw_tx.len() as int) =~= m.raw_tx);
    let t = j0 + m.raw_tx.len() as int;
    assert(b[t] == tail[0]);
    match m.merkle {
        None => {
            assert(tail[0] == 0);
            assert(t + 1 == b.len());
        },
        Some(mm) => {
            let h1 = seq![1u8];
            let h2 = le32_bytes(mm.block_height);
            let h3 = le32_bytes(mm.pos);
            let h4 = compact_bytes(mm.merkle.len() as u64);
            let h5 = ser_siblings(mm.merkle);
            assert(tail == (((h1 + h2) + h3) + h4) + h5);
            assert(tail[0] == 1) by {
                assert(tail[0] == h1[0]);
            }
            assert forall|j: int| 0 <= j < tail.len() implies b[t + j] == #[trigger] tail[j] by {
            }
            assert forall|j: int| 0 <= j < 4 implies #[trigger] b.subrange(t + 1, t + 5)[j]
                == h2[j] by {
                assert(tail[1 + j] == h2[j]);
                assert(b[t + (1 + j)] == tail[1 + j]);
            }
            assert(b.subrange(t + 1, t + 5) =~= h2);
            lemma_le32_encoding(b, t + 1, mm.block_height);
            assert forall|j: int| 0 <= j < 4 implies #[trigger] b.subrange(t + 5, t + 9)[j]
                == h3[j] by {
                assert(tail[5 + j] == h3[j]);
                assert(b[t + (5 + j)] == tail[5 + j]);
            }
            assert(b.subrange(t + 5, t + 9) =~= h3);
            lemma_le32_encoding(b, t + 5, mm.pos);
            assert forall|j: int| 0 <= j < h4.len() implies #[trigger] b.subrange(
                t + 9,
                t + 9 + h4.len() as int,
            )[j] == h4[j] by {
                assert(tail[9 + j] == h4[j]);
                assert(b[t + (9 + j)] == tail[9 + j]);
            }
            assert(b.subrange(t + 9, t + 9 + h4.len() as int) =~= h4);
            lemma_parse_compact_encoding(b, t + 9, mm.merkle.len() as u64);
            let j2 = t + 9 + h4.len() as int;
            assert forall|j: int| 0 <= j < h5.len() implies #[trigger] b.subrange(
                j2,
                j2 + h5.len() as int,
            )[j] == h5[j] by {
                assert(tail[(9 + h4.len()) + j] == h5[j]);
                assert(b[t + ((9 + h4.len()) + j)] == tail[(9 + h4.len()) + j]);
            }
            assert(b.subrange(j2, j2 + h5.len() as int) =~= h5);
            lemma_parse_siblings_encoding(b, j2, mm.merkle);
            assert(j2 + h5.len() == b.len());
        },
    }
}

} // verus!
