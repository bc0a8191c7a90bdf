//! Consensus decoding of blocks and transactions: little-endian
//! integers, the compact-size count prefix, transaction inputs and
//! outputs, the optional witness section, and the 80-byte header. The
//! spec functions define the wire format; the executable parsers and
//! encoders are proved against them.

use vstd::prelude::*;

use crate::hashes::{reverse_id, reversed, sha256d, sha256d_of};

verus! {

// ---------------------------------------------------------------------
// Little-endian integers
// ---------------------------------------------------------------------

/// The value of the two little-endian bytes at `i`.
pub open spec fn le16_at(b: Seq<u8>, i: int) -> int {
    b[i] as int + 0x100 * (b[i + 1] as int)
}

/// The value of the four little-endian bytes at `i`.
pub open spec fn le32_at(b: Seq<u8>, i: int) -> int {
    b[i] as int + 0x100 * (b[i + 1] as int) + 0x1_0000 * (b[i + 2] as int) + 0x100_0000 * (b[
        i + 3
    ] as int)
}

/// The value of the eight little-endian bytes at `i`.
pub open spec fn le64_at(b: Seq<u8>, i: int) -> int {
    le32_at(b, i) + 0x1_0000_0000 * le32_at(b, i + 4)
}

/// The four-byte little-endian encoding of `x`.
pub open spec fn le32_bytes(x: u32) -> Seq<u8> {
    seq![
        (x & 0xff) as u8,
        ((x >> 8) & 0xff) as u8,
        ((x >> 16) & 0xff) as u8,
        ((x >> 24) & 0xff) as u8,
    ]
}

/// The four-byte big-endian encoding of `x`.
pub open spec fn be32_bytes(x: u32) -> Seq<u8> {
    seq![
        ((x >> 24) & 0xff) as u8,
        ((x >> 16) & 0xff) as u8,
        ((x >> 8) & 0xff) as u8,
        (x & 0xff) as u8,
    ]
}

/// Read a 16-bit little-endian integer.
pub fn read_le16(b: &[u8], i: usize) -> (r: u64)
    requires
        i + 2 <= b@.len(),
    ensures
        r as int == le16_at(b@, i as int),
        r <= 0xffff,
{
    b[i] as u64 + 0x100 * (b[i + 1] as u64)
}

/// Read a 32-bit little-endian integer.
pub fn read_le32(b: &[u8], i: usize) -> (r: u64)
    requires
        i + 4 <= b@.len(),
    ensures
        r as int == le32_at(b@, i as int),
        r <= 0xffff_ffff,
{
    b[i] as u64 + 0x100 * (b[i + 1] as u64) + 0x1_0000 * (b[i + 2] as u64) + 0x100_0000 * (b[i
        + 3] as u64)
}

/// Read a 64-bit little-endian integer.
pub fn read_le64(b: &[u8], i: usize) -> (r: u64)
    requires
        i + 8 <= b@.len(),
    ensures
        r as int == le64_at(b@, i as int),
{
    let n = b.len();
    let lo = read_le32(b, i);
    let hi = read_le32(b, i + 4);
    assert(lo + 0x1_0000_0000 * hi <= u64::MAX) by (nonlinear_arith)
        requires
            lo <= 0xffff_ffff,
            hi <= 0xffff_ffff,
    ;
    lo + 0x1_0000_0000 * hi
}

/// Append the four-byte little-endian encoding of `x` to `out`.
pub fn push_le32(out: &mut Vec<u8>, x: u32)
    ensures
        final(out)@ == old(out)@ + le32_bytes(x),
{
    out.push((x & 0xff) as u8);
    out.push(((x >> 8) & 0xff) as u8);
    out.push(((x >> 16) & 0xff) as u8);
    out.push(((x >> 24) & 0xff) as u8);
    assert(final(out)@ =~= old(out)@ + le32_bytes(x));
}

/// Append the four-byte big-endian encoding of `x` to `out`.
pub fn push_be32(out: &mut Vec<u8>, x: u32)
    ensures
        final(out)@ == old(out)@ + be32_bytes(x),
{
    out.push(((x >> 24) & 0xff) as u8);
    out.push(((x >> 16) & 0xff) as u8);
    out.push(((x >> 8) & 0xff) as u8);
    out.push((x & 0xff) as u8);
    assert(final(out)@ =~= old(out)@ + be32_bytes(x));
}

// ---------------------------------------------------------------------
// Compact-size counts
// ---------------------------------------------------------------------

/// Parse the compact-size count at `i`: a one-byte value below 0xfd,
/// or a 0xfd/0xfe/0xff tag followed by a little-endian integer that
/// must be in minimal form. Returns the value and the index just past
/// the encoding.
pub open spec fn spec_parse_compact(b: Seq<u8>, i: int) -> Option<(u64, int)> {
    if i < 0 || i >= b.len() {
        None
    } else if b[i] < 0xfd {
        Some((b[i] as u64, i + 1))
    } else if b[i] == 0xfd {
        if i + 3 <= b.len() && le16_at(b, i + 1) >= 0xfd {
            Some((le16_at(b, i + 1) as u64, i + 3))
        } else {
            None
        }
    } else if b[i] == 0xfe {
        if i + 5 <= b.len() && le32_at(b, i + 1) >= 0x1_0000 {
            Some((le32_at(b, i + 1) as u64, i + 5))
        } else {
            None
        }
    } else {
        if i + 9 <= b.len() && le64_at(b, i + 1) >= 0x1_0000_0000 {
            Some(((le64_at(b, i + 1)) as u64, i + 9))
        } else {
            None
        }
    }
}

/// The minimal compact-size encoding of `x`.
pub open spec fn compact_bytes(x: u64) -> Seq<u8> {
    if x < 0xfd {
        seq![x as u8]
    } else if x <= 0xffff {
        seq![0xfdu8, (x & 0xff) as u8, ((x >> 8) & 0xff) as u8]
    } else if x <= 0xffff_ffff {
        seq![0xfeu8] + le32_bytes(x as u32)
    } else {
        seq![0xffu8] + le32_bytes((x & 0xffff_ffff) as u32) + le32_bytes(((x >> 32)
            & 0xffff_ffff) as u32)
    }
}

/// Parse a compact-size count.
pub fn parse_compact(b: &[u8], i: usize) -> (r: Option<(u64, usize)>)
    requires
        i <= b@.len(),
    ensures
        r is Some <==> spec_parse_compact(b@, i as int) is Some,
        r matches Some(p) ==> spec_parse_compact(b@, i as int) == Some((p.0, p.1 as int)),
        r matches Some(p) ==> i < p.1 <= b@.len(),
{
    if i >= b.len() {
        return None;
    }
    let tag = b[i];
    if tag < 0xfd {
        Some((tag as u64, i + 1))
    } else if tag == 0xfd {
        if b.len() - i >= 3 {
            let v = read_le16(b, i + 1);
            if v >= 0xfd {
                Some((v, i + 3))
            } else {
                None
            }
        } else {
            None
        }
    } else if tag == 0xfe {
        if b.len() - i >= 5 {
            let v = read_le32(b, i + 1);
            if v >= 0x1_0000 {
                Some((v, i + 5))
            } else {
                None
            }
        } else {
            None
        }
    } else {
        if b.len() - i >= 9 {
            let v = read_le64(b, i + 1);
            if v >= 0x1_0000_0000 {
                Some((v, i + 9))
            } else {
                None
            }
        } else {
            None
        }
    }
}

/// Append the minimal compact-size encoding of `x` to `out`.
pub fn push_compact(out: &mut Vec<u8>, x: u64)
    ensures
        final(out)@ == old(out)@ + compact_bytes(x),
{
    if x < 0xfd {
        out.push(x as u8);
        assert(final(out)@ =~= old(out)@ + compact_bytes(x));
    } else if x <= 0xffff {
        out.push(0xfd);
        out.push((x & 0xff) as u8);
        out.push(((x >> 8) & 0xff) as u8);
        assert(final(out)@ =~= old(out)@ + compact_bytes(x));
    } else if x <= 0xffff_ffff {
        out.push(0xfe);
        push_le32(out, x as u32);
        assert(final(out)@ =~= old(out)@ + compact_bytes(x));
    } else {
        out.push(0xff);
        push_le32(out, (x & 0xffff_ffff) as u32);
        push_le32(out, ((x >> 32) & 0xffff_ffff) as u32);
        assert(final(out)@ =~= old(out)@ + compact_bytes(x));
    }
}

} // verus!

verus! {

// ---------------------------------------------------------------------
// Byte-sequence helpers
// ---------------------------------------------------------------------

/// The eight-byte little-endian encoding of `x`.
pub open spec fn le64_bytes(x: u64) -> Seq<u8> {
    le32_bytes((x & 0xffff_ffff) as u32) + le32_bytes(((x >> 32) & 0xffff_ffff) as u32)
}

/// Append the eight-byte little-endian encoding of `x` to `out`.
pub fn push_le64(out: &mut Vec<u8>, x: u64)
    ensures
        final(out)@ == old(out)@ + le64_bytes(x),
{
    push_le32(out, (x & 0xffff_ffff) as u32);
    push_le32(out, ((x >> 32) & 0xffff_ffff) as u32);
    assert(final(out)@ =~= old(out)@ + le64_bytes(x));
}

/// Append a copy of `b` to `out`.
pub fn push_bytes(out: &mut Vec<u8>, b: &Vec<u8>)
    ensures
        final(out)@ == old(out)@ + b@,
{
    let n = b.len();
    let mut k: usize = 0;
    while k < n
        invariant
            k <= n,
            n == b@.len(),
            out@.len() == old(out)@.len() + k,
            out@ == old(out)@ + b@.take(k as int),
        decreases n - k,
    {
        out.push(b[k]);
        assert(out@ =~= old(out)@ + b@.take(k + 1));
        k = k + 1;
    }
    assert(b@.take(n as int) =~= b@);
}

/// Copy the byte range `[i, j)` out of a slice.
pub fn copy_range(b: &[u8], i: usize, j: usize) -> (r: Vec<u8>)
    requires
        i <= j <= b@.len(),
    ensures
        r@ == b@.subrange(i as int, j as int),
{
    let mut r: Vec<u8> = Vec::new();
    let mut k: usize = i;
    while k < j
        invariant
            i <= k <= j <= b@.len(),
            r@.len() == k - i,
            forall|t: int| 0 <= t < k - i ==> r@[t] == b@[i + t],
        decreases j - k,
    {
        r.push(b[k]);
        k = k + 1;
    }
    assert(r@ =~= b@.subrange(i as int, j as int));
    r
}

// ---------------------------------------------------------------------
// Transaction and block data
// ---------------------------------------------------------------------

/// Mathematical model of a transaction input.
pub ghost struct TxInModel {
    /// The 36-byte reference to the spent output.
    pub prev_out: Seq<u8>,
    /// The unlocking script.
    pub script: Seq<u8>,
    /// The sequence field.
    pub sequence: u32,
}

/// Mathematical model of a transaction output.
pub ghost struct TxOutModel {
    /// The amount, in base units.
    pub value: u64,
    /// The raw locking script.
    pub script: Seq<u8>,
}

/// Mathematical model of a transaction.
pub ghost struct TxModel {
    pub version: u32,
    pub inputs: Seq<TxInModel>,
    pub outputs: Seq<TxOutModel>,
    /// One witness stack per input when the witness section is present.
    pub witnesses: Seq<Seq<Seq<u8>>>,
    pub has_witness: bool,
    pub lock_time: u32,
}

/// Mathematical model of a block: the 80-byte header and the
/// transactions in order.
pub ghost struct BlockModel {
    pub header: Seq<u8>,
    pub txs: Seq<TxModel>,
}

/// A transaction input.
pub struct TxIn {
    /// The 36-byte reference to the spent output.
    pub prev_out: Vec<u8>,
    /// The unlocking script.
    pub script: Vec<u8>,
    /// The sequence field.
    pub sequence: u32,
}

/// A transaction output.
pub struct TxOut {
    /// The amount, in base units.
    pub value: u64,
    /// The raw locking script.
    pub script: Vec<u8>,
}

/// A decoded transaction.
pub struct Transaction {
    pub version: u32,
    pub inputs: Vec<TxIn>,
    pub outputs: Vec<TxOut>,
    /// One witness stack per input when the witness section is present.
    pub witnesses: Vec<Vec<Vec<u8>>>,
    pub has_witness: bool,
    pub lock_time: u32,
}

/// A decoded block: the raw 80-byte header and the transactions in
/// order.
pub struct Block {
    pub header: Vec<u8>,
    pub txs: Vec<Transaction>,
}

impl View for TxIn {
    type V = TxInModel;

    open spec fn view(&self) -> TxInModel {
        TxInModel { prev_out: self.prev_out@, script: self.script@, sequence: self.sequence }
    }
}

impl View for TxOut {
    type V = TxOutModel;

    open spec fn view(&self) -> TxOutModel {
        TxOutModel { value: self.value, script: self.script@ }
    }
}

/// The models of a sequence of inputs.
pub open spec fn txin_views(s: Seq<TxIn>) -> Seq<TxInModel> {
    s.map_values(|x: TxIn| x@)
}

/// The models of a sequence of outputs.
pub open spec fn txout_views(s: Seq<TxOut>) -> Seq<TxOutModel> {
    s.map_values(|x: TxOut| x@)
}

/// The contents of a sequence of byte vectors.
pub open spec fn bytes_views(s: Seq<Vec<u8>>) -> Seq<Seq<u8>> {
    s.map_values(|x: Vec<u8>| x@)
}

/// The contents of a sequence of witness stacks.
pub open spec fn stack_views(s: Seq<Vec<Vec<u8>>>) -> Seq<Seq<Seq<u8>>> {
    s.map_values(|x: Vec<Vec<u8>>| bytes_views(x@))
}

impl View for Transaction {
    type V = TxModel;

    open spec fn view(&self) -> TxModel {
        TxModel {
            version: self.version,
            inputs: txin_views(self.inputs@),
            outputs: txout_views(self.outputs@),
            witnesses: stack_views(self.witnesses@),
            has_witness: self.has_witness,
            lock_time: self.lock_time,
        }
    }
}

/// The models of a sequence of transactions.
pub open spec fn tx_views(s: Seq<Transaction>) -> Seq<TxModel> {
    s.map_values(|x: Transaction| x@)
}

impl View for Block {
    type V = BlockModel;

    open spec fn view(&self) -> BlockModel {
        BlockModel { header: self.header@, txs: tx_views(self.txs@) }
    }
}

} // verus!

verus! {

// ---------------------------------------------------------------------
// Parsing: specification
// ---------------------------------------------------------------------

/// Parse one transaction input at `i`: a 36-byte previous-output
/// reference, the script with its compact-size length, and the
/// four-byte sequence field.
pub open spec fn spec_parse_txin(b: Seq<u8>, i: int) -> Option<(TxInModel, int)> {
    if i < 0 || i + 36 > b.len() {
        None
    } else {
        match spec_parse_compact(b, i + 36) {
            None => None,
            Some((n, j)) => if j + n + 4 <= b.len() {
                Some(
                    (
                        TxInModel {
                            prev_out: b.subrange(i, i + 36),
                            script: b.subrange(j, j + n),
                            sequence: le32_at(b, j + n) as u32,
                        },
                        j + n + 4,
                    ),
                )
            } else {
                None
            },
        }
    }
}

/// Parse `n` transaction inputs starting at `i`.
pub open spec fn spec_parse_txins(b: Seq<u8>, i: int, n: nat) -> Option<(Seq<TxInModel>, int)>
    decreases n,
{
    if n == 0 {
        Some((Seq::<TxInModel>::empty(), i))
    } else {
        match spec_parse_txin(b, i) {
            None => None,
            Some((x, j)) => match spec_parse_txins(b, j, (n - 1) as nat) {
                None => None,
                Some((xs, e)) => Some((seq![x] + xs, e)),
            },
        }
    }
}

/// Parse one transaction output at `i`: the eight-byte amount and the
/// script with its compact-size length.
pub open spec fn spec_parse_txout(b: Seq<u8>, i: int) -> Option<(TxOutModel, int)> {
    if i < 0 || i + 8 > b.len() {
        None
    } else {
        match spec_parse_compact(b, i + 8) {
            None => None,
            Some((n, j)) => if j + n <= b.len() {
                Some(
                    (
                        TxOutModel { value: le64_at(b, i) as u64, script: b.subrange(j, j + n) },
                        j + n,
                    ),
                )
            } else {
                None
            },
        }
    }
}

/// Parse `n` transaction outputs starting at `i`.
pub open spec fn spec_parse_txouts(b: Seq<u8>, i: int, n: nat) -> Option<(Seq<TxOutModel>, int)>
    decreases n,
{
    if n == 0 {
        Some((Seq::<TxOutModel>::empty(), i))
    } else {
        match spec_parse_txout(b, i) {
            None => None,
            Some((x, j)) => match spec_parse_txouts(b, j, (n - 1) as nat) {
                None => None,
                Some((xs, e)) => Some((seq![x] + xs, e)),
            },
        }
    }
}

/// Parse one length-prefixed witness item at `i`.
pub open spec fn spec_parse_witness_item(b: Seq<u8>, i: int) -> Option<(Seq<u8>, int)> {
    match spec_parse_compact(b, i) {
        None => None,
        Some((n, j)) => if j + n <= b.len() {
            Some((b.subrange(j, j + n), j + n))
        } else {
            None
        },
    }
}

/// Parse `n` witness items starting at `i`.
pub open spec fn spec_parse_witness_items(b: Seq<u8>, i: int, n: nat) -> Option<
    (Seq<Seq<u8>>, int),
>
    decreases n,
{
    if n == 0 {
        Some((Seq::<Seq<u8>>::empty(), i))
    } else {
        match spec_parse_witness_item(b, i) {
            None => None,
            Some((x, j)) => match spec_parse_witness_items(b, j, (n - 1) as nat) {
                None => None,
                Some((xs, e)) => Some((seq![x] + xs, e)),
            },
        }
    }
}

/// Parse one witness stack at `i`: a compact-size item count followed
/// by that many length-prefixed items.
pub open spec fn spec_parse_witness_stack(b: Seq<u8>, i: int) -> Option<(Seq<Seq<u8>>, int)> {
    match spec_parse_compact(b, i) {
        None => None,
        Some((n, j)) => spec_parse_witness_items(b, j, n as nat),
    }
}

/// Parse `n` witness stacks starting at `i`, one per input.
pub open spec fn spec_parse_witnesses(b: Seq<u8>, i: int, n: nat) -> Option<
    (Seq<Seq<Seq<u8>>>, int),
>
    decreases n,
{
    if n == 0 {
        Some((Seq::<Seq<Seq<u8>>>::empty(), i))
    } else {
        match spec_parse_witness_stack(b, i) {
            None => None,
            Some((x, j)) => match spec_parse_witnesses(b, j, (n - 1) as nat) {
                None => None,
                Some((xs, e)) => Some((seq![x] + xs, e)),
            },
        }
    }
}

/// Whether some witness stack is non-empty. A transaction whose
/// witness section carries inputs but only empty stacks is rejected.
pub open spec fn some_stack_nonempty(w: Seq<Seq<Seq<u8>>>) -> bool {
    exists|k: int| 0 <= k < w.len() && w[k].len() > 0
}

/// Parse a transaction at `i`. The four-byte version is followed by
/// the input count; a count of zero marks the witness form, in which a
/// flag byte of one, the true input list, the output list, and one
/// witness stack per input precede the four-byte lock time. Otherwise
/// the inputs, outputs and lock time follow directly.
pub open spec fn spec_parse_tx(b: Seq<u8>, i: int) -> Option<(TxModel, int)> {
    if i < 0 || i + 4 > b.len() {
        None
    } else {
        let version = le32_at(b, i) as u32;
        match spec_parse_compact(b, i + 4) {
            None => None,
            Some((n_in, j)) => if n_in == 0 {
                // Witness marker: a flag byte of one must follow.
                if j < b.len() && b[j] == 1 {
                    match spec_parse_compact(b, j + 1) {
                        None => None,
                        Some((n, j1)) => match spec_parse_txins(b, j1, n as nat) {
                            None => None,
                            Some((ins, j2)) => match spec_parse_compact(b, j2) {
                                None => None,
                                Some((m, j3)) => match spec_parse_txouts(b, j3, m as nat) {
                                    None => None,
                                    Some((outs, j4)) => match spec_parse_witnesses(
                                        b,
                                        j4,
                                        n as nat,
                                    ) {
                                        None => None,
                                        Some((wits, j5)) => if (ins.len() == 0
                                            || some_stack_nonempty(wits)) && j5 + 4 <= b.len() {
                                            Some(
                                                (
                                                    TxModel {
                                                        version,
                                                        inputs: ins,
                                                        outputs: outs,
                                                        witnesses: wits,
                                                        has_witness: true,
                                                        lock_time: le32_at(b, j5) as u32,
                                                    },
                                                    j5 + 4,
                                                ),
                                            )
                                        } else {
                                            None
                                        },
                                    },
                                },
                            },
                        },
                    }
                } else {
                    None
                }
            } else {
                match spec_parse_txins(b, j, n_in as nat) {
                    None => None,
                    Some((ins, j2)) => match spec_parse_compact(b, j2) {
                        None => None,
                        Some((m, j3)) => match spec_parse_txouts(b, j3, m as nat) {
                            None => None,
                            Some((outs, j4)) => if j4 + 4 <= b.len() {
                                Some(
                                    (
                                        TxModel {
                                            version,
                                            inputs: ins,
                                            outputs: outs,
                                            witnesses: Seq::<Seq<Seq<u8>>>::empty(),
                                            has_witness: false,
                                            lock_time: le32_at(b, j4) as u32,
                                        },
                                        j4 + 4,
                                    ),
                                )
                            } else {
                                None
                            },
                        },
                    },
                }
            },
        }
    }
}

/// Parse a block at the start of `b`: the 80-byte header, a
/// compact-size transaction count, and that many transactions.
/// Trailing bytes are permitted.
pub open spec fn spec_parse_txs(b: Seq<u8>, i: int, n: nat) -> Option<(Seq<TxModel>, int)>
    decreases n,
{
    if n == 0 {
        Some((Seq::<TxModel>::empty(), i))
    } else {
        match spec_parse_tx(b, i) {
            None => None,
            Some((x, j)) => match spec_parse_txs(b, j, (n - 1) as nat) {
                None => None,
                Some((xs, e)) => Some((seq![x] + xs, e)),
            },
        }
    }
}

/// Parse a block at the start of `b`.
pub open spec fn spec_parse_block(b: Seq<u8>) -> Option<(BlockModel, int)> {
    if b.len() < 80 {
        None
    } else {
        match spec_parse_compact(b, 80) {
            None => None,
            Some((n, j)) => match spec_parse_txs(b, j, n as nat) {
                None => None,
                Some((txs, e)) => Some((BlockModel { header: b.subrange(0, 80), txs }, e)),
            },
        }
    }
}

} // verus!

verus! {

// ---------------------------------------------------------------------
// Parsing: executable
// ---------------------------------------------------------------------

/// Parse one transaction input.
pub fn parse_txin(b: &[u8], i: usize) -> (r: Option<(TxIn, usize)>)
    requires
        i <= b@.len(),
    ensures
        r is Some <==> spec_parse_txin(b@, i as int) is Some,
        r matches Some(p) ==> spec_parse_txin(b@, i as int) == Some((p.0@, p.1 as int)),
        r matches Some(p) ==> i < p.1 <= b@.len(),
{
    if b.len() - i < 36 {
        return None;
    }
    let prev_out = copy_range(b, i, i + 36);
    match parse_compact(b, i + 36) {
        None => None,
        Some((n, j)) => {
            if n > (b.len() - j) as u64 {
                return None;
            }
            let j2 = j + (n as usize);
            if b.len() - j2 < 4 {
                return None;
            }
            let script = copy_range(b, j, j2);
            let sequence = read_le32(b, j2) as u32;
            Some((TxIn { prev_out, script, sequence }, j2 + 4))
        },
    }
}

/// Parse `n` transaction inputs.
pub fn parse_txins(b: &[u8], i: usize, n: u64) -> (r: Option<(Vec<TxIn>, usize)>)
    requires
        i <= b@.len(),
    ensures
        r is Some <==> spec_parse_txins(b@, i as int, n as nat) is Some,
        r matches Some(p) ==> spec_parse_txins(b@, i as int, n as nat) == Some(
            (txin_views(p.0@), p.1 as int),
        ),
        r matches Some(p) ==> i <= p.1 <= b@.len(),
    decreases n,
{
    if n == 0 {
        let v: Vec<TxIn> = Vec::new();
        assert(txin_views(v@) =~= Seq::<TxInModel>::empty());
        return Some((v, i));
    }
    match parse_txin(b, i) {
        None => None,
        Some((x, j)) => match parse_txins(b, j, n - 1) {
            None => None,
            Some((xs, e)) => {
                let ghost pre = xs@;
                let mut xs = xs;
                xs.insert(0, x);
                assert(txin_views(xs@) =~= seq![x@] + txin_views(pre));
                Some((xs, e))
            },
        },
    }
}

/// Parse one transaction output.
pub fn parse_txout(b: &[u8], i: usize) -> (r: Option<(TxOut, usize)>)
    requires
        i <= b@.len(),
    ensures
        r is Some <==> spec_parse_txout(b@, i as int) is Some,
        r matches Some(p) ==> spec_parse_txout(b@, i as int) == Some((p.0@, p.1 as int)),
        r matches Some(p) ==> i < p.1 <= b@.len(),
{
    if b.len() - i < 8 {
        return None;
    }
    let value = read_le64(b, i);
    match parse_compact(b, i + 8) {
        None => None,
        Some((n, j)) => {
            if n > (b.len() - j) as u64 {
                return None;
            }
            let j2 = j + (n as usize);
            let script = copy_range(b, j, j2);
            Some((TxOut { value, script }, j2))
        },
    }
}

/// Parse `n` transaction outputs.
pub fn parse_txouts(b: &[u8], i: usize, n: u64) -> (r: Option<(Vec<TxOut>, usize)>)
    requires
        i <= b@.len(),
    ensures
        r is Some <==> spec_parse_txouts(b@, i as int, n as nat) is Some,
        r matches Some(p) ==> spec_parse_txouts(b@, i as int, n as nat) == Some(
            (txout_views(p.0@), p.1 as int),
        ),
        r matches Some(p) ==> i <= p.1 <= b@.len(),
    decreases n,
{
    if n == 0 {
        let v: Vec<TxOut> = Vec::new();
        assert(txout_views(v@) =~= Seq::<TxOutModel>::empty());
        return Some((v, i));
    }
    match parse_txout(b, i) {
        None => None,
        Some((x, j)) => match parse_txouts(b, j, n - 1) {
            None => None,
            Some((xs, e)) => {
                let ghost pre = xs@;
                let mut xs = xs;
                xs.insert(0, x);
                assert(txout_views(xs@) =~= seq![x@] + txout_views(pre));
                Some((xs, e))
            },
        },
    }
}

/// Parse one length-prefixed witness item.
pub fn parse_witness_item(b: &[u8], i: usize) -> (r: Option<(Vec<u8>, usize)>)
    requires
        i <= b@.len(),
    ensures
        r is Some <==> spec_parse_witness_item(b@, i as int) is Some,
        r matches Some(p) ==> spec_parse_witness_item(b@, i as int) == Some((p.0@, p.1 as int)),
        r matches Some(p) ==> i < p.1 <= b@.len(),
{
    match parse_compact(b, i) {
        None => None,
        Some((n, j)) => {
            if n > (b.len() - j) as u64 {
                return None;
            }
            let j2 = j + (n as usize);
            let item = copy_range(b, j, j2);
            Some((item, j2))
        },
    }
}

/// Parse `n` witness items.
pub fn parse_witness_items(b: &[u8], i: usize, n: u64) -> (r: Option<(Vec<Vec<u8>>, usize)>)
    requires
        i <= b@.len(),
    ensures
        r is Some <==> spec_parse_witness_items(b@, i as int, n as nat) is Some,
        r matches Some(p) ==> spec_parse_witness_items(b@, i as int, n as nat) == Some(
            (bytes_views(p.0@), p.1 as int),
        ),
        r matches Some(p) ==> i <= p.1 <= b@.len(),
    decreases n,
{
    if n == 0 {
        let v: Vec<Vec<u8>> = Vec::new();
        assert(bytes_views(v@) =~= Seq::<Seq<u8>>::empty());
        return Some((v, i));
    }
    match parse_witness_item(b, i) {
        None => None,
        Some((x, j)) => match parse_witness_items(b, j, n - 1) {
            None => None,
            Some((xs, e)) => {
                let ghost pre = xs@;
                let mut xs = xs;
                let ghost xv = x@;
                xs.insert(0, x);
                assert(bytes_views(xs@) =~= seq![xv] + bytes_views(pre));
                Some((xs, e))
            },
        },
    }
}

/// Parse one witness stack.
pub fn parse_witness_stack(b: &[u8], i: usize) -> (r: Option<(Vec<Vec<u8>>, usize)>)
    requires
        i <= b@.len(),
    ensures
        r is Some <==> spec_parse_witness_stack(b@, i as int) is Some,
        r matches Some(p) ==> spec_parse_witness_stack(b@, i as int) == Some(
            (bytes_views(p.0@), p.1 as int),
        ),
        r matches Some(p) ==> i <= p.1 <= b@.len(),
{
    match parse_compact(b, i) {
        None => None,
        Some((n, j)) => parse_witness_items(b, j, n),
    }
}

/// Parse `n` witness stacks, one per input.
pub fn parse_witnesses(b: &[u8], i: usize, n: u64) -> (r: Option<(Vec<Vec<Vec<u8>>>, usize)>)
    requires
        i <= b@.len(),
    ensures
        r is Some <==> spec_parse_witnesses(b@, i as int, n as nat) is Some,
        r matches Some(p) ==> spec_parse_witnesses(b@, i as int, n as nat) == Some(
            (stack_views(p.0@), p.1 as int),
        ),
        r matches Some(p) ==> i <= p.1 <= b@.len(),
    decreases n,
{
    if n == 0 {
        let v: Vec<Vec<Vec<u8>>> = Vec::new();
        assert(stack_views(v@) =~= Seq::<Seq<Seq<u8>>>::empty());
        return Some((v, i));
    }
    match parse_witness_stack(b, i) {
        None => None,
        Some((x, j)) => match parse_witnesses(b, j, n - 1) {
            None => None,
            Some((xs, e)) => {
                let ghost pre = xs@;
                let mut xs = xs;
                let ghost xv = bytes_views(x@);
                xs.insert(0, x);
                assert(stack_views(xs@) =~= seq![xv] + stack_views(pre));
                Some((xs, e))
            },
        },
    }
}

/// Whether any witness stack is non-empty.
pub fn any_stack_nonempty(w: &Vec<Vec<Vec<u8>>>) -> (r: bool)
    ensures
        r == some_stack_nonempty(stack_views(w@)),
{
    let mut k: usize = 0;
    while k < w.len()
        invariant
            k <= w@.len(),
            forall|t: int| 0 <= t < k ==> stack_views(w@)[t].len() == 0,
        decreases w@.len() - k,
    {
        if w[k].len() > 0 {
            assert(stack_views(w@)[k as int].len() > 0);
            return true;
        }
        assert(stack_views(w@)[k as int].len() == 0);
        k = k + 1;
    }
    false
}

} // verus!

verus! {

/// Parse a transaction.
pub fn parse_tx(b: &[u8], i: usize) -> (r: Option<(Transaction, usize)>)
    requires
        i <= b@.len(),
    ensures
        r is Some <==> spec_parse_tx(b@, i as int) is Some,
        r matches Some(p) ==> spec_parse_tx(b@, i as int) == Some((p.0@, p.1 as int)),
        r matches Some(p) ==> i < p.1 <= b@.len(),
{
    if b.len() - i < 4 {
        return None;
    }
    let version = read_le32(b, i) as u32;
    match parse_compact(b, i + 4) {
        None => None,
        Some((n_in, j)) => {
            if n_in == 0 {
                // Witness marker: a flag byte of one must follow.
                if j < b.len() && b[j] == 1 {
                    match parse_compact(b, j + 1) {
                        None => None,
                        Some((n, j1)) => match parse_txins(b, j1, n) {
                            None => None,
                            Some((ins, j2)) => match parse_compact(b, j2) {
                                None => None,
                                Some((m, j3)) => match parse_txouts(b, j3, m) {
                                    None => None,
                                    Some((outs, j4)) => match parse_witnesses(b, j4, n) {
                                        None => None,
                                        Some((wits, j5)) => {
                                            if ins.len() == 0 || any_stack_nonempty(&wits) {
                                                if b.len() - j5 >= 4 {
                                                    let lock_time = read_le32(b, j5) as u32;
                                                    Some(
                                                        (
                                                            Transaction {
                                                                version,
                                                                inputs: ins,
                                                                outputs: outs,
                                                                witnesses: wits,
                                                                has_witness: true,
                                                                lock_time,
                                                            },
                                                            j5 + 4,
                                                        ),
                                                    )
                                                } else {
                                                    None
                                                }
                                            } else {
                                                None
                                            }
                                        },
                                    },
                                },
                            },
                        },
                    }
                } else {
                    None
                }
            } else {
                match parse_txins(b, j, n_in) {
                    None => None,
                    Some((ins, j2)) => match parse_compact(b, j2) {
                        None => None,
                        Some((m, j3)) => match parse_txouts(b, j3, m) {
                            None => None,
                            Some((outs, j4)) => {
                                if b.len() - j4 >= 4 {
                                    let lock_time = read_le32(b, j4) as u32;
                                    let wits: Vec<Vec<Vec<u8>>> = Vec::new();
                                    assert(stack_views(wits@) =~= Seq::<Seq<Seq<u8>>>::empty());
                                    Some(
                                        (
                                            Transaction {
                                                version,
                                                inputs: ins,
                                                outputs: outs,
                                                witnesses: wits,
                                                has_witness: false,
                                                lock_time,
                                            },
                                            j4 + 4,
                                        ),
                                    )
                                } else {
                                    None
                                }
                            },
                        },
                    },
                }
            }
        },
    }
}

/// Parse `n` transactions.
pub fn parse_txs(b: &[u8], i: usize, n: u64) -> (r: Option<(Vec<Transaction>, usize)>)
    requires
        i <= b@.len(),
    ensures
        r is Some <==> spec_parse_txs(b@, i as int, n as nat) is Some,
        r matches Some(p) ==> spec_parse_txs(b@, i as int, n as nat) == Some(
            (tx_views(p.0@), p.1 as int),
        ),
        r matches Some(p) ==> i <= p.1 <= b@.len(),
    decreases n,
{
    if n == 0 {
        let v: Vec<Transaction> = Vec::new();
        assert(tx_views(v@) =~= Seq::<TxModel>::empty());
        return Some((v, i));
    }
    match parse_tx(b, i) {
        None => None,
        Some((x, j)) => match parse_txs(b, j, n - 1) {
            None => None,
            Some((xs, e)) => {
                let ghost pre = xs@;
                let ghost xv = x@;
                let mut xs = xs;
                xs.insert(0, x);
                assert(tx_views(xs@) =~= seq![xv] + tx_views(pre));
                Some((xs, e))
            },
        },
    }
}

/// Decode a transaction from `b`, requiring the whole input to be
/// consumed, as the mempool feed hands over exactly one transaction
/// per frame.
pub fn decode_transaction(b: &[u8]) -> (r: Option<Transaction>)
    ensures
        r matches Some(tx) ==> spec_parse_tx(b@, 0) == Some((tx@, b@.len() as int)),
        r is None ==> spec_parse_tx(b@, 0) is None || (spec_parse_tx(b@, 0) matches Some(p)
            && p.1 != b@.len()),
{
    match parse_tx(b, 0) {
        None => None,
        Some((tx, e)) => {
            if e == b.len() {
                Some(tx)
            } else {
                None
            }
        },
    }
}

/// Decode a block from the start of `b`: the 80-byte header, the
/// transaction count, and the transactions. Trailing bytes are
/// permitted, as the historical fetch path hands over a hex-decoded
/// frame whose length the node controls.
pub fn decode_block(b: &[u8]) -> (r: Option<Block>)
    ensures
        r is Some <==> spec_parse_block(b@) is Some,
        r matches Some(bl) ==> spec_parse_block(b@) matches Some(p) && p.0 == bl@,
{
    if b.len() < 80 {
        return None;
    }
    let header = copy_range(b, 0, 80);
    match parse_compact(b, 80) {
        None => None,
        Some((n, j)) => match parse_txs(b, j, n) {
            None => None,
            Some((txs, _e)) => Some(Block { header, txs }),
        },
    }
}

} // verus!

verus! {

// ---------------------------------------------------------------------
// Canonical serialization and transaction ids
// ---------------------------------------------------------------------

/// The serialization of one input.
pub open spec fn ser_txin(x: TxInModel) -> Seq<u8> {
    x.prev_out + compact_bytes(x.script.len() as u64) + x.script + le32_bytes(x.sequence)
}

/// The serialization of one output.
pub open spec fn ser_txout(x: TxOutModel) -> Seq<u8> {
    le64_bytes(x.value) + compact_bytes(x.script.len() as u64) + x.script
}

/// The concatenated serializations of a sequence of inputs.
pub open spec fn ser_seq_txin(s: Seq<TxInModel>) -> Seq<u8>
    decreases s.len(),
{
    if s.len() == 0 {
        Seq::<u8>::empty()
    } else {
        ser_txin(s.first()) + ser_seq_txin(s.drop_first())
    }
}

/// The concatenated serializations of a sequence of outputs.
pub open spec fn ser_seq_txout(s: Seq<TxOutModel>) -> Seq<u8>
    decreases s.len(),
{
    if s.len() == 0 {
        Seq::<u8>::empty()
    } else {
        ser_txout(s.first()) + ser_seq_txout(s.drop_first())
    }
}

/// The canonical witness-free serialization of a transaction, over
/// which its id is computed.
pub open spec fn legacy_ser(m: TxModel) -> Seq<u8> {
    le32_bytes(m.version) + compact_bytes(m.inputs.len() as u64) + ser_seq_txin(m.inputs)
        + compact_bytes(m.outputs.len() as u64) + ser_seq_txout(m.outputs) + le32_bytes(
        m.lock_time,
    )
}

/// The id of a transaction: the double-hash of its canonical
/// serialization, presented in display order.
pub open spec fn txid_of(m: TxModel) -> Seq<u8> {
    reversed(sha256d_of(legacy_ser(m)))
}

/// Serializing one more input appends its serialization.
pub proof fn lemma_ser_txins_take(s: Seq<TxInModel>, k: int)
    requires
        0 <= k < s.len(),
    ensures
        ser_seq_txin(s.take(k + 1)) == ser_seq_txin(s.take(k)) + ser_txin(s[k]),
    decreases k,
{
    if k == 0 {
        assert(s.take(1) =~= seq![s[0]]);
        assert(s.take(0) =~= Seq::<TxInModel>::empty());
        assert(seq![s[0]].drop_first() =~= Seq::<TxInModel>::empty());
        assert(ser_txin(s[0]) + Seq::<u8>::empty() =~= ser_txin(s[0]));
        assert(Seq::<u8>::empty() + ser_txin(s[0]) =~= ser_txin(s[0]));
    } else {
        let t = s.drop_first();
        lemma_ser_txins_take(t, k - 1);
        assert(s.take(k + 1).drop_first() =~= t.take(k));
        assert(s.take(k).drop_first() =~= t.take(k - 1));
        assert(s.take(k + 1).first() == s[0]);
        assert(s.take(k).first() == s[0]);
        assert(t[k - 1] == s[k]);
        assert(ser_txin(s[0]) + (ser_seq_txin(t.take(k - 1)) + ser_txin(s[k])) =~= (ser_txin(s[0])
            + ser_seq_txin(t.take(k - 1))) + ser_txin(s[k]));
    }
}

/// Serializing one more output appends its serialization.
pub proof fn lemma_ser_txouts_take(s: Seq<TxOutModel>, k: int)
    requires
        0 <= k < s.len(),
    ensures
        ser_seq_txout(s.take(k + 1)) == ser_seq_txout(s.take(k)) + ser_txout(s[k]),
    decreases k,
{
    if k == 0 {
        assert(s.take(1) =~= seq![s[0]]);
        assert(s.take(0) =~= Seq::<TxOutModel>::empty());
        assert(seq![s[0]].drop_first() =~= Seq::<TxOutModel>::empty());
        assert(ser_txout(s[0]) + Seq::<u8>::empty() =~= ser_txout(s[0]));
        assert(Seq::<u8>::empty() + ser_txout(s[0]) =~= ser_txout(s[0]));
    } else {
        let t = s.drop_first();
        lemma_ser_txouts_take(t, k - 1);
        assert(s.take(k + 1).drop_first() =~= t.take(k));
        assert(s.take(k).drop_first() =~= t.take(k - 1));
        assert(s.take(k + 1).first() == s[0]);
        assert(s.take(k).first() == s[0]);
        assert(t[k - 1] == s[k]);
        assert(ser_txout(s[0]) + (ser_seq_txout(t.take(k - 1)) + ser_txout(s[k])) =~= (ser_txout(
            s[0],
        ) + ser_seq_txout(t.take(k - 1))) + ser_txout(s[k]));
    }
}

/// Produce the canonical witness-free serialization of a transaction.
pub fn serialize_legacy(tx: &Transaction) -> (r: Vec<u8>)
    ensures
        r@ == legacy_ser(tx@),
{
    let mut out: Vec<u8> = Vec::new();
    push_le32(&mut out, tx.version);
    push_compact(&mut out, tx.inputs.len() as u64);
    let ghost ins = txin_views(tx.inputs@);
    let ghost prefix1 = le32_bytes(tx.version) + compact_bytes(tx.inputs@.len() as u64);
    assert(out@ =~= prefix1 + ser_seq_txin(ins.take(0)));
    let n_in = tx.inputs.len();
    let mut k: usize = 0;
    while k < n_in
        invariant
            k <= n_in,
            n_in == tx.inputs@.len(),
            ins == txin_views(tx.inputs@),
            prefix1 == le32_bytes(tx.version) + compact_bytes(tx.inputs@.len() as u64),
            out@ == prefix1 + ser_seq_txin(ins.take(k as int)),
        decreases n_in - k,
    {
        push_bytes(&mut out, &tx.inputs[k].prev_out);
        push_compact(&mut out, tx.inputs[k].script.len() as u64);
        push_bytes(&mut out, &tx.inputs[k].script);
        push_le32(&mut out, tx.inputs[k].sequence);
        proof {
            lemma_ser_txins_take(ins, k as int);
            assert(ins[k as int] == tx.inputs@[k as int]@);
        }
        assert(out@ =~= prefix1 + ser_seq_txin(ins.take(k + 1)));
        k = k + 1;
    }
    assert(ins.take(n_in as int) =~= ins);
    push_compact(&mut out, tx.outputs.len() as u64);
    let ghost outs = txout_views(tx.outputs@);
    let ghost prefix2 = prefix1 + ser_seq_txin(ins) + compact_bytes(tx.outputs@.len() as u64);
    assert(out@ =~= prefix2 + ser_seq_txout(outs.take(0)));
    let n_out = tx.outputs.len();
    let mut k2: usize = 0;
    while k2 < n_out
        invariant
            k2 <= n_out,
            n_out == tx.outputs@.len(),
            outs == txout_views(tx.outputs@),
            out@ == prefix2 + ser_seq_txout(outs.take(k2 as int)),
        decreases n_out - k2,
    {
        push_le64(&mut out, tx.outputs[k2].value);
        push_compact(&mut out, tx.outputs[k2].script.len() as u64);
        push_bytes(&mut out, &tx.outputs[k2].script);
        proof {
            lemma_ser_txouts_take(outs, k2 as int);
            assert(outs[k2 as int] == tx.outputs@[k2 as int]@);
        }
        assert(out@ =~= prefix2 + ser_seq_txout(outs.take(k2 + 1)));
        k2 = k2 + 1;
    }
    assert(outs.take(n_out as int) =~= outs);
    push_le32(&mut out, tx.lock_time);
    assert(out@ =~= legacy_ser(tx@));
    out
}

/// Compute a transaction's id: the double-hash of its canonical
/// serialization, reversed into display order.
pub fn compute_txid(tx: &Transaction) -> (r: [u8; 32])
    ensures
        r@ == txid_of(tx@),
{
    let legacy = serialize_legacy(tx);
    let h = sha256d(legacy.as_slice());
    reverse_id(&h)
}

/// The double-hash of each output's raw locking script, in output
/// order: the script-hash handles a transaction touches.
pub fn script_hash_transaction(tx: &Transaction) -> (r: Vec<[u8; 32]>)
    ensures
        r@.len() == tx@.outputs.len(),
        forall|i: int| 0 <= i < r@.len() ==> r@[i]@ == sha256d_of(tx@.outputs[i].script),
{
    let mut r: Vec<[u8; 32]> = Vec::new();
    let n = tx.outputs.len();
    let mut k: usize = 0;
    while k < n
        invariant
            k <= n,
            n == tx.outputs@.len(),
            r@.len() == k,
            forall|i: int| 0 <= i < k ==> r@[i]@ == sha256d_of(txout_views(tx.outputs@)[i].script),
        decreases n - k,
    {
        let h = sha256d(tx.outputs[k].script.as_slice());
        r.push(h);
        k = k + 1;
    }
    r
}

} // verus!

verus! {

// ---------------------------------------------------------------------
// Round trips of the integer encodings
// ---------------------------------------------------------------------

/// Reading back four little-endian bytes yields the encoded value.
pub proof fn lemma_le32_encoding(b: Seq<u8>, i: int, x: u32)
    requires
        0 <= i,
        i + 4 <= b.len(),
        b.subrange(i, i + 4) == le32_bytes(x),
    ensures
        le32_at(b, i) == x,
{
    let b0 = (x & 0xff) as u8;
    let b1 = ((x >> 8) & 0xff) as u8;
    let b2 = ((x >> 16) & 0xff) as u8;
    let b3 = ((x >> 24) & 0xff) as u8;
    assert(b.subrange(i, i + 4)[0] == b[i]);
    assert(b.subrange(i, i + 4)[1] == b[i + 1]);
    assert(b.subrange(i, i + 4)[2] == b[i + 2]);
    assert(b.subrange(i, i + 4)[3] == b[i + 3]);
    assert(b0 as u64 + 0x100 * (b1 as u64) + 0x1_0000 * (b2 as u64) + 0x100_0000 * (b3 as u64)
        == x as u64) by (bit_vector)
        requires
            b0 == (x & 0xff) as u8,
            b1 == ((x >> 8) & 0xff) as u8,
            b2 == ((x >> 16) & 0xff) as u8,
            b3 == ((x >> 24) & 0xff) as u8,
    ;
}

/// Reading back four big-endian bytes yields the encoded value.
pub open spec fn be32_at(b: Seq<u8>, i: int) -> int {
    0x100_0000 * (b[i] as int) + 0x1_0000 * (b[i + 1] as int) + 0x100 * (b[i + 2] as int) + b[
        i + 3
    ] as int
}

/// Read a 32-bit big-endian integer.
pub fn read_be32(b: &[u8], i: usize) -> (r: u64)
    requires
        i + 4 <= b@.len(),
    ensures
        r as int == be32_at(b@, i as int),
        r <= 0xffff_ffff,
{
    0x100_0000 * (b[i] as u64) + 0x1_0000 * (b[i + 1] as u64) + 0x100 * (b[i + 2] as u64) + b[i
        + 3] as u64
}

/// Reading back the big-endian encoding yields the encoded value.
pub proof fn lemma_be32_roundtrip(x: u32)
    ensures
        be32_at(be32_bytes(x), 0) == x,
{
    let b0 = ((x >> 24) & 0xff) as u8;
    let b1 = ((x >> 16) & 0xff) as u8;
    let b2 = ((x >> 8) & 0xff) as u8;
    let b3 = (x & 0xff) as u8;
    assert(0x100_0000 * (b0 as u64) + 0x1_0000 * (b1 as u64) + 0x100 * (b2 as u64) + b3 as u64
        == x as u64) by (bit_vector)
        requires
            b0 == ((x >> 24) & 0xff) as u8,
            b1 == ((x >> 16) & 0xff) as u8,
            b2 == ((x >> 8) & 0xff) as u8,
            b3 == (x & 0xff) as u8,
    ;
}

/// Parsing at the site of a compact-size encoding yields the encoded
/// value.
pub proof fn lemma_parse_compact_encoding(b: Seq<u8>, i: int, x: u64)
    requires
        0 <= i,
        i + compact_bytes(x).len() <= b.len(),
        b.subrange(i, i + compact_bytes(x).len() as int) == compact_bytes(x),
    ensures
        spec_parse_compact(b, i) == Some((x, i + compact_bytes(x).len())),
{
    let c = compact_bytes(x);
    assert(forall|j: int| 0 <= j < c.len() ==> b[i + j] == #[trigger] c[j]) by {
        assert(forall|j: int| 0 <= j < c.len() ==> b.subrange(i, i + c.len() as int)[j] == #[trigger] c[j]);
    }
    if x < 0xfd {
        assert(c[0] == x as u8);
        assert(b[i + 0] == c[0]);
        assert(b[i] == x as u8);
        assert((x as u8) < 0xfd && (x as u8) as u64 == x) by (bit_vector)
            requires
                x < 0xfd,
        ;
    } else if x <= 0xffff {
        let b1 = (x & 0xff) as u8;
        let b2 = ((x >> 8) & 0xff) as u8;
        assert(b[i] == 0xfd && b[i + 1] == b1 && b[i + 2] == b2);
        assert(b1 as u64 + 0x100 * (b2 as u64) == x && x >= 0xfd) by (bit_vector)
            requires
                0xfd <= x <= 0xffff,
                b1 == (x & 0xff) as u8,
                b2 == ((x >> 8) & 0xff) as u8,
        ;
        assert(le16_at(b, i + 1) == x);
    } else if x <= 0xffff_ffff {
        assert(c == seq![0xfeu8] + le32_bytes(x as u32));
        assert(c[0] == 0xfeu8);
        assert(b[i + 0] == c[0]);
        assert forall|j: int| 0 <= j < 4 implies #[trigger] b.subrange(i + 1, i + 5)[j] == le32_bytes(
            x as u32,
        )[j] by {
            assert(b[i + 1 + j] == c[1 + j]);
            assert(c[1 + j] == le32_bytes(x as u32)[j]);
        }
        assert(b.subrange(i + 1, i + 5) =~= le32_bytes(x as u32));
        lemma_le32_encoding(b, i + 1, x as u32);
        assert((x as u32) as u64 == x && x >= 0x1_0000) by (bit_vector)
            requires
                0x1_0000 <= x <= 0xffff_ffff,
        ;
    } else {
        let lo = (x & 0xffff_ffff) as u32;
        let hi = ((x >> 32) & 0xffff_ffff) as u32;
        assert(c[0] == 0xff) by {
            assert(c == (seq![0xffu8] + le32_bytes(lo)) + le32_bytes(hi));
            assert((seq![0xffu8] + le32_bytes(lo))[0] == 0xffu8);
        }
        assert(b[i + 0] == c[0]);
        assert(b[i] == 0xff);
        assert(c == (seq![0xffu8] + le32_bytes(lo)) + le32_bytes(hi));
        assert forall|j: int| 0 <= j < 4 implies #[trigger] b.subrange(i + 1, i + 5)[j] == le32_bytes(lo)[j]
            by {
            assert(b[i + 1 + j] == c[1 + j]);
            assert(c[1 + j] == (seq![0xffu8] + le32_bytes(lo))[1 + j]);
            assert((seq![0xffu8] + le32_bytes(lo))[1 + j] == le32_bytes(lo)[j]);
        }
        assert forall|j: int| 0 <= j < 4 implies #[trigger] b.subrange(i + 5, i + 9)[j] == le32_bytes(hi)[j]
            by {
            assert(b[i + 5 + j] == c[5 + j]);
            assert(c[5 + j] == le32_bytes(hi)[j]);
        }
        assert(b.subrange(i + 1, i + 5) =~= le32_bytes(lo));
        assert(b.subrange(i + 5, i + 9) =~= le32_bytes(hi));
        lemma_le32_encoding(b, i + 1, lo);
        lemma_le32_encoding(b, i + 5, hi);
        assert(lo as u64 + 0x1_0000_0000 * (hi as u64) == x && x >= 0x1_0000_0000) by (bit_vector)
            requires
                x > 0xffff_ffff,
                lo == (x & 0xffff_ffff) as u32,
                hi == ((x >> 32) & 0xffff_ffff) as u32,
        ;
        assert(le64_at(b, i + 1) == lo as int + 0x1_0000_0000 * (hi as int));
    }
}

} // verus!

verus! {

/// Copy a transaction input.
pub fn clone_txin(x: &TxIn) -> (r: TxIn)
    ensures
        r@ == x@,
{
    TxIn {
        prev_out: crate::codec::clone_vec_u8(&x.prev_out),
        script: crate::codec::clone_vec_u8(&x.script),
        sequence: x.sequence,
    }
}

/// Copy a byte vector.
pub fn clone_vec_u8(v: &Vec<u8>) -> (r: Vec<u8>)
    ensures
        r@ == v@,
{
    let r = copy_range(v.as_slice(), 0, v.len());
    assert(r@ =~= v@);
    r
}

/// Copy a transaction output.
pub fn clone_txout(x: &TxOut) -> (r: TxOut)
    ensures
        r@ == x@,
{
    TxOut { value: x.value, script: clone_vec_u8(&x.script) }
}

/// Copy a witness stack.
pub fn clone_stack(x: &Vec<Vec<u8>>) -> (r: Vec<Vec<u8>>)
    ensures
        bytes_views(r@) == bytes_views(x@),
{
    let mut r: Vec<Vec<u8>> = Vec::new();
    let n = x.len();
    let mut k: usize = 0;
    while k < n
        invariant
            k <= n,
            n == x@.len(),
            r@.len() == k,
            forall|j: int| 0 <= j < k ==> (#[trigger] r@[j])@ == x@[j]@,
        decreases n - k,
    {
        r.push(clone_vec_u8(&x[k]));
        k = k + 1;
    }
    assert(bytes_views(r@) =~= bytes_views(x@));
    r
}

/// Copy a transaction.
pub fn clone_tx(tx: &Transaction) -> (r: Transaction)
    ensures
        r@ == tx@,
{
    let mut inputs: Vec<TxIn> = Vec::new();
    let n_in = tx.inputs.len();
    let mut k: usize = 0;
    while k < n_in
        invariant
            k <= n_in,
            n_in == tx.inputs@.len(),
            inputs@.len() == k,
            forall|j: int| 0 <= j < k ==> (#[trigger] inputs@[j])@ == tx.inputs@[j]@,
        decreases n_in - k,
    {
        inputs.push(clone_txin(&tx.inputs[k]));
        k = k + 1;
    }
    let mut outputs: Vec<TxOut> = Vec::new();
    let n_out = tx.outputs.len();
    let mut k2: usize = 0;
    while k2 < n_out
        invariant
            k2 <= n_out,
            n_out == tx.outputs@.len(),
            outputs@.len() == k2,
            forall|j: int| 0 <= j < k2 ==> (#[trigger] outputs@[j])@ == tx.outputs@[j]@,
        decreases n_out - k2,
    {
        outputs.push(clone_txout(&tx.outputs[k2]));
        k2 = k2 + 1;
    }
    let mut witnesses: Vec<Vec<Vec<u8>>> = Vec::new();
    let n_w = tx.witnesses.len();
    let mut k3: usize = 0;
    while k3 < n_w
        invariant
            k3 <= n_w,
            n_w == tx.witnesses@.len(),
            witnesses@.len() == k3,
            forall|j: int|
                0 <= j < k3 ==> bytes_views((#[trigger] witnesses@[j])@) == bytes_views(
                    tx.witnesses@[j]@,
                ),
        decreases n_w - k3,
    {
        witnesses.push(clone_stack(&tx.witnesses[k3]));
        k3 = k3 + 1;
    }
    let r = Transaction {
        version: tx.version,
        inputs,
        outputs,
        witnesses,
        has_witness: tx.has_witness,
        lock_time: tx.lock_time,
    };
    proof {
        assert(txin_views(r.inputs@) =~= txin_views(tx.inputs@));
        assert(txout_views(r.outputs@) =~= txout_views(tx.outputs@));
        assert(stack_views(r.witnesses@) =~= stack_views(tx.witnesses@));
    }
    r
}

} // verus!
