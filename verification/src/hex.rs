//! Hex encoding and decoding of byte strings, as the node's RPC
//! carries every hash and raw block in hexadecimal.

use vstd::prelude::*;

verus! {

/// Whether `c` is an ASCII hex digit.
pub open spec fn is_hex_digit(c: u8) -> bool {
    (0x30 <= c <= 0x39) || (0x61 <= c <= 0x66) || (0x41 <= c <= 0x46)
}

/// The value of an ASCII hex digit.
pub open spec fn hex_val(c: u8) -> u8 {
    if 0x30 <= c <= 0x39 {
        (c - 0x30) as u8
    } else if 0x61 <= c <= 0x66 {
        (c - 0x61 + 10) as u8
    } else if 0x41 <= c <= 0x46 {
        (c - 0x41 + 10) as u8
    } else {
        0
    }
}

/// The lower-case ASCII hex digit of a value below sixteen.
pub open spec fn hex_digit(v: u8) -> u8 {
    if v < 10 {
        (0x30 + v) as u8
    } else {
        (0x61 + v - 10) as u8
    }
}

/// Whether `s` is a well-formed hex string: even length, hex digits
/// throughout.
pub open spec fn hex_decode_ok(s: Seq<u8>) -> bool {
    s.len() % 2 == 0 && forall|i: int| 0 <= i < s.len() ==> is_hex_digit(#[trigger] s[i])
}

/// The bytes a hex string denotes.
pub open spec fn hex_decoded(s: Seq<u8>) -> Seq<u8> {
    Seq::new(s.len() / 2, |i: int| (0x10 * hex_val(s[2 * i]) + hex_val(s[2 * i + 1])) as u8)
}

/// The lower-case hex encoding of a byte string.
pub open spec fn hex_of(b: Seq<u8>) -> Seq<u8> {
    Seq::new(
        2 * b.len(),
        |i: int|
            if i % 2 == 0 {
                hex_digit(b[i / 2] / 0x10)
            } else {
                hex_digit((b[i / 2] % 0x10) as u8)
            },
    )
}

/// Decode a hex string: the denoted bytes, or nothing when the
/// length is odd or a character is no hex digit.
pub fn hex_decode(s: &[u8]) -> (r: Option<Vec<u8>>)
    ensures
        r is Some <==> hex_decode_ok(s@),
        r matches Some(v) ==> v@ == hex_decoded(s@),
{
    let n = s.len();
    if n % 2 != 0 {
        return None;
    }
    let mut out: Vec<u8> = Vec::new();
    let mut i: usize = 0;
    while i < n
        invariant
            i <= n,
            i % 2 == 0,
            n % 2 == 0,
            n == s@.len(),
            out@.len() == i / 2,
            forall|j: int| 0 <= j < i ==> is_hex_digit(#[trigger] s@[j]),
            forall|j: int|
                0 <= j < i / 2 ==> out@[j] == (0x10 * hex_val(s@[2 * j]) + hex_val(
                    s@[2 * j + 1],
                )) as u8,
        decreases n - i,
    {
        let hi = s[i];
        let lo = s[i + 1];
        let hv = if 0x30 <= hi && hi <= 0x39 {
            hi - 0x30
        } else if 0x61 <= hi && hi <= 0x66 {
            hi - 0x61 + 10
        } else if 0x41 <= hi && hi <= 0x46 {
            hi - 0x41 + 10
        } else {
            return None;
        };
        let lv = if 0x30 <= lo && lo <= 0x39 {
            lo - 0x30
        } else if 0x61 <= lo && lo <= 0x66 {
            lo - 0x61 + 10
        } else if 0x41 <= lo && lo <= 0x46 {
            lo - 0x41 + 10
        } else {
            return None;
        };
        out.push(0x10 * hv + lv);
        i = i + 2;
    }
    Some(out)
}

/// Encode a byte string as lower-case hex.
pub fn hex_encode(b: &[u8]) -> (r: Vec<u8>)
    ensures
        r@ == hex_of(b@),
{
    let n = b.len();
    let mut out: Vec<u8> = Vec::new();
    let mut i: usize = 0;
    while i < n
        invariant
            i <= n,
            n == b@.len(),
            out@.len() == 2 * i,
            forall|j: int| 0 <= j < 2 * i ==> out@[j] == hex_of(b@)[j],
        decreases n - i,
    {
        let v = b[i];
        let hi = v / 0x10;
        let lo = v % 0x10;
        let hc = if hi < 10 {
            0x30 + hi
        } else {
            0x61 + hi - 10
        };
        let lc = if lo < 10 {
            0x30 + lo
        } else {
            0x61 + lo - 10
        };
        out.push(hc);
        out.push(lc);
        assert(out@[2 * i as int] == hex_of(b@)[2 * i as int]);
        assert(out@[2 * i as int + 1] == hex_of(b@)[2 * i as int + 1]);
        i = i + 1;
    }
    assert(out@ =~= hex_of(b@));
    out
}

/// Decoding inverts encoding: the hex form of any byte string is
/// well formed and denotes the bytes it was made from.
pub proof fn lemma_hex_roundtrip(b: Seq<u8>)
    ensures
        hex_decode_ok(hex_of(b)),
        hex_decoded(hex_of(b)) == b,
{
    let h = hex_of(b);
    assert forall|i: int| 0 <= i < h.len() implies is_hex_digit(#[trigger] h[i]) by {
        let v = b[i / 2];
        assert(v / 0x10 < 0x10) by (bit_vector);
        assert(v % 0x10 < 0x10) by (bit_vector);
    }
    assert forall|i: int| 0 <= i < b.len() implies hex_decoded(h)[i] == b[i] by {
        let v = b[i];
        assert(h[2 * i] == hex_digit(v / 0x10));
        assert(h[2 * i + 1] == hex_digit((v % 0x10) as u8));
        assert(v / 0x10 < 0x10) by (bit_vector);
        assert(v % 0x10 < 0x10) by (bit_vector);
        assert(hex_val(hex_digit((v / 0x10) as u8)) == v / 0x10);
        assert(hex_val(hex_digit((v % 0x10) as u8)) == v % 0x10);
        assert(0x10 * (v / 0x10) + v % 0x10 == v) by (bit_vector);
    }
    assert(hex_decoded(h) =~= b);
}

} // verus!
