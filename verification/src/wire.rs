//! Wire codec for payload datagrams.
//!
//! A datagram is `PAYLOAD_SIZE` bytes: a big-endian `u64` packet count,
//! then `SPECTRA_SIZE` bytes of voltages in 8-byte words. Each word
//! carries two adjacent channels of both polarizations, interleaved as
//! `[A(n).re, A(n).im, B(n).re, B(n).im, A(n+1).re, A(n+1).im,
//! B(n+1).re, B(n+1).im]`.

use vstd::prelude::*;
use vstd::arithmetic::div_mod::{
    lemma_fundamental_div_mod, lemma_fundamental_div_mod_converse, lemma_mod_bound,
};

use crate::common::{Channel, Payload, PayloadView, CHANNELS, PAYLOAD_SIZE, TIMESTAMP_SIZE};

verus! {

/// The big-endian `u64` held in the first eight bytes.
pub open spec fn be64(b: Seq<u8>) -> u64
    recommends
        b.len() >= 8,
{
    ((b[0] as u64) << 56u64) | ((b[1] as u64) << 48u64) | ((b[2] as u64) << 40u64) | ((b[3] as u64)
        << 32u64) | ((b[4] as u64) << 24u64) | ((b[5] as u64) << 16u64) | ((b[6] as u64) << 8u64)
        | (b[7] as u64)
}

/// Byte `j` of the big-endian encoding of `x`.
pub open spec fn be64_byte(x: u64, j: int) -> u8
    recommends
        0 <= j < 8,
{
    if j == 0 {
        (x >> 56u64) as u8
    } else if j == 1 {
        (x >> 48u64) as u8
    } else if j == 2 {
        (x >> 40u64) as u8
    } else if j == 3 {
        (x >> 32u64) as u8
    } else if j == 4 {
        (x >> 24u64) as u8
    } else if j == 5 {
        (x >> 16u64) as u8
    } else if j == 6 {
        (x >> 8u64) as u8
    } else {
        x as u8
    }
}

/// Offset of `A(c).re` within a datagram; the three bytes after it hold
/// `A(c).im`, `B(c).re` and `B(c).im`.
pub open spec fn a_re_idx(c: int) -> int {
    TIMESTAMP_SIZE + 8 * (c / 2) + 4 * (c % 2)
}

/// The payload a well-formed datagram denotes.
pub open spec fn decode_spec(b: Seq<u8>) -> PayloadView
    recommends
        b.len() == PAYLOAD_SIZE,
{
    PayloadView {
        count: be64(b),
        pol_a: Seq::new(
            CHANNELS as nat,
            |c: int| Channel { re: b[a_re_idx(c)] as i8, im: b[a_re_idx(c) + 1] as i8 },
        ),
        pol_b: Seq::new(
            CHANNELS as nat,
            |c: int| Channel { re: b[a_re_idx(c) + 2] as i8, im: b[a_re_idx(c) + 3] as i8 },
        ),
    }
}

/// Byte `j` of the datagram that encodes `p` (the inverse word-pack).
pub open spec fn encode_byte(p: PayloadView, j: int) -> u8
    recommends
        0 <= j < PAYLOAD_SIZE,
        p.wf(),
{
    if j < TIMESTAMP_SIZE {
        be64_byte(p.count, j)
    } else {
        let w = (j - TIMESTAMP_SIZE) / 8;
        let t = (j - TIMESTAMP_SIZE) % 8;
        let c = 2 * w + t / 4;
        let k = t % 4;
        if k == 0 {
            p.pol_a[c].re as u8
        } else if k == 1 {
            p.pol_a[c].im as u8
        } else if k == 2 {
            p.pol_b[c].re as u8
        } else {
            p.pol_b[c].im as u8
        }
    }
}

/// The datagram that encodes `p`.
pub open spec fn encode_spec(p: PayloadView) -> Seq<u8>
    recommends
        p.wf(),
{
    Seq::new(PAYLOAD_SIZE as nat, |j: int| encode_byte(p, j))
}

/// Parse one datagram into a payload.
pub fn decode(b: &Vec<u8>) -> (p: Payload)
    requires
        b@.len() == PAYLOAD_SIZE,
    ensures
        p@ =~= decode_spec(b@),
        p@.wf(),
{
    let count: u64 = ((b[0] as u64) << 56u64) | ((b[1] as u64) << 48u64) | ((b[2] as u64)
        << 40u64) | ((b[3] as u64) << 32u64) | ((b[4] as u64) << 24u64) | ((b[5] as u64) << 16u64)
        | ((b[6] as u64) << 8u64) | (b[7] as u64);
    let mut pol_a: Vec<Channel> = Vec::new();
    let mut pol_b: Vec<Channel> = Vec::new();
    let mut w: usize = 0;
    while w < CHANNELS / 2
        invariant
            w <= CHANNELS / 2,
            b@.len() == PAYLOAD_SIZE,
            pol_a@.len() == 2 * w,
            pol_b@.len() == 2 * w,
            forall|c: int| 0 <= c < 2 * w ==> pol_a@[c] == decode_spec(b@).pol_a[c],
            forall|c: int| 0 <= c < 2 * w ==> pol_b@[c] == decode_spec(b@).pol_b[c],
        decreases CHANNELS / 2 - w,
    {
        let base = TIMESTAMP_SIZE + 8 * w;
        proof {
            lemma_word_channels(w as int);
        }
        pol_a.push(Channel { re: b[base] as i8, im: b[base + 1] as i8 });
        pol_b.push(Channel { re: b[base + 2] as i8, im: b[base + 3] as i8 });
        pol_a.push(Channel { re: b[base + 4] as i8, im: b[base + 5] as i8 });
        pol_b.push(Channel { re: b[base + 6] as i8, im: b[base + 7] as i8 });
        w = w + 1;
    }
    let p = Payload { count, pol_a, pol_b };
    proof {
        assert(p@.pol_a =~= decode_spec(b@).pol_a);
        assert(p@.pol_b =~= decode_spec(b@).pol_b);
    }
    p
}

/// Pack one payload back into datagram bytes.
pub fn encode(p: &Payload) -> (r: Vec<u8>)
    requires
        p@.wf(),
    ensures
        r@ =~= encode_spec(p@),
        r@.len() == PAYLOAD_SIZE,
{
    let mut r: Vec<u8> = Vec::new();
    r.push((p.count >> 56u64) as u8);
    r.push((p.count >> 48u64) as u8);
    r.push((p.count >> 40u64) as u8);
    r.push((p.count >> 32u64) as u8);
    r.push((p.count >> 24u64) as u8);
    r.push((p.count >> 16u64) as u8);
    r.push((p.count >> 8u64) as u8);
    r.push(p.count as u8);
    let mut w: usize = 0;
    while w < CHANNELS / 2
        invariant
            w <= CHANNELS / 2,
            p@.wf(),
            r@.len() == TIMESTAMP_SIZE + 8 * w,
            forall|j: int| 0 <= j < r@.len() ==> r@[j] == encode_byte(p@, j),
        decreases CHANNELS / 2 - w,
    {
        proof {
            lemma_word_channels(w as int);
        }
        let c0 = 2 * w;
        r.push(p.pol_a[c0].re as u8);
        r.push(p.pol_a[c0].im as u8);
        r.push(p.pol_b[c0].re as u8);
        r.push(p.pol_b[c0].im as u8);
        r.push(p.pol_a[c0 + 1].re as u8);
        r.push(p.pol_a[c0 + 1].im as u8);
        r.push(p.pol_b[c0 + 1].re as u8);
        r.push(p.pol_b[c0 + 1].im as u8);
        w = w + 1;
    }
    proof {
        assert(r@ =~= encode_spec(p@));
    }
    r
}

/// For a word index `w`, the bytes `8 + 8w .. 8 + 8w + 8` decompose to
/// channels `2w` and `2w + 1` exactly as `encode_byte` and `a_re_idx`
/// describe.
proof fn lemma_word_channels(w: int)
    requires
        0 <= w < CHANNELS / 2,
    ensures
        a_re_idx(2 * w) == TIMESTAMP_SIZE + 8 * w,
        a_re_idx(2 * w + 1) == TIMESTAMP_SIZE + 8 * w + 4,
        (8 * w) / 8 == w && (8 * w) % 8 == 0,
        (8 * w + 1) / 8 == w && (8 * w + 1) % 8 == 1,
        (8 * w + 2) / 8 == w && (8 * w + 2) % 8 == 2,
        (8 * w + 3) / 8 == w && (8 * w + 3) % 8 == 3,
        (8 * w + 4) / 8 == w && (8 * w + 4) % 8 == 4,
        (8 * w + 5) / 8 == w && (8 * w + 5) % 8 == 5,
        (8 * w + 6) / 8 == w && (8 * w + 6) % 8 == 6,
        (8 * w + 7) / 8 == w && (8 * w + 7) % 8 == 7,
        (2 * w) / 2 == w && (2 * w) % 2 == 0,
        (2 * w + 1) / 2 == w && (2 * w + 1) % 2 == 1,
        0int / 4 == 0 && 0int % 4 == 0 && 1int / 4 == 0 && 1int % 4 == 1 && 2int / 4 == 0 && 2int
            % 4 == 2 && 3int / 4 == 0 && 3int % 4 == 3 && 4int / 4 == 1 && 4int % 4 == 0 && 5int
            / 4 == 1 && 5int % 4 == 1 && 6int / 4 == 1 && 6int % 4 == 2 && 7int / 4 == 1 && 7int
            % 4 == 3,
{
    lemma_fundamental_div_mod_converse(2 * w, 2, w, 0);
    lemma_fundamental_div_mod_converse(2 * w + 1, 2, w, 1);
    lemma_fundamental_div_mod_converse(8 * w, 8, w, 0);
    lemma_fundamental_div_mod_converse(8 * w + 1, 8, w, 1);
    lemma_fundamental_div_mod_converse(8 * w + 2, 8, w, 2);
    lemma_fundamental_div_mod_converse(8 * w + 3, 8, w, 3);
    lemma_fundamental_div_mod_converse(8 * w + 4, 8, w, 4);
    lemma_fundamental_div_mod_converse(8 * w + 5, 8, w, 5);
    lemma_fundamental_div_mod_converse(8 * w + 6, 8, w, 6);
    lemma_fundamental_div_mod_converse(8 * w + 7, 8, w, 7);
    lemma_fundamental_div_mod_converse(0, 4, 0, 0);
    lemma_fundamental_div_mod_converse(1, 4, 0, 1);
    lemma_fundamental_div_mod_converse(2, 4, 0, 2);
    lemma_fundamental_div_mod_converse(3, 4, 0, 3);
    lemma_fundamental_div_mod_converse(4, 4, 1, 0);
    lemma_fundamental_div_mod_converse(5, 4, 1, 1);
    lemma_fundamental_div_mod_converse(6, 4, 1, 2);
    lemma_fundamental_div_mod_converse(7, 4, 1, 3);
}

/// Extracting each byte of a packed big-endian `u64` gives back the
/// original bytes.
proof fn lemma_be64_extract(b: Seq<u8>)
    requires
        b.len() >= 8,
    ensures
        forall|j: int| 0 <= j < 8 ==> be64_byte(be64(b), j) == b[j],
{
    let b0 = b[0];
    let b1 = b[1];
    let b2 = b[2];
    let b3 = b[3];
    let b4 = b[4];
    let b5 = b[5];
    let b6 = b[6];
    let b7 = b[7];
    let x = be64(b);
    assert(x == ((b0 as u64) << 56u64) | ((b1 as u64) << 48u64) | ((b2 as u64) << 40u64) | ((
    b3 as u64) << 32u64) | ((b4 as u64) << 24u64) | ((b5 as u64) << 16u64) | ((b6 as u64) << 8u64)
        | (b7 as u64));
    assert({
        let y = ((b0 as u64) << 56u64) | ((b1 as u64) << 48u64) | ((b2 as u64) << 40u64) | ((
        b3 as u64) << 32u64) | ((b4 as u64) << 24u64) | ((b5 as u64) << 16u64) | ((b6 as u64)
            << 8u64) | (b7 as u64);
        (y >> 56u64) as u8 == b0 && (y >> 48u64) as u8 == b1 && (y >> 40u64) as u8 == b2 && (y
            >> 32u64) as u8 == b3 && (y >> 24u64) as u8 == b4 && (y >> 16u64) as u8 == b5 && (y
            >> 8u64) as u8 == b6 && y as u8 == b7
    }) by (bit_vector);
}

/// Packing the eight big-endian bytes of a `u64` gives back the value.
proof fn lemma_be64_pack(x: u64)
    ensures
        (((x >> 56u64) as u8 as u64) << 56u64) | (((x >> 48u64) as u8 as u64) << 48u64) | (((x
            >> 40u64) as u8 as u64) << 40u64) | (((x >> 32u64) as u8 as u64) << 32u64) | (((x
            >> 24u64) as u8 as u64) << 24u64) | (((x >> 16u64) as u8 as u64) << 16u64) | (((x
            >> 8u64) as u8 as u64) << 8u64) | (x as u8 as u64) == x,
{
    assert((((x >> 56u64) as u8 as u64) << 56u64) | (((x >> 48u64) as u8 as u64) << 48u64) | (((x
        >> 40u64) as u8 as u64) << 40u64) | (((x >> 32u64) as u8 as u64) << 32u64) | (((x
        >> 24u64) as u8 as u64) << 24u64) | (((x >> 16u64) as u8 as u64) << 16u64) | (((x
        >> 8u64) as u8 as u64) << 8u64) | (x as u8 as u64) == x) by (bit_vector);
}

/// Casting a byte through `i8` and back is the identity.
proof fn lemma_u8_i8_roundtrip(x: u8)
    ensures
        (x as i8) as u8 == x,
{
    assert((x as i8) as u8 == x) by (bit_vector);
}

/// Casting an `i8` through `u8` and back is the identity.
proof fn lemma_i8_u8_roundtrip(x: i8)
    ensures
        (x as u8) as i8 == x,
{
    assert((x as u8) as i8 == x) by (bit_vector);
}

/// Decoding a datagram and packing the result gives back the datagram
/// bit for bit.
pub proof fn lemma_decode_then_encode(b: Seq<u8>)
    requires
        b.len() == PAYLOAD_SIZE,
    ensures
        encode_spec(decode_spec(b)) =~= b,
{
    let p = decode_spec(b);
    assert forall|j: int| 0 <= j < PAYLOAD_SIZE implies encode_spec(p)[j] == b[j] by {
        if j < TIMESTAMP_SIZE {
            lemma_be64_extract(b);
        } else {
            let w = (j - TIMESTAMP_SIZE) / 8;
            let t = (j - TIMESTAMP_SIZE) % 8;
            lemma_fundamental_div_mod(j - TIMESTAMP_SIZE, 8);
            lemma_mod_bound(j - TIMESTAMP_SIZE, 8);
            lemma_fundamental_div_mod(t, 4);
            lemma_mod_bound(t, 4);
            let c = 2 * w + t / 4;
            lemma_fundamental_div_mod_converse(c, 2, w, t / 4);
            lemma_u8_i8_roundtrip(b[a_re_idx(c)]);
            lemma_u8_i8_roundtrip(b[a_re_idx(c) + 1]);
            lemma_u8_i8_roundtrip(b[a_re_idx(c) + 2]);
            lemma_u8_i8_roundtrip(b[a_re_idx(c) + 3]);
        }
    }
}

/// Packing a payload and decoding the result gives back the payload.
pub proof fn lemma_encode_then_decode(p: PayloadView)
    requires
        p.wf(),
    ensures
        decode_spec(encode_spec(p)) =~= p,
{
    let b = encode_spec(p);
    lemma_be64_pack(p.count);
    assert(be64(b) == p.count);
    assert forall|c: int| 0 <= c < CHANNELS implies decode_spec(b).pol_a[c] == p.pol_a[c]
        && decode_spec(b).pol_b[c] == p.pol_b[c] by {
        lemma_fundamental_div_mod(c, 2);
        lemma_mod_bound(c, 2);
        let w = c / 2;
        let m = c % 2;
        lemma_fundamental_div_mod_converse(8 * w + 4 * m, 8, w, 4 * m);
        lemma_fundamental_div_mod_converse(8 * w + 4 * m + 1, 8, w, 4 * m + 1);
        lemma_fundamental_div_mod_converse(8 * w + 4 * m + 2, 8, w, 4 * m + 2);
        lemma_fundamental_div_mod_converse(8 * w + 4 * m + 3, 8, w, 4 * m + 3);
        lemma_fundamental_div_mod_converse(4 * m, 4, m, 0);
        lemma_fundamental_div_mod_converse(4 * m + 1, 4, m, 1);
        lemma_fundamental_div_mod_converse(4 * m + 2, 4, m, 2);
        lemma_fundamental_div_mod_converse(4 * m + 3, 4, m, 3);
        lemma_i8_u8_roundtrip(p.pol_a[c].re);
        lemma_i8_u8_roundtrip(p.pol_a[c].im);
        lemma_i8_u8_roundtrip(p.pol_b[c].re);
        lemma_i8_u8_roundtrip(p.pol_b[c].im);
    }
    assert(decode_spec(b).pol_a =~= p.pol_a);
    assert(decode_spec(b).pol_b =~= p.pol_b);
}

} // verus!
