//! Wire frame codec. A frame is the start marker, `PAYLOAD_LEN` payload
//! bytes carrying seven row-major snapshot bits each (the high bit of every
//! payload byte stays clear so the marker value cannot occur inside the
//! payload), and one CRC-8 checksum over the payload bytes only.

use vstd::prelude::*;

use crate::crc8::crc8;
use crate::crc8::crc8_range;
use crate::crc8::lemma_crc8_single_nonzero;
use crate::crc8::lemma_fold_linear;
use crate::crc8::seq_xor;
use crate::scan::ScanSnapshot;
use crate::PAYLOAD_LEN;
use crate::RX_BUF_LEN;
use crate::SCAN_LEN;
use crate::SOF;
use crate::TX_BUF_LEN;

verus! {

/// The low `k` bits of the payload byte that starts at flat key `start`:
/// bit `j` is key `start + j`.
pub open spec fn pack_bits(s: Seq<bool>, start: int, k: nat) -> u8
    decreases k,
{
    if k == 0 {
        0
    } else if s[start + k - 1] {
        pack_bits(s, start, (k - 1) as nat) | (1u8 << ((k - 1) as u8))
    } else {
        pack_bits(s, start, (k - 1) as nat)
    }
}

/// One full payload byte: seven keys from `start` on.
pub open spec fn pack7(s: Seq<bool>, start: int) -> u8 {
    pack_bits(s, start, 7)
}

/// The payload of a snapshot, row-major, seven bits per byte.
pub open spec fn spec_payload(s: Seq<bool>) -> Seq<u8> {
    Seq::new(PAYLOAD_LEN as nat, |b: int| pack7(s, 7 * b))
}

/// A whole frame: marker, payload, checksum over the payload.
pub open spec fn spec_encode(s: Seq<bool>) -> Seq<u8> {
    seq![SOF] + spec_payload(s) + seq![crc8(spec_payload(s))]
}

/// The snapshot bits packed in a payload.
pub open spec fn spec_unpack(p: Seq<u8>) -> Seq<bool> {
    Seq::new(SCAN_LEN as nat, |i: int| (p[i / 7] >> ((i % 7) as u8)) & 1 == 1)
}

/// What decoding payload-plus-checksum bytes yields: nothing unless the
/// length is right and the recomputed checksum matches the trailing byte.
pub open spec fn spec_decode(b: Seq<u8>) -> Option<Seq<bool>> {
    if b.len() != RX_BUF_LEN {
        None
    } else if crc8(b.take(PAYLOAD_LEN as int)) != b[PAYLOAD_LEN as int] {
        None
    } else {
        Some(spec_unpack(b.take(PAYLOAD_LEN as int)))
    }
}

/// Bit `k` of a packed byte is key `start + k`, and the high bit is clear.
pub proof fn lemma_pack7_bits(s: Seq<bool>, start: int, k: u8)
    requires
        0 <= start,
        start + 7 <= s.len(),
        k < 7,
    ensures
        ((pack7(s, start) >> k) & 1 == 1) == s[start + k],
        pack7(s, start) < 128,
{
    let b0: u8 = if s[start] { 1 } else { 0 };
    let b1: u8 = if s[start + 1] { 1 } else { 0 };
    let b2: u8 = if s[start + 2] { 1 } else { 0 };
    let b3: u8 = if s[start + 3] { 1 } else { 0 };
    let b4: u8 = if s[start + 4] { 1 } else { 0 };
    let b5: u8 = if s[start + 5] { 1 } else { 0 };
    let b6: u8 = if s[start + 6] { 1 } else { 0 };
    let x0 = pack_bits(s, start, 0);
    let x1 = pack_bits(s, start, 1);
    let x2 = pack_bits(s, start, 2);
    let x3 = pack_bits(s, start, 3);
    let x4 = pack_bits(s, start, 4);
    let x5 = pack_bits(s, start, 5);
    let x6 = pack_bits(s, start, 6);
    let x7 = pack_bits(s, start, 7);
    assert(x0 == 0);
    assert(x1 == (if b0 == 1 { x0 | (1u8 << 0) } else { x0 }));
    assert(x2 == (if b1 == 1 { x1 | (1u8 << 1) } else { x1 }));
    assert(x3 == (if b2 == 1 { x2 | (1u8 << 2) } else { x2 }));
    assert(x4 == (if b3 == 1 { x3 | (1u8 << 3) } else { x3 }));
    assert(x5 == (if b4 == 1 { x4 | (1u8 << 4) } else { x4 }));
    assert(x6 == (if b5 == 1 { x5 | (1u8 << 5) } else { x5 }));
    assert(x7 == (if b6 == 1 { x6 | (1u8 << 6) } else { x6 }));
    assert({
        &&& (k == 0 ==> ((x7 >> k) & 1) == b0)
        &&& (k == 1 ==> ((x7 >> k) & 1) == b1)
        &&& (k == 2 ==> ((x7 >> k) & 1) == b2)
        &&& (k == 3 ==> ((x7 >> k) & 1) == b3)
        &&& (k == 4 ==> ((x7 >> k) & 1) == b4)
        &&& (k == 5 ==> ((x7 >> k) & 1) == b5)
        &&& (k == 6 ==> ((x7 >> k) & 1) == b6)
        &&& x7 < 128
    }) by (bit_vector)
        requires
            b0 <= 1 && b1 <= 1 && b2 <= 1 && b3 <= 1 && b4 <= 1 && b5 <= 1 && b6 <= 1,
            k < 7,
            x0 == 0,
            x1 == (if b0 == 1 { x0 | (1u8 << 0) } else { x0 }),
            x2 == (if b1 == 1 { x1 | (1u8 << 1) } else { x1 }),
            x3 == (if b2 == 1 { x2 | (1u8 << 2) } else { x2 }),
            x4 == (if b3 == 1 { x3 | (1u8 << 3) } else { x3 }),
            x5 == (if b4 == 1 { x4 | (1u8 << 4) } else { x4 }),
            x6 == (if b5 == 1 { x5 | (1u8 << 5) } else { x5 }),
            x7 == (if b6 == 1 { x6 | (1u8 << 6) } else { x6 }),
    ;
}

/// Every payload byte keeps its high bit clear: the marker value never
/// occurs inside a payload.
pub proof fn lemma_payload_no_marker(s: Seq<bool>)
    requires
        s.len() == SCAN_LEN,
    ensures
        forall|b: int| 0 <= b < PAYLOAD_LEN ==> #[trigger] spec_payload(s)[b] < 128,
{
    assert forall|b: int| 0 <= b < PAYLOAD_LEN implies #[trigger] spec_payload(s)[b] < 128 by {
        lemma_pack7_bits(s, 7 * b, 0);
    }
}

/// Unpacking the payload of a snapshot gives the snapshot back.
pub proof fn lemma_unpack_payload(s: Seq<bool>)
    requires
        s.len() == SCAN_LEN,
    ensures
        spec_unpack(spec_payload(s)) == s,
{
    assert forall|i: int| 0 <= i < SCAN_LEN implies spec_unpack(spec_payload(s))[i] == s[i] by {
        let q = i / 7;
        let k = i % 7;
        assert(7 * q + k == i && 0 <= q < PAYLOAD_LEN && 0 <= k < 7);
        lemma_pack7_bits(s, 7 * q, k as u8);
    }
    assert(spec_unpack(spec_payload(s)) =~= s);
}

/// Serialises a snapshot into one wire frame.
pub fn encode_scan(scan: &ScanSnapshot) -> (frame: Vec<u8>)
    requires
        scan.wf(),
    ensures
        frame@ == spec_encode(scan@),
        frame@.len() == TX_BUF_LEN,
{
    let mut buf: Vec<u8> = Vec::new();
    buf.push(SOF);
    let mut b: usize = 0;
    while b < PAYLOAD_LEN
        invariant
            scan.wf(),
            b <= PAYLOAD_LEN,
            buf@.len() == 1 + b,
            buf@[0] == SOF,
            forall|j: int| 0 <= j < b ==> #[trigger] buf@[1 + j] == pack7(scan@, 7 * j),
        decreases PAYLOAD_LEN - b,
    {
        let mut byte: u8 = 0;
        let mut k: usize = 0;
        while k < 7
            invariant
                scan.wf(),
                b < PAYLOAD_LEN,
                k <= 7,
                byte == pack_bits(scan@, 7 * b as int, k as nat),
            decreases 7 - k,
        {
            if scan.get_flat(7 * b + k) {
                byte = byte | (1u8 << (k as u8));
            }
            k = k + 1;
        }
        buf.push(byte);
        b = b + 1;
    }
    proof {
        assert forall|j: int| 0 <= j < PAYLOAD_LEN implies buf@.subrange(
            1,
            1 + PAYLOAD_LEN as int,
        )[j] == spec_payload(scan@)[j] by {
            assert(buf@[1 + j] == pack7(scan@, 7 * j));
        }
        assert(buf@.subrange(1, 1 + PAYLOAD_LEN as int) =~= spec_payload(scan@));
    }
    let checksum = crc8_range(&buf, 1, 1 + PAYLOAD_LEN);
    buf.push(checksum);
    proof {
        assert(buf@ =~= spec_encode(scan@));
    }
    buf
}

/// Parses payload-plus-checksum bytes back into a snapshot; rejects a
/// group of the wrong length, and a checksum mismatch.
pub fn decode_scan(buf: &Vec<u8>) -> (r: Option<ScanSnapshot>)
    ensures
        r is Some <==> spec_decode(buf@) is Some,
        r matches Some(s) ==> s.wf() && spec_decode(buf@) == Some(s@),
{
    if buf.len() != RX_BUF_LEN {
        return None;
    }
    let actual_checksum = crc8_range(buf, 0, PAYLOAD_LEN);
    proof {
        assert(buf@.subrange(0, PAYLOAD_LEN as int) =~= buf@.take(PAYLOAD_LEN as int));
    }
    if actual_checksum != buf[PAYLOAD_LEN] {
        return None;
    }
    let mut bits: Vec<bool> = Vec::new();
    let mut i: usize = 0;
    while i < SCAN_LEN
        invariant
            buf@.len() == RX_BUF_LEN,
            i <= SCAN_LEN,
            bits@.len() == i,
            forall|j: int| 0 <= j < i ==> bits@[j] == spec_unpack(buf@.take(PAYLOAD_LEN as int))[j],
        decreases SCAN_LEN - i,
    {
        let pressed = ((buf[i / 7] >> ((i % 7) as u8)) & 1) == 1;
        proof {
            let ii = i as int;
            assert(0 <= ii / 7 < PAYLOAD_LEN && 0 <= ii % 7 < 7);
            assert(buf@.take(PAYLOAD_LEN as int)[ii / 7] == buf@[ii / 7]);
        }
        bits.push(pressed);
        i = i + 1;
    }
    proof {
        assert(bits@ =~= spec_unpack(buf@.take(PAYLOAD_LEN as int)));
    }
    Some(ScanSnapshot::from_flat(bits))
}

/// `wire` with bit `p % 8` of byte `p / 8` flipped.
pub open spec fn flip_bit(wire: Seq<u8>, p: int) -> Seq<u8> {
    wire.update(p / 8, wire[p / 8] ^ (1u8 << ((p % 8) as u8)))
}

/// Checksum sensitivity: flipping any single bit of the payload or of
/// the checksum byte of an encoded frame makes decoding reject it. A
/// single-bit error always changes this CRC, so no flipped bit can slip
/// through as a coincidental match.
pub proof fn lemma_single_bit_flip_rejected(s: Seq<bool>, p: int)
    requires
        s.len() == SCAN_LEN,
        0 <= p < 8 * RX_BUF_LEN,
    ensures
        spec_decode(flip_bit(spec_encode(s).skip(1), p)) is None,
{
    let wire = spec_encode(s).skip(1);
    let payload = spec_payload(s);
    let cs = crc8(payload);
    assert(wire.take(PAYLOAD_LEN as int) =~= payload);
    assert(wire[PAYLOAD_LEN as int] == cs);
    let i = p / 8;
    let j = p % 8;
    assert(0 <= i < RX_BUF_LEN && 0 <= j < 8);
    let m = (1u8 << (j as u8));
    let jj = j as u8;
    assert((1u8 << jj) != 0 && forall|x: u8| x ^ (1u8 << jj) != x) by (bit_vector)
        requires
            jj < 8,
    ;
    let flipped = flip_bit(wire, p);
    assert(flipped.len() == RX_BUF_LEN);
    if i < PAYLOAD_LEN {
        // A payload bit: the recomputed checksum moves, the stored one stays.
        let e = Seq::new(PAYLOAD_LEN as nat, |q: int| if q == i { m } else { 0u8 });
        let payload2 = flipped.take(PAYLOAD_LEN as int);
        assert forall|q: int| 0 <= q < PAYLOAD_LEN implies payload2[q] == seq_xor(payload, e)[q] by {
            let pq = payload[q];
            if q != i {
                assert(pq ^ 0 == pq) by (bit_vector);
            }
        }
        assert(payload2 =~= seq_xor(payload, e));
        assert(0u8 ^ 0u8 == 0u8) by (bit_vector);
        lemma_fold_linear(0, 0, payload, e);
        lemma_crc8_single_nonzero(e, i);
        let d = crc8(e);
        assert(cs ^ d != cs) by (bit_vector)
            requires
                d != 0,
        ;
        assert(crc8(payload2) == cs ^ d);
        assert(flipped[PAYLOAD_LEN as int] == cs);
    } else {
        // The checksum byte: the payload checksum stays, the stored one moves.
        assert(flipped.take(PAYLOAD_LEN as int) =~= payload);
        assert(flipped[PAYLOAD_LEN as int] == cs ^ m);
    }
}

/// Round trip: decoding the payload-and-checksum bytes of an encoded
/// frame always gives the original snapshot back.
pub proof fn lemma_round_trip(s: Seq<bool>)
    requires
        s.len() == SCAN_LEN,
    ensures
        spec_decode(spec_encode(s).skip(1)) == Some(s),
{
    let wire = spec_encode(s).skip(1);
    assert(wire.take(PAYLOAD_LEN as int) =~= spec_payload(s));
    assert(wire[PAYLOAD_LEN as int] == crc8(spec_payload(s)));
    lemma_unpack_payload(s);
}

} // verus!
