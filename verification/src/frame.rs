//! The gateway wire protocol: a fixed 13-byte big-endian frame per order.
//!
//! Offset 0 holds the tag (`'B'` buy, `'S'` sell), offsets 1..9 the price
//! as an unsigned 64-bit big-endian integer in minor units, offsets 9..13
//! the quantity as an unsigned 32-bit big-endian integer. The stream is not
//! delimited beyond the fixed size: a reader accumulates bytes across
//! partial reads, processes only complete frames, skips an invalid tag one
//! byte at a time to resynchronize, and keeps any trailing incomplete bytes
//! for the next read.

use vstd::prelude::*;

use crate::model::IntentV;

verus! {

/// The big-endian value of an 8-byte sequence.
pub open spec fn be64_spec(s: Seq<u8>) -> int
    recommends
        s.len() == 8,
{
    s[0] * 0x100000000000000 + s[1] * 0x1000000000000 + s[2] * 0x10000000000 + s[3] * 0x100000000
        + s[4] * 0x1000000 + s[5] * 0x10000 + s[6] * 0x100 + s[7]
}

/// The big-endian value of a 4-byte sequence.
pub open spec fn be32_spec(s: Seq<u8>) -> int
    recommends
        s.len() == 4,
{
    s[0] * 0x1000000 + s[1] * 0x10000 + s[2] * 0x100 + s[3]
}

/// What a full scan of a byte stream yields: the decoded intents in order,
/// and the trailing bytes (fewer than a frame) still awaiting more input.
/// An unrecognized tag byte is skipped, one byte at a time.
pub open spec fn scan_frames(s: Seq<u8>) -> (Seq<IntentV>, Seq<u8>)
    decreases s.len(),
{
    if s.len() < 13 {
        (Seq::empty(), s)
    } else if s[0] == 66u8 || s[0] == 83u8 {
        let intent = (
            s[0] == 66u8,
            be32_spec(s.subrange(9, 13)) as u32,
            be64_spec(s.subrange(1, 9)) as u64,
        );
        let r = scan_frames(s.skip(13));
        (seq![intent] + r.0, r.1)
    } else {
        scan_frames(s.skip(1))
    }
}

/// Read the unsigned 64-bit big-endian integer at `start`.
fn be_u64(buf: &Vec<u8>, start: usize) -> (r: u64)
    requires
        start + 8 <= buf.len(),
    ensures
        r as int == be64_spec(buf@.subrange(start as int, start as int + 8)),
{
    let r: u64 = (buf[start] as u64) * 0x100000000000000 + (buf[start + 1] as u64)
        * 0x1000000000000 + (buf[start + 2] as u64) * 0x10000000000 + (buf[start + 3] as u64)
        * 0x100000000 + (buf[start + 4] as u64) * 0x1000000 + (buf[start + 5] as u64) * 0x10000 + (
    buf[start + 6] as u64) * 0x100 + (buf[start + 7] as u64);
    r
}

/// Read the unsigned 32-bit big-endian integer at `start`.
fn be_u32(buf: &Vec<u8>, start: usize) -> (r: u32)
    requires
        start + 4 <= buf.len(),
    ensures
        r as int == be32_spec(buf@.subrange(start as int, start as int + 4)),
{
    let r: u32 = (buf[start] as u32) * 0x1000000 + (buf[start + 1] as u32) * 0x10000 + (buf[start
        + 2] as u32) * 0x100 + (buf[start + 3] as u32);
    r
}

/// Decode every complete frame of `buf` into `(is_buy, quantity, price)`
/// intents, skipping invalid tag bytes one at a time, and return the
/// trailing incomplete bytes to be retried with the next read.
#[verifier::loop_isolation(false)]
pub fn parse_frames(buf: &Vec<u8>) -> (r: (Vec<(bool, u32, u64)>, Vec<u8>))
    ensures
        r.0@ == scan_frames(buf@).0,
        r.1@ == scan_frames(buf@).1,
{
    let mut intents: Vec<(bool, u32, u64)> = Vec::new();
    proof {
        assert(buf@.skip(0) =~= buf@);
    }
    let mut i: usize = 0;
    while buf.len() - i >= 13
        invariant
            i <= buf@.len(),
            intents@ + scan_frames(buf@.skip(i as int)).0 == scan_frames(buf@).0,
            scan_frames(buf@.skip(i as int)).1 == scan_frames(buf@).1,
        decreases buf@.len() - i,
    {
        let ghost rest = buf@.skip(i as int);
        let ghost intents_pre = intents@;
        let tag = buf[i];
        proof {
            assert(rest[0] == buf@[i as int]);
        }
        if tag == 66 || tag == 83 {
            let price = be_u64(buf, i + 1);
            let qty = be_u32(buf, i + 9);
            intents.push((tag == 66, qty, price));
            proof {
                assert(rest.subrange(1, 9) =~= buf@.subrange(i as int + 1, i as int + 9));
                assert(rest.subrange(9, 13) =~= buf@.subrange(i as int + 9, i as int + 13));
                assert(rest.skip(13) =~= buf@.skip(i as int + 13));
                let intent = (tag == 66, qty, price);
                assert(intents@ =~= intents_pre + seq![intent]);
                assert(intents_pre + seq![intent] + scan_frames(rest.skip(13)).0 =~= intents_pre
                    + (seq![intent] + scan_frames(rest.skip(13)).0));
            }
            i = i + 13;
        } else {
            proof {
                assert(rest.skip(1) =~= buf@.skip(i as int + 1));
            }
            i = i + 1;
        }
    }
    let mut rem: Vec<u8> = Vec::new();
    let mut j: usize = i;
    while j < buf.len()
        invariant
            i <= j <= buf@.len(),
            rem@ == buf@.subrange(i as int, j as int),
        decreases buf@.len() - j,
    {
        rem.push(buf[j]);
        proof {
            assert(rem@ =~= buf@.subrange(i as int, j as int + 1));
        }
        j = j + 1;
    }
    proof {
        assert(buf@.skip(i as int).len() < 13);
        assert(rem@ =~= buf@.skip(i as int));
        assert(intents@ + scan_frames(buf@.skip(i as int)).0 =~= intents@);
    }
    (intents, rem)
}

} // verus!
