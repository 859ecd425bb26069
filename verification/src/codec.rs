//! The wire protocol between client and daemon.
//!
//! A client sends the pids it watches as big-endian thirty-two bit signed
//! integers and half-closes; the daemon answers, once per sampling tick,
//! with one frame: one big-endian IEEE-754 single-precision value per
//! requested pid, in request order, the quiet not-a-number pattern
//! standing for a pid absent from the load map.

use vstd::prelude::*;

use crate::pidmap::PidMap;

verus! {

/// The quiet not-a-number bit pattern written for absent pids.
pub open spec fn nan_bits() -> u32 {
    0x7FC0_0000
}

/// Big-endian bytes of a thirty-two bit value.
pub open spec fn be_bytes(x: u32) -> Seq<u8> {
    seq![
        (x / 0x100_0000) as u8,
        ((x / 0x1_0000) % 0x100) as u8,
        ((x / 0x100) % 0x100) as u8,
        (x % 0x100) as u8,
    ]
}

/// The value read back from four big-endian bytes.
pub open spec fn be_val(b0: u8, b1: u8, b2: u8, b3: u8) -> u32 {
    (b0 * 0x100_0000 + b1 * 0x1_0000 + b2 * 0x100 + b3) as u32
}

/// Decoding the four big-endian bytes of a value gives the value back.
pub proof fn lemma_be_roundtrip(x: u32)
    ensures
        be_val(be_bytes(x)[0], be_bytes(x)[1], be_bytes(x)[2], be_bytes(x)[3]) == x,
{
}

/// Append the big-endian bytes of one value.
fn push_be(out: &mut Vec<u8>, x: u32)
    ensures
        final(out)@ == old(out)@ + be_bytes(x),
{
    let b0: u8 = (x / 0x100_0000) as u8;
    let b1: u8 = ((x / 0x1_0000) % 0x100) as u8;
    let b2: u8 = ((x / 0x100) % 0x100) as u8;
    let b3: u8 = (x % 0x100) as u8;
    out.push(b0);
    out.push(b1);
    out.push(b2);
    out.push(b3);
    proof {
        assert(final(out)@ =~= old(out)@ + be_bytes(x));
    }
}

/// Encode the request: each pid as four big-endian bytes, in order.
pub fn encode_pids(pids: &Vec<i32>) -> (r: Vec<u8>)
    ensures
        r@.len() == 4 * pids@.len(),
        forall|i: int|
            0 <= i < pids@.len() ==> r@.subrange(4 * i, 4 * i + 4) == be_bytes(
                #[trigger] pids@[i] as u32,
            ),
{
    let mut out: Vec<u8> = Vec::new();
    let n = pids.len();
    let mut i: usize = 0;
    while i < n
        invariant
            n == pids@.len(),
            i <= n,
            out@.len() == 4 * i,
            forall|j: int|
                0 <= j < i ==> out@.subrange(4 * j, 4 * j + 4) == be_bytes(
                    #[trigger] pids@[j] as u32,
                ),
        decreases n - i,
    {
        let ghost before = out@;
        push_be(&mut out, pids[i] as u32);
        proof {
            assert forall|j: int|
                0 <= j < i + 1 implies out@.subrange(4 * j, 4 * j + 4) == be_bytes(
                #[trigger] pids@[j] as u32,
            ) by {
                if j < i {
                    assert(out@.subrange(4 * j, 4 * j + 4) =~= before.subrange(
                        4 * j,
                        4 * j + 4,
                    ));
                } else {
                    assert(out@.subrange(4 * j, 4 * j + 4) =~= be_bytes(pids@[j] as u32));
                }
            }
        }
        i = i + 1;
    }
    out
}

/// Decode a request: one pid per whole group of four bytes; a trailing
/// partial group is ignored, as a broken-off write would be.
pub fn decode_pids(bytes: &Vec<u8>) -> (r: Vec<i32>)
    ensures
        r@.len() == bytes@.len() / 4,
        forall|i: int|
            0 <= i < r@.len() ==> #[trigger] r@[i] == be_val(
                bytes@[4 * i],
                bytes@[4 * i + 1],
                bytes@[4 * i + 2],
                bytes@[4 * i + 3],
            ) as i32,
{
    let mut out: Vec<i32> = Vec::new();
    let blen = bytes.len();
    let n = blen / 4;
    proof {
        assert(4 * (blen as int / 4) <= blen) by (nonlinear_arith);
    }
    let mut i: usize = 0;
    while i < n
        invariant
            n == bytes@.len() / 4,
            4 * n <= bytes@.len() <= usize::MAX,
            i <= n,
            out@.len() == i,
            forall|j: int|
                0 <= j < i ==> #[trigger] out@[j] == be_val(
                    bytes@[4 * j],
                    bytes@[4 * j + 1],
                    bytes@[4 * j + 2],
                    bytes@[4 * j + 3],
                ) as i32,
        decreases n - i,
    {
        proof {
            assert(4 * i + 3 < 4 * n);
        }
        let b0 = bytes[4 * i];
        let b1 = bytes[4 * i + 1];
        let b2 = bytes[4 * i + 2];
        let b3 = bytes[4 * i + 3];
        let v: u32 = (b0 as u32) * 0x100_0000 + (b1 as u32) * 0x1_0000 + (b2 as u32) * 0x100 + (
        b3 as u32);
        out.push(v as i32);
        i = i + 1;
    }
    out
}

/// One frame of load values, as float bit patterns: the load of each
/// requested pid in request order, the not-a-number pattern when a pid is
/// not in the load map.
pub fn frame_bits(pids: &Vec<i32>, loads: &PidMap<u32>) -> (r: Vec<u32>)
    requires
        loads.wf(),
    ensures
        r@.len() == pids@.len(),
        forall|i: int|
            0 <= i < pids@.len() ==> #[trigger] r@[i] == (if loads@.contains_key(pids@[i]) {
                loads@[pids@[i]]
            } else {
                nan_bits()
            }),
{
    let mut out: Vec<u32> = Vec::new();
    let n = pids.len();
    let mut i: usize = 0;
    while i < n
        invariant
            loads.wf(),
            n == pids@.len(),
            i <= n,
            out@.len() == i,
            forall|j: int|
                0 <= j < i ==> #[trigger] out@[j] == (if loads@.contains_key(pids@[j]) {
                    loads@[pids@[j]]
                } else {
                    nan_bits()
                }),
        decreases n - i,
    {
        let v = match loads.get(pids[i]) {
            Some(l) => l,
            None => 0x7FC0_0000,
        };
        out.push(v);
        i = i + 1;
    }
    out
}

/// The bytes of one frame: each bit pattern big-endian, concatenated.
pub fn frame_bytes(bits: &Vec<u32>) -> (r: Vec<u8>)
    ensures
        r@.len() == 4 * bits@.len(),
        forall|i: int|
            0 <= i < bits@.len() ==> r@.subrange(4 * i, 4 * i + 4) == be_bytes(
                #[trigger] bits@[i],
            ),
{
    let mut out: Vec<u8> = Vec::new();
    let n = bits.len();
    let mut i: usize = 0;
    while i < n
        invariant
            n == bits@.len(),
            i <= n,
            out@.len() == 4 * i,
            forall|j: int|
                0 <= j < i ==> out@.subrange(4 * j, 4 * j + 4) == be_bytes(#[trigger] bits@[j]),
        decreases n - i,
    {
        let ghost before = out@;
        push_be(&mut out, bits[i]);
        proof {
            assert forall|j: int|
                0 <= j < i + 1 implies out@.subrange(4 * j, 4 * j + 4) == be_bytes(
                #[trigger] bits@[j],
            ) by {
                if j < i {
                    assert(out@.subrange(4 * j, 4 * j + 4) =~= before.subrange(
                        4 * j,
                        4 * j + 4,
                    ));
                } else {
                    assert(out@.subrange(4 * j, 4 * j + 4) =~= be_bytes(bits@[j]));
                }
            }
        }
        i = i + 1;
    }
    out
}

/// Decode one frame of big-endian float bit patterns.
pub fn decode_frame(bytes: &Vec<u8>) -> (r: Vec<u32>)
    ensures
        r@.len() == bytes@.len() / 4,
        forall|i: int|
            0 <= i < r@.len() ==> #[trigger] r@[i] == be_val(
                bytes@[4 * i],
                bytes@[4 * i + 1],
                bytes@[4 * i + 2],
                bytes@[4 * i + 3],
            ),
{
    let mut out: Vec<u32> = Vec::new();
    let blen = bytes.len();
    let n = blen / 4;
    proof {
        assert(4 * (blen as int / 4) <= blen) by (nonlinear_arith);
    }
    let mut i: usize = 0;
    while i < n
        invariant
            n == bytes@.len() / 4,
            4 * n <= bytes@.len() <= usize::MAX,
            i <= n,
            out@.len() == i,
            forall|j: int|
                0 <= j < i ==> #[trigger] out@[j] == be_val(
                    bytes@[4 * j],
                    bytes@[4 * j + 1],
                    bytes@[4 * j + 2],
                    bytes@[4 * j + 3],
                ),
        decreases n - i,
    {
        proof {
            assert(4 * i + 3 < 4 * n);
        }
        let b0 = bytes[4 * i];
        let b1 = bytes[4 * i + 1];
        let b2 = bytes[4 * i + 2];
        let b3 = bytes[4 * i + 3];
        let v: u32 = (b0 as u32) * 0x100_0000 + (b1 as u32) * 0x1_0000 + (b2 as u32) * 0x100 + (
        b3 as u32);
        out.push(v);
        i = i + 1;
    }
    out
}

} // verus!
