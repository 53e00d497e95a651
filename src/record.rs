use vstd::prelude::*;

use crate::surface2::LumaSurface;

verus! {

/// The eight bytes that open every framed record.
pub const PREAMBLE: [u8; 8] = [0x98, 0x56, 0xcb, 0x6b, 0x56, 0xf8, 0xc8, 0x15];

pub open spec fn preamble_bytes() -> Seq<u8> {
    seq![0x98u8, 0x56u8, 0xcbu8, 0x6bu8, 0x56u8, 0xf8u8, 0xc8u8, 0x15u8]
}

/// The low `k` bytes of `v`, most significant first.
pub open spec fn be_bytes(v: nat, k: nat) -> Seq<u8>
    decreases k,
{
    if k == 0 {
        Seq::empty()
    } else {
        be_bytes(v / 256, (k - 1) as nat).push((v % 256) as u8)
    }
}

/// A framed record: preamble, seconds (8 bytes), nanoseconds (4 bytes) and payload
/// length (4 bytes), each big-endian and in two's complement, then the payload.
pub open spec fn record_bytes(sec: i64, nsec: i32, payload: Seq<u8>) -> Seq<u8> {
    preamble_bytes() + be_bytes(sec as u64 as nat, 8) + be_bytes(nsec as u32 as nat, 4)
        + be_bytes(payload.len(), 4) + payload
}

fn push_be(out: &mut Vec<u8>, v: u64, k: usize)
    requires
        k <= 8,
    ensures
        final(out)@ == old(out)@ + be_bytes(v as nat, k as nat),
    decreases k,
{
    if k == 0 {
        assert(old(out)@ + be_bytes(v as nat, 0) =~= old(out)@);
        return;
    }
    push_be(out, v / 256, k - 1);
    out.push((v % 256) as u8);
    assert(final(out)@ =~= old(out)@ + be_bytes(v as nat, k as nat)) by {
        assert(be_bytes(v as nat, k as nat) == be_bytes((v / 256) as nat, (k - 1) as nat).push(
            (v % 256) as u8,
        ));
    }
}

/// The bytes of one framed record holding `payload`, stamped `sec`.`nsec`.
pub fn frame_record(sec: i64, nsec: i32, payload: &[u8]) -> (r: Vec<u8>)
    requires
        payload@.len() <= u32::MAX,
    ensures
        r@ == record_bytes(sec, nsec, payload@),
{
    let mut out: Vec<u8> = Vec::new();
    let mut i: usize = 0;
    while i < 8
        invariant
            0 <= i <= 8,
            out@ == preamble_bytes().subrange(0, i as int),
        decreases 8 - i,
    {
        out.push(PREAMBLE[i]);
        i = i + 1;
        assert(out@ =~= preamble_bytes().subrange(0, i as int));
    }
    assert(out@ =~= preamble_bytes());
    push_be(&mut out, sec as u64, 8);
    push_be(&mut out, nsec as u32 as u64, 4);
    push_be(&mut out, payload.len() as u64, 4);
    let ghost head = out@;
    let mut j: usize = 0;
    while j < payload.len()
        invariant
            0 <= j <= payload@.len(),
            out@ == head + payload@.subrange(0, j as int),
        decreases payload@.len() - j,
    {
        out.push(payload[j]);
        j = j + 1;
        assert(out@ =~= head + payload@.subrange(0, j as int));
    }
    assert(payload@.subrange(0, payload@.len() as int) =~= payload@);
    out
}

/// A luma picture as a planar 4:2:0 frame: its bytes, then both chroma planes filled
/// with mid-gray.
pub open spec fn luma_as_yuv420p(luma: Seq<u8>) -> Seq<u8> {
    let chroma = Seq::new((luma.len() / 4) as nat, |i: int| 0x80u8);
    luma + chroma + chroma
}

/// The planar 4:2:0 frame that shows `surf` in gray.
pub fn lumasurface_yuv420p(surf: &LumaSurface) -> (r: Vec<u8>)
    requires
        surf.wf(),
    ensures
        r@ == luma_as_yuv420p(surf.bytes()),
{
    let bytes = surf.raw_bytes();
    let n = bytes.len();
    let mut out: Vec<u8> = Vec::new();
    let mut i: usize = 0;
    while i < n
        invariant
            0 <= i <= n,
            n == bytes@.len(),
            out@ == bytes@.subrange(0, i as int),
        decreases n - i,
    {
        out.push(bytes[i]);
        i = i + 1;
        assert(out@ =~= bytes@.subrange(0, i as int));
    }
    assert(bytes@.subrange(0, n as int) =~= bytes@);
    let ghost chroma = Seq::new((n / 4) as nat, |k: int| 0x80u8);
    let mut plane: usize = 0;
    while plane < 2
        invariant
            0 <= plane <= 2,
            n == bytes@.len(),
            chroma == Seq::new((n / 4) as nat, |k: int| 0x80u8),
            out@ == if plane == 0 {
                bytes@
            } else if plane == 1 {
                bytes@ + chroma
            } else {
                bytes@ + chroma + chroma
            },
        decreases 2 - plane,
    {
        let ghost start = out@;
        let mut k: usize = 0;
        while k < n / 4
            invariant
                0 <= k <= n / 4,
                out@ == start + Seq::new(k as nat, |m: int| 0x80u8),
            decreases n / 4 - k,
        {
            out.push(0x80);
            k = k + 1;
            assert(out@ =~= start + Seq::new(k as nat, |m: int| 0x80u8));
        }
        assert(Seq::new((n / 4) as nat, |m: int| 0x80u8) =~= chroma);
        plane = plane + 1;
    }
    out
}

} // verus!
