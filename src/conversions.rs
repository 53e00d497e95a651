use vstd::prelude::*;
use vstd::arithmetic::div_mod::lemma_fundamental_div_mod_converse;

use crate::surface2::{px_count, pixel_count, yuv422p_len, yuyv_len, zeros, Yuv420pSurface};

verus! {

/// An interleaved 4:2:2 picture: the bytes repeat Y, U, Y, V, one U and V per pixel pair.
pub struct Yuv422Surface {
    width: u32,
    height: u32,
    data: Vec<u8>,
}

/// A planar 4:2:2 picture: the Y plane, then U, then V, each chroma plane half of Y.
pub struct Yuv422pSurface {
    width: u32,
    height: u32,
    data: Vec<u8>,
}

impl Yuv422Surface {
    pub closed spec fn spec_width(&self) -> u32 {
        self.width
    }

    pub closed spec fn spec_height(&self) -> u32 {
        self.height
    }

    pub closed spec fn bytes(&self) -> Seq<u8> {
        self.data@
    }

    pub open spec fn wf(&self) -> bool {
        self.bytes().len() == yuyv_len(self.spec_width(), self.spec_height())
    }

    /// Takes `data` as a `width` x `height` picture; `None` where its length does not match.
    pub fn new(width: u32, height: u32, data: Vec<u8>) -> (r: Option<Yuv422Surface>)
        ensures
            r is Some <==> data@.len() == yuyv_len(width, height),
            r matches Some(s) ==> s.wf() && s.spec_width() == width && s.spec_height()
                == height && s.bytes() == data@,
    {
        let n = pixel_count(width, height);
        let len = data.len();
        if n > u64::MAX / 2 || len as u64 != 2 * n {
            return None;
        }
        Some(Yuv422Surface { width, height, data })
    }

    pub fn width(&self) -> (r: u32)
        ensures
            r == self.spec_width(),
    {
        self.width
    }

    pub fn height(&self) -> (r: u32)
        ensures
            r == self.spec_height(),
    {
        self.height
    }

    pub fn raw_bytes(&self) -> (r: &[u8])
        ensures
            r@ == self.bytes(),
    {
        self.data.as_slice()
    }
}

impl Yuv422pSurface {
    pub closed spec fn spec_width(&self) -> u32 {
        self.width
    }

    pub closed spec fn spec_height(&self) -> u32 {
        self.height
    }

    pub closed spec fn bytes(&self) -> Seq<u8> {
        self.data@
    }

    pub open spec fn wf(&self) -> bool {
        self.bytes().len() == yuv422p_len(self.spec_width(), self.spec_height())
    }

    /// A picture of the given size with every byte zero.
    pub fn new_black(width: u32, height: u32) -> (r: Yuv422pSurface)
        requires
            yuv422p_len(width, height) <= usize::MAX,
        ensures
            r.wf(),
            r.spec_width() == width,
            r.spec_height() == height,
            r.bytes() == zeros(yuv422p_len(width, height)),
    {
        let n = pixel_count(width, height) as usize;
        let data = vec![0u8; n + 2 * (n / 2)];
        assert(data@ =~= zeros(yuv422p_len(width, height)));
        Yuv422pSurface { width, height, data }
    }

    pub fn width(&self) -> (r: u32)
        ensures
            r == self.spec_width(),
    {
        self.width
    }

    pub fn height(&self) -> (r: u32)
        ensures
            r == self.spec_height(),
    {
        self.height
    }

    pub fn raw_bytes(&self) -> (r: &[u8])
        ensures
            r@ == self.bytes(),
    {
        self.data.as_slice()
    }
}

/// Planar 4:2:2 layout of the interleaved samples `src` of an `n`-pixel picture:
/// every even byte into Y, bytes `4j + 1` into U and bytes `4j + 3` into V.
pub open spec fn deinterleave(src: Seq<u8>, n: int) -> Seq<u8> {
    Seq::new(
        (n + 2 * (n / 2)) as nat,
        |i: int|
            if i < n {
                src[2 * i]
            } else if i < n + n / 2 {
                src[4 * (i - n) + 1]
            } else {
                src[4 * (i - n - n / 2) + 3]
            },
    )
}

/// Vertical halving of a chroma plane `w` bytes wide: output row `r` is the floor of
/// the mean of input rows `2r` and `2r + 1`, column by column.
pub open spec fn halve_rows(input: Seq<u8>, w: int) -> Seq<u8> {
    Seq::new(
        (input.len() / 2) as nat,
        |k: int| ((input[2 * (k / w) * w + k % w] + input[(2 * (k / w) + 1) * w + k % w]) / 2) as u8,
    )
}

/// Planar 4:2:0 layout of the planar 4:2:2 picture `p` of `w` x `h` pixels.
pub open spec fn yuv422p_to_420p(p: Seq<u8>, w: int, h: int) -> Seq<u8> {
    let n = w * h;
    p.subrange(0, n) + halve_rows(p.subrange(n, n + n / 2), w / 2) + halve_rows(
        p.subrange(n + n / 2, n + 2 * (n / 2)),
        w / 2,
    )
}

/// Copies the interleaved picture `from` into the planes of `into`.
pub fn yuyv_interleave_to_yuv422p(from: &Yuv422Surface, into: &mut Yuv422pSurface)
    requires
        from.wf(),
        old(into).wf(),
        from.spec_width() == old(into).spec_width(),
        from.spec_height() == old(into).spec_height(),
        px_count(from.spec_width(), from.spec_height()) % 2 == 0,
    ensures
        final(into).wf(),
        final(into).spec_width() == old(into).spec_width(),
        final(into).spec_height() == old(into).spec_height(),
        final(into).bytes() == deinterleave(
            from.bytes(),
            px_count(from.spec_width(), from.spec_height()),
        ),
{
    let src = from.raw_bytes();
    let ghost n = px_count(from.spec_width(), from.spec_height());
    let pairs: usize = src.len() / 4;
    let mut yp: Vec<u8> = Vec::new();
    let mut up: Vec<u8> = Vec::new();
    let mut vp: Vec<u8> = Vec::new();
    let mut j: usize = 0;
    while j < pairs
        invariant
            0 <= j <= pairs,
            src@.len() == 2 * n,
            src@.len() <= usize::MAX,
            n % 2 == 0,
            pairs == n / 2,
            yp@ == Seq::new(2 * j as nat, |i: int| src@[2 * i]),
            up@ == Seq::new(j as nat, |i: int| src@[4 * i + 1]),
            vp@ == Seq::new(j as nat, |i: int| src@[4 * i + 3]),
        decreases pairs - j,
    {
        let b = 4 * j;
        yp.push(src[b]);
        up.push(src[b + 1]);
        yp.push(src[b + 2]);
        vp.push(src[b + 3]);
        j = j + 1;
        assert(yp@ =~= Seq::new(2 * j as nat, |i: int| src@[2 * i]));
        assert(up@ =~= Seq::new(j as nat, |i: int| src@[4 * i + 1]));
        assert(vp@ =~= Seq::new(j as nat, |i: int| src@[4 * i + 3]));
    }
    // every interleaved sample has been consumed
    let ghost (ys, us, vs) = (yp@, up@, vp@);
    yp.append(&mut up);
    yp.append(&mut vp);
    assert(yp@ =~= deinterleave(src@, n)) by {
        assert(yp@ == ys + us + vs);
    }
    into.data = yp;
}

/// Splits a planar 4:2:2 buffer of `px_count` pixels into its Y, U and V planes.
pub fn yuv422p_from_buffer_mut(px_count: usize, buffer: &mut [u8]) -> (r: (
    &mut [u8],
    &mut [u8],
    &mut [u8],
))
    requires
        px_count % 2 == 0,
        px_count + 2 * (px_count / 2) <= old(buffer)@.len(),
    ensures
        r.0@ == old(buffer)@.subrange(0, px_count as int),
        r.1@ == old(buffer)@.subrange(px_count as int, px_count + px_count / 2),
        r.2@ == old(buffer)@.subrange(px_count + px_count / 2, px_count + 2 * (px_count / 2)),
        final(buffer)@ == final(r.0)@ + final(r.1)@ + final(r.2)@ + old(buffer)@.subrange(
            px_count + 2 * (px_count / 2),
            old(buffer)@.len() as int,
        ),
{
    let y_plane_len = px_count;
    let u_plane_len = px_count / 2;
    let (y_plane, rest) = buffer.split_at_mut(y_plane_len);
    let (u_plane, rest) = rest.split_at_mut(u_plane_len);
    let (v_plane, _rest) = rest.split_at_mut(u_plane_len);
    (y_plane, u_plane, v_plane)
}

/// Splits a planar 4:2:0 buffer of `px_count` pixels into its Y, U and V planes.
pub fn yuv420p_from_buffer_mut(px_count: usize, buffer: &mut [u8]) -> (r: (
    &mut [u8],
    &mut [u8],
    &mut [u8],
))
    requires
        px_count % 4 == 0,
        px_count + 2 * (px_count / 4) <= old(buffer)@.len(),
    ensures
        r.0@ == old(buffer)@.subrange(0, px_count as int),
        r.1@ == old(buffer)@.subrange(px_count as int, px_count + px_count / 4),
        r.2@ == old(buffer)@.subrange(px_count + px_count / 4, px_count + 2 * (px_count / 4)),
        final(buffer)@ == final(r.0)@ + final(r.1)@ + final(r.2)@ + old(buffer)@.subrange(
            px_count + 2 * (px_count / 4),
            old(buffer)@.len() as int,
        ),
{
    let y_plane_len = px_count;
    let u_plane_len = px_count / 4;
    let (y_plane, rest) = buffer.split_at_mut(y_plane_len);
    let (u_plane, rest) = rest.split_at_mut(u_plane_len);
    let (v_plane, _rest) = rest.split_at_mut(u_plane_len);
    (y_plane, u_plane, v_plane)
}

/// Writes into `obuffer` the vertical halving of the chroma plane `ibuffer`,
/// `width` bytes wide.
pub fn downsample2_uv_plane_422p_420p(width: usize, ibuffer: &[u8], obuffer: &mut [u8])
    requires
        width > 0,
        old(obuffer)@.len() * 2 == ibuffer@.len(),
        ibuffer@.len() as int % (2 * width as int) == 0,
    ensures
        final(obuffer)@ == halve_rows(ibuffer@, width as int),
{
    let olen = obuffer.len();
    let ilen = ibuffer.len();
    let ghost w = width as int;
    let ghost m = ibuffer@.len() as int / (2 * w);
    let ghost h = halve_rows(ibuffer@, w);
    proof {
        vstd::arithmetic::div_mod::lemma_fundamental_div_mod(ibuffer@.len() as int, 2 * w);
        assert(olen == m * w) by (nonlinear_arith)
            requires
                olen * 2 == ibuffer@.len(),
                ibuffer@.len() == (2 * w) * m,
        ;
    }
    let mut k: usize = 0;
    let mut row_base: usize = 0;
    let mut c: usize = 0;
    let ghost mut r: int = 0;
    while k < olen
        invariant
            0 <= k <= olen,
            olen == obuffer@.len(),
            olen * 2 == ibuffer@.len(),
            ibuffer@.len() <= usize::MAX,
            olen == m * w,
            w == width,
            w > 0,
            h == halve_rows(ibuffer@, w),
            0 <= c < w,
            0 <= r,
            row_base == r * w,
            k == r * w + c,
            obuffer@.subrange(0, k as int) == h.subrange(0, k as int),
        decreases olen - k,
    {
        proof {
            assert((r + 1) * w <= m * w) by (nonlinear_arith)
                requires
                    r * w + c < m * w,
                    0 <= c,
                    w > 0,
            ;
            assert((r + 1) * w == r * w + w) by (nonlinear_arith);
            lemma_fundamental_div_mod_converse(k as int, w, r, c as int);
            assert(2 * r * w == r * w + r * w) by (nonlinear_arith);
            assert((2 * r + 1) * w == 2 * r * w + w) by (nonlinear_arith);
        }
        let in0 = row_base + k;
        let in1 = in0 + width;
        let value: u16 = ibuffer[in0] as u16 + ibuffer[in1] as u16;
        let ghost before = obuffer@;
        obuffer[k] = (value >> 1) as u8;
        assert(obuffer@.subrange(0, k + 1) =~= h.subrange(0, k + 1)) by {
            assert(obuffer@.subrange(0, k as int) =~= before.subrange(0, k as int));
            assert(value >> 1 == value / 2) by (bit_vector);
        }
        k = k + 1;
        if c + 1 == width {
            c = 0;
            row_base = row_base + width;
            proof {
                r = r + 1;
            }
        } else {
            c = c + 1;
        }
    }
    assert(obuffer@.subrange(0, olen as int) =~= obuffer@);
    assert(h.subrange(0, olen as int) =~= h);
}

/// Halves the chroma plane `buffer`, `width` bytes wide, vertically in place and
/// shortens it to the result. Output byte `k` is read from bytes at `k` or after, which
/// no earlier step has written, so one buffer serves as input and output.
pub fn downsample_uv_plane_422p_420p(width: usize, buffer: &mut Vec<u8>)
    requires
        width > 0,
        old(buffer)@.len() as int % (2 * width as int) == 0,
    ensures
        final(buffer)@ == halve_rows(old(buffer)@, width as int),
{
    let ilen = buffer.len();
    let olen = ilen / 2;
    let ghost ibuf = buffer@;
    let ghost w = width as int;
    let ghost m = ibuf.len() as int / (2 * w);
    let ghost h = halve_rows(ibuf, w);
    proof {
        vstd::arithmetic::div_mod::lemma_fundamental_div_mod(ibuf.len() as int, 2 * w);
        assert(ibuf.subrange(0, ilen as int) =~= ibuf);
        assert((2 * w) * m == 2 * (w * m)) by (nonlinear_arith);
        assert(ilen == 2 * (w * m));
        assert(olen == m * w) by (nonlinear_arith)
            requires
                olen * 2 == ibuf.len(),
                ibuf.len() == (2 * w) * m,
        ;
    }
    let mut k: usize = 0;
    let mut row_base: usize = 0;
    let mut c: usize = 0;
    let ghost mut r: int = 0;
    while k < olen
        invariant
            0 <= k <= olen,
            ilen == buffer@.len(),
            ilen == ibuf.len(),
            buffer@.subrange(k as int, ilen as int) == ibuf.subrange(k as int, ilen as int),
            olen * 2 == ibuf.len(),
            ibuf.len() <= usize::MAX,
            olen == m * w,
            w == width,
            w > 0,
            h == halve_rows(ibuf, w),
            0 <= c < w,
            0 <= r,
            row_base == r * w,
            k == r * w + c,
            buffer@.subrange(0, k as int) == h.subrange(0, k as int),
        decreases olen - k,
    {
        proof {
            assert((r + 1) * w <= m * w) by (nonlinear_arith)
                requires
                    r * w + c < m * w,
                    0 <= c,
                    w > 0,
            ;
            assert((r + 1) * w == r * w + w) by (nonlinear_arith);
            lemma_fundamental_div_mod_converse(k as int, w, r, c as int);
            assert(2 * r * w == r * w + r * w) by (nonlinear_arith);
            assert((2 * r + 1) * w == 2 * r * w + w) by (nonlinear_arith);
        }
        let in0 = row_base + k;
        let in1 = in0 + width;
        assert(buffer@[in0 as int] == ibuf[in0 as int]) by {
            assert(buffer@.subrange(k as int, ilen as int)[in0 - k] == ibuf.subrange(k as int, ilen as int)[in0 - k]);
        }
        assert(buffer@[in1 as int] == ibuf[in1 as int]) by {
            assert(buffer@.subrange(k as int, ilen as int)[in1 - k] == ibuf.subrange(k as int, ilen as int)[in1 - k]);
        }
        let value: u16 = buffer[in0] as u16 + buffer[in1] as u16;
        let ghost before = buffer@;
        buffer[k] = (value >> 1) as u8;
        assert(buffer@.subrange(k + 1, ilen as int) =~= ibuf.subrange(k + 1, ilen as int)) by {
            assert(before.subrange(k as int, ilen as int) == ibuf.subrange(k as int, ilen as int));
            assert forall|j: int| k + 1 <= j < ilen implies buffer@[j] == ibuf[j] by {
                assert(before.subrange(k as int, ilen as int)[j - k] == ibuf.subrange(k as int, ilen as int)[j - k]);
            }
        }
        assert(buffer@.subrange(0, k + 1) =~= h.subrange(0, k + 1)) by {
            assert(buffer@.subrange(0, k as int) =~= before.subrange(0, k as int));
            assert(value >> 1 == value / 2) by (bit_vector);
        }
        k = k + 1;
        if c + 1 == width {
            c = 0;
            row_base = row_base + width;
            proof {
                r = r + 1;
            }
        } else {
            c = c + 1;
        }
    }
    buffer.truncate(olen);
    assert(buffer@ =~= h);
}

/// Even picture sizes split into whole chroma rows at every stage of the halving.
proof fn lemma_even_sizes(w: int, h: int)
    requires
        w > 0,
        h >= 0,
        w % 2 == 0,
        h % 2 == 0,
    ensures
        (w * h) % 4 == 0,
        (w * h) / 2 == 2 * ((w * h) / 4),
        ((w * h) / 2) % (2 * (w / 2)) == 0,
        w / 2 > 0,
{
    let a = w / 2;
    let b = h / 2;
    assert(w * h == 4 * (a * b)) by (nonlinear_arith)
        requires
            w == 2 * a,
            h == 2 * b,
    ;
    assert(a * b >= 0) by (nonlinear_arith)
        requires
            a > 0,
            b >= 0,
    ;
    assert((w * h) / 2 == b * (2 * a)) by (nonlinear_arith)
        requires
            w * h == 4 * (a * b),
    ;
    vstd::arithmetic::div_mod::lemma_mod_multiples_basic(b, 2 * a);
}

/// Converts an interleaved 4:2:2 picture to planar 4:2:0: the Y plane is kept and each
/// chroma plane is halved vertically.
pub fn downsample_yuyv_420p(from: &Yuv422Surface) -> (r: Yuv420pSurface)
    requires
        from.wf(),
        from.spec_width() % 2 == 0,
        from.spec_height() % 2 == 0,
    ensures
        r.wf(),
        r.spec_width() == from.spec_width(),
        r.spec_height() == from.spec_height(),
        r.bytes() == yuv422p_to_420p(
            deinterleave(from.bytes(), px_count(from.spec_width(), from.spec_height())),
            from.spec_width() as int,
            from.spec_height() as int,
        ),
{
    let width = from.width();
    let height = from.height();
    let ghost (w, h) = (width as int, height as int);
    let n: usize = from.raw_bytes().len() / 2;
    let ghost p422 = deinterleave(from.bytes(), n as int);
    if n == 0 {
        assert(yuv422p_to_420p(p422, w, h) =~= Seq::<u8>::empty());
        return Yuv420pSurface::from_parts(width, height, Vec::new());
    }
    proof {
        if w == 0 {
            assert(w * h == 0);
        }
        lemma_even_sizes(w, h);
    }
    let mut s422p = Yuv422pSurface::new_black(width, height);
    yuyv_interleave_to_yuv422p(from, &mut s422p);
    let p = s422p.raw_bytes();
    let half = width as usize / 2;
    let mut out: Vec<u8> = vec![0u8; n + 2 * (n / 4)];
    {
        let (oy, ou, ov) = yuv420p_from_buffer_mut(n, out.as_mut_slice());
        let mut i: usize = 0;
        while i < n
            invariant
                0 <= i <= n,
                n <= p@.len(),
                oy@.len() == n,
                oy@.subrange(0, i as int) == p@.subrange(0, i as int),
            decreases n - i,
        {
            let ghost before = oy@;
            oy[i] = p[i];
            assert(oy@.subrange(0, i + 1) =~= p@.subrange(0, i + 1)) by {
                assert(oy@.subrange(0, i as int) =~= before.subrange(0, i as int));
            }
            i = i + 1;
        }
        assert(oy@ =~= p@.subrange(0, n as int));
        downsample2_uv_plane_422p_420p(half, vstd::slice::slice_subrange(p, n, n + n / 2), ou);
        downsample2_uv_plane_422p_420p(
            half,
            vstd::slice::slice_subrange(p, n + n / 2, n + 2 * (n / 2)),
            ov,
        );
    }
    assert(out@ =~= yuv422p_to_420p(p422, w, h));
    Yuv420pSurface::from_parts(width, height, out)
}

/// Converting interleaved 4:2:2 to planar keeps every luma sample: the Y plane holds
/// the even bytes of the input, in order.
pub proof fn lemma_luma_round_trip(src: Seq<u8>, n: int)
    requires
        0 <= n,
        src.len() == 2 * n,
    ensures
        deinterleave(src, n).subrange(0, n) == Seq::new(n as nat, |i: int| src[2 * i]),
{
    assert(deinterleave(src, n).subrange(0, n) =~= Seq::new(n as nat, |i: int| src[2 * i]));
}

} // verus!
