use vstd::prelude::*;
use vstd::arithmetic::div_mod::lemma_fundamental_div_mod_converse;

use crate::conversions::{deinterleave, downsample_yuyv_420p, yuv422p_to_420p, Yuv422Surface};

verus! {

/// Number of pixels (and of luma bytes) in a `width` x `height` picture.
pub open spec fn px_count(width: u32, height: u32) -> int {
    width as int * height as int
}

/// Byte length of an interleaved 4:2:2 (YUYV) picture.
pub open spec fn yuyv_len(width: u32, height: u32) -> int {
    2 * px_count(width, height)
}

/// Byte length of a planar 4:2:2 picture: Y, then U and V at half size.
pub open spec fn yuv422p_len(width: u32, height: u32) -> int {
    px_count(width, height) + 2 * (px_count(width, height) / 2)
}

/// Byte length of a planar 4:2:0 picture: Y, then U and V at quarter size.
pub open spec fn yuv420p_len(width: u32, height: u32) -> int {
    px_count(width, height) + 2 * (px_count(width, height) / 4)
}

/// A sequence of `n` zero bytes.
pub open spec fn zeros(n: int) -> Seq<u8> {
    Seq::new(n as nat, |i: int| 0u8)
}

/// `width * height`, which always fits in 64 bits.
pub fn pixel_count(width: u32, height: u32) -> (r: u64)
    ensures
        r == px_count(width, height),
{
    proof {
        let (w, h) = (width as int, height as int);
        assert(0 <= w * h <= 0xffff_ffff * 0xffff_ffff) by (nonlinear_arith)
            requires
                0 <= w <= 0xffff_ffff,
                0 <= h <= 0xffff_ffff,
        ;
    }
    width as u64 * height as u64
}

/// A fresh vector holding `src[lo..hi]`.
pub(crate) fn copy_range(src: &[u8], lo: usize, hi: usize) -> (r: Vec<u8>)
    requires
        lo <= hi <= src@.len(),
    ensures
        r@ == src@.subrange(lo as int, hi as int),
{
    let mut r: Vec<u8> = Vec::with_capacity(hi - lo);
    let mut i: usize = lo;
    while i < hi
        invariant
            lo <= i <= hi <= src@.len(),
            r@ == src@.subrange(lo as int, i as int),
        decreases hi - i,
    {
        r.push(src[i]);
        i = i + 1;
        assert(r@ =~= src@.subrange(lo as int, i as int));
    }
    r
}

/// The two 3x3 filters that a luma picture can be run through.
#[derive(Clone, Copy, PartialEq, Eq, Structural)]
pub enum Kernel3x3 {
    Average,
    Sobel,
}

/// Sum of the nine samples of a 3x3 window (row-major).
pub open spec fn window_sum(p: Seq<u8>) -> int {
    p[0] + p[1] + p[2] + p[3] + p[4] + p[5] + p[6] + p[7] + p[8]
}

/// Box average: the floor of the mean of the nine samples.
pub open spec fn average_of(p: Seq<u8>) -> u8 {
    (window_sum(p) / 9) as u8
}

/// Horizontal Sobel gradient: right column minus left column, middle row doubled.
pub open spec fn sobel_gx(p: Seq<u8>) -> int {
    (p[2] + 2 * p[5] + p[8]) - (p[0] + 2 * p[3] + p[6])
}

/// Vertical Sobel gradient: bottom row minus top row, middle column doubled.
pub open spec fn sobel_gy(p: Seq<u8>) -> int {
    (p[6] + 2 * p[7] + p[8]) - (p[0] + 2 * p[1] + p[2])
}

pub open spec fn round_sqrt_from(n: int, k: int) -> int
    decreases n - k,
{
    if k >= n || n <= k * k + k {
        k
    } else {
        round_sqrt_from(n, k + 1)
    }
}

/// The nearest integer to the square root of `n`: the least `k` with `n <= k*k + k`.
pub open spec fn round_sqrt(n: int) -> int {
    round_sqrt_from(n, 0)
}

pub open spec fn clamp_spec(val: int, minv: int, maxv: int) -> int {
    if val > maxv {
        if maxv < minv { minv } else { maxv }
    } else if val < minv {
        minv
    } else {
        val
    }
}

/// Sobel gradient magnitude, rounded to the nearest integer and clamped to a byte.
pub open spec fn sobel_of(p: Seq<u8>) -> u8 {
    clamp_spec(round_sqrt(sobel_gx(p) * sobel_gx(p) + sobel_gy(p) * sobel_gy(p)), 0, 255) as u8
}

pub open spec fn apply_kernel(kernel: Kernel3x3, p: Seq<u8>) -> u8 {
    match kernel {
        Kernel3x3::Average => average_of(p),
        Kernel3x3::Sobel => sobel_of(p),
    }
}

/// The 3x3 window centred on byte `c` of a picture `w` bytes wide.
pub open spec fn window_at(src: Seq<u8>, w: int, c: int) -> Seq<u8> {
    seq![
        src[c - w - 1], src[c - w], src[c - w + 1],
        src[c - 1], src[c], src[c + 1],
        src[c + w - 1], src[c + w], src[c + w + 1],
    ]
}

/// Pixel `(x, y)` of the filtered picture: the kernel on interior pixels, zero on the border.
pub open spec fn kernel_px(kernel: Kernel3x3, src: Seq<u8>, w: int, h: int, x: int, y: int) -> u8 {
    if 1 <= x < w - 1 && 1 <= y < h - 1 {
        apply_kernel(kernel, window_at(src, w, y * w + x))
    } else {
        0
    }
}

/// The whole filtered picture, row after row.
pub open spec fn kernel_out(kernel: Kernel3x3, src: Seq<u8>, w: int, h: int) -> Seq<u8> {
    Seq::new((w * h) as nat, |i: int| kernel_px(kernel, src, w, h, i % w, i / w))
}

proof fn lemma_round_sqrt_from(n: int, k: int)
    requires
        0 <= k,
        0 <= n,
        k > 0 ==> k * k - k < n,
    ensures
        k <= round_sqrt_from(n, k),
        n <= round_sqrt_from(n, k) * round_sqrt_from(n, k) + round_sqrt_from(n, k),
        round_sqrt_from(n, k) > 0 ==> round_sqrt_from(n, k) * round_sqrt_from(n, k)
            - round_sqrt_from(n, k) < n,
    decreases n - k,
{
    if k >= n || n <= k * k + k {
        if k >= n {
            assert(k * k >= 0) by (nonlinear_arith);
        }
    } else {
        assert((k + 1) * (k + 1) - (k + 1) == k * k + k) by (nonlinear_arith);
        lemma_round_sqrt_from(n, k + 1);
    }
}

/// `round_sqrt(n)` is the integer nearest to the square root of `n`:
/// `(k - 1/2)^2 <= n < (k + 1/2)^2`, written over the integers.
pub proof fn lemma_round_sqrt(n: int)
    requires
        0 <= n,
    ensures
        0 <= round_sqrt(n),
        n <= round_sqrt(n) * round_sqrt(n) + round_sqrt(n),
        round_sqrt(n) > 0 ==> round_sqrt(n) * round_sqrt(n) - round_sqrt(n) < n,
{
    lemma_round_sqrt_from(n, 0);
}

fn clamp(val: i32, minv: i32, maxv: i32) -> (r: i32)
    ensures
        r == clamp_spec(val as int, minv as int, maxv as int),
{
    let lo = if val < maxv { val } else { maxv };
    if lo > minv { lo } else { minv }
}

/// Sobel gradient magnitude of a 3x3 window.
pub fn l8_sobel_3x3(pixels: &[u8; 9]) -> (r: u8)
    ensures
        r == sobel_of(pixels@),
{
    let p = pixels;
    let acc_x: i32 = (p[2] as i32 + 2 * p[5] as i32 + p[8] as i32)
        - (p[0] as i32 + 2 * p[3] as i32 + p[6] as i32);
    let acc_y: i32 = (p[6] as i32 + 2 * p[7] as i32 + p[8] as i32)
        - (p[0] as i32 + 2 * p[1] as i32 + p[2] as i32);
    assert(acc_x == sobel_gx(pixels@));
    assert(acc_y == sobel_gy(pixels@));
    assert(acc_x * acc_x <= 1020 * 1020) by (nonlinear_arith)
        requires
            -1020 <= acc_x <= 1020,
    ;
    assert(acc_y * acc_y <= 1020 * 1020) by (nonlinear_arith)
        requires
            -1020 <= acc_y <= 1020,
    ;
    assert(acc_x * acc_x >= 0) by (nonlinear_arith);
    assert(acc_y * acc_y >= 0) by (nonlinear_arith);
    let acc_s: i64 = (acc_y * acc_y + acc_x * acc_x) as i64;
    let ghost n = acc_s as int;
    // nearest integer to the square root: the least k with acc_s <= k*k + k
    proof {
        assert(acc_s * acc_s <= (2 * 1020 * 1020) * (2 * 1020 * 1020)) by (nonlinear_arith)
            requires
                0 <= acc_s <= 2 * 1020 * 1020,
        ;
    }
    let mut k: i64 = 0;
    loop
        invariant
            0 <= k <= acc_s,
            n == acc_s,
            acc_s <= 2 * 1020 * 1020,
            acc_s * acc_s <= (2 * 1020 * 1020) * (2 * 1020 * 1020),
            round_sqrt_from(n, k as int) == round_sqrt(n),
        ensures
            0 <= k <= acc_s,
            k as int == round_sqrt(n),
        decreases acc_s - k,
    {
        if k >= acc_s {
            assert(round_sqrt_from(n, k as int) == k as int) by {
                reveal_with_fuel(round_sqrt_from, 2);
            }
            break;
        }
        proof {
            assert(k * k + k <= 10_000_000_000_000) by (nonlinear_arith)
                requires
                    0 <= k <= acc_s,
                    acc_s <= 2 * 1020 * 1020,
            ;
        }
        if acc_s <= k * k + k {
            assert(round_sqrt_from(n, k as int) == k as int) by {
                reveal_with_fuel(round_sqrt_from, 2);
            }
            break;
        }
        proof {
            reveal_with_fuel(round_sqrt_from, 2);
            assert(round_sqrt_from(n, k as int) == round_sqrt_from(n, k + 1));
        }
        k = k + 1;
    }
    let k = k as i32;
    clamp(k, 0x00, 0xFF) as u8
}

/// Box average of a 3x3 window.
pub fn l8_average_3x3(pixels: &[u8; 9]) -> (r: u8)
    ensures
        r == average_of(pixels@),
{
    let mut acc: i16 = 0;
    let mut i: usize = 0;
    while i < 9
        invariant
            0 <= i <= 9,
            acc == pixels@.subrange(0, i as int).fold_left(0int, |a: int, b: u8| a + b),
            0 <= acc <= 255 * i,
        decreases 9 - i,
    {
        proof {
            let s = pixels@.subrange(0, i as int + 1);
            assert(s.drop_last() =~= pixels@.subrange(0, i as int));
        }
        acc = acc + pixels[i] as i16;
        i = i + 1;
    }
    proof {
        let s = pixels@;
        assert(s.subrange(0, 9) =~= s);
        reveal_with_fuel(Seq::fold_left, 10);
        assert(s.subrange(0, 0) =~= Seq::<u8>::empty());
    }
    (acc / 9) as u8
}

/// A `w` x `h` picture with a vertical step: `a` left of column `s`, `b` from it on.
pub open spec fn step_picture(w: int, h: int, s: int, a: u8, b: u8) -> Seq<u8> {
    Seq::new((w * h) as nat, |i: int| if i % w < s { a } else { b })
}

pub open spec fn step_column(s: int, a: u8, b: u8, x: int) -> u8 {
    if x < s { a } else { b }
}

proof fn lemma_step_sample(w: int, h: int, s: int, a: u8, b: u8, x: int, y: int, dx: int, dy: int)
    requires
        1 <= x < w - 1,
        1 <= y < h - 1,
        -1 <= dx <= 1,
        -1 <= dy <= 1,
    ensures
        0 <= y * w + x + dy * w + dx < w * h,
        step_picture(w, h, s, a, b)[y * w + x + dy * w + dx] == step_column(s, a, b, x + dx),
{
    let i = (y + dy) * w + (x + dx);
    assert(i == y * w + x + dy * w + dx) by (nonlinear_arith)
        requires
            i == (y + dy) * w + (x + dx),
    ;
    assert(0 <= i < w * h) by (nonlinear_arith)
        requires
            i == (y + dy) * w + (x + dx),
            0 <= y + dy <= h - 1,
            0 <= x + dx < w,
    ;
    lemma_fundamental_div_mod_converse(i, w, y + dy, x + dx);
}

proof fn lemma_step_kernel_at(w: int, h: int, s: int, a: u8, b: u8, x: int, y: int)
    requires
        1 <= x < w - 1,
        1 <= y < h - 1,
    ensures
        0 <= y * w + x < w * h,
        kernel_out(Kernel3x3::Sobel, step_picture(w, h, s, a, b), w, h)[y * w + x] == sobel_of(
            seq![
                step_column(s, a, b, x - 1), step_column(s, a, b, x), step_column(s, a, b, x + 1),
                step_column(s, a, b, x - 1), step_column(s, a, b, x), step_column(s, a, b, x + 1),
                step_column(s, a, b, x - 1), step_column(s, a, b, x), step_column(s, a, b, x + 1),
            ],
        ),
{
    let src = step_picture(w, h, s, a, b);
    let c = y * w + x;
    lemma_step_sample(w, h, s, a, b, x, y, 0, 0);
    lemma_step_sample(w, h, s, a, b, x, y, -1, -1);
    lemma_step_sample(w, h, s, a, b, x, y, 0, -1);
    lemma_step_sample(w, h, s, a, b, x, y, 1, -1);
    lemma_step_sample(w, h, s, a, b, x, y, -1, 0);
    lemma_step_sample(w, h, s, a, b, x, y, 1, 0);
    lemma_step_sample(w, h, s, a, b, x, y, -1, 1);
    lemma_step_sample(w, h, s, a, b, x, y, 0, 1);
    lemma_step_sample(w, h, s, a, b, x, y, 1, 1);
    assert(window_at(src, w, c) =~= seq![
        step_column(s, a, b, x - 1), step_column(s, a, b, x), step_column(s, a, b, x + 1),
        step_column(s, a, b, x - 1), step_column(s, a, b, x), step_column(s, a, b, x + 1),
        step_column(s, a, b, x - 1), step_column(s, a, b, x), step_column(s, a, b, x + 1),
    ]);
    lemma_fundamental_div_mod_converse(c, w, y, x);
}

/// On a picture with a sharp vertical step, the Sobel output is strictly higher at an
/// interior pixel next to the step (in the last column before it or the first after it)
/// than at an interior pixel of the same row away from it, where it is zero.
pub proof fn lemma_sobel_step_picture(w: int, h: int, s: int, a: u8, b: u8, x: int, far: int, y: int)
    requires
        a != b,
        1 <= x < w - 1,
        1 <= far < w - 1,
        1 <= y < h - 1,
        x == s - 1 || x == s,
        far < s - 1 || far > s,
    ensures
        kernel_out(Kernel3x3::Sobel, step_picture(w, h, s, a, b), w, h)[y * w + far] == 0,
        kernel_out(Kernel3x3::Sobel, step_picture(w, h, s, a, b), w, h)[y * w + x] > kernel_out(
            Kernel3x3::Sobel,
            step_picture(w, h, s, a, b),
            w,
            h,
        )[y * w + far],
{
    lemma_step_kernel_at(w, h, s, a, b, x, y);
    lemma_step_kernel_at(w, h, s, a, b, far, y);
    let v = step_column(s, a, b, far);
    lemma_flat_window_zero(seq![v, v, v, v, v, v, v, v, v]);
    if x == s - 1 {
        lemma_step_window_positive(seq![a, a, b, a, a, b, a, a, b]);
    } else {
        lemma_step_window_positive(seq![a, b, b, a, b, b, a, b, b]);
    }
}

proof fn lemma_step_window_positive(p: Seq<u8>)
    requires
        p.len() == 9,
        sobel_gx(p) != 0,
    ensures
        sobel_of(p) > 0,
{
    let gx = sobel_gx(p);
    let gy = sobel_gy(p);
    let n = gx * gx + gy * gy;
    assert(n >= 1) by (nonlinear_arith)
        requires
            gx != 0,
            n == gx * gx + gy * gy,
    ;
    lemma_round_sqrt(n);
    let k = round_sqrt(n);
    if k == 0 {
        assert(n <= k * k + k);
    }
}

proof fn lemma_flat_window_zero(p: Seq<u8>)
    requires
        p.len() == 9,
        forall|i: int| 0 <= i < 9 ==> #[trigger] p[i] == p[0],
    ensures
        sobel_of(p) == 0,
{
    assert(sobel_gx(p) == 0);
    assert(sobel_gy(p) == 0);
    assert(round_sqrt(0) == 0);
}

/// A single-channel 8-bit picture, stored row by row.
pub struct LumaSurface {
    width: u32,
    height: u32,
    data: Vec<u8>,
}

impl LumaSurface {
    pub closed spec fn spec_width(&self) -> u32 {
        self.width
    }

    pub closed spec fn spec_height(&self) -> u32 {
        self.height
    }

    /// The picture's bytes, row after row.
    pub closed spec fn bytes(&self) -> Seq<u8> {
        self.data@
    }

    pub open spec fn wf(&self) -> bool {
        self.bytes().len() == px_count(self.spec_width(), self.spec_height())
    }

    /// A picture of the given size with every byte zero.
    pub fn new_black(width: u32, height: u32) -> (r: LumaSurface)
        requires
            px_count(width, height) <= usize::MAX,
        ensures
            r.wf(),
            r.spec_width() == width,
            r.spec_height() == height,
            r.bytes() == zeros(px_count(width, height)),
    {
        let n = width as usize * height as usize;
        let data = vec![0u8; n];
        assert(data@ =~= zeros(px_count(width, height)));
        LumaSurface { width, height, data }
    }

    /// Wraps a copy of `buf`; `None` where its length is not `width * height`.
    pub fn new(width: u32, height: u32, buf: &[u8]) -> (r: Option<LumaSurface>)
        ensures
            r is Some <==> buf@.len() == px_count(width, height),
            r matches Some(s) ==> s.wf() && s.spec_width() == width && s.spec_height()
                == height && s.bytes() == buf@,
    {
        if buf.len() as u64 != pixel_count(width, height) {
            return None;
        }
        let data = copy_range(buf, 0, buf.len());
        Some(LumaSurface { width, height, data })
    }

    /// Takes `data` as the bytes of a `width` x `height` picture.
    pub(crate) fn from_parts(width: u32, height: u32, data: Vec<u8>) -> (r: LumaSurface)
        requires
            data@.len() == px_count(width, height),
        ensures
            r.wf(),
            r.spec_width() == width,
            r.spec_height() == height,
            r.bytes() == data@,
    {
        LumaSurface { width, height, data }
    }

    pub fn width(&self) -> (r: u32)
        ensures
            r == self.spec_width(),
    {
        self.width
    }

    pub fn height(&self) -> (r: u32)
        ensures
            r == self.spec_height(),
    {
        self.height
    }

    pub fn raw_bytes(&self) -> (r: &[u8])
        ensures
            r@ == self.bytes(),
    {
        self.data.as_slice()
    }

    /// Runs `kernel` over every interior pixel; border pixels of the result are zero.
    pub fn run_kernel_3x3(&self, kernel: Kernel3x3) -> (r: LumaSurface)
        requires
            self.wf(),
        ensures
            r.wf(),
            r.spec_width() == self.spec_width(),
            r.spec_height() == self.spec_height(),
            r.bytes() == kernel_out(
                kernel,
                self.bytes(),
                self.spec_width() as int,
                self.spec_height() as int,
            ),
    {
        let w = self.width as usize;
        let h = self.height as usize;
        let src = self.data.as_slice();
        let ghost ws = w as int;
        let ghost hs = h as int;
        let ghost spec_out = kernel_out(kernel, src@, ws, hs);
        let n = src.len();
        assert(hs * ws == ws * hs) by (nonlinear_arith);
        let mut out: Vec<u8> = Vec::new();
        let mut y: usize = 0;
        while y < h
            invariant
                0 <= y <= h,
                src@.len() == ws * hs,
                n == src@.len(),
                hs * ws == ws * hs,
                w == ws,
                h == hs,
                spec_out == kernel_out(kernel, src@, ws, hs),
                out@ == spec_out.subrange(0, y * ws),
            decreases h - y,
        {
            proof {
                assert((y + 1) * ws <= hs * ws) by (nonlinear_arith)
                    requires
                        y + 1 <= hs,
                        ws >= 0,
                ;
                assert((y + 1) * ws == y * ws + ws) by (nonlinear_arith);
                assert(y * ws >= 0) by (nonlinear_arith)
                    requires
                        y >= 0,
                        ws >= 0,
                ;
            }
            let row: usize = y * w;
            let mut x: usize = 0;
            while x < w
                invariant
                    0 <= x <= w,
                    0 <= y < h,
                    src@.len() == ws * hs,
                    n == src@.len(),
                    hs * ws == ws * hs,
                    w == ws,
                    h == hs,
                    row == y * ws,
                    row + ws <= hs * ws,
                    spec_out == kernel_out(kernel, src@, ws, hs),
                    out@ == spec_out.subrange(0, row + x),
                decreases w - x,
            {
                let c: usize = row + x;
                let v: u8 = if 1 <= x && x + 1 < w && 1 <= y && y + 1 < h {
                    proof {
                        assert(row + ws + ws <= hs * ws) by (nonlinear_arith)
                            requires
                                row == y * ws,
                                y + 2 <= hs,
                                ws >= 0,
                        ;
                        assert(row >= ws) by (nonlinear_arith)
                            requires
                                row == y * ws,
                                y >= 1,
                                ws >= 0,
                        ;
                    }
                    let px: [u8; 9] = [
                        src[c - w - 1], src[c - w], src[c - w + 1],
                        src[c - 1], src[c], src[c + 1],
                        src[c + w - 1], src[c + w], src[c + w + 1],
                    ];
                    assert(px@ =~= window_at(src@, ws, c as int));
                    match kernel {
                        Kernel3x3::Average => l8_average_3x3(&px),
                        Kernel3x3::Sobel => l8_sobel_3x3(&px),
                    }
                } else {
                    0
                };
                proof {
                    lemma_fundamental_div_mod_converse(c as int, ws, y as int, x as int);
                    assert(v == kernel_px(kernel, src@, ws, hs, x as int, y as int));
                }
                out.push(v);
                x = x + 1;
                assert(out@ =~= spec_out.subrange(0, row + x));
            }
            y = y + 1;
        }
        assert(out@ =~= spec_out);
        LumaSurface { width: self.width, height: self.height, data: out }
    }
}

} // verus!

verus! {

/// A planar 4:2:0 picture: the Y plane, then U, then V, each chroma plane a quarter of Y.
pub struct Yuv420pSurface {
    width: u32,
    height: u32,
    data: Vec<u8>,
}

impl Yuv420pSurface {
    pub closed spec fn spec_width(&self) -> u32 {
        self.width
    }

    pub closed spec fn spec_height(&self) -> u32 {
        self.height
    }

    /// All bytes of the picture, planes in order.
    pub closed spec fn bytes(&self) -> Seq<u8> {
        self.data@
    }

    pub open spec fn wf(&self) -> bool {
        self.bytes().len() == yuv420p_len(self.spec_width(), self.spec_height())
    }

    /// The Y plane.
    pub open spec fn luma(&self) -> Seq<u8> {
        self.bytes().subrange(0, px_count(self.spec_width(), self.spec_height()))
    }

    pub(crate) fn from_parts(width: u32, height: u32, data: Vec<u8>) -> (r: Yuv420pSurface)
        requires
            data@.len() == yuv420p_len(width, height),
        ensures
            r.wf(),
            r.spec_width() == width,
            r.spec_height() == height,
            r.bytes() == data@,
    {
        Yuv420pSurface { width, height, data }
    }

    /// A picture of the given size with every byte zero.
    pub fn new_black(width: u32, height: u32) -> (r: Yuv420pSurface)
        requires
            yuv420p_len(width, height) <= usize::MAX,
        ensures
            r.wf(),
            r.spec_width() == width,
            r.spec_height() == height,
            r.bytes() == zeros(yuv420p_len(width, height)),
    {
        let n = pixel_count(width, height) as usize;
        let len = n + 2 * (n / 4);
        let data = vec![0u8; len];
        assert(data@ =~= zeros(yuv420p_len(width, height)));
        Yuv420pSurface { width, height, data }
    }

    /// Length of the Y plane, the number of pixels.
    fn luma_len(&self) -> (r: usize)
        requires
            self.wf(),
        ensures
            r == px_count(self.spec_width(), self.spec_height()),
            yuv420p_len(self.spec_width(), self.spec_height()) <= usize::MAX,
    {
        let n = pixel_count(self.width, self.height);
        let len = self.data.len();
        assert(n <= len);
        n as usize
    }

    /// Converts the interleaved 4:2:2 bytes `data` of a `width` x `height` picture;
    /// `None` where `data` is not `2 * width * height` bytes long.
    pub fn from_yuyv_buf(width: u32, height: u32, data: &[u8]) -> (r: Option<Yuv420pSurface>)
        requires
            width % 2 == 0,
            height % 2 == 0,
        ensures
            r is Some <==> data@.len() == yuyv_len(width, height),
            r matches Some(s) ==> s.wf() && s.spec_width() == width && s.spec_height() == height
                && s.bytes() == yuv422p_to_420p(
                deinterleave(data@, px_count(width, height)),
                width as int,
                height as int,
            ),
    {
        let buf = copy_range(data, 0, data.len());
        assert(buf@ =~= data@);
        match Yuv422Surface::new(width, height, buf) {
            Some(from) => Some(downsample_yuyv_420p(&from)),
            None => None,
        }
    }

    pub fn width(&self) -> (r: u32)
        ensures
            r == self.spec_width(),
    {
        self.width
    }

    pub fn height(&self) -> (r: u32)
        ensures
            r == self.spec_height(),
    {
        self.height
    }

    /// The Y plane.
    pub fn luma_bytes(&self) -> (r: &[u8])
        requires
            self.wf(),
        ensures
            r@ == self.luma(),
    {
        let n = self.luma_len();
        vstd::slice::slice_subrange(self.data.as_slice(), 0, n)
    }

    /// The U plane.
    pub fn u_bytes(&self) -> (r: &[u8])
        requires
            self.wf(),
        ensures
            r@ == self.bytes().subrange(
                px_count(self.spec_width(), self.spec_height()),
                px_count(self.spec_width(), self.spec_height()) + px_count(
                    self.spec_width(),
                    self.spec_height(),
                ) / 4,
            ),
    {
        let n = self.luma_len();
        vstd::slice::slice_subrange(self.data.as_slice(), n, n + n / 4)
    }

    /// The V plane.
    pub fn v_bytes(&self) -> (r: &[u8])
        requires
            self.wf(),
        ensures
            r@ == self.bytes().subrange(
                px_count(self.spec_width(), self.spec_height()) + px_count(
                    self.spec_width(),
                    self.spec_height(),
                ) / 4,
                yuv420p_len(self.spec_width(), self.spec_height()),
            ),
    {
        let n = self.luma_len();
        vstd::slice::slice_subrange(self.data.as_slice(), n + n / 4, n + 2 * (n / 4))
    }

    /// A single-channel copy of the Y plane.
    pub fn luma_surf(&self) -> (r: LumaSurface)
        requires
            self.wf(),
        ensures
            r.wf(),
            r.spec_width() == self.spec_width(),
            r.spec_height() == self.spec_height(),
            r.bytes() == self.luma(),
    {
        let n = self.luma_len();
        let data = copy_range(self.data.as_slice(), 0, n);
        LumaSurface::from_parts(self.width, self.height, data)
    }

    pub fn raw_bytes(&self) -> (r: &[u8])
        ensures
            r@ == self.bytes(),
    {
        self.data.as_slice()
    }

    /// The whole buffer, for writing in place; its length cannot change.
    pub fn raw_bytes_mut(&mut self) -> (r: &mut [u8])
        ensures
            r@ == old(self).bytes(),
            final(self).spec_width() == old(self).spec_width(),
            final(self).spec_height() == old(self).spec_height(),
            final(self).bytes() == final(r)@,
    {
        self.data.as_mut_slice()
    }
}

} // verus!
