use vstd::prelude::*;

use std::collections::VecDeque;

use crate::compose::{compose, compose_bytes, lemma_absolute_diff_self, ComposeMode};
use crate::surface2::{kernel_out, px_count, Kernel3x3, LumaSurface, Yuv420pSurface};

verus! {

/// Number of frames held back before a decision is made on the oldest.
pub const BACK_WINDOW: usize = 10;

/// An edge-difference byte above this value counts as a lit pixel.
pub const LIT_THRESHOLD: u8 = 0x60;

/// Number of calls that keep emitting after the detector is (re-)armed.
pub const ARM_LEN: usize = 12;

/// Smoothed edge picture of a luma plane: box average, then Sobel magnitude.
pub open spec fn edge_of(luma: Seq<u8>, w: int, h: int) -> Seq<u8> {
    kernel_out(Kernel3x3::Sobel, kernel_out(Kernel3x3::Average, luma, w, h), w, h)
}

/// Number of bytes of `s` above the lit threshold.
pub open spec fn lit_count(s: Seq<u8>) -> int
    decreases s.len(),
{
    if s.len() == 0 {
        0
    } else {
        lit_count(s.drop_last()) + if s.last() > LIT_THRESHOLD {
            1int
        } else {
            0int
        }
    }
}

/// Sum of a sequence of integers.
pub open spec fn seq_sum(s: Seq<int>) -> int
    decreases s.len(),
{
    if s.len() == 0 {
        0
    } else {
        seq_sum(s.drop_last()) + s.last()
    }
}

/// Lit counts of the held frames, oldest first.
pub open spec fn lits_of(q: Seq<(usize, Yuv420pSurface)>) -> Seq<int> {
    q.map_values(|e: (usize, Yuv420pSurface)| e.0 as int)
}

/// The held window after `x` is appended: at most `BACK_WINDOW` entries, oldest dropped.
pub open spec fn window_after<T>(q: Seq<T>, x: T) -> Seq<T> {
    if q.len() + 1 > BACK_WINDOW {
        q.push(x).drop_first()
    } else {
        q.push(x)
    }
}

/// Mean lit fraction over the window above one percent.
pub open spec fn armed(window: Seq<int>) -> bool {
    window.len() * 100 < seq_sum(window)
}

/// Emission counter once the window has been looked at, before this call's decrement.
pub open spec fn ctr_armed(lits: Seq<int>, ctr: int, lit: int) -> int {
    if armed(window_after(lits, lit)) {
        ARM_LEN as int
    } else {
        ctr
    }
}

/// Emission counter after a call with lit count `lit`.
pub open spec fn next_ctr(lits: Seq<int>, ctr: int, lit: int) -> int {
    if ctr_armed(lits, ctr, lit) > 0 {
        ctr_armed(lits, ctr, lit) - 1
    } else {
        ctr_armed(lits, ctr, lit)
    }
}

/// Whether a call with lit count `lit` hands a frame back: one leaves the window and
/// the counter is live.
pub open spec fn emits(lits: Seq<int>, ctr: int, lit: int) -> bool {
    lits.len() + 1 > BACK_WINDOW && ctr_armed(lits, ctr, lit) > 0
}

/// The motion decision state: the previous edge picture, the last edge difference,
/// the frames held back with their lit counts, and the emission counter.
pub struct MotionContext {
    width: u32,
    height: u32,
    denoise_avg: LumaSurface,
    last_edge: LumaSurface,
    recents: VecDeque<(usize, Yuv420pSurface)>,
    emit_ctr: usize,
}

impl MotionContext {
    pub closed spec fn spec_width(&self) -> u32 {
        self.width
    }

    pub closed spec fn spec_height(&self) -> u32 {
        self.height
    }

    /// Edge picture of the previous frame.
    pub closed spec fn denoise(&self) -> Seq<u8> {
        self.denoise_avg.bytes()
    }

    /// Edge difference computed by the last call.
    pub closed spec fn last_edge_bytes(&self) -> Seq<u8> {
        self.last_edge.bytes()
    }

    /// Held frames with their lit counts, oldest first.
    pub closed spec fn recents(&self) -> Seq<(usize, Yuv420pSurface)> {
        self.recents@
    }

    pub closed spec fn emit_ctr(&self) -> int {
        self.emit_ctr as int
    }

    pub closed spec fn wf(&self) -> bool {
        &&& self.denoise_avg.wf()
        &&& self.last_edge.wf()
        &&& self.denoise_avg.spec_width() == self.width
        &&& self.denoise_avg.spec_height() == self.height
        &&& self.last_edge.spec_width() == self.width
        &&& self.last_edge.spec_height() == self.height
        &&& self.recents@.len() <= BACK_WINDOW
        &&& self.emit_ctr <= ARM_LEN
    }

    /// A detector for frames of the given size, with black edge pictures and nothing held.
    pub fn new(width: u32, height: u32) -> (r: MotionContext)
        requires
            px_count(width, height) <= usize::MAX,
        ensures
            r.wf(),
            r.spec_width() == width,
            r.spec_height() == height,
            r.denoise() == Seq::new(px_count(width, height) as nat, |i: int| 0u8),
            r.last_edge_bytes() == Seq::new(px_count(width, height) as nat, |i: int| 0u8),
            r.recents().len() == 0,
            r.emit_ctr() == 0,
    {
        MotionContext {
            width,
            height,
            denoise_avg: LumaSurface::new_black(width, height),
            last_edge: LumaSurface::new_black(width, height),
            recents: VecDeque::new(),
            emit_ctr: 0,
        }
    }

    /// The edge difference computed by the last call.
    pub fn last_edge(&self) -> (r: &LumaSurface)
        requires
            self.wf(),
        ensures
            r.wf(),
            r.bytes() == self.last_edge_bytes(),
            r.spec_width() == self.spec_width(),
            r.spec_height() == self.spec_height(),
    {
        &self.last_edge
    }

    /// Takes the next frame and returns the frame, if any, to be kept.
    pub fn push_pop(&mut self, frame: Yuv420pSurface) -> (r: Option<Yuv420pSurface>)
        requires
            old(self).wf(),
            frame.wf(),
            frame.spec_width() == old(self).spec_width(),
            frame.spec_height() == old(self).spec_height(),
        ensures
            final(self).wf(),
            final(self).emit_ctr() <= ARM_LEN,
            final(self).recents().len() <= BACK_WINDOW,
            final(self).spec_width() == old(self).spec_width(),
            final(self).spec_height() == old(self).spec_height(),
            final(self).denoise() == edge_of(
                frame.luma(),
                frame.spec_width() as int,
                frame.spec_height() as int,
            ),
            final(self).last_edge_bytes() == compose_bytes(
                old(self).denoise(),
                final(self).denoise(),
                ComposeMode::AbsoluteDiff,
            ),
            final(self).recents() == window_after(
                old(self).recents(),
                (lit_count(final(self).last_edge_bytes()) as usize, frame),
            ),
            lits_of(final(self).recents()) == window_after(
                lits_of(old(self).recents()),
                lit_count(final(self).last_edge_bytes()),
            ),
            final(self).emit_ctr() == next_ctr(
                lits_of(old(self).recents()),
                old(self).emit_ctr(),
                lit_count(final(self).last_edge_bytes()),
            ),
            r == if emits(
                lits_of(old(self).recents()),
                old(self).emit_ctr(),
                lit_count(final(self).last_edge_bytes()),
            ) {
                Some(old(self).recents()[0].1)
            } else {
                None
            },
    {
        let edge = {
            let frame_luma = frame.luma_surf();
            let tmp = frame_luma.run_kernel_3x3(Kernel3x3::Average);
            tmp.run_kernel_3x3(Kernel3x3::Sobel)
        };
        self.last_edge = compose(&self.denoise_avg, &edge, ComposeMode::AbsoluteDiff);
        self.denoise_avg = edge;

        let bytes = self.last_edge.raw_bytes();
        let mut lit_pixels: usize = 0;
        let mut i: usize = 0;
        while i < bytes.len()
            invariant
                0 <= i <= bytes@.len(),
                lit_pixels == lit_count(bytes@.subrange(0, i as int)),
                lit_pixels <= i,
            decreases bytes@.len() - i,
        {
            assert(bytes@.subrange(0, i + 1).drop_last() =~= bytes@.subrange(0, i as int));
            if LIT_THRESHOLD < bytes[i] {
                lit_pixels = lit_pixels + 1;
            }
            i = i + 1;
        }
        assert(bytes@.subrange(0, bytes@.len() as int) =~= bytes@);
        let ghost lit = lit_pixels as int;
        let ghost old_q = self.recents@;

        self.recents.push_back((lit_pixels, frame));
        let mut emit_frame: Option<Yuv420pSurface> = None;
        if self.recents.len() > BACK_WINDOW {
            match self.recents.pop_front() {
                Some((_lit_px, surf)) => {
                    emit_frame = Some(surf);
                },
                None => {},
            }
        }
        let ghost q = self.recents@;
        assert(q == window_after(old_q, (lit_pixels, frame)));
        assert(lits_of(q) =~= window_after(lits_of(old_q), lit));

        let mut sum: u128 = 0;
        let mut j: usize = 0;
        while j < self.recents.len()
            invariant
                0 <= j <= q.len(),
                q.len() <= BACK_WINDOW,
                self.recents@ == q,
                sum == seq_sum(lits_of(q).subrange(0, j as int)),
                sum <= j * (usize::MAX as int),
            decreases q.len() - j,
        {
            assert(lits_of(q).subrange(0, j + 1).drop_last() =~= lits_of(q).subrange(0, j as int));
            sum = sum + self.recents[j].0 as u128;
            j = j + 1;
        }
        assert(lits_of(q).subrange(0, q.len() as int) =~= lits_of(q));

        if ((self.recents.len() * 100) as u128) < sum {
            self.emit_ctr = ARM_LEN;
        }
        if self.emit_ctr > 0 {
            self.emit_ctr = self.emit_ctr - 1;
            return emit_frame;
        }
        None
    }
}

/// A frame pushed twice in a row leaves an all-zero edge difference on the second call:
/// the first call makes its edge picture the baseline that the second is compared with.
pub proof fn lemma_repeated_frame_quiet(luma: Seq<u8>, w: int, h: int)
    ensures
        ({
            let first_baseline = edge_of(luma, w, h);
            let second_diff = compose_bytes(first_baseline, edge_of(luma, w, h), ComposeMode::AbsoluteDiff);
            second_diff == Seq::new(first_baseline.len(), |i: int| 0u8)
        }),
{
    lemma_absolute_diff_self(edge_of(luma, w, h));
}

/// Which calls of a run hand a frame back, from window `lits` and counter `ctr`, when
/// the frames pushed have the lit counts `input`, in order.
pub open spec fn emissions(lits: Seq<int>, ctr: int, input: Seq<int>) -> Seq<bool>
    decreases input.len(),
{
    if input.len() == 0 {
        Seq::empty()
    } else {
        seq![emits(lits, ctr, input[0])] + emissions(
            window_after(lits, input[0]),
            next_ctr(lits, ctr, input[0]),
            input.drop_first(),
        )
    }
}

proof fn lemma_filling_quiet(lits: Seq<int>, ctr: int, input: Seq<int>)
    requires
        lits.len() + input.len() <= BACK_WINDOW,
    ensures
        emissions(lits, ctr, input).len() == input.len(),
        forall|i: int| 0 <= i < input.len() ==> !#[trigger] emissions(lits, ctr, input)[i],
    decreases input.len(),
{
    if input.len() > 0 {
        let rest = input.drop_first();
        lemma_filling_quiet(window_after(lits, input[0]), next_ctr(lits, ctr, input[0]), rest);
        let e = emissions(lits, ctr, input);
        let tail = emissions(window_after(lits, input[0]), next_ctr(lits, ctr, input[0]), rest);
        assert forall|i: int| 0 <= i < input.len() implies !#[trigger] e[i] by {
            if i > 0 {
                assert(e[i] == tail[i - 1]);
            }
        }
    }
}

/// While the window fills, nothing is emitted: the first `BACK_WINDOW` calls after
/// `MotionContext::new` (an empty window) return no frame, whatever their content.
pub proof fn lemma_no_emit_while_filling(ctr: int, input: Seq<int>)
    requires
        input.len() <= BACK_WINDOW,
    ensures
        forall|i: int| 0 <= i < input.len() ==> !#[trigger] emissions(Seq::empty(), ctr, input)[i],
{
    lemma_filling_quiet(Seq::empty(), ctr, input);
}

proof fn lemma_sum_zeros(s: Seq<int>)
    requires
        forall|k: int| 0 <= k < s.len() ==> s[k] == 0,
    ensures
        seq_sum(s) == 0,
    decreases s.len(),
{
    if s.len() > 0 {
        lemma_sum_zeros(s.drop_last());
    }
}

/// The last `z` entries of `lits` are zero.
pub open spec fn quiet_tail(lits: Seq<int>, z: int) -> bool {
    &&& 0 <= z <= lits.len()
    &&& forall|k: int| lits.len() - z <= k < lits.len() ==> lits[k] == 0
}

pub open spec fn decay_bound(z: int, ctr: int) -> int {
    if z == BACK_WINDOW {
        ctr
    } else {
        21 - z
    }
}

proof fn lemma_quiet_decay(lits: Seq<int>, ctr: int, input: Seq<int>, z: int)
    requires
        lits.len() <= BACK_WINDOW,
        quiet_tail(lits, z),
        0 <= ctr <= ARM_LEN - 1,
        forall|k: int| 0 <= k < input.len() ==> input[k] == 0,
    ensures
        emissions(lits, ctr, input).len() == input.len(),
        forall|j: int|
            decay_bound(z, ctr) <= j < input.len() ==> !#[trigger] emissions(lits, ctr, input)[j],
    decreases input.len(),
{
    if input.len() > 0 {
        let lits2 = window_after(lits, 0);
        let z2 = if z == BACK_WINDOW { z } else { z + 1 };
        let ctr2 = next_ctr(lits, ctr, 0);
        assert(quiet_tail(lits2, z2)) by {
            if lits.len() + 1 > BACK_WINDOW {
                assert forall|k: int| lits2.len() - z2 <= k < lits2.len() implies lits2[k] == 0 by {
                    assert(lits2[k] == lits.push(0)[k + 1]);
                }
            } else {
                assert forall|k: int| lits2.len() - z2 <= k < lits2.len() implies lits2[k] == 0 by {
                    assert(lits2[k] == lits.push(0)[k]);
                }
            }
        }
        if z == BACK_WINDOW {
            lemma_sum_zeros(lits2);
            assert(!armed(lits2));
        }
        let rest = input.drop_first();
        assert(input[0] == 0);
        lemma_quiet_decay(lits2, ctr2, rest, z2);
        let e = emissions(lits, ctr, input);
        let tail = emissions(lits2, ctr2, rest);
        assert forall|j: int| decay_bound(z, ctr) <= j < input.len() implies !#[trigger] e[j] by {
            if j > 0 {
                assert(e[j] == tail[j - 1]);
            }
        }
    }
}

/// One motion spike followed only by quiet frames (lit count zero) is forgotten: from
/// any window and counter the detector can hold, no call from the
/// `BACK_WINDOW + ARM_LEN`-th on emits, so at most that many calls emit.
pub proof fn lemma_spike_then_quiet(lits: Seq<int>, ctr: int, input: Seq<int>)
    requires
        lits.len() <= BACK_WINDOW,
        0 <= ctr <= ARM_LEN,
        input.len() >= 1,
        forall|k: int| 1 <= k < input.len() ==> input[k] == 0,
    ensures
        emissions(lits, ctr, input).len() == input.len(),
        forall|j: int|
            BACK_WINDOW + ARM_LEN <= j < input.len() ==> !#[trigger] emissions(lits, ctr, input)[j],
{
    let lits2 = window_after(lits, input[0]);
    let ctr2 = next_ctr(lits, ctr, input[0]);
    let rest = input.drop_first();
    assert(quiet_tail(lits2, 0));
    lemma_quiet_decay(lits2, ctr2, rest, 0);
    let e = emissions(lits, ctr, input);
    let tail = emissions(lits2, ctr2, rest);
    assert forall|j: int| BACK_WINDOW + ARM_LEN <= j < input.len() implies !#[trigger] e[j] by {
        assert(e[j] == tail[j - 1]);
    }
}

} // verus!
