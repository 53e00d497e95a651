use vstd::prelude::*;

use crate::surface2::LumaSurface;

verus! {

/// How two single-channel samples combine into one.
#[derive(Clone, Copy, PartialEq, Eq, Structural)]
pub enum ComposeMode {
    AbsoluteDiff,
    Average,
    AverageLeftWeight,
}

/// The byte that `mode` makes of `left` and `right`.
pub open spec fn compose_px(mode: ComposeMode, left: u8, right: u8) -> u8 {
    match mode {
        ComposeMode::AbsoluteDiff => if left >= right {
            (left - right) as u8
        } else {
            (right - left) as u8
        },
        ComposeMode::Average => ((left + right) / 2) as u8,
        ComposeMode::AverageLeftWeight => ((2 * left + right) / 3) as u8,
    }
}

/// Pixelwise combination of two equally long byte sequences.
pub open spec fn compose_bytes(left: Seq<u8>, right: Seq<u8>, mode: ComposeMode) -> Seq<u8> {
    Seq::new(left.len(), |i: int| compose_px(mode, left[i], right[i]))
}

impl ComposeMode {
    /// The combining function of this mode, applied to one pair of samples.
    pub fn to_fn(&self, left: u8, right: u8) -> (r: u8)
        ensures
            r == compose_px(*self, left, right),
    {
        match *self {
            ComposeMode::AbsoluteDiff => compose_absolute_diff(left, right),
            ComposeMode::Average => compose_average(left, right),
            ComposeMode::AverageLeftWeight => compose_average_left_weight(left, right),
        }
    }
}

fn compose_absolute_diff(left: u8, right: u8) -> (r: u8)
    ensures
        r == compose_px(ComposeMode::AbsoluteDiff, left, right),
{
    let (left, right) = (left as i16, right as i16);
    let d = left - right;
    (if d < 0 { -d } else { d }) as u8
}

fn compose_average(left: u8, right: u8) -> (r: u8)
    ensures
        r == compose_px(ComposeMode::Average, left, right),
{
    let (left, right) = (left as i16, right as i16);
    ((left + right) / 2) as u8
}

fn compose_average_left_weight(left: u8, right: u8) -> (r: u8)
    ensures
        r == compose_px(ComposeMode::AverageLeftWeight, left, right),
{
    let (left, right) = (left as i16, right as i16);
    ((2 * left + right) / 3) as u8
}

/// Combines two pictures of the same size pixel by pixel.
pub fn compose(left: &LumaSurface, right: &LumaSurface, mode: ComposeMode) -> (r: LumaSurface)
    requires
        left.wf(),
        right.wf(),
        left.spec_width() == right.spec_width(),
        left.spec_height() == right.spec_height(),
    ensures
        r.wf(),
        r.spec_width() == left.spec_width(),
        r.spec_height() == left.spec_height(),
        r.bytes() == compose_bytes(left.bytes(), right.bytes(), mode),
{
    let l = left.raw_bytes();
    let rt = right.raw_bytes();
    let mut out: Vec<u8> = Vec::with_capacity(l.len());
    let mut i: usize = 0;
    while i < l.len()
        invariant
            0 <= i <= l@.len(),
            l@.len() == rt@.len(),
            out@ == compose_bytes(l@, rt@, mode).subrange(0, i as int),
        decreases l@.len() - i,
    {
        out.push(mode.to_fn(l[i], rt[i]));
        i = i + 1;
        assert(out@ =~= compose_bytes(l@, rt@, mode).subrange(0, i as int));
    }
    assert(out@ =~= compose_bytes(l@, rt@, mode));
    LumaSurface::from_parts(left.width(), left.height(), out)
}

/// Absolute difference does not depend on the order of its operands.
pub proof fn lemma_absolute_diff_symmetric(a: Seq<u8>, b: Seq<u8>)
    requires
        a.len() == b.len(),
    ensures
        compose_bytes(a, b, ComposeMode::AbsoluteDiff) == compose_bytes(b, a, ComposeMode::AbsoluteDiff),
{
    assert(compose_bytes(a, b, ComposeMode::AbsoluteDiff) =~= compose_bytes(b, a, ComposeMode::AbsoluteDiff));
}

/// A picture differenced against itself is all zero.
pub proof fn lemma_absolute_diff_self(a: Seq<u8>)
    ensures
        compose_bytes(a, a, ComposeMode::AbsoluteDiff) == Seq::new(a.len(), |i: int| 0u8),
{
    assert(compose_bytes(a, a, ComposeMode::AbsoluteDiff) =~= Seq::new(a.len(), |i: int| 0u8));
}

} // verus!
