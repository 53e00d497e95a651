use vstd::prelude::*;

use vstd::arithmetic::div_mod::{lemma_basic_div, lemma_div_by_multiple};
use vstd::arithmetic::power2::{lemma_pow2_pos, pow2};
use vstd::bits::{lemma_u64_pow2_no_overflow, lemma_u64_shl_is_mul, lemma_u64_shr_is_div};

verus! {

/// The byte range to deallocate once `written` bytes are out and everything before
/// `sparse` is already a hole: whole punch units beyond one keep unit of dense tail,
/// starting at `sparse`; `None` where not one unit can go.
pub open spec fn punch_plan(keep_shl: nat, punch_shl: nat, sparse: int, written: int) -> Option<
    (int, int),
> {
    let dense = written - sparse;
    if written <= sparse || dense < pow2(keep_shl) {
        None
    } else {
        let units = (dense - pow2(keep_shl)) / (pow2(punch_shl) as int);
        if units == 0 {
            None
        } else {
            Some((sparse, units * pow2(punch_shl)))
        }
    }
}

/// Offsets of an append-only output whose head is turned into holes as it grows, so
/// that at most about one keep unit and one punch unit of it stay allocated.
pub struct PunchCat {
    keep_size_shl: u8,
    punch_size_shl: u8,
    // Up to this position is sparse
    sparse_offset: u64,
    // Up to this position has been written
    written_offset: u64,
}

impl PunchCat {
    pub closed spec fn keep_shl(&self) -> nat {
        self.keep_size_shl as nat
    }

    pub closed spec fn punch_shl(&self) -> nat {
        self.punch_size_shl as nat
    }

    pub closed spec fn sparse(&self) -> int {
        self.sparse_offset as int
    }

    pub closed spec fn written(&self) -> int {
        self.written_offset as int
    }

    pub open spec fn wf(&self) -> bool {
        &&& self.keep_shl() < 64
        &&& self.punch_shl() < 64
        &&& 0 <= self.sparse() <= self.written() <= u64::MAX
    }

    /// The range this writer would deallocate now.
    pub open spec fn plan(&self) -> Option<(int, int)> {
        punch_plan(self.keep_shl(), self.punch_shl(), self.sparse(), self.written())
    }

    /// A writer that keeps `1 << keep_shl` bytes dense and punches in units of
    /// `1 << punch_shl` bytes; nothing written yet.
    pub fn new(keep_shl: u8, punch_shl: u8) -> (r: PunchCat)
        requires
            keep_shl < 64,
            punch_shl < 64,
        ensures
            r.wf(),
            r.keep_shl() == keep_shl,
            r.punch_shl() == punch_shl,
            r.sparse() == 0,
            r.written() == 0,
    {
        PunchCat { keep_size_shl: keep_shl, punch_size_shl: punch_shl, sparse_offset: 0, written_offset: 0 }
    }

    pub fn sparse_offset(&self) -> (r: u64)
        ensures
            r == self.sparse(),
    {
        self.sparse_offset
    }

    pub fn written_offset(&self) -> (r: u64)
        ensures
            r == self.written(),
    {
        self.written_offset
    }

    fn punch_helper(&self) -> (r: Option<(u64, u64)>)
        requires
            self.wf(),
        ensures
            r is None <==> self.plan() is None,
            r matches Some((o, l)) ==> self.plan() == Some((o as int, l as int)),
    {
        proof {
            lemma_u64_pow2_no_overflow(self.keep_shl());
            lemma_u64_shl_is_mul(1, self.keep_size_shl as u64);
            lemma_pow2_pos(self.punch_shl());
        }
        let keep_size: u64 = 1u64 << self.keep_size_shl as u64;

        if self.written_offset <= self.sparse_offset {
            return None;
        }

        let storage_online = self.written_offset - self.sparse_offset;
        if storage_online < keep_size {
            return None;
        }

        let slack: u64 = storage_online - keep_size;
        let punch_len = slack >> self.punch_size_shl as u64;
        proof {
            lemma_u64_shr_is_div(slack, self.punch_size_shl as u64);
        }
        if punch_len == 0 {
            return None;
        }

        proof {
            let p = pow2(self.punch_shl()) as int;
            let d = (storage_online - keep_size) as int;
            vstd::arithmetic::div_mod::lemma_fundamental_div_mod(d, p);
            assert(punch_len * p <= d) by (nonlinear_arith)
                requires
                    d == p * (d / p) + d % p,
                    punch_len == d / p,
                    0 <= d % p,
            ;
            lemma_u64_shl_is_mul(punch_len, self.punch_size_shl as u64);
        }
        let punch_len_bytes = punch_len << self.punch_size_shl as u64;
        Some((self.sparse_offset, punch_len_bytes))
    }

    /// Records that `len` more bytes reached the output; returns the range, if any, that
    /// is now to be deallocated.
    pub fn note_written(&mut self, len: u64) -> (r: Option<(u64, u64)>)
        requires
            old(self).wf(),
            old(self).written() + len <= u64::MAX,
        ensures
            final(self).wf(),
            final(self).keep_shl() == old(self).keep_shl(),
            final(self).punch_shl() == old(self).punch_shl(),
            final(self).sparse() == old(self).sparse(),
            final(self).written() == old(self).written() + len,
            r is None <==> final(self).plan() is None,
            r matches Some((o, l)) ==> final(self).plan() == Some((o as int, l as int)),
    {
        self.written_offset = self.written_offset + len;
        self.punch_helper()
    }

    /// Records that the range that `plan` gave has been deallocated.
    pub fn note_punched(&mut self, offset: u64, len: u64)
        requires
            old(self).wf(),
            old(self).plan() == Some((offset as int, len as int)),
        ensures
            final(self).wf(),
            final(self).keep_shl() == old(self).keep_shl(),
            final(self).punch_shl() == old(self).punch_shl(),
            final(self).written() == old(self).written(),
            final(self).sparse() == old(self).sparse() + len,
    {
        proof {
            lemma_pow2_pos(self.punch_shl());
            lemma_pow2_pos(self.keep_shl());
            let p = pow2(self.punch_shl()) as int;
            let d = self.written() - self.sparse() - pow2(self.keep_shl());
            vstd::arithmetic::div_mod::lemma_fundamental_div_mod(d, p);
            assert((d / p) * p <= d) by (nonlinear_arith)
                requires
                    d == p * (d / p) + d % p,
                    0 <= d % p,
            ;
        }
        self.sparse_offset = offset + len;
    }
}

/// From a point where nothing is dense (`sparse == written`): writing exactly one keep
/// unit punches nothing; writing one keep unit and `k >= 1` punch units punches exactly
/// those `k` units from `sparse` on; after that punch, a further write shorter than one
/// punch unit punches nothing.
pub proof fn lemma_punch_schedule(keep_shl: nat, punch_shl: nat, start: int, k: int, extra: int)
    requires
        0 <= start,
        k >= 1,
        0 <= extra < pow2(punch_shl),
    ensures
        punch_plan(keep_shl, punch_shl, start, start + pow2(keep_shl)) is None,
        punch_plan(keep_shl, punch_shl, start, start + pow2(keep_shl) + k * pow2(punch_shl))
            == Some((start, k * pow2(punch_shl))),
        punch_plan(
            keep_shl,
            punch_shl,
            start + k * pow2(punch_shl),
            start + pow2(keep_shl) + k * pow2(punch_shl) + extra,
        ) is None,
{
    let p = pow2(punch_shl) as int;
    lemma_pow2_pos(punch_shl);
    lemma_pow2_pos(keep_shl);
    lemma_basic_div(0, p);
    lemma_div_by_multiple(k, p);
    lemma_basic_div(extra, p);
    assert(k * p > 0) by (nonlinear_arith)
        requires
            k >= 1,
            p > 0,
    ;
}

} // verus!
