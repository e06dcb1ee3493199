use vstd::prelude::*;

verus! {

/// A source of uniformly distributed values. Either it forwards to the
/// process-wide generator, or it replays a preset, cycling sequence of
/// values, which makes whole simulation runs repeatable.
pub struct RandomSource {
    pub system: bool,
    pub values: Vec<u32>,
    pub next: usize,
}

/// The value a fixed source yields for a draw from `[lo, hi)`: the current
/// preset value, folded into the range. An empty sequence yields `lo`.
pub open spec fn fixed_value(values: Seq<u32>, next: int, lo: u32, hi: u32) -> int {
    if values.len() == 0 {
        lo as int
    } else {
        lo as int + (values[next % values.len() as int] as int) % (hi as int - lo as int)
    }
}

/// The cursor of a fixed source after one draw: one step forward, wrapping
/// around at the end of the preset sequence.
pub open spec fn fixed_next(values: Seq<u32>, next: int) -> int {
    if values.len() == 0 {
        next
    } else {
        let idx = next % values.len() as int;
        if idx + 1 == values.len() { 0 } else { idx + 1 }
    }
}

/// Relies on rand::random_range: a uniformly distributed value drawn from
/// the half-open range by the thread-local generator. The range is
/// non-empty, so the call cannot panic.
#[verifier::external_body]
fn draw_from_range(lo: u32, hi: u32) -> (r: u32)
    requires
        lo < hi,
    ensures
        lo <= r < hi,
{
    rand::random_range(lo..hi)
}

impl RandomSource {
    /// A source backed by the process-wide generator.
    pub fn system() -> (r: RandomSource)
        ensures
            r.system,
    {
        RandomSource { system: true, values: Vec::new(), next: 0 }
    }

    /// A source that replays `values`, cycling once they run out.
    pub fn fixed(values: Vec<u32>) -> (r: RandomSource)
        ensures
            !r.system,
            r.values == values,
            r.next == 0,
    {
        RandomSource { system: false, values, next: 0 }
    }

    /// Draw one value from `[lo, hi)`. For a fixed source the result and
    /// the new cursor are fully determined by the state before the call.
    pub fn pick(&mut self, lo: u32, hi: u32) -> (r: u32)
        requires
            lo < hi,
        ensures
            lo <= r < hi,
            final(self).system == old(self).system,
            final(self).values == old(self).values,
            old(self).system ==> final(self).next == old(self).next,
            !old(self).system ==> r as int == fixed_value(
                old(self).values@,
                old(self).next as int,
                lo,
                hi,
            ),
            !old(self).system ==> final(self).next as int == fixed_next(
                old(self).values@,
                old(self).next as int,
            ),
    {
        if self.system {
            draw_from_range(lo, hi)
        } else if self.values.len() == 0 {
            lo
        } else {
            let len: usize = self.values.len();
            let idx: usize = self.next % len;
            let v: u32 = self.values[idx];
            self.next = if idx + 1 == len { 0 } else { idx + 1 };
            lo + v % (hi - lo)
        }
    }
}

} // verus!
