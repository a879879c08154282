use vstd::prelude::*;

verus! {

/// Collects samples into fixed-size analysis frames, one sample at a time.
pub struct FrameAccumulator<T> {
    frame: Vec<T>,
    pos: usize,
}

impl<T: Copy> FrameAccumulator<T> {
    /// The frame as filled so far.
    pub closed spec fn frame_view(&self) -> Seq<T> {
        self.frame@
    }

    /// The write cursor: where the next sample goes.
    pub closed spec fn cursor(&self) -> int {
        self.pos as int
    }

    pub open spec fn wf(&self) -> bool {
        self.frame_view().len() >= 1 && 0 <= self.cursor() < self.frame_view().len()
    }

    /// An accumulator of frames of `len` samples, all set to `fill`, with the
    /// cursor at the start.
    pub fn new(len: usize, fill: T) -> (r: FrameAccumulator<T>)
        requires
            len >= 1,
        ensures
            r.wf(),
            r.frame_view() == Seq::new(len as nat, |i: int| fill),
            r.cursor() == 0,
    {
        let mut frame: Vec<T> = Vec::new();
        let mut i: usize = 0;
        while i < len
            invariant
                i <= len,
                frame@ == Seq::new(i as nat, |j: int| fill),
            decreases len - i,
        {
            frame.push(fill);
            i = i + 1;
            assert(frame@ =~= Seq::new(i as nat, |j: int| fill));
        }
        FrameAccumulator { frame, pos: 0 }
    }

    /// Stores `sample` at the cursor and moves the cursor on. Returns `true`
    /// exactly when this fills the frame; the cursor then goes back to 0 and
    /// the full frame can be read before the next push overwrites it.
    pub fn push(&mut self, sample: T) -> (full: bool)
        requires
            old(self).wf(),
        ensures
            final(self).wf(),
            final(self).frame_view() == old(self).frame_view().update(old(self).cursor(), sample),
            full == (old(self).cursor() + 1 == old(self).frame_view().len()),
            final(self).cursor() == if full {
                0
            } else {
                old(self).cursor() + 1
            },
    {
        let pos = self.pos;
        self.frame.set(pos, sample);
        if pos == self.frame.len() - 1 {
            self.pos = 0;
            true
        } else {
            self.pos = pos + 1;
            false
        }
    }

    /// The write cursor.
    pub fn position(&self) -> (r: usize)
        ensures
            r == self.cursor(),
    {
        self.pos
    }

    /// The frame.
    pub fn frame(&self) -> (r: &Vec<T>)
        ensures
            r@ == self.frame_view(),
    {
        &self.frame
    }
}

/// The first sample of every group of `channels` interleaved samples: the
/// other channels are dropped.
pub fn first_channel<T: Copy>(input: &[T], channels: usize) -> (r: Vec<T>)
    requires
        channels >= 1,
    ensures
        r@.len() == (input@.len() + channels - 1) / channels as int,
        forall|i: int| 0 <= i < r@.len() ==> #[trigger] r@[i] == input@[i * channels],
{
    let n = input.len();
    let mut out: Vec<T> = Vec::new();
    let mut i: usize = 0;
    while i < n
        invariant
            channels >= 1,
            n == input@.len(),
            i <= n,
            out@.len() * channels >= i,
            i < n ==> i == out@.len() * channels,
            out@.len() == 0 || (out@.len() - 1) * channels < n,
            forall|j: int| 0 <= j < out@.len() ==> #[trigger] out@[j] == input@[j * channels],
        decreases n - i,
    {
        let ghost k = out@.len() as int;
        out.push(input[i]);
        proof {
            assert((k + 1) * channels == k * channels + channels) by (nonlinear_arith);
        }
        if n - i < channels {
            i = n;
        } else {
            i = i + channels;
        }
    }
    proof {
        let c = channels as int;
        let k = out@.len() as int;
        assert(k == (n + c - 1) / c) by (nonlinear_arith)
            requires
                k * c >= n,
                k == 0 || (k - 1) * c < n,
                c >= 1,
                n >= 0,
                k >= 0,
        ;
    }
    out
}

} // verus!
