//! The frame accumulator: a running sum per pixel and the number of samples
//! per pixel that the sums hold.
use vstd::prelude::*;

verus! {

/// Per-pixel sums of radiance over `spp` frames; a sum is a `T`.
pub struct Accumulator<T> {
    width: usize,
    height: usize,
    spp: u32,
    radiance: Vec<T>,
}

impl<T: Copy> Accumulator<T> {
    pub closed spec fn width_view(&self) -> nat {
        self.width as nat
    }

    pub closed spec fn height_view(&self) -> nat {
        self.height as nat
    }

    /// The samples per pixel that the sums hold.
    pub closed spec fn spp_view(&self) -> nat {
        self.spp as nat
    }

    /// The sums, row by row.
    pub closed spec fn cells(&self) -> Seq<T> {
        self.radiance@
    }

    /// An accumulator of `width * height` sums, each `zero`, and no samples.
    pub fn new(width: usize, height: usize, zero: T) -> (r: Self)
        requires
            width * height <= usize::MAX,
        ensures
            r.width_view() == width,
            r.height_view() == height,
            r.spp_view() == 0,
            r.cells() == Seq::new((width * height) as nat, |i: int| zero),
    {
        let n = width * height;
        let mut radiance: Vec<T> = Vec::new();
        let mut i: usize = 0;
        while i < n
            invariant
                i <= n,
                radiance@ == Seq::new(i as nat, |k: int| zero),
            decreases n - i,
        {
            radiance.push(zero);
            i = i + 1;
        }
        Accumulator { width, height, spp: 0, radiance }
    }

    /// Discards every sample: each sum becomes `zero` and the count 0.
    pub fn clear(&mut self, zero: T)
        ensures
            final(self).spp_view() == 0,
            final(self).cells() == Seq::new(old(self).cells().len(), |i: int| zero),
            final(self).width_view() == old(self).width_view(),
            final(self).height_view() == old(self).height_view(),
    {
        let n = self.radiance.len();
        let mut i: usize = 0;
        while i < n
            invariant
                i <= n,
                self.radiance@.len() == n,
                self.width == old(self).width,
                self.height == old(self).height,
                forall|k: int| 0 <= k < i ==> self.radiance@[k] == zero,
            decreases n - i,
        {
            self.radiance[i] = zero;
            i = i + 1;
        }
        self.spp = 0;
        assert(self.radiance@ =~= Seq::new(n as nat, |k: int| zero));
    }

    /// Starts a frame: when the camera moved, first discards every sample;
    /// then counts the frame's sample.
    pub fn begin_frame(&mut self, moved: bool, zero: T)
        requires
            moved || old(self).spp_view() < u32::MAX,
        ensures
            final(self).spp_view() == (if moved {
                0
            } else {
                old(self).spp_view()
            }) + 1,
            final(self).cells() == if moved {
                Seq::new(old(self).cells().len(), |i: int| zero)
            } else {
                old(self).cells()
            },
            final(self).width_view() == old(self).width_view(),
            final(self).height_view() == old(self).height_view(),
    {
        if moved {
            self.clear(zero);
        }
        self.spp = self.spp + 1;
    }

    /// The samples per pixel.
    pub fn spp(&self) -> (r: u32)
        ensures
            r == self.spp_view(),
    {
        self.spp
    }

    pub fn width(&self) -> (r: usize)
        ensures
            r == self.width_view(),
    {
        self.width
    }

    pub fn height(&self) -> (r: usize)
        ensures
            r == self.height_view(),
    {
        self.height
    }

    /// The sum of pixel `i`.
    pub fn get(&self, i: usize) -> (r: T)
        requires
            i < self.cells().len(),
        ensures
            r == self.cells()[i as int],
    {
        self.radiance[i]
    }

    /// The sums, for the workers of a frame to add their samples to.
    pub fn cells_mut(&mut self) -> (r: &mut Vec<T>)
        ensures
            r@ == old(self).cells(),
            final(self).cells() == final(r)@,
            final(self).spp_view() == old(self).spp_view(),
            final(self).width_view() == old(self).width_view(),
            final(self).height_view() == old(self).height_view(),
    {
        &mut self.radiance
    }
}

} // verus!
