//! One channel of samples for one block of audio.

use vstd::prelude::*;
use vstd::std_specs::cmp::PartialEqSpecImpl;
use vstd::std_specs::convert::FromSpecImpl;

verus! {

/// The samples of one channel over one block.
///
/// A buffer always holds [`Buffer::LEN`] samples. Samples are signed 32-bit
/// integers; zero is silence.
#[derive(Debug)]
pub struct Buffer {
    data: [i32; 64],
}

/// The sample nearest to `x`: `x` itself where it is in the range of a
/// sample, else the end of the range on its side.
pub open spec fn clip(x: int) -> i32 {
    if x > i32::MAX {
        i32::MAX
    } else if x < i32::MIN {
        i32::MIN
    } else {
        x as i32
    }
}

/// A block of silence: [`Buffer::LEN`] zero samples.
pub open spec fn silent() -> Seq<i32> {
    Seq::new(Buffer::LEN as nat, |i: int| 0i32)
}

/// A block that holds `sample` at every position.
pub open spec fn steady(sample: i32) -> Seq<i32> {
    Seq::new(Buffer::LEN as nat, |i: int| sample)
}

/// Sample by sample, the clipped sum of two blocks.
pub open spec fn mixed(a: Seq<i32>, b: Seq<i32>) -> Seq<i32> {
    Seq::new(Buffer::LEN as nat, |i: int| clip(a[i] + b[i]))
}

/// Adds two samples, clipping at the ends of the sample range.
pub fn mix(a: i32, b: i32) -> (r: i32)
    ensures
        r == clip(a + b),
{
    let wide: i64 = a as i64 + b as i64;
    if wide > i32::MAX as i64 {
        i32::MAX
    } else if wide < i32::MIN as i64 {
        i32::MIN
    } else {
        wide as i32
    }
}

impl Buffer {
    /// The number of samples in every buffer.
    pub const LEN: usize = 64;

    /// The samples, first to last.
    pub closed spec fn view(&self) -> Seq<i32> {
        self.data@
    }

    /// Every buffer holds exactly [`Buffer::LEN`] samples.
    pub proof fn lemma_len(&self)
        ensures
            self@.len() == Buffer::LEN,
    {
    }

    /// A silent buffer.
    pub fn new() -> (r: Self)
        ensures
            r@ == silent(),
    {
        let r = Buffer { data: [0i32; 64] };
        r
    }

    /// A buffer that holds the given samples.
    pub fn from_samples(samples: [i32; 64]) -> (r: Self)
        ensures
            r@ == samples@,
    {
        Buffer { data: samples }
    }

    /// The number of samples: always [`Buffer::LEN`].
    pub fn len(&self) -> (r: usize)
        ensures
            r == Buffer::LEN,
            r == self@.len(),
    {
        Buffer::LEN
    }

    /// The sample at position `i`.
    pub fn get(&self, i: usize) -> (r: i32)
        requires
            i < Buffer::LEN,
        ensures
            r == self@[i as int],
    {
        self.data[i]
    }

    /// Replaces the sample at position `i`.
    pub fn set(&mut self, i: usize, sample: i32)
        requires
            i < Buffer::LEN,
        ensures
            final(self)@ == old(self)@.update(i as int, sample),
    {
        self.data[i] = sample;
    }

    /// The samples as a slice.
    pub fn as_slice(&self) -> (r: &[i32])
        ensures
            r@ == self@,
    {
        self.data.as_slice()
    }

    /// Resets every sample to zero.
    pub fn silence(&mut self)
        ensures
            final(self)@ == silent(),
    {
        self.data = [0i32; 64];
    }

    /// Overwrites this buffer with the samples of `other`.
    pub fn copy_from(&mut self, other: &Buffer)
        ensures
            final(self)@ == other@,
    {
        self.data = other.data;
    }

    /// Adds `other` onto this buffer, sample by sample, clipping each sum.
    pub fn add_in_place(&mut self, other: &Buffer)
        ensures
            final(self)@ == mixed(old(self)@, other@),
    {
        let mut i: usize = 0;
        while i < Buffer::LEN
            invariant
                i <= Buffer::LEN,
                self@.len() == Buffer::LEN,
                forall|j: int| 0 <= j < i ==> self@[j] == clip(old(self)@[j] + other@[j]),
                forall|j: int| i <= j < Buffer::LEN ==> self@[j] == old(self)@[j],
            decreases Buffer::LEN - i,
        {
            let sum = mix(self.data[i], other.data[i]);
            self.data[i] = sum;
            i += 1;
        }
    }
}

impl From<[i32; 64]> for Buffer {
    fn from(samples: [i32; 64]) -> (r: Self)
        ensures
            r@ == samples@,
    {
        Buffer { data: samples }
    }
}

impl FromSpecImpl<[i32; 64]> for Buffer {
    open spec fn obeys_from_spec() -> bool {
        true
    }

    closed spec fn from_spec(samples: [i32; 64]) -> Self {
        Buffer { data: samples }
    }
}

impl core::ops::Deref for Buffer {
    type Target = [i32];

    fn deref(&self) -> (r: &[i32])
        ensures
            r@ == self@,
    {
        self.data.as_slice()
    }
}

impl Clone for Buffer {
    fn clone(&self) -> (r: Self)
        ensures
            r@ == self@,
    {
        Buffer { data: self.data }
    }
}

impl PartialEq for Buffer {
    fn eq(&self, other: &Self) -> (r: bool) {
        let mut i: usize = 0;
        while i < Buffer::LEN
            invariant
                i <= Buffer::LEN,
                forall|j: int| 0 <= j < i ==> self@[j] == other@[j],
            decreases Buffer::LEN - i,
        {
            if self.data[i] != other.data[i] {
                return false;
            }
            i += 1;
        }
        assert(self@ =~= other@);
        true
    }
}

impl PartialEqSpecImpl for Buffer {
    open spec fn obeys_eq_spec() -> bool {
        true
    }

    open spec fn eq_spec(&self, other: &Self) -> bool {
        self@ == other@
    }
}

impl Eq for Buffer {}

impl Default for Buffer {
    fn default() -> (r: Self)
        ensures
            r@ == silent(),
    {
        Buffer::new()
    }
}

} // verus!
