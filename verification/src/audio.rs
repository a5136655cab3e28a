//! Buffers of audio samples.

use vstd::prelude::*;

verus! {

/// Marks the types that stand for one audio sample.
pub trait FloatType: 'static {}

/// Samples of `channels` channels and `frames` frames, in one vector.
pub struct AudioBuffer<T> {
    pub data: Vec<T>,
    pub channels: usize,
    pub frames: usize,
}

impl<T> AudioBuffer<T> {
    /// The buffer holds one sample for each channel of each frame.
    pub open spec fn wf(&self) -> bool {
        self.data@.len() == self.channels * self.frames
    }
}

impl<T> Default for AudioBuffer<T> {
    fn default() -> (buffer: Self)
        ensures
            buffer.data@ == Seq::<T>::empty(),
            buffer.channels == 0,
            buffer.frames == 0,
            buffer.wf(),
    {
        AudioBuffer { data: Vec::new(), channels: 0, frames: 0 }
    }
}

impl<T> AudioBuffer<T> where T: FloatType + Clone + Default {
    /// A buffer of `channels * frames` samples, each a clone of one default sample.
    pub fn new(channels: usize, frames: usize) -> (buffer: Self)
        requires
            channels * frames <= usize::MAX,
        ensures
            buffer.channels == channels,
            buffer.frames == frames,
            buffer.wf(),
            exists|silence: T|
                call_ensures(T::default, (), silence) && forall|i: int|
                    0 <= i < buffer.data@.len() ==> cloned(silence, #[trigger] buffer.data@[i]),
    {
        let silence: T = Default::default();
        let data = vec![silence; channels * frames];
        AudioBuffer { data, channels, frames }
    }
}

} // verus!
