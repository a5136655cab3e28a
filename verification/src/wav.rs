//! The boundary to `hound`, which reads the WAVE format.

use vstd::prelude::*;

verus! {

/// `hound::Error`: why bytes could not be read as a WAVE file.
#[verifier::external_type_specification]
#[verifier::external_body]
pub struct ExWavError(hound::Error);

/// What a WAVE file holds, as far as the library uses it: the samples as integers,
/// the channels interleaved, and the number of bits that each sample has.
pub struct WavContent {
    pub channels: u16,
    pub bits_per_sample: u16,
    pub samples: Vec<i32>,
}

/// The mathematical content of a [`WavContent`].
pub struct WavContentView {
    pub channels: u16,
    pub bits_per_sample: u16,
    pub samples: Seq<i32>,
}

impl View for WavContent {
    type V = WavContentView;

    open spec fn view(&self) -> WavContentView {
        WavContentView {
            channels: self.channels,
            bits_per_sample: self.bits_per_sample,
            samples: self.samples@,
        }
    }
}

/// What the bytes of a WAVE file hold; `None` for bytes that are no such file, or
/// whose samples are not integers of at most 32 bits.
pub uninterp spec fn wav_content(bytes: Seq<u8>) -> Option<WavContentView>;

/// `hound::WavReader::new` on the bytes, with `spec` and `samples` to take out what
/// it read: the format of the file and all its samples as `i32`, or the first error.
#[verifier::external_body]
pub(crate) fn read_wav(bytes: &[u8]) -> (out: Result<WavContent, hound::Error>)
    ensures
        match out {
            Ok(content) => wav_content(bytes@) == Some(content@),
            Err(_) => wav_content(bytes@) is None,
        },
{
    let mut reader = hound::WavReader::new(bytes)?;
    let samples = reader.samples::<i32>().collect::<Result<Vec<i32>, hound::Error>>()?;
    let spec = reader.spec();
    Ok(WavContent { channels: spec.channels, bits_per_sample: spec.bits_per_sample, samples })
}

} // verus!
