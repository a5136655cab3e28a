//! Between a client's directive and the engine: the resources that the directive
//! names by path become buffers of samples.

use crate::audio::AudioBuffer;
use crate::engine::{names_apart, Directive};
use crate::node::NodeRepr;
use crate::wav::{read_wav, wav_content, WavContentView};
use vstd::prelude::*;

verus! {

/// A directive as a client sends it: the resources are named by path.
pub struct UnresolvedDirective {
    pub graph: Option<Vec<NodeRepr>>,
    pub resources: Option<Vec<(String, String)>>,
}

impl UnresolvedDirective {
    /// A directive names each of its resources once.
    pub open spec fn wf(self) -> bool {
        match self.resources {
            Some(resources) => paths_apart(resources@),
            None => true,
        }
    }
}

impl Default for UnresolvedDirective {
    /// The empty directive, which asks for nothing.
    fn default() -> (directive: Self)
        ensures
            directive.graph is None,
            directive.resources is None,
            directive.wf(),
    {
        UnresolvedDirective { graph: None, resources: None }
    }
}

/// Whether a WAVE file can become a buffer: it has a channel, and a sample of each
/// channel for each frame.
pub open spec fn is_playable(wav: WavContentView) -> bool {
    wav.channels > 0 && wav.samples.len() % (wav.channels as nat) == 0
}

/// Whether `buffer` holds the samples of `wav`, each as `to_sample` makes it from
/// the integer and the number of its bits.
pub open spec fn is_buffer_of<T, F: Fn(i32, u16) -> T>(
    buffer: AudioBuffer<T>,
    wav: WavContentView,
    to_sample: F,
) -> bool {
    &&& buffer.channels == wav.channels
    &&& buffer.frames == wav.samples.len() / (wav.channels as nat)
    &&& buffer.data@.len() == wav.samples.len()
    &&& forall|i: int|
        0 <= i < wav.samples.len() ==> call_ensures(
            to_sample,
            (wav.samples[i], wav.bits_per_sample),
            #[trigger] buffer.data@[i],
        )
}

/// Decodes the bytes of a WAVE file into a buffer of samples. `to_sample` makes a
/// sample of each integer that the file holds, given the number of its bits. Bytes
/// that are no WAVE file with integer samples give `None`.
pub fn decode_audio_data<T, F: Fn(i32, u16) -> T>(data: &Vec<u8>, to_sample: &F) -> (buffer: Option<
    AudioBuffer<T>,
>)
    requires
        forall|x: i32, bits: u16| call_requires(*to_sample, (x, bits)),
    ensures
        match wav_content(data@) {
            Some(wav) => if is_playable(wav) {
                buffer matches Some(b) && is_buffer_of(b, wav, *to_sample) && b.wf()
            } else {
                buffer is None
            },
            None => buffer is None,
        },
{
    match read_wav(data.as_slice()) {
        Err(_) => None,
        Ok(content) => {
            let channels = content.channels as usize;
            if channels == 0 || content.samples.len() % channels != 0 {
                return None;
            }
            let frames = content.samples.len() / channels;
            let mut samples: Vec<T> = Vec::new();
            let mut i: usize = 0;
            while i < content.samples.len()
                invariant
                    i <= content.samples.len(),
                    forall|x: i32, bits: u16| call_requires(*to_sample, (x, bits)),
                    samples@.len() == i,
                    forall|k: int|
                        0 <= k < i ==> call_ensures(
                            *to_sample,
                            (content.samples@[k], content.bits_per_sample),
                            #[trigger] samples@[k],
                        ),
                decreases content.samples.len() - i,
            {
                samples.push(to_sample(content.samples[i], content.bits_per_sample));
                i += 1;
            }
            assert(channels * frames == content.samples.len()) by (nonlinear_arith)
                requires
                    channels > 0,
                    frames == content.samples.len() / channels,
                    content.samples.len() % channels == 0,
            ;
            Some(AudioBuffer { data: samples, channels, frames })
        },
    }
}

/// Whether the resource at `i` resolves: its path was read, and what was read can
/// become a buffer.
pub open spec fn resolves(contents: Seq<Option<Vec<u8>>>, i: int) -> bool {
    &&& 0 <= i < contents.len()
    &&& contents[i] matches Some(bytes)
    &&& wav_content(bytes@) matches Some(wav)
    &&& is_playable(wav)
}

/// The places, among the first `n`, of the resources that resolve, ascending.
pub open spec fn resolved_places(contents: Seq<Option<Vec<u8>>>, n: int) -> Seq<int>
    decreases n,
{
    if n <= 0 {
        Seq::empty()
    } else if resolves(contents, n - 1) {
        resolved_places(contents, n - 1).push(n - 1)
    } else {
        resolved_places(contents, n - 1)
    }
}

/// Whether `resolved` holds, in order, each of `resources` that resolves, under its
/// name and with the buffer of what was read for it. `contents` holds at each place
/// what reading the path of the resource at that place gave, `None` for a read that
/// failed; a resource beyond its end counts as not read.
pub open spec fn is_resolution<T, F: Fn(i32, u16) -> T>(
    resolved: Seq<(String, AudioBuffer<T>)>,
    resources: Seq<(String, String)>,
    contents: Seq<Option<Vec<u8>>>,
    to_sample: F,
) -> bool {
    let places = resolved_places(contents, resources.len() as int);
    &&& resolved.len() == places.len()
    &&& forall|j: int|
        0 <= j < places.len() ==> {
            &&& (#[trigger] resolved[j]).0@ == resources[places[j]].0@
            &&& resolved[j].1.wf()
            &&& is_buffer_of(
                resolved[j].1,
                wav_content(contents[places[j]]->0@)->0,
                to_sample,
            )
        }
}

/// The places of the resources that resolve ascend, and each is the place of a
/// resource that resolves.
pub proof fn lemma_resolved_places(contents: Seq<Option<Vec<u8>>>, n: int)
    ensures
        forall|j: int|
            0 <= j < resolved_places(contents, n).len() ==> 0 <= (#[trigger] resolved_places(
                contents,
                n,
            )[j]) < n && resolves(contents, resolved_places(contents, n)[j]),
        forall|i: int, j: int|
            0 <= i < j < resolved_places(contents, n).len() ==> resolved_places(contents, n)[i]
                < resolved_places(contents, n)[j],
    decreases n,
{
    if n > 0 {
        lemma_resolved_places(contents, n - 1);
        let before = resolved_places(contents, n - 1);
        let places = resolved_places(contents, n);
        assert forall|j: int| 0 <= j < places.len() implies 0 <= (#[trigger] places[j]) < n
            && resolves(contents, places[j]) by {
            if j < before.len() {
                assert(places[j] == before[j]);
            }
        }
        assert forall|i: int, j: int| 0 <= i < j < places.len() implies places[i] < places[j] by {
            assert(places[i] == before[i]);
            if j < before.len() {
                assert(places[j] == before[j]);
            }
        }
    }
}

/// Whether no two of the resources that a directive names share a name.
pub open spec fn paths_apart(resources: Seq<(String, String)>) -> bool {
    forall|i: int, j: int| 0 <= i < j < resources.len() ==> resources[i].0@ != resources[j].0@
}

/// Resolution keeps names apart: where no two resources share a name, no two
/// resolved resources do.
pub proof fn resolution_keeps_names_apart<T, F: Fn(i32, u16) -> T>(
    resolved: Seq<(String, AudioBuffer<T>)>,
    resources: Seq<(String, String)>,
    contents: Seq<Option<Vec<u8>>>,
    to_sample: F,
)
    requires
        is_resolution(resolved, resources, contents, to_sample),
        paths_apart(resources),
    ensures
        names_apart(resolved),
{
    lemma_resolved_places(contents, resources.len() as int);
}

/// Resolves the resources of a directive: each that was read and decodes becomes a
/// buffer under its name; the others are left out.
pub fn resolve_resources<T, F: Fn(i32, u16) -> T>(
    resources: &Vec<(String, String)>,
    contents: &Vec<Option<Vec<u8>>>,
    to_sample: &F,
) -> (resolved: Vec<(String, AudioBuffer<T>)>)
    requires
        forall|x: i32, bits: u16| call_requires(*to_sample, (x, bits)),
    ensures
        is_resolution(resolved@, resources@, contents@, *to_sample),
        paths_apart(resources@) ==> names_apart(resolved@),
{
    proof {
        lemma_resolved_places(contents@, resources@.len() as int);
    }
    let mut resolved: Vec<(String, AudioBuffer<T>)> = Vec::new();
    let mut i: usize = 0;
    while i < resources.len()
        invariant
            i <= resources.len(),
            forall|x: i32, bits: u16| call_requires(*to_sample, (x, bits)),
            resolved@.len() == resolved_places(contents@, i as int).len(),
            forall|j: int|
                0 <= j < resolved@.len() ==> {
                    &&& (#[trigger] resolved@[j]).0@ == resources@[resolved_places(
                        contents@,
                        i as int,
                    )[j]].0@
                    &&& resolved@[j].1.wf()
                    &&& is_buffer_of(
                        resolved@[j].1,
                        wav_content(contents@[resolved_places(contents@, i as int)[j]]->0@)->0,
                        *to_sample,
                    )
                },
        decreases resources.len() - i,
    {
        if i < contents.len() {
            if let Some(bytes) = &contents[i] {
                if let Some(buffer) = decode_audio_data(bytes, to_sample) {
                    resolved.push((resources[i].0.clone(), buffer));
                }
            }
        }
        i += 1;
    }
    resolved
}

/// Resolves a directive: the graph stays as it is, and the resources, where the
/// directive names any, are resolved.
pub fn resolve_directive<T, F: Fn(i32, u16) -> T>(
    directive: UnresolvedDirective,
    contents: &Vec<Option<Vec<u8>>>,
    to_sample: &F,
) -> (resolved: Directive<T>)
    requires
        forall|x: i32, bits: u16| call_requires(*to_sample, (x, bits)),
    ensures
        resolved.graph == directive.graph,
        match directive.resources {
            Some(resources) => resolved.resources matches Some(buffers) && is_resolution(
                buffers@,
                resources@,
                contents@,
                *to_sample,
            ),
            None => resolved.resources is None,
        },
        directive.wf() ==> resolved.wf(),
{
    let UnresolvedDirective { graph, resources } = directive;
    let resources = match resources {
        Some(resources) => Some(resolve_resources(&resources, contents, to_sample)),
        None => None,
    };
    Directive { graph, resources }
}

} // verus!
