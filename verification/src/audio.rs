//! The sample stream of a recording: the queue behind the decoder, and the
//! cutting of the stream into chunks for the resampler.
//!
//! Reading packets, decoding them and resampling a chunk are the caller's:
//! the library decides which packet is decoded, keeps the decoded samples
//! of the first channel in order, and cuts and joins the chunks.

use std::collections::VecDeque;
use vstd::prelude::*;
use crate::spectrogram::{frame_signal, frames, Settings, SpectrogramIterator};

verus! {

/// Why a stream of samples could not be set up.
#[derive(Debug, Clone, Copy, PartialEq, Eq, Structural)]
pub enum Error {
    /// The container marks no track as its default.
    NoDefaultTrack,
    /// A sample rate, the chunk size or the number of sub-chunks is zero.
    ResamplerConstruction,
}

/// Mono samples, as binary32 bit patterns, and their rate in Hz.
#[derive(Debug, Clone, PartialEq, Eq)]
pub struct Audio {
    pub samples: Vec<u32>,
    pub sample_rate: usize,
}

/// The rate to resample to, and the chunking of the resampler.
#[derive(Debug, Clone, Copy, PartialEq, Eq, Structural)]
pub struct ResampleSettings {
    pub target_sample_rate: usize,
    pub sub_chunks: usize,
    pub chunk_size: usize,
}

/// What is done with a packet that was read.
#[derive(Debug, Clone, Copy, PartialEq, Eq, Structural)]
pub enum PacketAction {
    /// The packet belongs to another track: it is dropped.
    Discard,
    /// The packet belongs to the default track: it is decoded.
    Decode,
}

/// The samples of the default track of a recording, in order: those that
/// were decoded and not yet handed out.
pub struct ConvertingAudioIterator {
    discovered_sample_rate: u32,
    track_id: u32,
    buffer: VecDeque<u32>,
}

impl ConvertingAudioIterator {
    /// The samples that were decoded and not yet handed out.
    pub closed spec fn queued(&self) -> Seq<u32> {
        self.buffer@
    }

    /// The track whose packets are decoded.
    pub closed spec fn spec_track_id(&self) -> u32 {
        self.track_id
    }

    /// The sample rate that the track declares.
    pub closed spec fn spec_sample_rate(&self) -> u32 {
        self.discovered_sample_rate
    }

    /// The stream of the default track, with nothing decoded yet. There is
    /// no stream when the container has no default track.
    pub fn new(default_track_id: Option<u32>, sample_rate: u32) -> (r: Result<Self, Error>)
        ensures
            default_track_id is None ==> (r matches Err(e) && e == Error::NoDefaultTrack),
            default_track_id matches Some(id) ==> (r matches Ok(iterator)
                && iterator.spec_track_id() == id && iterator.spec_sample_rate() == sample_rate
                && iterator.queued() == Seq::<u32>::empty()),
    {
        match default_track_id {
            None => Err(Error::NoDefaultTrack),
            Some(track_id) => Ok(
                ConvertingAudioIterator {
                    discovered_sample_rate: sample_rate,
                    track_id,
                    buffer: VecDeque::new(),
                },
            ),
        }
    }

    /// The sample rate that the track declares.
    pub fn sample_rate(&self) -> (rate: u32)
        ensures
            rate == self.spec_sample_rate(),
    {
        self.discovered_sample_rate
    }

    /// Hands out the oldest decoded sample, if there is one.
    pub fn next_queued(&mut self) -> (sample: Option<u32>)
        ensures
            final(self).spec_track_id() == old(self).spec_track_id(),
            final(self).spec_sample_rate() == old(self).spec_sample_rate(),
            old(self).queued().len() == 0 ==> sample is None && final(self).queued() == old(self).queued(),
            old(self).queued().len() > 0 ==> sample == Some(old(self).queued()[0]) && final(self).queued() == old(self).queued().skip(1),
    {
        let sample = self.buffer.pop_front();
        assert(old(self).buffer@.len() > 0 ==> self.buffer@ =~= old(self).buffer@.skip(1));
        sample
    }

    /// What is done with a packet of the given track: it is decoded if the
    /// track is the default track, and dropped if not.
    pub fn on_packet(&self, packet_track_id: u32) -> (action: PacketAction)
        ensures
            action == if packet_track_id == self.spec_track_id() {
                PacketAction::Decode
            } else {
                PacketAction::Discard
            },
    {
        if packet_track_id == self.track_id {
            PacketAction::Decode
        } else {
            PacketAction::Discard
        }
    }

    /// Takes the planes of a decoded packet: the samples of the first
    /// channel are queued behind those already there, and the oldest sample
    /// is handed out.
    pub fn on_decoded(&mut self, planes: &[Vec<u32>]) -> (sample: Option<u32>)
        requires
            planes@.len() > 0,
        ensures
            final(self).spec_track_id() == old(self).spec_track_id(),
            final(self).spec_sample_rate() == old(self).spec_sample_rate(),
            ({
                let all = old(self).queued() + planes@[0]@;
                if all.len() == 0 {
                    sample is None && final(self).queued() == all
                } else {
                    sample == Some(all[0]) && final(self).queued() == all.skip(1)
                }
            }),
    {
        let main_channel = &planes[0];
        let mut i: usize = 0;
        while i < main_channel.len()
            invariant
                i <= main_channel@.len(),
                self.track_id == old(self).track_id,
                self.discovered_sample_rate == old(self).discovered_sample_rate,
                self.buffer@ == old(self).buffer@ + main_channel@.take(i as int),
            decreases main_channel@.len() - i,
        {
            self.buffer.push_back(main_channel[i]);
            i += 1;
            assert(self.buffer@ =~= old(self).buffer@ + main_channel@.take(i as int));
        }
        assert(main_channel@.take(i as int) =~= main_channel@);
        let ghost all = self.buffer@;
        let sample = self.buffer.pop_front();
        assert(all.len() > 0 ==> self.buffer@ =~= all.skip(1));
        sample
    }

    /// The rest of the stream as audio at the track's rate: the queued
    /// samples, then `rest`, the samples that the stream still gives.
    pub fn remaining_to_audio(self, rest: Vec<u32>) -> (audio: Audio)
        ensures
            audio.samples@ == self.queued() + rest@,
            audio.sample_rate == self.spec_sample_rate(),
    {
        let mut samples: Vec<u32> = Vec::new();
        let mut i: usize = 0;
        while i < self.buffer.len()
            invariant
                i <= self.buffer@.len(),
                samples@ == self.buffer@.take(i as int),
            decreases self.buffer@.len() - i,
        {
            samples.push(self.buffer[i]);
            i += 1;
            assert(samples@ =~= self.buffer@.take(i as int));
        }
        assert(self.buffer@.take(i as int) =~= self.buffer@);
        let mut rest = rest;
        samples.append(&mut rest);
        Audio { samples, sample_rate: self.discovered_sample_rate as usize }
    }
}

/// The chunks of a stream: runs of `chunk_size` samples one after another,
/// the last one filled up with zeros. An empty stream has no chunk.
pub open spec fn chunks(samples: Seq<u32>, chunk_size: nat) -> Seq<Seq<u32>> {
    frames(samples, chunk_size, chunk_size)
}

/// The chunks joined, in order.
pub open spec fn joined(chunks: Seq<Seq<u32>>) -> Seq<u32>
    decreases chunks.len(),
{
    if chunks.len() == 0 {
        Seq::empty()
    } else {
        joined(chunks.drop_last()) + chunks.last()
    }
}

/// Whether the rates and the chunking can make a resampler: none of them
/// is zero.
pub open spec fn can_resample(source_sample_rate: usize, settings: ResampleSettings) -> bool {
    source_sample_rate > 0 && settings.target_sample_rate > 0 && settings.chunk_size > 0
        && settings.sub_chunks > 0
}

/// The cutting of a stream into chunks for the resampler.
pub struct ResamplingChunksIterator {
    chunker: SpectrogramIterator,
    settings: ResampleSettings,
}

impl ResamplingChunksIterator {
    /// The chunk size is not zero, and fewer samples are held than a chunk
    /// has.
    pub closed spec fn wf(&self) -> bool {
        &&& self.chunker.wf()
        &&& self.chunker.spec_settings() == Settings {
            fft_len: self.settings.chunk_size,
            fft_overlap: 0,
        }
    }

    /// The samples taken that the next chunk starts with.
    pub closed spec fn pending(&self) -> Seq<u32> {
        self.chunker.buffered()
    }

    /// The settings that the chunking was made with.
    pub closed spec fn spec_settings(&self) -> ResampleSettings {
        self.settings
    }

    /// A chunking that has taken no sample yet. It is refused when a
    /// sample rate, the chunk size or the number of sub-chunks is zero.
    pub fn new(source_sample_rate: usize, settings: ResampleSettings) -> (r: Result<Self, Error>)
        ensures
            can_resample(source_sample_rate, settings) ==> (r matches Ok(iterator)
                && iterator.wf() && iterator.spec_settings() == settings && iterator.pending()
                == Seq::<u32>::empty()),
            !can_resample(source_sample_rate, settings) ==> (r matches Err(e) && e
                == Error::ResamplerConstruction),
    {
        if source_sample_rate == 0 || settings.target_sample_rate == 0 || settings.chunk_size == 0
            || settings.sub_chunks == 0 {
            return Err(Error::ResamplerConstruction);
        }
        let chunker = SpectrogramIterator::new(
            Settings { fft_len: settings.chunk_size, fft_overlap: 0 },
        );
        Ok(ResamplingChunksIterator { chunker, settings })
    }

    /// A chunking for the samples of a decoded stream: the source rate is
    /// the rate that the stream's track declares.
    pub fn new_from_audio_iterator(
        iterator: &ConvertingAudioIterator,
        settings: ResampleSettings,
    ) -> (r: Result<Self, Error>)
        ensures
            can_resample(iterator.spec_sample_rate() as usize, settings) ==> (r matches Ok(chunks)
                && chunks.wf() && chunks.spec_settings() == settings && chunks.pending()
                == Seq::<u32>::empty()),
            !can_resample(iterator.spec_sample_rate() as usize, settings) ==> (r matches Err(e)
                && e == Error::ResamplerConstruction),
    {
        let sample_rate = iterator.sample_rate() as usize;
        Self::new(sample_rate, settings)
    }

    /// Takes one sample; hands out a chunk when the sample completes one.
    pub fn push(&mut self, sample: u32) -> (chunk: Option<Vec<u32>>)
        requires
            old(self).wf(),
        ensures
            final(self).wf(),
            final(self).spec_settings() == old(self).spec_settings(),
            old(self).pending().len() + 1 < old(self).spec_settings().chunk_size ==> chunk is None
                && final(self).pending() == old(self).pending().push(sample),
            old(self).pending().len() + 1 == old(self).spec_settings().chunk_size ==> chunk is Some
                && chunk->0@ == old(self).pending().push(sample) && final(self).pending()
                == Seq::<u32>::empty(),
    {
        let chunk = self.chunker.push(sample);
        proof {
            let full = old(self).pending().push(sample);
            if full.len() == self.settings.chunk_size {
                assert(full.skip(self.settings.chunk_size as int) =~= Seq::<u32>::empty());
            }
        }
        chunk
    }

    /// Ends the stream. When samples are left, they are handed out as a
    /// last chunk, filled up with zeros; the chunking is left empty.
    pub fn finish(&mut self) -> (chunk: Option<Vec<u32>>)
        requires
            old(self).wf(),
        ensures
            final(self).wf(),
            final(self).spec_settings() == old(self).spec_settings(),
            final(self).pending() == Seq::<u32>::empty(),
            old(self).pending().len() == 0 ==> chunk is None,
            old(self).pending().len() > 0 ==> chunk is Some && chunk->0@
                == crate::spectrogram::zero_extended(
                old(self).pending(),
                old(self).spec_settings().chunk_size as nat,
            ),
    {
        self.chunker.finish()
    }
}

/// Whether `output` is what `process` may give for `chunk`.
pub open spec fn is_resampled<F: Fn(Vec<u32>) -> Vec<u32>>(
    process: F,
    chunk: Seq<u32>,
    output: Seq<u32>,
) -> bool {
    exists|input: Vec<u32>, result: Vec<u32>|
        input@ == chunk && result@ == output && #[trigger] call_ensures(process, (input,), result)
}

/// Whether `samples` is the stream resampled, where `outputs` holds what
/// `process` gave for each chunk: one output for each chunk, and the
/// outputs joined in order.
pub open spec fn resampled_from<F: Fn(Vec<u32>) -> Vec<u32>>(
    process: F,
    chunks: Seq<Seq<u32>>,
    outputs: Seq<Seq<u32>>,
    samples: Seq<u32>,
) -> bool {
    &&& outputs.len() == chunks.len()
    &&& forall|k: int|
        0 <= k < chunks.len() ==> is_resampled(process, chunks[k], #[trigger] outputs[k])
    &&& samples == joined(outputs)
}

impl ResamplingChunksIterator {
    /// The rest of the stream as audio at the target rate. The samples
    /// held, followed by `remaining`, are cut into chunks; `process`
    /// resamples one chunk; the resampled chunks are joined in order.
    pub fn remaining_to_audio<F: Fn(Vec<u32>) -> Vec<u32>>(
        self,
        remaining: &[u32],
        process: F,
    ) -> (audio: Audio)
        requires
            self.wf(),
            forall|chunk: Vec<u32>|
                chunk@.len() == self.spec_settings().chunk_size ==> call_requires(
                    process,
                    (chunk,),
                ),
        ensures
            audio.sample_rate == self.spec_settings().target_sample_rate,
            exists|outputs: Seq<Seq<u32>>| #[trigger]
                resampled_from(
                    process,
                    chunks(
                        self.pending() + remaining@,
                        self.spec_settings().chunk_size as nat,
                    ),
                    outputs,
                    audio.samples@,
                ),
    {
        let settings = self.settings;
        let framing = Settings { fft_len: settings.chunk_size, fft_overlap: 0 };
        proof {
            self.chunker.well_formed();
        }
        let mut stream = self.chunker.into_buffered();
        let ghost held = stream@;
        let mut i: usize = 0;
        while i < remaining.len()
            invariant
                i <= remaining@.len(),
                stream@ == held + remaining@.take(i as int),
            decreases remaining@.len() - i,
        {
            stream.push(remaining[i]);
            i += 1;
            assert(stream@ =~= held + remaining@.take(i as int));
        }
        assert(remaining@.take(i as int) =~= remaining@);
        assert(stream@ == held + remaining@);
        let ghost chunk_size = settings.chunk_size as nat;
        let ghost all = chunks(stream@, chunk_size);
        proof {
            crate::spectrogram::frames_have_frame_length(stream@, chunk_size, chunk_size);
        }
        let mut cut = frame_signal(stream.as_slice(), &framing);
        let ghost mut outputs: Seq<Seq<u32>> = Seq::empty();
        let mut samples: Vec<u32> = Vec::new();
        let mut k: usize = 0;
        while k < cut.len()
            invariant
                k <= cut@.len(),
                cut@.len() == all.len(),
                chunk_size == settings.chunk_size,
                settings == self.spec_settings(),
                forall|j: int| 0 <= j < all.len() ==> (#[trigger] all[j]).len() == chunk_size,
                forall|j: int| k <= j < cut@.len() ==> (#[trigger] cut@[j])@ == all[j],
                forall|chunk: Vec<u32>|
                    chunk@.len() == self.spec_settings().chunk_size ==> call_requires(
                        process,
                        (chunk,),
                    ),
                outputs.len() == k,
                forall|j: int| 0 <= j < k ==> is_resampled(process, all[j], #[trigger] outputs[j]),
                samples@ == joined(outputs),
            decreases cut@.len() - k,
        {
            let mut chunk: Vec<u32> = Vec::new();
            std::mem::swap(&mut chunk, &mut cut[k]);
            let mut output = process(chunk);
            proof {
                assert(outputs.push(output@).drop_last() =~= outputs);
                outputs = outputs.push(output@);
            }
            samples.append(&mut output);
            k += 1;
        }
        let audio = Audio { samples, sample_rate: settings.target_sample_rate };
        proof {
            assert(held == self.pending());
            assert(all == chunks(self.pending() + remaining@, chunk_size));
            assert(resampled_from(process, all, outputs, audio.samples@));
        }
        audio
    }
}

} // verus!
