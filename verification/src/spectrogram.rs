//! The framing of a sample stream for the short-time Fourier transform.
//!
//! A stream is cut into frames of `fft_len` samples that begin `fft_len -
//! fft_overlap` samples apart; the last frame is filled up with zeros. The
//! window, the transform and the magnitudes are the caller's arithmetic: the
//! library hands out the frames and takes the lower half of each spectrum.

use std::collections::VecDeque;
use vstd::prelude::*;

verus! {

/// The frame length and the number of samples that consecutive frames
/// share.
#[derive(Debug, Clone, Copy, PartialEq, Eq, Structural)]
pub struct Settings {
    pub fft_len: usize,
    pub fft_overlap: usize,
}

impl Settings {
    /// A frame has at least one sample, and the overlap is shorter than the
    /// frame.
    pub open spec fn valid(self) -> bool {
        self.fft_len > 0 && self.fft_overlap < self.fft_len
    }

    /// The distance between the starts of consecutive frames.
    pub open spec fn hop(self) -> nat {
        (self.fft_len - self.fft_overlap) as nat
    }

    /// Whether the settings are valid.
    pub fn is_valid(&self) -> (r: bool)
        ensures
            r == self.valid(),
    {
        self.fft_len > 0 && self.fft_overlap < self.fft_len
    }
}

/// The samples followed by zeros up to the length `len`.
pub open spec fn zero_extended(samples: Seq<u32>, len: nat) -> Seq<u32> {
    Seq::new(len, |i: int| if i < samples.len() { samples[i] } else { 0u32 })
}

/// The frames of a signal, for a hop from 1 to `fft_len`. An empty signal
/// has none; a signal shorter than a frame gives one frame, filled up with
/// zeros; any other signal gives its first `fft_len` samples as a frame,
/// followed by the frames of the signal without its first `hop` samples.
pub open spec fn frames(samples: Seq<u32>, fft_len: nat, hop: nat) -> Seq<Seq<u32>>
    decreases samples.len(),
{
    if samples.len() == 0 || hop == 0 || hop > fft_len {
        Seq::empty()
    } else if samples.len() < fft_len {
        seq![zero_extended(samples, fft_len)]
    } else {
        seq![samples.take(fft_len as int)] + frames(samples.skip(hop as int), fft_len, hop)
    }
}

/// Every frame has `fft_len` samples.
pub proof fn frames_have_frame_length(samples: Seq<u32>, fft_len: nat, hop: nat)
    ensures
        forall|k: int|
            0 <= k < frames(samples, fft_len, hop).len() ==> (#[trigger] frames(
                samples,
                fft_len,
                hop,
            )[k]).len() == fft_len,
    decreases samples.len(),
{
    if samples.len() == 0 || hop == 0 || hop > fft_len {
    } else if samples.len() < fft_len {
    } else {
        frames_have_frame_length(samples.skip(hop as int), fft_len, hop);
        let rest = frames(samples.skip(hop as int), fft_len, hop);
        let all = frames(samples, fft_len, hop);
        assert forall|k: int| 0 <= k < all.len() implies (#[trigger] all[k]).len() == fft_len by {
            if k > 0 {
                assert(all[k] == rest[k - 1]);
            }
        }
    }
}

/// A signal of zeros has only frames of zeros.
pub proof fn frames_of_zeros_are_zero(samples: Seq<u32>, fft_len: nat, hop: nat)
    requires
        forall|i: int| 0 <= i < samples.len() ==> samples[i] == 0,
    ensures
        forall|k: int|
            0 <= k < frames(samples, fft_len, hop).len() ==> #[trigger] frames(
                samples,
                fft_len,
                hop,
            )[k] == zero_extended(Seq::empty(), fft_len),
    decreases samples.len(),
{
    let zeros = zero_extended(Seq::empty(), fft_len);
    if samples.len() == 0 || hop == 0 || hop > fft_len {
    } else if samples.len() < fft_len {
        assert(zero_extended(samples, fft_len) =~= zeros);
    } else {
        let tail = samples.skip(hop as int);
        assert forall|i: int| 0 <= i < tail.len() implies tail[i] == 0 by {
            assert(tail[i] == samples[i + hop]);
        }
        frames_of_zeros_are_zero(tail, fft_len, hop);
        let rest = frames(samples.skip(hop as int), fft_len, hop);
        let all = frames(samples, fft_len, hop);
        assert(samples.take(fft_len as int) =~= zeros);
        assert forall|k: int| 0 <= k < all.len() implies #[trigger] all[k] == zeros by {
            if k > 0 {
                assert(all[k] == rest[k - 1]);
            }
        }
    }
}

/// How many frames a signal of `len` samples has.
pub open spec fn frame_count(len: nat, fft_len: nat, hop: nat) -> nat
    decreases len,
{
    if len == 0 || hop == 0 || hop > fft_len {
        0
    } else if len < fft_len {
        1
    } else {
        1 + frame_count((len - hop) as nat, fft_len, hop)
    }
}

/// Where the frame of index `k` begins: `k` hops into the signal.
pub open spec fn frame_start(k: int, hop: nat) -> int {
    k * hop
}

/// The number of frames depends on the length of the signal alone, and
/// the frame of index `k` begins `k` hops into the signal: it holds the
/// samples from there on, cut or filled up with zeros to the frame length.
pub proof fn frames_begin_hops_apart(samples: Seq<u32>, fft_len: nat, hop: nat)
    requires
        0 < hop <= fft_len,
    ensures
        frames(samples, fft_len, hop).len() == frame_count(samples.len(), fft_len, hop),
        forall|k: int|
            0 <= k < frames(samples, fft_len, hop).len() ==> 0 <= #[trigger] frame_start(k, hop)
                < samples.len(),
        forall|k: int|
            0 <= k < frames(samples, fft_len, hop).len() ==> #[trigger] frames(
                samples,
                fft_len,
                hop,
            )[k] == zero_extended(samples.skip(frame_start(k, hop)), fft_len),
    decreases samples.len(),
{
    let all = frames(samples, fft_len, hop);
    assert(frame_start(0, hop) == 0) by (nonlinear_arith);
    if samples.len() == 0 {
    } else if samples.len() < fft_len {
        assert(samples.skip(0) =~= samples);
    } else {
        let tail = samples.skip(hop as int);
        let rest = frames(tail, fft_len, hop);
        frames_begin_hops_apart(tail, fft_len, hop);
        assert forall|k: int| 0 <= k < all.len() implies 0 <= #[trigger] frame_start(k, hop)
            < samples.len() by {
            if k > 0 {
                assert(0 <= frame_start(k - 1, hop) < tail.len());
                assert(frame_start(k - 1, hop) + hop == frame_start(k, hop)) by (nonlinear_arith);
            }
        }
        assert forall|k: int| 0 <= k < all.len() implies #[trigger] all[k] == zero_extended(
            samples.skip(frame_start(k, hop)),
            fft_len,
        ) by {
            if k == 0 {
                assert(samples.skip(0) =~= samples);
                assert(samples.take(fft_len as int) =~= zero_extended(samples, fft_len));
            } else {
                assert(all[k] == rest[k - 1]);
                assert(0 <= frame_start(k - 1, hop) < tail.len());
                assert(frame_start(k - 1, hop) + hop == frame_start(k, hop)) by (nonlinear_arith);
                assert(tail.skip(frame_start(k - 1, hop)) =~= samples.skip(frame_start(k, hop)));
            }
        }
    }
}

/// The framing of a stream: it takes the samples one by one and hands out a
/// frame whenever it holds a full one.
pub struct SpectrogramIterator {
    buffer: VecDeque<u32>,
    settings: Settings,
}

impl SpectrogramIterator {
    /// The samples taken that the next frame starts with.
    pub closed spec fn buffered(&self) -> Seq<u32> {
        self.buffer@
    }

    /// The settings that the framing was made with.
    pub closed spec fn spec_settings(&self) -> Settings {
        self.settings
    }

    /// The settings are valid, and fewer samples are held than a frame has.
    pub closed spec fn wf(&self) -> bool {
        self.settings.valid() && self.buffer@.len() < self.settings.fft_len
    }

    /// What being well formed means: valid settings, and fewer samples
    /// held than a frame has.
    pub proof fn well_formed(&self)
        ensures
            self.wf() == (self.spec_settings().valid() && self.buffered().len()
                < self.spec_settings().fft_len),
    {
    }

    /// A framing that has taken no sample yet.
    pub fn new(settings: Settings) -> (iterator: Self)
        requires
            settings.valid(),
        ensures
            iterator.wf(),
            iterator.spec_settings() == settings,
            iterator.buffered() == Seq::<u32>::empty(),
    {
        SpectrogramIterator { buffer: VecDeque::new(), settings }
    }

    /// The settings that the framing was made with.
    pub fn settings(&self) -> (settings: Settings)
        ensures
            settings == self.spec_settings(),
    {
        self.settings
    }

    /// Takes one sample. When that completes a frame, the frame is handed
    /// out and the framing moves on by one hop, keeping the overlap.
    pub fn push(&mut self, sample: u32) -> (frame: Option<Vec<u32>>)
        requires
            old(self).wf(),
        ensures
            final(self).wf(),
            final(self).spec_settings() == old(self).spec_settings(),
            old(self).buffered().len() + 1 < old(self).spec_settings().fft_len ==> frame is None
                && final(self).buffered() == old(self).buffered().push(sample),
            old(self).buffered().len() + 1 == old(self).spec_settings().fft_len ==> frame is Some
                && frame->0@ == old(self).buffered().push(sample) && final(self).buffered() == old(self).buffered().push(sample).skip(old(self).spec_settings().hop() as int),
    {
        self.buffer.push_back(sample);
        if self.buffer.len() < self.settings.fft_len {
            return None;
        }
        let ghost full = self.buffer@;
        let mut frame: Vec<u32> = Vec::new();
        let mut i: usize = 0;
        while i < self.settings.fft_len
            invariant
                i <= self.settings.fft_len,
                self.buffer@ == full,
                full.len() == self.settings.fft_len,
                frame@ == full.take(i as int),
            decreases self.settings.fft_len - i,
        {
            frame.push(self.buffer[i]);
            i += 1;
            assert(frame@ =~= full.take(i as int));
        }
        assert(full.take(i as int) =~= full);
        let hop = self.settings.fft_len - self.settings.fft_overlap;
        let mut dropped: usize = 0;
        while dropped < hop
            invariant
                dropped <= hop,
                hop <= full.len(),
                self.settings == old(self).settings,
                self.buffer@ == full.skip(dropped as int),
            decreases hop - dropped,
        {
            let _ = self.buffer.pop_front();
            dropped += 1;
            assert(self.buffer@ =~= full.skip(dropped as int));
        }
        Some(frame)
    }

    /// Gives up the framing and hands back the samples that the next frame
    /// would have started with.
    pub fn into_buffered(self) -> (samples: Vec<u32>)
        ensures
            samples@ == self.buffered(),
    {
        let mut samples: Vec<u32> = Vec::new();
        let mut i: usize = 0;
        while i < self.buffer.len()
            invariant
                i <= self.buffer@.len(),
                samples@ == self.buffer@.take(i as int),
            decreases self.buffer@.len() - i,
        {
            samples.push(self.buffer[i]);
            i += 1;
            assert(samples@ =~= self.buffer@.take(i as int));
        }
        assert(self.buffer@.take(i as int) =~= self.buffer@);
        samples
    }

    /// Ends the stream. When samples are left, they are handed out as a
    /// last frame, filled up with zeros; the framing is left empty, ready
    /// for another stream.
    pub fn finish(&mut self) -> (frame: Option<Vec<u32>>)
        requires
            old(self).wf(),
        ensures
            final(self).wf(),
            final(self).spec_settings() == old(self).spec_settings(),
            final(self).buffered() == Seq::<u32>::empty(),
            old(self).buffered().len() == 0 ==> frame is None,
            old(self).buffered().len() > 0 ==> frame is Some && frame->0@ == zero_extended(
                old(self).buffered(),
                old(self).spec_settings().fft_len as nat,
            ),
    {
        if self.buffer.len() == 0 {
            return None;
        }
        let ghost left = self.buffer@;
        let mut frame: Vec<u32> = Vec::new();
        let mut i: usize = 0;
        while i < self.settings.fft_len
            invariant
                i <= self.settings.fft_len,
                self.buffer@ == left,
                self.settings == old(self).settings,
                left.len() < self.settings.fft_len,
                frame@ == zero_extended(left, i as nat),
            decreases self.settings.fft_len - i,
        {
            if i < self.buffer.len() {
                frame.push(self.buffer[i]);
            } else {
                frame.push(0);
            }
            i += 1;
            assert(frame@ =~= zero_extended(left, i as nat));
        }
        self.buffer.clear();
        Some(frame)
    }
}

/// The frames of a signal, in order.
pub fn frame_signal(samples: &[u32], settings: &Settings) -> (out: Vec<Vec<u32>>)
    requires
        settings.valid(),
    ensures
        out@.len() == frames(samples@, settings.fft_len as nat, settings.hop()).len(),
        forall|k: int|
            0 <= k < out@.len() ==> (#[trigger] out@[k])@ == frames(
                samples@,
                settings.fft_len as nat,
                settings.hop(),
            )[k],
{
    let ghost fft_len = settings.fft_len as nat;
    let ghost hop = settings.hop();
    let ghost all = frames(samples@, fft_len, hop);
    let ghost mut done: Seq<Seq<u32>> = Seq::empty();
    let ghost mut start: int = 0;
    let mut iterator = SpectrogramIterator::new(*settings);
    let mut out: Vec<Vec<u32>> = Vec::new();
    let mut n: usize = 0;
    assert(samples@.subrange(0, 0) =~= Seq::<u32>::empty());
    assert(samples@.skip(0) =~= samples@);
    assert(done + frames(samples@.skip(0), fft_len, hop) =~= all);
    while n < samples.len()
        invariant
            n <= samples@.len(),
            settings.valid(),
            fft_len == settings.fft_len,
            hop == settings.hop(),
            all == frames(samples@, fft_len, hop),
            iterator.wf(),
            iterator.spec_settings() == *settings,
            0 <= start <= n,
            iterator.buffered() == samples@.subrange(start, n as int),
            done + frames(samples@.skip(start), fft_len, hop) == all,
            out@.len() == done.len(),
            forall|k: int| 0 <= k < out@.len() ==> (#[trigger] out@[k])@ == done[k],
        decreases samples@.len() - n,
    {
        let sample = samples[n];
        let ghost held = iterator.buffered();
        assert(held.push(sample) =~= samples@.subrange(start, n + 1));
        match iterator.push(sample) {
            Some(frame) => {
                proof {
                    let rest = samples@.skip(start);
                    assert(rest.take(fft_len as int) =~= frame@);
                    assert(rest.skip(hop as int) =~= samples@.skip(start + hop));
                    assert(frames(rest, fft_len, hop) == seq![frame@] + frames(
                        samples@.skip(start + hop),
                        fft_len,
                        hop,
                    ));
                    assert(done.push(frame@) + frames(samples@.skip(start + hop), fft_len, hop)
                        =~= done + frames(rest, fft_len, hop));
                    assert(held.push(sample).skip(hop as int) =~= samples@.subrange(
                        start + hop,
                        n + 1,
                    ));
                    done = done.push(frame@);
                    start = start + hop;
                }
                out.push(frame);
            },
            None => {},
        }
        n += 1;
    }
    let ghost rest = samples@.skip(start);
    assert(rest =~= iterator.buffered());
    match iterator.finish() {
        Some(frame) => {
            proof {
                assert(frames(rest, fft_len, hop) =~= seq![frame@]);
                assert(done.push(frame@) =~= all);
                done = done.push(frame@);
            }
            out.push(frame);
        },
        None => {
            proof {
                assert(done =~= all);
            }
        },
    }
    out
}

/// The nearest integer to `numerator / denominator`, a half going up.
pub open spec fn rounded_quotient(numerator: nat, denominator: nat) -> nat {
    if 2 * (numerator % denominator) >= denominator {
        numerator / denominator + 1
    } else {
        numerator / denominator
    }
}

/// The bin of a spectrum that a frequency falls into: the nearest integer
/// to `frequency * fft_len / sample_rate`.
pub open spec fn spec_bin_for_frequency(frequency: nat, sample_rate: nat, fft_len: nat) -> nat {
    rounded_quotient(frequency * fft_len, sample_rate)
}

/// The bin of a spectrum of `fft_len` samples at `sample_rate` that
/// `frequency` falls into.
pub fn get_bin_for_frequency(frequency: usize, sample_rate: usize, fft_len: usize) -> (bin: usize)
    requires
        sample_rate > 0,
        spec_bin_for_frequency(frequency as nat, sample_rate as nat, fft_len as nat) <= usize::MAX,
    ensures
        bin == spec_bin_for_frequency(frequency as nat, sample_rate as nat, fft_len as nat),
{
    assert(frequency * fft_len <= u128::MAX) by (nonlinear_arith)
        requires
            frequency <= u64::MAX,
            fft_len <= u64::MAX,
    ;
    let scaled: u128 = (frequency as u128) * (fft_len as u128);
    let rate: u128 = sample_rate as u128;
    let quotient: u128 = scaled / rate;
    let remainder: u128 = scaled % rate;
    if 2 * remainder >= rate {
        (quotient + 1) as usize
    } else {
        quotient as usize
    }
}

/// The column of a spectrogram that a spectrum gives: its first
/// `fft_len / 2` magnitudes.
pub fn spectrogram_column(spectrum: Vec<u32>, fft_len: usize) -> (column: Vec<u32>)
    requires
        spectrum@.len() >= fft_len / 2,
    ensures
        column@ == spectrum@.take((fft_len / 2) as int),
        column@.len() == fft_len / 2,
{
    let mut column = spectrum;
    column.truncate(fft_len / 2);
    assert(column@ =~= spectrum@.take((fft_len / 2) as int));
    column
}

} // verus!
