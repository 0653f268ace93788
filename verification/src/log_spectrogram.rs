//! The log-frequency re-binning of spectrogram columns, and the transform
//! stack from samples to the columns of a log spectrogram.
//!
//! The position on the linear axis that a row of the log axis reads is a
//! logarithm, and so the caller's arithmetic: it is handed in as a table
//! with one entry for each row.

use vstd::prelude::*;
use crate::file::vectors_view;
use crate::spectrogram::{
    frame_signal, frames, get_bin_for_frequency, spec_bin_for_frequency, spectrogram_column,
    zero_extended, Settings, SpectrogramIterator,
};

verus! {

/// The shape of the log axis: its height, the frequency at which the
/// linear axis is cut, and the sample rate of the signal.
#[derive(Debug, Clone, Copy, PartialEq, Eq, Structural)]
pub struct LogSpectrogramSettings {
    pub height: usize,
    pub frequency_cutoff: usize,
    pub input_sample_rate: usize,
}

/// The bin that a row reads: the row's position, brought down to the last
/// bin where it lies beyond it.
pub open spec fn source_bin(position: usize, bins: nat) -> int {
    if position < bins {
        position as int
    } else {
        bins - 1
    }
}

/// The log column of a cut spectrogram column: row `i` holds the value of
/// the bin that `positions[i]` names.
pub open spec fn spec_make_log(values: Seq<u32>, positions: Seq<usize>) -> Seq<u32> {
    Seq::new(positions.len(), |i: int| values[source_bin(positions[i], values.len())])
}

/// Re-bins a cut spectrogram column onto the log axis by point sampling:
/// one value for each position.
pub fn make_log(values: &[u32], positions: &[usize]) -> (out: Vec<u32>)
    requires
        values@.len() > 0,
    ensures
        out@ == spec_make_log(values@, positions@),
        out@.len() == positions@.len(),
{
    let mut out: Vec<u32> = Vec::new();
    let mut i: usize = 0;
    while i < positions.len()
        invariant
            i <= positions@.len(),
            values@.len() > 0,
            out@ == spec_make_log(values@, positions@.take(i as int)),
        decreases positions@.len() - i,
    {
        let position = positions[i];
        let bin = if position < values.len() {
            position
        } else {
            values.len() - 1
        };
        out.push(values[bin]);
        i += 1;
        assert(out@ =~= spec_make_log(values@, positions@.take(i as int)));
    }
    assert(positions@.take(i as int) =~= positions@);
    out
}

/// Cuts a spectrogram column to `cutoff_bin` bins, or fills it up with
/// zeros to that length. A column that has `cutoff_bin` bins is left as it
/// is.
pub fn fit_column(column: Vec<u32>, cutoff_bin: usize) -> (out: Vec<u32>)
    ensures
        out@ == zero_extended(column@, cutoff_bin as nat),
        column@.len() == cutoff_bin ==> out@ == column@,
{
    let mut out = column;
    let ghost given = out@;
    if out.len() > cutoff_bin {
        out.truncate(cutoff_bin);
    } else {
        while out.len() < cutoff_bin
            invariant
                given.len() <= out@.len() <= cutoff_bin,
                out@ == zero_extended(given, out@.len()),
            decreases cutoff_bin - out@.len(),
        {
            out.push(0);
            assert(out@ =~= zero_extended(given, out@.len()));
        }
    }
    assert(out@ =~= zero_extended(given, cutoff_bin as nat));
    out
}

/// The log column of a spectrum: its lower half, cut or filled up to
/// `cutoff_bin` bins, then sampled at the positions.
pub open spec fn spec_log_column(
    spectrum: Seq<u32>,
    fft_len: nat,
    cutoff_bin: nat,
    positions: Seq<usize>,
) -> Seq<u32> {
    spec_make_log(zero_extended(spectrum.take((fft_len / 2) as int), cutoff_bin), positions)
}

/// The re-binning of a stream of spectra: the framing of the samples, and
/// the log axis that every column is brought to.
pub struct LogSpectrogramIterator {
    inner: SpectrogramIterator,
    cutoff_bin: usize,
    height: usize,
    positions: Vec<usize>,
}

impl LogSpectrogramIterator {
    /// The framing is well formed, there is at least one bin to read, and
    /// the table of positions has one entry for each row.
    pub closed spec fn wf(&self) -> bool {
        self.inner.wf() && self.cutoff_bin > 0 && self.positions@.len() == self.height
    }

    /// The framing of the samples.
    pub closed spec fn framing(&self) -> SpectrogramIterator {
        self.inner
    }

    /// The number of rows of a log column.
    pub closed spec fn spec_height(&self) -> usize {
        self.height
    }

    /// The number of bins that a column is cut to.
    pub closed spec fn spec_cutoff_bin(&self) -> usize {
        self.cutoff_bin
    }

    /// The position on the linear axis of each row.
    pub closed spec fn spec_positions(&self) -> Seq<usize> {
        self.positions@
    }

    /// A re-binning onto `height` rows of columns cut to `cutoff_bin` bins.
    pub fn new(
        spectrogram: SpectrogramIterator,
        height: usize,
        cutoff_bin: usize,
        positions: Vec<usize>,
    ) -> (iterator: Self)
        requires
            spectrogram.wf(),
            cutoff_bin > 0,
            positions@.len() == height,
        ensures
            iterator.wf(),
            iterator.framing() == spectrogram,
            iterator.spec_height() == height,
            iterator.spec_cutoff_bin() == cutoff_bin,
            iterator.spec_positions() == positions@,
    {
        LogSpectrogramIterator { inner: spectrogram, cutoff_bin, height, positions }
    }

    /// The number of rows of a log column.
    pub fn height(&self) -> (height: usize)
        ensures
            height == self.spec_height(),
    {
        self.height
    }

    /// The number of bins that a column is cut to.
    pub fn cutoff_bin(&self) -> (cutoff_bin: usize)
        ensures
            cutoff_bin == self.spec_cutoff_bin(),
    {
        self.cutoff_bin
    }

    /// Takes one sample; hands out a frame when the sample completes one.
    pub fn push(&mut self, sample: u32) -> (frame: Option<Vec<u32>>)
        requires
            old(self).wf(),
        ensures
            final(self).wf(),
            final(self).spec_height() == old(self).spec_height(),
            final(self).spec_cutoff_bin() == old(self).spec_cutoff_bin(),
            final(self).spec_positions() == old(self).spec_positions(),
            final(self).framing().spec_settings() == old(self).framing().spec_settings(),
            old(self).framing().buffered().len() + 1 < old(self).framing().spec_settings().fft_len
                ==> frame is None && final(self).framing().buffered() == old(self).framing().buffered().push(sample),
            old(self).framing().buffered().len() + 1 == old(self).framing().spec_settings().fft_len
                ==> frame is Some && frame->0@ == old(self).framing().buffered().push(sample)
                && final(self).framing().buffered() == old(self).framing().buffered().push(
                sample,
            ).skip(old(self).framing().spec_settings().hop() as int),
    {
        self.inner.push(sample)
    }

    /// Ends the stream; hands out the samples that are left as a last
    /// frame, filled up with zeros, and leaves the framing empty.
    pub fn finish(&mut self) -> (frame: Option<Vec<u32>>)
        requires
            old(self).wf(),
        ensures
            final(self).wf(),
            final(self).spec_height() == old(self).spec_height(),
            final(self).spec_cutoff_bin() == old(self).spec_cutoff_bin(),
            final(self).spec_positions() == old(self).spec_positions(),
            final(self).framing().spec_settings() == old(self).framing().spec_settings(),
            final(self).framing().buffered() == Seq::<u32>::empty(),
            old(self).framing().buffered().len() == 0 ==> frame is None,
            old(self).framing().buffered().len() > 0 ==> frame is Some && frame->0@
                == zero_extended(
                old(self).framing().buffered(),
                old(self).framing().spec_settings().fft_len as nat,
            ),
    {
        self.inner.finish()
    }

    /// The log column of the spectrum of one frame: `height` values.
    pub fn log_column(&self, spectrum: Vec<u32>) -> (column: Vec<u32>)
        requires
            self.wf(),
            spectrum@.len() >= self.framing().spec_settings().fft_len / 2,
        ensures
            column@ == spec_log_column(
                spectrum@,
                self.framing().spec_settings().fft_len as nat,
                self.spec_cutoff_bin() as nat,
                self.spec_positions(),
            ),
            column@.len() == self.spec_height(),
    {
        let half = spectrogram_column(spectrum, self.inner.settings().fft_len);
        let cut = fit_column(half, self.cutoff_bin);
        make_log(cut.as_slice(), self.positions.as_slice())
    }
}

/// Whether `spectrum` is what `transform` may give for `frame`.
pub open spec fn is_spectrum<F: Fn(Vec<u32>) -> Vec<u32>>(
    transform: F,
    frame: Seq<u32>,
    spectrum: Seq<u32>,
) -> bool {
    exists|input: Vec<u32>, output: Vec<u32>|
        input@ == frame && output@ == spectrum && #[trigger] call_ensures(
            transform,
            (input,),
            output,
        )
}

/// Whether `columns` is the log spectrogram of the frames, where `spectra`
/// holds what `transform` gave for each frame.
pub open spec fn log_spectrogram_from<F: Fn(Vec<u32>) -> Vec<u32>>(
    transform: F,
    frames: Seq<Seq<u32>>,
    fft_len: nat,
    cutoff_bin: nat,
    positions: Seq<usize>,
    spectra: Seq<Seq<u32>>,
    columns: Seq<Seq<u32>>,
) -> bool {
    &&& spectra.len() == frames.len()
    &&& columns.len() == frames.len()
    &&& forall|k: int|
        0 <= k < frames.len() ==> is_spectrum(transform, frames[k], #[trigger] spectra[k])
    &&& forall|k: int|
        0 <= k < frames.len() ==> #[trigger] columns[k] == spec_log_column(
            spectra[k],
            fft_len,
            cutoff_bin,
            positions,
        )
}

/// The log spectrogram of a signal.
///
/// The signal is cut into frames; `transform` gives the spectrum of a
/// frame, as long as the frame; the lower half of each spectrum is cut at
/// the bin of the cutoff frequency and sampled at the positions. There is
/// one column for each frame, and every column has `settings.height`
/// values.
pub fn generate_log_spectrogram<F: Fn(Vec<u32>) -> Vec<u32>>(
    samples: &[u32],
    spectrogram_settings: &Settings,
    settings: &LogSpectrogramSettings,
    positions: Vec<usize>,
    transform: F,
) -> (columns: Vec<Vec<u32>>)
    requires
        spectrogram_settings.valid(),
        settings.input_sample_rate > 0,
        0 < spec_bin_for_frequency(
            settings.frequency_cutoff as nat,
            settings.input_sample_rate as nat,
            spectrogram_settings.fft_len as nat,
        ) <= usize::MAX,
        positions@.len() == settings.height,
        forall|frame: Vec<u32>|
            frame@.len() == spectrogram_settings.fft_len ==> call_requires(transform, (frame,)),
        forall|frame: Vec<u32>, spectrum: Vec<u32>|
            call_ensures(transform, (frame,), spectrum) ==> spectrum@.len() == frame@.len(),
    ensures
        forall|k: int| 0 <= k < columns@.len() ==> (#[trigger] columns@[k])@.len() == settings.height,
        exists|spectra: Seq<Seq<u32>>| #[trigger]
            log_spectrogram_from(
                transform,
                frames(
                    samples@,
                    spectrogram_settings.fft_len as nat,
                    spectrogram_settings.hop(),
                ),
                spectrogram_settings.fft_len as nat,
                spec_bin_for_frequency(
                    settings.frequency_cutoff as nat,
                    settings.input_sample_rate as nat,
                    spectrogram_settings.fft_len as nat,
                ),
                positions@,
                spectra,
                vectors_view(columns@),
            ),
{
    let cutoff_bin = get_bin_for_frequency(
        settings.frequency_cutoff,
        settings.input_sample_rate,
        spectrogram_settings.fft_len,
    );
    let iterator = LogSpectrogramIterator::new(
        SpectrogramIterator::new(*spectrogram_settings),
        settings.height,
        cutoff_bin,
        positions,
    );
    let mut all_frames = frame_signal(samples, spectrogram_settings);
    let ghost fft_len = spectrogram_settings.fft_len as nat;
    let ghost spec_frames = frames(samples@, fft_len, spectrogram_settings.hop());
    proof {
        crate::spectrogram::frames_have_frame_length(samples@, fft_len, spectrogram_settings.hop());
    }
    let ghost mut spectra: Seq<Seq<u32>> = Seq::empty();
    let mut columns: Vec<Vec<u32>> = Vec::new();
    let mut k: usize = 0;
    while k < all_frames.len()
        invariant
            k <= all_frames@.len(),
            iterator.wf(),
            iterator.framing().spec_settings() == *spectrogram_settings,
            iterator.spec_height() == settings.height,
            iterator.spec_cutoff_bin() == cutoff_bin,
            iterator.spec_positions() == positions@,
            fft_len == spectrogram_settings.fft_len,
            all_frames@.len() == spec_frames.len(),
            forall|j: int| 0 <= j < spec_frames.len() ==> (#[trigger] spec_frames[j]).len() == fft_len,
            forall|j: int| k <= j < all_frames@.len() ==> (#[trigger] all_frames@[j])@ == spec_frames[j],
            forall|frame: Vec<u32>|
                frame@.len() == spectrogram_settings.fft_len ==> call_requires(
                    transform,
                    (frame,),
                ),
            forall|frame: Vec<u32>, spectrum: Vec<u32>|
                call_ensures(transform, (frame,), spectrum) ==> spectrum@.len() == frame@.len(),
            spectra.len() == k,
            columns@.len() == k,
            forall|j: int| 0 <= j < k ==> is_spectrum(transform, spec_frames[j], #[trigger] spectra[j]),
            forall|j: int|
                0 <= j < k ==> (#[trigger] columns@[j])@ == spec_log_column(
                    spectra[j],
                    fft_len,
                    cutoff_bin as nat,
                    positions@,
                ),
            forall|j: int| 0 <= j < k ==> (#[trigger] columns@[j])@.len() == settings.height,
        decreases all_frames@.len() - k,
    {
        let mut frame: Vec<u32> = Vec::new();
        std::mem::swap(&mut frame, &mut all_frames[k]);
        let ghost frame_view = frame@;
        let spectrum = transform(frame);
        proof {
            spectra = spectra.push(spectrum@);
        }
        let column = iterator.log_column(spectrum);
        columns.push(column);
        k += 1;
    }
    proof {
        let views = vectors_view(columns@);
        assert forall|j: int| 0 <= j < spec_frames.len() implies #[trigger] views[j]
            == spec_log_column(spectra[j], fft_len, cutoff_bin as nat, positions@) by {
            assert(views[j] == columns@[j]@);
        }
        assert(log_spectrogram_from(
            transform,
            spec_frames,
            fft_len,
            cutoff_bin as nat,
            positions@,
            spectra,
            views,
        ));
    }
    columns
}

} // verus!
