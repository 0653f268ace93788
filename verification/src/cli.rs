//! The settings that a build is asked for on the command line, their
//! defaults, and the reading of a frequency from text.

use vstd::prelude::*;
use vstd::std_specs::convert::FromSpecImpl;
use crate::audio::{
    can_resample, chunks, resampled_from, Audio, Error, ResamplingChunksIterator,
};
use crate::file::{vectors_view, BuildSettings};
use crate::log_spectrogram::{generate_log_spectrogram, log_spectrogram_from};
use crate::spectrogram::{frames, spec_bin_for_frequency, Settings};
use crate::text::{chars_of, spec_trim, trim};

verus! {

/// The sample rate that audio is resampled to unless another is asked for.
pub const DEFAULT_SAMPLE_RATE: usize = 32768;

/// The frame length unless another is asked for: one second at the default
/// sample rate.
pub const DEFAULT_FFT_SIZE: usize = 32768;

/// The overlap of consecutive frames unless another is asked for: a quarter
/// of the default frame.
pub const DEFAULT_FFT_OVERLAP: usize = 8192;

/// The frequency cutoff unless another is asked for: half the default
/// sample rate.
pub const DEFAULT_MAX_FREQUENCY: usize = 16384;

/// The height of the log axis unless another is asked for.
pub const DEFAULT_SPECTROGRAM_HEIGHT: usize = 200;

/// The number of sub-chunks of the resampler unless another is asked for.
pub const DEFAULT_RESAMPLE_SUB_CHUNKS: usize = 1;

/// The chunk size of the resampler unless another is asked for.
pub const DEFAULT_RESAMPLE_CHUNK_SIZE: usize = 131072;

/// The frame length and the overlap of consecutive frames.
#[derive(Debug, Clone, Copy, PartialEq, Eq, Structural)]
pub struct SpectrogramSettings {
    pub fft_size: usize,
    pub fft_overlap: usize,
}

/// The height of the log axis and the frequency at which the linear axis is
/// cut.
#[derive(Debug, Clone, Copy, PartialEq, Eq, Structural)]
pub struct LogSpectrogramSettings {
    pub height: usize,
    pub max_frequency: usize,
}

/// The rate that audio is resampled to, and the chunking of the resampler.
#[derive(Debug, Clone, Copy, PartialEq, Eq, Structural)]
pub struct ResampleSettings {
    pub resample_rate: usize,
    pub sub_chunks: usize,
    pub chunk_size: usize,
}

/// The settings of the transform that a build is asked for.
#[derive(Debug, Clone, Copy, PartialEq, Eq, Structural)]
pub struct Options {
    pub resampler: ResampleSettings,
    pub spectrogram: SpectrogramSettings,
    pub log_settings: LogSpectrogramSettings,
}

impl Default for SpectrogramSettings {
    fn default() -> (settings: Self)
        ensures
            settings == (SpectrogramSettings {
                fft_size: DEFAULT_FFT_SIZE,
                fft_overlap: DEFAULT_FFT_OVERLAP,
            }),
    {
        SpectrogramSettings { fft_size: DEFAULT_FFT_SIZE, fft_overlap: DEFAULT_FFT_OVERLAP }
    }
}

impl Default for LogSpectrogramSettings {
    fn default() -> (settings: Self)
        ensures
            settings == (LogSpectrogramSettings {
                height: DEFAULT_SPECTROGRAM_HEIGHT,
                max_frequency: DEFAULT_MAX_FREQUENCY,
            }),
    {
        LogSpectrogramSettings {
            height: DEFAULT_SPECTROGRAM_HEIGHT,
            max_frequency: DEFAULT_MAX_FREQUENCY,
        }
    }
}

impl Default for ResampleSettings {
    fn default() -> (settings: Self)
        ensures
            settings == (ResampleSettings {
                resample_rate: DEFAULT_SAMPLE_RATE,
                sub_chunks: DEFAULT_RESAMPLE_SUB_CHUNKS,
                chunk_size: DEFAULT_RESAMPLE_CHUNK_SIZE,
            }),
    {
        ResampleSettings {
            resample_rate: DEFAULT_SAMPLE_RATE,
            sub_chunks: DEFAULT_RESAMPLE_SUB_CHUNKS,
            chunk_size: DEFAULT_RESAMPLE_CHUNK_SIZE,
        }
    }
}

impl From<SpectrogramSettings> for Settings {
    fn from(val: SpectrogramSettings) -> (settings: Settings) {
        Settings { fft_len: val.fft_size, fft_overlap: val.fft_overlap }
    }
}

impl FromSpecImpl<SpectrogramSettings> for Settings {
    open spec fn obeys_from_spec() -> bool {
        true
    }

    open spec fn from_spec(val: SpectrogramSettings) -> Settings {
        Settings { fft_len: val.fft_size, fft_overlap: val.fft_overlap }
    }
}

impl From<ResampleSettings> for crate::audio::ResampleSettings {
    fn from(val: ResampleSettings) -> (settings: crate::audio::ResampleSettings) {
        crate::audio::ResampleSettings {
            target_sample_rate: val.resample_rate,
            sub_chunks: val.sub_chunks,
            chunk_size: val.chunk_size,
        }
    }
}

impl FromSpecImpl<ResampleSettings> for crate::audio::ResampleSettings {
    open spec fn obeys_from_spec() -> bool {
        true
    }

    open spec fn from_spec(val: ResampleSettings) -> crate::audio::ResampleSettings {
        crate::audio::ResampleSettings {
            target_sample_rate: val.resample_rate,
            sub_chunks: val.sub_chunks,
            chunk_size: val.chunk_size,
        }
    }
}

/// A setting as the index stores it: reduced to 32 bits.
pub open spec fn stored(value: usize) -> u32 {
    (value as int % 0x1_0000_0000) as u32
}

/// A setting as the index stores it: reduced to 32 bits.
fn to_stored(value: usize) -> (word: u32)
    ensures
        word == stored(value),
{
    (value as u64 % 0x1_0000_0000u64) as u32
}

impl From<Options> for BuildSettings {
    fn from(value: Options) -> (settings: BuildSettings) {
        BuildSettings {
            fft_size: to_stored(value.spectrogram.fft_size),
            fft_overlap: to_stored(value.spectrogram.fft_overlap),
            spectrogram_height: to_stored(value.log_settings.height),
            spectrogram_max_frequency: to_stored(value.log_settings.max_frequency),
            resample_rate: to_stored(value.resampler.resample_rate),
            resample_chunk_size: to_stored(value.resampler.chunk_size),
            resample_sub_chunks: to_stored(value.resampler.sub_chunks),
        }
    }
}

impl FromSpecImpl<Options> for BuildSettings {
    open spec fn obeys_from_spec() -> bool {
        true
    }

    open spec fn from_spec(value: Options) -> BuildSettings {
        BuildSettings {
            fft_size: stored(value.spectrogram.fft_size),
            fft_overlap: stored(value.spectrogram.fft_overlap),
            spectrogram_height: stored(value.log_settings.height),
            spectrogram_max_frequency: stored(value.log_settings.max_frequency),
            resample_rate: stored(value.resampler.resample_rate),
            resample_chunk_size: stored(value.resampler.chunk_size),
            resample_sub_chunks: stored(value.resampler.sub_chunks),
        }
    }
}

/// Whether `columns` is the log spectrogram of a recording: the samples
/// are cut into chunks, `resampled` holds what `process` gave for each
/// chunk, the resampled chunks joined are framed, `spectra` holds what
/// `transform` gave for each frame, and each spectrum is re-binned.
pub open spec fn recording_transformed<P: Fn(Vec<u32>) -> Vec<u32>, T: Fn(Vec<u32>) -> Vec<u32>>(
    process: P,
    transform: T,
    samples: Seq<u32>,
    spectrogram_settings: Settings,
    resample_settings: crate::audio::ResampleSettings,
    log_spectrogram_settings: LogSpectrogramSettings,
    positions: Seq<usize>,
    resampled: Seq<Seq<u32>>,
    spectra: Seq<Seq<u32>>,
    columns: Seq<Seq<u32>>,
) -> bool {
    &&& resampled_from(
        process,
        chunks(samples, resample_settings.chunk_size as nat),
        resampled,
        crate::audio::joined(resampled),
    )
    &&& log_spectrogram_from(
        transform,
        frames(
            crate::audio::joined(resampled),
            spectrogram_settings.fft_len as nat,
            spectrogram_settings.hop(),
        ),
        spectrogram_settings.fft_len as nat,
        spec_bin_for_frequency(
            log_spectrogram_settings.max_frequency as nat,
            resample_settings.target_sample_rate as nat,
            spectrogram_settings.fft_len as nat,
        ),
        positions,
        spectra,
        columns,
    )
}

/// Whether `length` and `columns` are what the transform stack gives for
/// a recording: the number of the resampled samples, and their log
/// spectrogram, every column of which has the height of the log axis.
pub open spec fn is_transformed<P: Fn(Vec<u32>) -> Vec<u32>, T: Fn(Vec<u32>) -> Vec<u32>>(
    process: P,
    transform: T,
    samples: Seq<u32>,
    spectrogram_settings: Settings,
    resample_settings: crate::audio::ResampleSettings,
    log_spectrogram_settings: LogSpectrogramSettings,
    positions: Seq<usize>,
    length: usize,
    columns: Seq<Vec<u32>>,
) -> bool {
    &&& forall|k: int|
        0 <= k < columns.len() ==> (#[trigger] columns[k])@.len() == log_spectrogram_settings.height
    &&& exists|resampled: Seq<Seq<u32>>, spectra: Seq<Seq<u32>>|
        length == crate::audio::joined(resampled).len() && #[trigger] recording_transformed(
            process,
            transform,
            samples,
            spectrogram_settings,
            resample_settings,
            log_spectrogram_settings,
            positions,
            resampled,
            spectra,
            vectors_view(columns),
        )
}

/// The log spectrogram of a decoded recording, and the number of its
/// samples after resampling.
///
/// The samples are resampled chunk by chunk to the target rate, framed,
/// transformed and re-binned: `process` resamples one chunk, `transform`
/// gives the spectrum of one frame. The recording is refused when its
/// rate or the resampling settings cannot make a resampler.
pub fn file_to_log_spectrogram<P: Fn(Vec<u32>) -> Vec<u32>, T: Fn(Vec<u32>) -> Vec<u32>>(
    audio: &Audio,
    spectrogram_settings: &Settings,
    resample_settings: &crate::audio::ResampleSettings,
    log_spectrogram_settings: &LogSpectrogramSettings,
    positions: Vec<usize>,
    process: P,
    transform: T,
) -> (r: Result<(usize, Vec<Vec<u32>>), Error>)
    requires
        spectrogram_settings.valid(),
        resample_settings.target_sample_rate > 0 ==> 0 < spec_bin_for_frequency(
            log_spectrogram_settings.max_frequency as nat,
            resample_settings.target_sample_rate as nat,
            spectrogram_settings.fft_len as nat,
        ) <= usize::MAX,
        positions@.len() == log_spectrogram_settings.height,
        forall|chunk: Vec<u32>|
            chunk@.len() == resample_settings.chunk_size ==> call_requires(process, (chunk,)),
        forall|frame: Vec<u32>|
            frame@.len() == spectrogram_settings.fft_len ==> call_requires(transform, (frame,)),
        forall|frame: Vec<u32>, spectrum: Vec<u32>|
            call_ensures(transform, (frame,), spectrum) ==> spectrum@.len() == frame@.len(),
    ensures
        !can_resample(audio.sample_rate, *resample_settings) ==> (r matches Err(e) && e
            == Error::ResamplerConstruction),
        can_resample(audio.sample_rate, *resample_settings) ==> (r matches Ok(found)
            && is_transformed(
            process,
            transform,
            audio.samples@,
            *spectrogram_settings,
            *resample_settings,
            *log_spectrogram_settings,
            positions@,
            found.0,
            found.1@,
        )),
{
    let chunker = match ResamplingChunksIterator::new(audio.sample_rate, *resample_settings) {
        Ok(chunker) => chunker,
        Err(error) => {
            return Err(error);
        },
    };
    let ghost given = audio.samples@;
    assert(chunker.pending() + given =~= given);
    let resampled_audio = chunker.remaining_to_audio(audio.samples.as_slice(), process);
    let ghost resampled = choose|outputs: Seq<Seq<u32>>| #[trigger]
        resampled_from(
            process,
            chunks(given, resample_settings.chunk_size as nat),
            outputs,
            resampled_audio.samples@,
        );
    let columns = generate_log_spectrogram(
        resampled_audio.samples.as_slice(),
        spectrogram_settings,
        &crate::log_spectrogram::LogSpectrogramSettings {
            height: log_spectrogram_settings.height,
            frequency_cutoff: log_spectrogram_settings.max_frequency,
            input_sample_rate: resample_settings.target_sample_rate,
        },
        positions,
        transform,
    );
    let length = resampled_audio.samples.len();
    proof {
        let cutoff = spec_bin_for_frequency(
            log_spectrogram_settings.max_frequency as nat,
            resample_settings.target_sample_rate as nat,
            spectrogram_settings.fft_len as nat,
        );
        let spectra = choose|spectra: Seq<Seq<u32>>| #[trigger]
            log_spectrogram_from(
                transform,
                frames(
                    resampled_audio.samples@,
                    spectrogram_settings.fft_len as nat,
                    spectrogram_settings.hop(),
                ),
                spectrogram_settings.fft_len as nat,
                cutoff,
                positions@,
                spectra,
                vectors_view(columns@),
            );
        assert(recording_transformed(
            process,
            transform,
            given,
            *spectrogram_settings,
            *resample_settings,
            *log_spectrogram_settings,
            positions@,
            resampled,
            spectra,
            vectors_view(columns@),
        ));
    }
    Ok((length, columns))
}

/// Whether the character is a Unicode numeric character: what
/// `char::is_numeric` gives.
pub uninterp spec fn char_is_numeric(c: char) -> bool;

/// The text in lower case: what `str::to_lowercase` gives.
pub uninterp spec fn lowercase(text: Seq<char>) -> Seq<char>;

/// `char::is_numeric`: whether the character has one of the Unicode general
/// categories for numbers.
#[verifier::external_body]
fn is_numeric(c: char) -> (r: bool)
    ensures
        r == char_is_numeric(c),
{
    c.is_numeric()
}

/// `str::to_lowercase`: the lower-case equivalent of the text as a new
/// string.
#[verifier::external_body]
fn to_lowercase(text: &str) -> (lower: String)
    ensures
        lower@ == lowercase(text@),
{
    text.to_lowercase()
}

/// `String::push`: the character is appended to the end of the string.
#[verifier::external_body]
fn push_char(text: &mut String, c: char)
    ensures
        final(text)@ == old(text)@.push(c),
{
    text.push(c)
}

/// Whether the character is one of the digits 0 to 9.
pub open spec fn is_digit(c: char) -> bool {
    '0' <= c <= '9'
}

/// The number that a run of digits denotes in base ten.
pub open spec fn decimal_value(digits: Seq<char>) -> nat
    decreases digits.len(),
{
    if digits.len() == 0 {
        0
    } else {
        (10 * decimal_value(digits.drop_last()) + (digits.last() as u32 - '0' as u32)) as nat
    }
}

/// The text without a plus sign at its start.
pub open spec fn unsigned_part(text: Seq<char>) -> Seq<char> {
    if text.len() > 0 && text.first() == '+' {
        text.drop_first()
    } else {
        text
    }
}

/// The number that a text denotes: the text is one or more digits, after
/// a plus sign or without one, and the number fits a `usize`. Any other
/// text denotes none.
pub open spec fn spec_parse_usize(text: Seq<char>) -> Option<usize> {
    let digits = unsigned_part(text);
    if digits.len() > 0 && (forall|i: int| 0 <= i < digits.len() ==> is_digit(#[trigger] digits[i]))
        && decimal_value(digits) <= usize::MAX {
        Some(decimal_value(digits) as usize)
    } else {
        None
    }
}

/// `std::num::ParseIntError`, the error of `str::parse` to an integer. It is
/// carried as it is: nothing is said of what it holds.
#[verifier::external_type_specification]
#[verifier::external_body]
pub struct ExParseIntError(std::num::ParseIntError);

/// `str::parse` to a `usize`: the number comes back exactly when the text is
/// an optional plus sign followed by one or more decimal digits and the
/// number fits; any other text gives an error.
#[verifier::external_body]
fn parse_usize(text: &str) -> (r: Result<usize, std::num::ParseIntError>)
    ensures
        r is Ok <==> spec_parse_usize(text@) is Some,
        r matches Ok(value) ==> spec_parse_usize(text@) == Some(value),
{
    text.parse::<usize>()
}

/// Why a text is not a frequency.
#[derive(Debug)]
pub enum ParseFrequencyError {
    /// The text is neither a number nor a number of thousands, or the
    /// frequency is too large for the machine.
    InvalidText(String),
    /// The numeric characters of the text are not a decimal number.
    ParseInt { text: String, original: std::num::ParseIntError },
}

/// What a text is as a frequency.
pub enum Frequency {
    /// The frequency in Hz.
    Hertz(usize),
    /// The text is not a frequency.
    InvalidText,
    /// The numeric characters of the text, which are not a decimal number.
    NotANumber(Seq<char>),
}

/// The characters of the text that are marked numeric, in order.
pub open spec fn numeric_part(text: Seq<char>, numeric: Seq<bool>) -> Seq<char>
    decreases text.len(),
{
    if text.len() == 0 {
        Seq::empty()
    } else {
        let front = numeric_part(text.drop_last(), numeric.drop_last());
        if numeric.last() {
            front.push(text.last())
        } else {
            front
        }
    }
}

/// What a text whose characters are marked numeric or not is as a
/// frequency. A text that ends in `k` counts thousands; any other text must
/// be numeric throughout. The numeric characters are read as a decimal
/// number, and the product must fit.
pub open spec fn spec_frequency(text: Seq<char>, numeric: Seq<bool>) -> Frequency {
    let thousands = text.len() > 0 && text.last() == 'k';
    let all_numeric = forall|i: int| 0 <= i < numeric.len() ==> #[trigger] numeric[i];
    if !thousands && !all_numeric {
        Frequency::InvalidText
    } else {
        let digits = numeric_part(text, numeric);
        let multiplier: nat = if thousands {
            1000
        } else {
            1
        };
        match spec_parse_usize(digits) {
            None => Frequency::NotANumber(digits),
            Some(value) => if value * multiplier <= usize::MAX {
                Frequency::Hertz((value * multiplier) as usize)
            } else {
                Frequency::InvalidText
            },
        }
    }
}

/// Whether a result is what the frequency stands for: the value, or the
/// error that carries the input or the numeric characters.
pub open spec fn is_outcome(
    r: Result<usize, ParseFrequencyError>,
    input: Seq<char>,
    frequency: Frequency,
) -> bool {
    match frequency {
        Frequency::Hertz(value) => r matches Ok(v) && v == value,
        Frequency::InvalidText => r matches Err(ParseFrequencyError::InvalidText(t)) && t@
            == input,
        Frequency::NotANumber(digits) => r matches Err(
            ParseFrequencyError::ParseInt { text, original },
        ) && text@ == digits,
    }
}

/// Reads a frequency from a text whose characters have been marked
/// numeric or not. `input` is what an error reports as the invalid text.
pub fn frequency_of(input: &str, text: &[char], numeric: &[bool]) -> (r: Result<
    usize,
    ParseFrequencyError,
>)
    requires
        numeric@.len() == text@.len(),
    ensures
        is_outcome(r, input@, spec_frequency(text@, numeric@)),
{
    let len = text.len();
    let thousands = len > 0 && text[len - 1] == 'k';
    let mut all_numeric = true;
    let mut numbers = String::new();
    let mut i: usize = 0;
    assert(text@.take(0) =~= Seq::<char>::empty());
    while i < len
        invariant
            i <= len,
            len == text@.len(),
            len == numeric@.len(),
            all_numeric == (forall|k: int| 0 <= k < i ==> #[trigger] numeric@[k]),
            numbers@ == numeric_part(text@.take(i as int), numeric@.take(i as int)),
        decreases len - i,
    {
        proof {
            assert(text@.take(i + 1).drop_last() =~= text@.take(i as int));
            assert(numeric@.take(i + 1).drop_last() =~= numeric@.take(i as int));
        }
        if numeric[i] {
            push_char(&mut numbers, text[i]);
        } else {
            all_numeric = false;
        }
        i += 1;
    }
    proof {
        assert(text@.take(i as int) =~= text@);
        assert(numeric@.take(i as int) =~= numeric@);
    }
    if !thousands && !all_numeric {
        return Err(ParseFrequencyError::InvalidText(input.to_owned()));
    }
    let multiplier: usize = if thousands {
        1000
    } else {
        1
    };
    match parse_usize(numbers.as_str()) {
        Err(error) => Err(ParseFrequencyError::ParseInt { text: numbers, original: error }),
        Ok(value) => match value.checked_mul(multiplier) {
            Some(frequency) => Ok(frequency),
            None => Err(ParseFrequencyError::InvalidText(input.to_owned())),
        },
    }
}

/// Whether the text ends in `hz`.
pub open spec fn ends_in_hz(text: Seq<char>) -> bool {
    text.len() >= 2 && text[text.len() - 2] == 'h' && text[text.len() - 1] == 'z'
}

/// The part of the input that is read as a number: the input without the
/// `hz` that it ends in, or else the input trimmed and in lower case.
pub open spec fn frequency_text(input: Seq<char>) -> Seq<char> {
    if ends_in_hz(input) {
        input.take(input.len() - 2)
    } else {
        lowercase(spec_trim(input))
    }
}

/// Which characters of a text are numeric.
pub open spec fn numeric_marks(text: Seq<char>) -> Seq<bool> {
    Seq::new(text.len(), |i: int| char_is_numeric(text[i]))
}

/// Reads a frequency in Hz from text such as `440`, `440hz` or `16k`.
///
/// The number is the input without the `hz` that it ends in, or else the
/// input trimmed and in lower case. If that ends in `k`, its numeric
/// characters count thousands; if not, it must be numeric throughout.
pub fn parse_frequency(input: &str) -> (r: Result<usize, ParseFrequencyError>)
    ensures
        is_outcome(
            r,
            input@,
            spec_frequency(frequency_text(input@), numeric_marks(frequency_text(input@))),
        ),
{
    let chars = chars_of(input);
    let len = chars.len();
    let text: Vec<char> = if len >= 2 && chars[len - 2] == 'h' && chars[len - 1] == 'z' {
        let mut stripped = chars;
        stripped.truncate(len - 2);
        assert(stripped@ =~= input@.take(input@.len() - 2));
        stripped
    } else {
        let lower = to_lowercase(trim(input));
        chars_of(lower.as_str())
    };
    let mut numeric: Vec<bool> = Vec::new();
    let mut i: usize = 0;
    while i < text.len()
        invariant
            i <= text@.len(),
            numeric@ == numeric_marks(text@.take(i as int)),
        decreases text@.len() - i,
    {
        numeric.push(is_numeric(text[i]));
        i += 1;
        assert(numeric@ =~= numeric_marks(text@.take(i as int)));
    }
    assert(text@.take(i as int) =~= text@);
    frequency_of(input, text.as_slice(), numeric.as_slice())
}

} // verus!
