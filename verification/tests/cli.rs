use pleep::audio;
use pleep::cli::{
    file_to_log_spectrogram, frequency_of, parse_frequency, LogSpectrogramSettings, Options,
    ParseFrequencyError, ResampleSettings, SpectrogramSettings, DEFAULT_FFT_OVERLAP,
    DEFAULT_FFT_SIZE, DEFAULT_MAX_FREQUENCY, DEFAULT_RESAMPLE_CHUNK_SIZE,
    DEFAULT_RESAMPLE_SUB_CHUNKS, DEFAULT_SAMPLE_RATE, DEFAULT_SPECTROGRAM_HEIGHT,
};
use pleep::file::BuildSettings;
use pleep::spectrogram::Settings;
use pleep::text::{char_is_whitespace, chars_of, trim};

fn invalid_text(input: &str) -> String {
    match parse_frequency(input) {
        Err(ParseFrequencyError::InvalidText(text)) => text,
        other => panic!("{input:?} gave {other:?}"),
    }
}

fn not_a_number(input: &str) -> String {
    match parse_frequency(input) {
        Err(ParseFrequencyError::ParseInt { text, original }) => {
            assert_eq!(text.parse::<usize>().err(), Some(original));
            text
        }
        other => panic!("{input:?} gave {other:?}"),
    }
}

#[test]
fn defaults_are_those_of_the_command_line() {
    assert_eq!(DEFAULT_SAMPLE_RATE, 2 << 14);
    assert_eq!(DEFAULT_FFT_SIZE, DEFAULT_SAMPLE_RATE);
    assert_eq!(DEFAULT_FFT_OVERLAP, DEFAULT_FFT_SIZE / 4);
    assert_eq!(DEFAULT_MAX_FREQUENCY, DEFAULT_SAMPLE_RATE / 2);
    assert_eq!(DEFAULT_SPECTROGRAM_HEIGHT, 200);
    assert_eq!(DEFAULT_RESAMPLE_SUB_CHUNKS, 1);
    assert_eq!(DEFAULT_RESAMPLE_CHUNK_SIZE, 2 << 16);
    assert_eq!(
        SpectrogramSettings::default(),
        SpectrogramSettings { fft_size: 32768, fft_overlap: 8192 }
    );
    assert_eq!(
        LogSpectrogramSettings::default(),
        LogSpectrogramSettings { height: 200, max_frequency: 16384 }
    );
    assert_eq!(
        ResampleSettings::default(),
        ResampleSettings { resample_rate: 32768, sub_chunks: 1, chunk_size: 131072 }
    );
}

#[test]
fn default_options_give_valid_build_settings() {
    let options = Options {
        resampler: ResampleSettings::default(),
        spectrogram: SpectrogramSettings::default(),
        log_settings: LogSpectrogramSettings::default(),
    };
    let settings = BuildSettings::from(options);
    assert_eq!(
        settings,
        BuildSettings {
            fft_size: 32768,
            fft_overlap: 8192,
            spectrogram_height: 200,
            spectrogram_max_frequency: 16384,
            resample_rate: 32768,
            resample_chunk_size: 131072,
            resample_sub_chunks: 1,
        }
    );
    assert!(settings.is_valid());
}

#[test]
fn settings_convert_field_by_field() {
    assert_eq!(
        Settings::from(SpectrogramSettings { fft_size: 1024, fft_overlap: 256 }),
        Settings { fft_len: 1024, fft_overlap: 256 }
    );
    assert_eq!(
        audio::ResampleSettings::from(ResampleSettings {
            resample_rate: 16000,
            sub_chunks: 2,
            chunk_size: 4096
        }),
        audio::ResampleSettings { target_sample_rate: 16000, sub_chunks: 2, chunk_size: 4096 }
    );
    let options = Options {
        resampler: ResampleSettings { resample_rate: 1, sub_chunks: 2, chunk_size: 3 },
        spectrogram: SpectrogramSettings { fft_size: 4, fft_overlap: 5 },
        log_settings: LogSpectrogramSettings { height: 6, max_frequency: 7 },
    };
    assert_eq!(
        BuildSettings::from(options),
        BuildSettings {
            fft_size: 4,
            fft_overlap: 5,
            spectrogram_height: 6,
            spectrogram_max_frequency: 7,
            resample_rate: 1,
            resample_chunk_size: 3,
            resample_sub_chunks: 2,
        }
    );
}

#[test]
fn plain_number_is_hertz() {
    assert_eq!(parse_frequency("440").unwrap(), 440);
    assert_eq!(parse_frequency("0").unwrap(), 0);
    assert_eq!(parse_frequency("0016").unwrap(), 16);
    assert_eq!(parse_frequency("18446744073709551615").ok(), usize::MAX.checked_mul(1));
}

#[test]
fn number_is_trimmed() {
    assert_eq!(parse_frequency("  440\t\n").unwrap(), 440);
    assert_eq!(parse_frequency("\u{a0}16k\u{3000}").unwrap(), 16000);
}

#[test]
fn suffix_k_counts_thousands() {
    assert_eq!(parse_frequency("16k").unwrap(), 16000);
    assert_eq!(parse_frequency("0k").unwrap(), 0);
    assert_eq!(parse_frequency("1.5k").unwrap(), 15000);
    assert_eq!(parse_frequency("about 2 k").unwrap(), 2000);
}

#[test]
fn upper_case_k_is_lowered() {
    assert_eq!(parse_frequency("16K").unwrap(), 16000);
    assert_eq!(parse_frequency(" 8K ").unwrap(), 8000);
}

#[test]
fn suffix_hz_is_stripped_from_the_input_as_it_is() {
    assert_eq!(parse_frequency("440hz").unwrap(), 440);
    assert_eq!(parse_frequency("16khz").unwrap(), 16000);
    assert_eq!(invalid_text("16Khz"), "16Khz");
    assert_eq!(invalid_text(" 440hz"), " 440hz");
    assert_eq!(invalid_text("440Hz"), "440Hz");
    assert_eq!(invalid_text("440hz "), "440hz ");
}

#[test]
fn text_that_is_no_number_is_invalid() {
    assert_eq!(invalid_text("abc"), "abc");
    assert_eq!(invalid_text("44o"), "44o");
    assert_eq!(invalid_text("4 4"), "4 4");
    assert_eq!(invalid_text("-5"), "-5");
    assert_eq!(invalid_text("+5"), "+5");
    assert_eq!(invalid_text("  x "), "  x ");
}

#[test]
fn missing_digits_are_a_number_error() {
    assert_eq!(not_a_number(""), "");
    assert_eq!(not_a_number("   "), "");
    assert_eq!(not_a_number("k"), "");
    assert_eq!(not_a_number("hz"), "");
    assert_eq!(not_a_number("khz"), "");
}

#[test]
fn numeric_characters_that_are_no_digits_are_a_number_error() {
    assert_eq!(not_a_number("\u{663}"), "\u{663}");
    assert_eq!(not_a_number("4\u{b2}"), "4\u{b2}");
    assert_eq!(not_a_number("\u{2167}k"), "\u{2177}");
}

#[test]
fn number_too_large_is_a_number_error() {
    assert_eq!(not_a_number("18446744073709551616"), "18446744073709551616");
    assert_eq!(not_a_number("99999999999999999999k"), "99999999999999999999");
}

#[test]
fn product_too_large_is_invalid() {
    assert_eq!(invalid_text("18446744073709551615k"), "18446744073709551615k");
    assert_eq!(
        parse_frequency("18446744073709551k").ok(),
        18446744073709551usize.checked_mul(1000)
    );
}

#[test]
fn frequency_of_reads_the_marked_characters() {
    assert_eq!(frequency_of("in", &chars_of("12k"), &[true, true, false]).unwrap(), 12000);
    assert_eq!(frequency_of("in", &chars_of("1x2"), &[true, false, true]).err().map(|e| format!("{e:?}")),
        Some("InvalidText(\"in\")".to_string()));
    assert_eq!(frequency_of("in", &chars_of("1x2k"), &[true, false, true, false]).unwrap(), 12000);
    assert_eq!(frequency_of("in", &chars_of("77"), &[true, true]).unwrap(), 77);
    match frequency_of("in", &chars_of("ab"), &[true, true]) {
        Err(ParseFrequencyError::ParseInt { text, .. }) => assert_eq!(text, "ab"),
        other => panic!("{other:?}"),
    }
    match frequency_of("in", &chars_of("+1"), &[true, true]) {
        Ok(value) => assert_eq!(value, 1),
        other => panic!("{other:?}"),
    }
}

#[test]
fn trim_removes_white_space_at_both_ends() {
    for text in ["", " ", "a", " a", "a ", " \t a b \r\n", "\u{2003}x\u{205f}", "\u{200b}x"] {
        assert_eq!(trim(text), text.trim(), "{text:?}");
    }
}

#[test]
fn white_space_is_that_of_unicode() {
    for code in 0..0x11_0000u32 {
        if let Some(c) = char::from_u32(code) {
            assert_eq!(char_is_whitespace(c), c.is_whitespace(), "{code:x}");
        }
    }
}

#[test]
fn recording_is_resampled_then_framed_then_rebinned() {
    let recording = audio::Audio { samples: vec![1, 2, 3, 4, 5], sample_rate: 4 };
    let resample = audio::ResampleSettings { target_sample_rate: 2, sub_chunks: 1, chunk_size: 2 };
    let (length, columns) = file_to_log_spectrogram(
        &recording,
        &Settings { fft_len: 2, fft_overlap: 0 },
        &resample,
        &LogSpectrogramSettings { height: 3, max_frequency: 1 },
        vec![0, 0, 1],
        |chunk: Vec<u32>| vec![chunk[0] + chunk[1]],
        |frame: Vec<u32>| vec![frame[0] * 10, frame[1] * 10],
    )
    .unwrap();
    assert_eq!(length, 3);
    assert_eq!(columns, vec![vec![30, 30, 30], vec![50, 50, 50]]);
}

#[test]
fn recording_without_a_rate_is_refused() {
    let recording = audio::Audio { samples: vec![1, 2, 3], sample_rate: 0 };
    let resample = audio::ResampleSettings { target_sample_rate: 2, sub_chunks: 1, chunk_size: 2 };
    let found = file_to_log_spectrogram(
        &recording,
        &Settings { fft_len: 2, fft_overlap: 0 },
        &resample,
        &LogSpectrogramSettings { height: 1, max_frequency: 1 },
        vec![0],
        |chunk: Vec<u32>| chunk,
        |frame: Vec<u32>| frame,
    );
    assert_eq!(found.err(), Some(audio::Error::ResamplerConstruction));
}
