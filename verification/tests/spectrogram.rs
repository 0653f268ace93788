use pleep::spectrogram::{
    frame_signal, get_bin_for_frequency, spectrogram_column, Settings, SpectrogramIterator,
};
use rustfft::num_complex::Complex;
use rustfft::FftPlanner;

fn stream(samples: &[u32], settings: Settings) -> Vec<Vec<u32>> {
    let mut iterator = SpectrogramIterator::new(settings);
    let mut frames = Vec::new();
    for sample in samples {
        if let Some(frame) = iterator.push(*sample) {
            frames.push(frame);
        }
    }
    if let Some(frame) = iterator.finish() {
        frames.push(frame);
    }
    frames
}

fn hann(len: usize) -> Vec<f32> {
    (0..len)
        .map(|i| 0.5 * (1.0 - (std::f32::consts::TAU * (i as f32 / len as f32)).cos()))
        .collect()
}

fn spectrum(frame: Vec<u32>) -> Vec<u32> {
    let len = frame.len();
    let window = hann(len);
    let mut buffer: Vec<Complex<f32>> = frame
        .iter()
        .zip(&window)
        .map(|(sample, weight)| Complex::new(f32::from_bits(*sample) * weight, 0.0))
        .collect();
    FftPlanner::new().plan_fft_forward(len).process(&mut buffer);
    buffer.iter().map(|c| (c.norm() / (len as f32).sqrt()).to_bits()).collect()
}

#[test]
fn frames_begin_one_hop_apart_and_the_last_is_filled_with_zeros() {
    let samples: Vec<u32> = (1..=10).collect();
    let frames = frame_signal(&samples, &Settings { fft_len: 4, fft_overlap: 1 });
    assert_eq!(
        frames,
        vec![vec![1, 2, 3, 4], vec![4, 5, 6, 7], vec![7, 8, 9, 10], vec![10, 0, 0, 0]]
    );
}

#[test]
fn frames_without_overlap_are_consecutive_runs() {
    let samples: Vec<u32> = (1..=8).collect();
    let settings = Settings { fft_len: 4, fft_overlap: 0 };
    assert_eq!(frame_signal(&samples, &settings), vec![vec![1, 2, 3, 4], vec![5, 6, 7, 8]]);
    assert_eq!(
        frame_signal(&samples[..6], &settings),
        vec![vec![1, 2, 3, 4], vec![5, 6, 0, 0]]
    );
}

#[test]
fn short_signal_gives_one_padded_frame() {
    let settings = Settings { fft_len: 4, fft_overlap: 2 };
    assert_eq!(frame_signal(&[7, 8], &settings), vec![vec![7, 8, 0, 0]]);
    assert_eq!(frame_signal(&[7], &settings), vec![vec![7, 0, 0, 0]]);
}

#[test]
fn empty_signal_gives_no_frame() {
    assert!(frame_signal(&[], &Settings { fft_len: 4, fft_overlap: 2 }).is_empty());
    assert!(stream(&[], Settings { fft_len: 4, fft_overlap: 2 }).is_empty());
}

#[test]
fn signal_of_one_frame_with_overlap_gives_the_frame_and_its_tail() {
    let settings = Settings { fft_len: 4, fft_overlap: 2 };
    assert_eq!(
        frame_signal(&[1, 2, 3, 4], &settings),
        vec![vec![1, 2, 3, 4], vec![3, 4, 0, 0]]
    );
}

#[test]
fn frame_length_of_one_gives_one_frame_for_each_sample() {
    let settings = Settings { fft_len: 1, fft_overlap: 0 };
    assert_eq!(frame_signal(&[5, 6, 7], &settings), vec![vec![5], vec![6], vec![7]]);
}

#[test]
fn streaming_gives_the_frames_of_the_whole_signal() {
    let samples: Vec<u32> = (0..97).map(|i| i * 3 + 1).collect();
    for fft_len in 1..9usize {
        for fft_overlap in 0..fft_len {
            let settings = Settings { fft_len, fft_overlap };
            for len in 0..samples.len() {
                let streamed = stream(&samples[..len], settings);
                assert_eq!(streamed, frame_signal(&samples[..len], &settings));
                for frame in &streamed {
                    assert_eq!(frame.len(), fft_len);
                }
                let hop = fft_len - fft_overlap;
                for (index, frame) in streamed.iter().enumerate() {
                    for (offset, value) in frame.iter().enumerate() {
                        let at = index * hop + offset;
                        assert_eq!(*value, if at < len { samples[at] } else { 0 });
                    }
                }
            }
        }
    }
}

#[test]
fn push_hands_out_a_frame_when_it_is_full() {
    let settings = Settings { fft_len: 3, fft_overlap: 1 };
    let mut iterator = SpectrogramIterator::new(settings);
    assert_eq!(iterator.settings(), settings);
    assert_eq!(iterator.push(1), None);
    assert_eq!(iterator.push(2), None);
    assert_eq!(iterator.push(3), Some(vec![1, 2, 3]));
    assert_eq!(iterator.push(4), None);
    assert_eq!(iterator.push(5), Some(vec![3, 4, 5]));
    assert_eq!(iterator.into_buffered(), vec![5]);
}

#[test]
fn settings_validity() {
    assert!(Settings { fft_len: 4, fft_overlap: 3 }.is_valid());
    assert!(Settings { fft_len: 1, fft_overlap: 0 }.is_valid());
    assert!(!Settings { fft_len: 4, fft_overlap: 4 }.is_valid());
    assert!(!Settings { fft_len: 0, fft_overlap: 0 }.is_valid());
}

#[test]
fn bin_for_frequency_is_rounded_to_the_nearest() {
    assert_eq!(get_bin_for_frequency(16384, 32768, 32768), 16384);
    assert_eq!(get_bin_for_frequency(440, 16000, 1024), 28);
    assert_eq!(get_bin_for_frequency(1, 4, 2), 1);
    assert_eq!(get_bin_for_frequency(1, 4, 1), 0);
    assert_eq!(get_bin_for_frequency(1, 3, 1), 0);
    assert_eq!(get_bin_for_frequency(2, 3, 1), 1);
    assert_eq!(get_bin_for_frequency(0, 5, 100), 0);
    assert_eq!(get_bin_for_frequency(7, 1, 3), 21);
    for frequency in 0..60usize {
        for rate in 1..20usize {
            let exact = (frequency * 16) as f64 / rate as f64;
            assert_eq!(get_bin_for_frequency(frequency, rate, 16), exact.round() as usize);
        }
    }
}

#[test]
fn column_is_the_lower_half_of_the_spectrum() {
    assert_eq!(spectrogram_column(vec![1, 2, 3, 4, 5, 6], 6), vec![1, 2, 3]);
    assert_eq!(spectrogram_column(vec![1, 2, 3, 4, 5], 5), vec![1, 2]);
    assert_eq!(spectrogram_column(vec![1], 1), Vec::<u32>::new());
}

#[test]
fn zero_signal_gives_zero_columns() {
    let settings = Settings { fft_len: 64, fft_overlap: 16 };
    for len in [64usize, 65, 200, 1000] {
        let samples = vec![0.0f32.to_bits(); len];
        let frames = frame_signal(&samples, &settings);
        assert!(!frames.is_empty());
        for frame in frames {
            assert_eq!(frame, vec![0u32; 64]);
            let column = spectrogram_column(spectrum(frame), 64);
            assert_eq!(column.len(), 32);
            for value in column {
                assert_eq!(f32::from_bits(value), 0.0);
            }
        }
    }
}

#[test]
fn sine_peaks_at_the_bin_of_its_frequency() {
    let fft_len = 1024usize;
    let rate = 16000usize;
    let settings = Settings { fft_len, fft_overlap: 256 };
    for frequency in [100usize, 440, 1000, 3999, 7900] {
        let samples: Vec<u32> = (0..4 * fft_len)
            .map(|i| {
                (std::f32::consts::TAU * frequency as f32 * i as f32 / rate as f32).sin().to_bits()
            })
            .collect();
        let frames = frame_signal(&samples, &settings);
        let column = spectrogram_column(spectrum(frames[1].clone()), fft_len);
        assert_eq!(column.len(), fft_len / 2);
        let mut peak = 0;
        for (bin, value) in column.iter().enumerate() {
            if f32::from_bits(*value) > f32::from_bits(column[peak]) {
                peak = bin;
            }
        }
        let expected = get_bin_for_frequency(frequency, rate, fft_len);
        assert!(peak + 1 >= expected && peak <= expected + 1, "{frequency}: {peak} {expected}");
    }
}
