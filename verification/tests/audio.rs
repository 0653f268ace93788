use pleep::audio::{
    Audio, ConvertingAudioIterator, Error, PacketAction, ResampleSettings, ResamplingChunksIterator,
};
use rubato::Resampler;

fn settings(chunk_size: usize) -> ResampleSettings {
    ResampleSettings { target_sample_rate: 8000, sub_chunks: 1, chunk_size }
}

#[test]
fn stream_without_a_default_track_is_refused() {
    assert_eq!(ConvertingAudioIterator::new(None, 44100).err(), Some(Error::NoDefaultTrack));
}

#[test]
fn stream_reports_the_rate_of_the_track() {
    let iterator = ConvertingAudioIterator::new(Some(3), 44100).unwrap();
    assert_eq!(iterator.sample_rate(), 44100);
}

#[test]
fn only_packets_of_the_default_track_are_decoded() {
    let iterator = ConvertingAudioIterator::new(Some(3), 44100).unwrap();
    assert_eq!(iterator.on_packet(3), PacketAction::Decode);
    assert_eq!(iterator.on_packet(0), PacketAction::Discard);
    assert_eq!(iterator.on_packet(4), PacketAction::Discard);
}

#[test]
fn decoded_samples_of_the_first_channel_come_out_in_order() {
    let mut iterator = ConvertingAudioIterator::new(Some(0), 8000).unwrap();
    assert_eq!(iterator.next_queued(), None);
    assert_eq!(iterator.on_decoded(&[vec![1, 2, 3], vec![9, 9, 9]]), Some(1));
    assert_eq!(iterator.next_queued(), Some(2));
    assert_eq!(iterator.on_decoded(&[vec![4], vec![9]]), Some(3));
    assert_eq!(iterator.next_queued(), Some(4));
    assert_eq!(iterator.next_queued(), None);
    assert_eq!(iterator.on_decoded(&[vec![]]), None);
}

#[test]
fn rest_of_the_stream_becomes_audio_at_the_track_rate() {
    let mut iterator = ConvertingAudioIterator::new(Some(0), 22050).unwrap();
    assert_eq!(iterator.on_decoded(&[vec![1, 2, 3]]), Some(1));
    let audio = iterator.remaining_to_audio(vec![4, 5]);
    assert_eq!(audio, Audio { samples: vec![2, 3, 4, 5], sample_rate: 22050 });
}

#[test]
fn chunking_is_refused_for_a_zero_rate_or_size() {
    assert!(ResamplingChunksIterator::new(44100, settings(4)).is_ok());
    assert_eq!(
        ResamplingChunksIterator::new(0, settings(4)).err(),
        Some(Error::ResamplerConstruction)
    );
    assert_eq!(
        ResamplingChunksIterator::new(44100, settings(0)).err(),
        Some(Error::ResamplerConstruction)
    );
    let no_target = ResampleSettings { target_sample_rate: 0, sub_chunks: 1, chunk_size: 4 };
    assert_eq!(
        ResamplingChunksIterator::new(44100, no_target).err(),
        Some(Error::ResamplerConstruction)
    );
    let no_sub_chunks = ResampleSettings { target_sample_rate: 8000, sub_chunks: 0, chunk_size: 4 };
    assert_eq!(
        ResamplingChunksIterator::new(44100, no_sub_chunks).err(),
        Some(Error::ResamplerConstruction)
    );
}

#[test]
fn chunks_are_full_runs_and_the_last_is_filled_with_zeros() {
    let mut iterator = ResamplingChunksIterator::new(44100, settings(3)).unwrap();
    assert_eq!(iterator.push(1), None);
    assert_eq!(iterator.push(2), None);
    assert_eq!(iterator.push(3), Some(vec![1, 2, 3]));
    assert_eq!(iterator.push(4), None);
    assert_eq!(iterator.finish(), Some(vec![4, 0, 0]));
    let mut exact = ResamplingChunksIterator::new(44100, settings(2)).unwrap();
    assert_eq!(exact.push(1), None);
    assert_eq!(exact.push(2), Some(vec![1, 2]));
    assert_eq!(exact.finish(), None);
}

#[test]
fn resampled_chunks_are_joined_in_order() {
    let mut iterator = ResamplingChunksIterator::new(16000, settings(4)).unwrap();
    assert_eq!(iterator.push(1), None);
    assert_eq!(iterator.push(2), None);
    let seen = std::cell::RefCell::new(Vec::new());
    let audio = iterator.remaining_to_audio(&[3, 4, 5, 6, 7, 8, 9], |chunk: Vec<u32>| {
        seen.borrow_mut().push(chunk.clone());
        vec![chunk[0] * 10, chunk[2] * 10]
    });
    assert_eq!(
        seen.into_inner(),
        vec![vec![1, 2, 3, 4], vec![5, 6, 7, 8], vec![9, 0, 0, 0]]
    );
    assert_eq!(audio, Audio { samples: vec![10, 30, 50, 70, 90, 0], sample_rate: 8000 });
}

#[test]
fn empty_stream_resamples_to_nothing() {
    let iterator = ResamplingChunksIterator::new(16000, settings(4)).unwrap();
    let audio = iterator.remaining_to_audio(&[], |_: Vec<u32>| -> Vec<u32> {
        panic!("no chunk may be resampled")
    });
    assert_eq!(audio, Audio { samples: vec![], sample_rate: 8000 });
}

#[test]
fn resampler_gives_the_same_length_for_every_chunk() {
    let chunk_size = 1024;
    let settings = ResampleSettings { target_sample_rate: 8000, sub_chunks: 1, chunk_size };
    let iterator = ResamplingChunksIterator::new(16000, settings).unwrap();
    let resampler = std::cell::RefCell::new(
        rubato::FftFixedIn::<f32>::new(16000, 8000, chunk_size, 1, 1).unwrap(),
    );
    let lengths = std::cell::RefCell::new(Vec::new());
    let samples: Vec<u32> = (0..5000)
        .map(|i| (std::f32::consts::TAU * 440.0 * i as f32 / 16000.0).sin().to_bits())
        .collect();
    let audio = iterator.remaining_to_audio(&samples, |chunk: Vec<u32>| {
        assert_eq!(chunk.len(), chunk_size);
        let input: Vec<f32> = chunk.iter().map(|bits| f32::from_bits(*bits)).collect();
        let output = resampler.borrow_mut().process(&[input], None).unwrap();
        lengths.borrow_mut().push(output[0].len());
        output[0].iter().map(|v| v.to_bits()).collect()
    });
    let lengths = lengths.into_inner();
    assert_eq!(lengths.len(), 5);
    for length in &lengths {
        assert_eq!(*length, lengths[0]);
    }
    assert_eq!(audio.samples.len(), 5 * lengths[0]);
    assert_eq!(audio.sample_rate, 8000);
}

#[test]
fn chunking_takes_the_rate_of_the_decoded_stream() {
    let stream = ConvertingAudioIterator::new(Some(1), 44100).unwrap();
    assert!(ResamplingChunksIterator::new_from_audio_iterator(&stream, settings(4)).is_ok());
    let silent = ConvertingAudioIterator::new(Some(1), 0).unwrap();
    assert_eq!(
        ResamplingChunksIterator::new_from_audio_iterator(&silent, settings(4)).err(),
        Some(Error::ResamplerConstruction)
    );
}
