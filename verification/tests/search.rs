use pleep::file::{BuildSettings, Segment};
use pleep::score::INFINITY_BITS;
use pleep::search::{
    get_error, initial_errors, merge_errors, min_window_error, pad_spectrogram, query_offset,
    query_slices, rank, segment_trims, select_scores, trim_segment, trim_segments, zero_vec,
};

fn settings(height: u32) -> BuildSettings {
    BuildSettings {
        fft_size: 32768,
        fft_overlap: 8192,
        spectrogram_height: height,
        spectrogram_max_frequency: 16384,
        resample_rate: 32768,
        resample_chunk_size: 131072,
        resample_sub_chunks: 1,
    }
}

fn column(values: &[f32]) -> Vec<u32> {
    values.iter().map(|v| v.to_bits()).collect()
}

fn columns(rows: &[&[f32]]) -> Vec<Vec<u32>> {
    rows.iter().map(|row| column(row)).collect()
}

fn mean_squared_error(window: &[Vec<u32>], segment: &[Vec<u32>]) -> u32 {
    let total: f32 = window
        .iter()
        .zip(segment)
        .map(|(left, right)| {
            left.iter()
                .zip(right)
                .map(|(l, r)| (f32::from_bits(*l) - f32::from_bits(*r)).powi(2))
                .sum::<f32>()
        })
        .sum();
    (total / window.len() as f32).to_bits()
}

fn scores(found: Vec<(usize, u32)>) -> Vec<(usize, f32)> {
    found.into_iter().map(|(index, error)| (index, f32::from_bits(error))).collect()
}

#[test]
fn query_offset_follows_the_formula() {
    let settings = settings(200);
    assert_eq!(query_offset(0, 44100, &settings, 10), 0);
    assert_eq!(query_offset(3, 44100, &settings, 10), 13230);
    assert_eq!(query_offset(10, 44100, &settings, 10), 44100);
    let mut other = settings;
    other.fft_size = 1000;
    other.resample_rate = 3;
    assert_eq!(query_offset(1, 7, &other, 2), 1166);
    assert_eq!(query_offset(2, 7, &other, 2), 2333);
}

#[test]
fn query_slices_run_from_each_offset_to_the_end() {
    let mut settings = settings(200);
    settings.fft_size = 8;
    settings.resample_rate = 4;
    let samples: Vec<u32> = (0..20).collect();
    let slices = query_slices(&samples, 2, &settings, 4);
    assert_eq!(slices.len(), 5);
    for (index, (offset, slice)) in slices.iter().enumerate() {
        assert_eq!(*offset, index * 2 * 8 / (4 * 4));
        assert_eq!(*slice, &samples[*offset..]);
    }
    assert_eq!(slices[4].0, 4);
}

#[test]
fn segment_trims_step_up_to_the_size() {
    assert_eq!(segment_trims(20, 3), vec![0, 3, 6, 9, 12, 15, 18]);
    assert_eq!(segment_trims(6, 3), vec![0, 3, 6]);
    assert_eq!(segment_trims(0, 5), vec![0]);
    assert_eq!(segment_trims(4, 9), vec![0]);
    assert_eq!(
        segment_trims(20, 3),
        (0..=20usize).step_by(3).collect::<Vec<_>>()
    );
}

#[test]
fn trim_removes_the_head_or_everything() {
    let vectors = columns(&[&[1.0], &[2.0], &[3.0]]);
    assert_eq!(trim_segment(&vectors, 0), &vectors[..]);
    assert_eq!(trim_segment(&vectors, 2), &vectors[2..]);
    assert_eq!(trim_segment(&vectors, 3), &vectors[3..]);
    assert!(trim_segment(&vectors, 9).is_empty());
}

#[test]
fn trim_segments_keeps_the_order_of_the_index() {
    let segments = vec![
        Segment { title: "a".to_string(), vectors: columns(&[&[1.0], &[2.0], &[3.0]]) },
        Segment { title: "b".to_string(), vectors: columns(&[&[4.0]]) },
        Segment { title: "c".to_string(), vectors: vec![] },
    ];
    let trimmed = trim_segments(&segments, 2);
    assert_eq!(trimmed.len(), 3);
    assert_eq!(trimmed[0], &segments[0].vectors[2..]);
    assert!(trimmed[1].is_empty());
    assert!(trimmed[2].is_empty());
}

#[test]
fn padding_puts_zero_columns_at_both_ends() {
    let spectrogram = columns(&[&[1.0, 2.0], &[3.0, 4.0]]);
    let padded = pad_spectrogram(spectrogram.clone(), 3, 2);
    assert_eq!(padded.len(), 8);
    for index in [0, 1, 2, 5, 6, 7] {
        assert_eq!(padded[index], vec![0, 0]);
    }
    assert_eq!(&padded[3..5], &spectrogram[..]);
    assert_eq!(pad_spectrogram(spectrogram.clone(), 0, 2), spectrogram);
    assert_eq!(pad_spectrogram(vec![], 1, 3), vec![vec![0, 0, 0]; 2]);
    assert_eq!(zero_vec(4), column(&[0.0; 4]));
}

#[test]
fn least_error_starts_at_infinity_and_ignores_nan() {
    assert_eq!(min_window_error(&[]), INFINITY_BITS);
    assert_eq!(min_window_error(&column(&[f32::NAN, f32::NAN])), INFINITY_BITS);
    assert_eq!(min_window_error(&column(&[4.0, f32::NAN, 0.5, 2.0])), 0.5f32.to_bits());
    assert_eq!(min_window_error(&column(&[f32::INFINITY, 7.0])), 7.0f32.to_bits());
}

#[test]
fn segment_is_scored_by_its_best_window() {
    let spectrogram = columns(&[&[0.0, 0.0], &[1.0, 2.0], &[3.0, 4.0], &[9.0, 9.0]]);
    let exact = columns(&[&[1.0, 2.0], &[3.0, 4.0]]);
    let near = columns(&[&[3.0, 5.0]]);
    let segments: Vec<&[Vec<u32>]> = vec![&exact, &near];
    let found = get_error(
        spectrogram,
        &settings(2),
        1,
        &segments,
        0,
        10.0f32.to_bits(),
        mean_squared_error,
    );
    assert_eq!(scores(found), vec![(0, 0.0), (1, 1.0)]);
}

#[test]
fn padding_lets_a_segment_reach_past_the_edges() {
    let spectrogram = columns(&[&[1.0], &[2.0]]);
    let segment = columns(&[&[0.0], &[1.0], &[2.0], &[0.0]]);
    let segments: Vec<&[Vec<u32>]> = vec![&segment];
    let without = get_error(
        spectrogram.clone(),
        &settings(1),
        1,
        &segments,
        0,
        10.0f32.to_bits(),
        mean_squared_error,
    );
    assert!(without.is_empty());
    let with = get_error(
        spectrogram,
        &settings(1),
        1,
        &segments,
        1,
        10.0f32.to_bits(),
        mean_squared_error,
    );
    assert_eq!(scores(with), vec![(0, 0.0)]);
}

#[test]
fn every_window_of_the_padded_spectrogram_is_scored_once() {
    let spectrogram = columns(&[&[1.0], &[2.0], &[3.0]]);
    let segment = columns(&[&[0.0], &[0.0]]);
    let segments: Vec<&[Vec<u32>]> = vec![&segment];
    let seen = std::cell::RefCell::new(Vec::new());
    let found = get_error(
        spectrogram,
        &settings(1),
        1,
        &segments,
        1,
        f32::INFINITY.to_bits(),
        |window: &[Vec<u32>], segment: &[Vec<u32>]| {
            assert_eq!(window.len(), segment.len());
            seen.borrow_mut().push(window.to_vec());
            mean_squared_error(window, segment)
        },
    );
    assert_eq!(
        seen.into_inner(),
        vec![
            columns(&[&[0.0], &[1.0]]),
            columns(&[&[1.0], &[2.0]]),
            columns(&[&[2.0], &[3.0]]),
            columns(&[&[3.0], &[0.0]]),
        ]
    );
    assert_eq!(scores(found), vec![(0, 0.5)]);
}

#[test]
fn query_shorter_than_every_segment_gives_nothing() {
    let spectrogram = columns(&[&[1.0], &[2.0]]);
    let long = vec![column(&[1.0]); 9];
    let longer = vec![column(&[1.0]); 12];
    let segments: Vec<&[Vec<u32>]> = vec![&long, &longer];
    let found = get_error(
        spectrogram,
        &settings(1),
        6,
        &segments,
        3,
        10.0f32.to_bits(),
        |_: &[Vec<u32>], _: &[Vec<u32>]| -> u32 { panic!("no window may be scored") },
    );
    assert!(found.is_empty());
    assert!(get_error(
        vec![],
        &settings(1),
        6,
        &segments,
        0,
        10.0f32.to_bits(),
        mean_squared_error
    )
    .is_empty());
}

#[test]
fn longer_segment_is_left_out_and_the_others_are_scored() {
    let spectrogram = columns(&[&[1.0], &[2.0], &[3.0]]);
    let fits = columns(&[&[2.0], &[3.0]]);
    let too_long = vec![column(&[1.0]); 6];
    let as_long = columns(&[&[0.0], &[1.0], &[2.0], &[3.0], &[0.0]]);
    let segments: Vec<&[Vec<u32>]> = vec![&too_long, &fits, &as_long];
    let found = get_error(
        spectrogram,
        &settings(1),
        1,
        &segments,
        1,
        10.0f32.to_bits(),
        mean_squared_error,
    );
    assert_eq!(scores(found), vec![(1, 0.0), (2, 0.0)]);
}

#[test]
fn short_segments_and_high_errors_are_left_out() {
    let spectrogram = columns(&[&[1.0], &[2.0], &[3.0], &[4.0]]);
    let short = columns(&[&[1.0]]);
    let far = columns(&[&[40.0], &[50.0]]);
    let close = columns(&[&[2.0], &[4.0]]);
    let segments: Vec<&[Vec<u32>]> = vec![&short, &far, &close];
    let found = get_error(
        spectrogram,
        &settings(1),
        2,
        &segments,
        0,
        0.5f32.to_bits(),
        mean_squared_error,
    );
    assert_eq!(scores(found), vec![(2, 0.5)]);
}

#[test]
fn error_equal_to_the_limit_is_kept() {
    let spectrogram = columns(&[&[1.0]]);
    let segment = columns(&[&[3.0]]);
    let segments: Vec<&[Vec<u32>]> = vec![&segment];
    let at = get_error(
        spectrogram.clone(),
        &settings(1),
        1,
        &segments,
        0,
        4.0f32.to_bits(),
        mean_squared_error,
    );
    assert_eq!(scores(at), vec![(0, 4.0)]);
    let below = get_error(
        spectrogram,
        &settings(1),
        1,
        &segments,
        0,
        3.9f32.to_bits(),
        mean_squared_error,
    );
    assert!(below.is_empty());
}

#[test]
fn initial_errors_are_infinite() {
    assert_eq!(initial_errors(3), vec![INFINITY_BITS; 3]);
    assert!(initial_errors(0).is_empty());
}

#[test]
fn merge_keeps_the_least_error_of_each_segment() {
    let mut errors = initial_errors(4);
    merge_errors(&mut errors, &[(1, 5.0f32.to_bits()), (3, 2.0f32.to_bits())]);
    merge_errors(&mut errors, &[(1, 7.0f32.to_bits()), (3, 1.0f32.to_bits()), (9, 0)]);
    merge_errors(&mut errors, &[(0, f32::NAN.to_bits())]);
    assert_eq!(
        errors,
        vec![INFINITY_BITS, 5.0f32.to_bits(), INFINITY_BITS, 1.0f32.to_bits()]
    );
}

#[test]
fn merge_does_not_depend_on_the_order_of_the_tasks() {
    let tasks: Vec<Vec<(usize, u32)>> = vec![
        vec![(0, 3.0f32.to_bits()), (2, 1.0f32.to_bits())],
        vec![(0, 2.0f32.to_bits()), (1, 8.0f32.to_bits())],
        vec![(2, 0.25f32.to_bits()), (2, 6.0f32.to_bits()), (1, f32::NAN.to_bits())],
        vec![],
    ];
    let orders: [[usize; 4]; 5] =
        [[0, 1, 2, 3], [3, 2, 1, 0], [1, 0, 3, 2], [2, 3, 0, 1], [1, 3, 0, 2]];
    let mut outcomes = Vec::new();
    for order in orders {
        let mut errors = initial_errors(3);
        for task in order {
            merge_errors(&mut errors, &tasks[task]);
        }
        outcomes.push(rank(&errors, 10));
    }
    for outcome in &outcomes {
        assert_eq!(outcome, &outcomes[0]);
    }
    assert_eq!(
        scores(outcomes[0].clone()),
        vec![(2, 0.25), (0, 2.0), (1, 8.0)]
    );
}

#[test]
fn ranking_is_ascending_and_stable_and_drops_what_is_not_finite() {
    let errors = column(&[3.0, f32::INFINITY, 1.0, f32::NAN, 3.0, 0.0, 1.0, -0.0]);
    assert_eq!(
        scores(rank(&errors, 10)),
        vec![(5, 0.0), (7, -0.0), (2, 1.0), (6, 1.0), (0, 3.0), (4, 3.0)]
    );
    let mut expected: Vec<(usize, f32)> = errors
        .iter()
        .map(|bits| f32::from_bits(*bits))
        .enumerate()
        .filter(|(_, error)| error.is_finite())
        .collect();
    expected.sort_by(|(_, l), (_, r)| l.partial_cmp(r).unwrap());
    assert_eq!(scores(rank(&errors, 10)), expected);
}

#[test]
fn ranking_keeps_the_best_n() {
    let errors = column(&[3.0, 2.0, 1.0, 4.0]);
    assert_eq!(scores(rank(&errors, 2)), vec![(2, 1.0), (1, 2.0)]);
    assert_eq!(scores(rank(&errors, 4)).len(), 4);
    assert!(rank(&errors, 0).is_empty());
    assert!(rank(&initial_errors(5), 3).is_empty());
}

#[test]
fn scores_are_chosen_from_the_errors_of_the_windows() {
    let lens = [3usize, 1, 9, 4, 2];
    let errors = vec![
        column(&[5.0, 2.0, 7.0]),
        column(&[0.0]),
        column(&[0.0]),
        column(&[11.0, f32::NAN]),
        vec![],
    ];
    let found = select_scores(&lens, &errors, 2, 8, 10.0f32.to_bits());
    assert_eq!(scores(found), vec![(0, 2.0)]);
    let unlimited = select_scores(&lens, &errors, 0, 9, f32::INFINITY.to_bits());
    assert_eq!(
        scores(unlimited),
        vec![(0, 2.0), (1, 0.0), (2, 0.0), (3, 11.0), (4, f32::INFINITY)]
    );
    assert!(select_scores(&[], &[], 0, 0, 0).is_empty());
}
