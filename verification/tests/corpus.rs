use pleep::corpus::{
    build_index, is_file_selected, select_files, sort_segments, title_not_behind, CorpusFile,
};
use pleep::text::chars_of;
use pleep::file::{BuildSettings, Segment};

fn settings() -> BuildSettings {
    BuildSettings {
        fft_size: 1024,
        fft_overlap: 256,
        spectrogram_height: 1,
        spectrogram_max_frequency: 4000,
        resample_rate: 16000,
        resample_chunk_size: 4096,
        resample_sub_chunks: 1,
    }
}

fn segment(title: &str, mark: u32) -> Segment {
    Segment { title: title.to_string(), vectors: vec![vec![mark]] }
}

fn corpus_file(name: &str, directory: &str) -> CorpusFile {
    CorpusFile {
        file_name: name.to_string(),
        path: format!("{directory}/{name}"),
        canonical_path: format!("/music/{directory}/{name}"),
    }
}

fn titles() -> Vec<&'static str> {
    vec![
        "b.wav",
        "a.wav",
        "",
        "a",
        "a.wav2",
        "B.wav",
        "\u{e9}.flac",
        "z.flac",
        "\u{ff5e}",
        "\u{1F3B5}",
        "\u{d7ff}",
        "\u{e000}",
        "a/b",
        "a b",
        "a.wav",
    ]
}

#[test]
fn characters_of_a_text() {
    assert_eq!(chars_of("a\u{e9}\u{1F3B5}"), vec!['a', '\u{e9}', '\u{1F3B5}']);
    assert!(chars_of("").is_empty());
}

#[test]
fn titles_are_compared_by_code_points() {
    for a in titles() {
        for b in titles() {
            let left: Vec<char> = a.chars().collect();
            let right: Vec<char> = b.chars().collect();
            assert_eq!(title_not_behind(&left, &right), a <= b, "{a:?} {b:?}");
            assert_eq!(title_not_behind(&left, &right), left <= right);
        }
    }
}

#[test]
fn sorting_is_ascending_by_title() {
    let segments: Vec<Segment> =
        titles().into_iter().enumerate().map(|(i, title)| segment(title, i as u32)).collect();
    let mut expected = segments.clone();
    expected.sort_by_key(|segment| segment.title.clone());
    let sorted = sort_segments(segments);
    assert_eq!(sorted, expected);
    for pair in sorted.windows(2) {
        assert!(pair[0].title <= pair[1].title);
    }
}

#[test]
fn sorting_is_stable_under_ties() {
    let segments = vec![
        segment("same", 0),
        segment("other", 1),
        segment("same", 2),
        segment("a", 3),
        segment("same", 4),
        segment("other", 5),
    ];
    let sorted = sort_segments(segments);
    let marks: Vec<(String, u32)> =
        sorted.into_iter().map(|segment| (segment.title, segment.vectors[0][0])).collect();
    assert_eq!(
        marks,
        vec![
            ("a".to_string(), 3),
            ("other".to_string(), 1),
            ("other".to_string(), 5),
            ("same".to_string(), 0),
            ("same".to_string(), 2),
            ("same".to_string(), 4),
        ]
    );
}

#[test]
fn sorting_of_nothing_and_of_one() {
    assert!(sort_segments(vec![]).is_empty());
    assert_eq!(sort_segments(vec![segment("x", 1)]), vec![segment("x", 1)]);
}

#[test]
fn index_is_the_same_whatever_the_order_of_arrival() {
    let arrivals: [[usize; 4]; 4] = [[0, 1, 2, 3], [3, 2, 1, 0], [2, 0, 3, 1], [1, 3, 0, 2]];
    let names = ["corpus/a.wav", "corpus/b.wav", "corpus/sub/c.wav", "corpus/d.wav"];
    let mut outputs = Vec::new();
    for arrival in arrivals {
        let segments = arrival.iter().map(|i| segment(names[*i], *i as u32)).collect();
        let file = build_index(settings(), segments);
        assert_eq!(file.build_settings, settings());
        let mut bytes = Vec::new();
        file.write_to(&mut bytes).unwrap();
        outputs.push(bytes);
    }
    for output in &outputs {
        assert_eq!(output, &outputs[0]);
    }
}

#[test]
fn ignore_filter() {
    let files = vec![
        corpus_file("a.wav", "corpus"),
        corpus_file("b.wav", "corpus"),
        corpus_file(".gitignore", "corpus"),
        corpus_file("skip.wav", "corpus"),
    ];
    let ignored = vec!["/music/corpus/skip.wav".to_string()];
    let selected = select_files(files, &ignored);
    let names: Vec<&str> = selected.iter().map(|file| file.file_name.as_str()).collect();
    assert_eq!(names, vec!["a.wav", "b.wav"]);
    let segments = selected.iter().map(|file| segment(&file.path, 0)).collect();
    let index = build_index(settings(), segments);
    let titles: Vec<&str> = index.segments.iter().map(|s| s.title.as_str()).collect();
    assert_eq!(titles, vec!["corpus/a.wav", "corpus/b.wav"]);
}

#[test]
fn file_is_ignored_by_its_canonical_path_only() {
    let ignored = vec!["/music/one/skip.wav".to_string(), "/music/two/x.wav".to_string()];
    assert!(!is_file_selected(&corpus_file("skip.wav", "one"), &ignored));
    assert!(is_file_selected(&corpus_file("skip.wav", "two"), &ignored));
    assert!(!is_file_selected(&corpus_file("x.wav", "two"), &ignored));
    assert!(is_file_selected(&corpus_file("x.wav", "one"), &ignored));
    assert!(is_file_selected(&corpus_file("x.wav", "one"), &vec![]));
}

#[test]
fn gitignore_files_are_left_out_wherever_they_are() {
    assert!(!is_file_selected(&corpus_file(".gitignore", "deep/down"), &vec![]));
    assert!(is_file_selected(&corpus_file("gitignore", "corpus"), &vec![]));
    assert!(is_file_selected(&corpus_file(".gitignore.wav", "corpus"), &vec![]));
    assert!(is_file_selected(&corpus_file("a.gitignore", "corpus"), &vec![]));
}

#[test]
fn selection_keeps_the_order_in_which_files_were_found() {
    let files = vec![
        corpus_file("z.wav", "corpus"),
        corpus_file(".gitignore", "corpus"),
        corpus_file("a.wav", "corpus"),
        corpus_file("m.wav", "corpus"),
    ];
    let selected = select_files(files.clone(), &vec!["/music/corpus/a.wav".to_string()]);
    assert_eq!(selected, vec![files[0].clone(), files[3].clone()]);
    assert!(select_files(vec![], &vec![]).is_empty());
}
