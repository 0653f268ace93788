//! The search kernel: query slices, trimmed segments, the least windowed
//! error of each segment, and the ranking of the segments.
//!
//! Errors are binary32 bit patterns, ordered as `score` orders them. The
//! arithmetic that yields the error of one window is the caller's: it is
//! handed in as a function.

use vstd::prelude::*;
use vstd::arithmetic::div_mod::{lemma_div_denominator, lemma_div_is_ordered};
use vstd::arithmetic::mul::lemma_mul_inequality;
use vstd::slice::slice_subrange;
use crate::file::{vectors_view, BuildSettings, Segment};
use crate::score::{
    bits_greater, bits_is_finite, bits_minimum, greater, is_finite, is_nan, key, minimum,
    INFINITY_BITS,
};

verus! {

/// Where the query slice of the given index begins, in samples: the slices
/// sweep one frame of the resampled signal in `extra_offsets` equal steps.
pub open spec fn spec_query_offset(
    index: nat,
    sample_rate: nat,
    fft_size: nat,
    resample_rate: nat,
    extra_offsets: nat,
) -> nat {
    (index * sample_rate * fft_size / (resample_rate * extra_offsets)) as nat
}

/// The offsets do not decrease with the index.
pub proof fn query_offset_monotonic(
    i: nat,
    j: nat,
    sample_rate: nat,
    fft_size: nat,
    resample_rate: nat,
    extra_offsets: nat,
)
    requires
        i <= j,
        resample_rate > 0,
        extra_offsets > 0,
    ensures
        i * sample_rate <= j * sample_rate,
        i * sample_rate * fft_size <= j * sample_rate * fft_size,
        spec_query_offset(i, sample_rate, fft_size, resample_rate, extra_offsets)
            <= spec_query_offset(j, sample_rate, fft_size, resample_rate, extra_offsets),
{
    lemma_mul_inequality(i as int, j as int, sample_rate as int);
    lemma_mul_inequality((i * sample_rate) as int, (j * sample_rate) as int, fft_size as int);
    assert(resample_rate * extra_offsets > 0) by (nonlinear_arith)
        requires
            resample_rate > 0,
            extra_offsets > 0,
    ;
    assert(0 <= i * sample_rate * fft_size) by (nonlinear_arith);
    lemma_div_is_ordered(
        (i * sample_rate * fft_size) as int,
        (j * sample_rate * fft_size) as int,
        (resample_rate * extra_offsets) as int,
    );
}

/// Where the query slice of the given index begins, in samples of the
/// query at its own rate.
pub fn query_offset(
    index: usize,
    sample_rate: usize,
    build_settings: &BuildSettings,
    extra_offsets: usize,
) -> (offset: usize)
    requires
        build_settings.resample_rate > 0,
        extra_offsets > 0,
        index * sample_rate <= usize::MAX,
        index * sample_rate * build_settings.fft_size <= usize::MAX,
    ensures
        offset == spec_query_offset(
            index as nat,
            sample_rate as nat,
            build_settings.fft_size as nat,
            build_settings.resample_rate as nat,
            extra_offsets as nat,
        ),
{
    let scaled = index * sample_rate * (build_settings.fft_size as usize);
    proof {
        lemma_div_denominator(
            scaled as int,
            build_settings.resample_rate as int,
            extra_offsets as int,
        );
    }
    scaled / (build_settings.resample_rate as usize) / extra_offsets
}

/// The query slices: for each index from 0 to `extra_offsets`, the offset
/// and the samples from that offset to the end.
pub fn query_slices<'a>(
    samples: &'a [u32],
    sample_rate: usize,
    build_settings: &BuildSettings,
    extra_offsets: usize,
) -> (slices: Vec<(usize, &'a [u32])>)
    requires
        build_settings.resample_rate > 0,
        extra_offsets > 0,
        extra_offsets < usize::MAX,
        extra_offsets * sample_rate <= usize::MAX,
        extra_offsets * sample_rate * build_settings.fft_size <= usize::MAX,
        spec_query_offset(
            extra_offsets as nat,
            sample_rate as nat,
            build_settings.fft_size as nat,
            build_settings.resample_rate as nat,
            extra_offsets as nat,
        ) <= samples@.len(),
    ensures
        slices@.len() == extra_offsets + 1,
        forall|k: int|
            0 <= k <= extra_offsets ==> (#[trigger] slices@[k]).0 == spec_query_offset(
                k as nat,
                sample_rate as nat,
                build_settings.fft_size as nat,
                build_settings.resample_rate as nat,
                extra_offsets as nat,
            ) && slices@[k].1@ == samples@.skip(slices@[k].0 as int),
{
    let mut slices: Vec<(usize, &'a [u32])> = Vec::new();
    let mut index: usize = 0;
    while index <= extra_offsets
        invariant
            index <= extra_offsets + 1,
            build_settings.resample_rate > 0,
            extra_offsets > 0,
            extra_offsets < usize::MAX,
            extra_offsets * sample_rate <= usize::MAX,
            extra_offsets * sample_rate * build_settings.fft_size <= usize::MAX,
            spec_query_offset(
                extra_offsets as nat,
                sample_rate as nat,
                build_settings.fft_size as nat,
                build_settings.resample_rate as nat,
                extra_offsets as nat,
            ) <= samples@.len(),
            slices@.len() == index,
            forall|k: int|
                0 <= k < index ==> (#[trigger] slices@[k]).0 == spec_query_offset(
                    k as nat,
                    sample_rate as nat,
                    build_settings.fft_size as nat,
                    build_settings.resample_rate as nat,
                    extra_offsets as nat,
                ) && slices@[k].1@ == samples@.skip(slices@[k].0 as int),
        decreases extra_offsets + 1 - index,
    {
        proof {
            query_offset_monotonic(
                index as nat,
                extra_offsets as nat,
                sample_rate as nat,
                build_settings.fft_size as nat,
                build_settings.resample_rate as nat,
                extra_offsets as nat,
            );
        }
        let offset = query_offset(index, sample_rate, build_settings, extra_offsets);
        let slice = slice_subrange(samples, offset, samples.len());
        assert(slice@ =~= samples@.skip(offset as int));
        slices.push((offset, slice));
        index += 1;
    }
    slices
}

/// How many vectors a trim removes from the head of a segment of `len`
/// vectors: the trim, or all of them.
pub open spec fn trimmed_start(trim: nat, len: nat) -> nat {
    if trim <= len {
        trim
    } else {
        len
    }
}

/// The trims of the sweep: 0, `trim_step`, twice `trim_step` and so on, up
/// to `trim_size`.
pub fn segment_trims(trim_size: usize, trim_step: usize) -> (trims: Vec<usize>)
    requires
        trim_step > 0,
    ensures
        trims@.len() == trim_size / trim_step + 1,
        forall|k: int| 0 <= k < trims@.len() ==> #[trigger] trims@[k] == k * trim_step,
{
    let mut trims: Vec<usize> = Vec::new();
    let mut trim: usize = 0;
    assert(0 == 0 * trim_step) by (nonlinear_arith);
    loop
        invariant_except_break
            trim == trims@.len() * trim_step,
            forall|k: int| 0 <= k < trims@.len() ==> #[trigger] trims@[k] == k * trim_step,
        invariant
            trim_step > 0,
            trim <= trim_size,
        ensures
            trims@.len() == trim_size / trim_step + 1,
            forall|k: int| 0 <= k < trims@.len() ==> #[trigger] trims@[k] == k * trim_step,
        decreases trim_size - trim,
    {
        let ghost count = trims@.len() as int;
        trims.push(trim);
        if trim_size - trim < trim_step {
            proof {
                assert(trim_size / trim_step == count) by (nonlinear_arith)
                    requires
                        trim == count * trim_step,
                        trim <= trim_size,
                        trim_size - trim < trim_step,
                        trim_step > 0,
                        count >= 0,
                ;
            }
            break;
        }
        trim += trim_step;
        proof {
            assert((count + 1) * trim_step == count * trim_step + trim_step) by (nonlinear_arith);
        }
    }
    trims
}

/// A segment's vectors without the first `trim` of them, or without all of
/// them when it has fewer.
pub fn trim_segment<'a>(vectors: &'a [Vec<u32>], trim: usize) -> (trimmed: &'a [Vec<u32>])
    ensures
        trimmed@ == vectors@.skip(trimmed_start(trim as nat, vectors@.len()) as int),
{
    let start = if trim <= vectors.len() {
        trim
    } else {
        vectors.len()
    };
    let trimmed = slice_subrange(vectors, start, vectors.len());
    assert(trimmed@ =~= vectors@.skip(start as int));
    trimmed
}

/// Every segment of an index under one trim, in the index's order.
pub fn trim_segments<'a>(segments: &'a Vec<Segment>, trim: usize) -> (trimmed: Vec<&'a [Vec<u32>]>)
    ensures
        trimmed@.len() == segments@.len(),
        forall|i: int|
            0 <= i < segments@.len() ==> (#[trigger] trimmed@[i])@ == segments@[i].vectors@.skip(
                trimmed_start(trim as nat, segments@[i].vectors@.len()) as int,
            ),
{
    let mut trimmed: Vec<&'a [Vec<u32>]> = Vec::new();
    let mut i: usize = 0;
    while i < segments.len()
        invariant
            i <= segments@.len(),
            trimmed@.len() == i,
            forall|k: int|
                0 <= k < i ==> (#[trigger] trimmed@[k])@ == segments@[k].vectors@.skip(
                    trimmed_start(trim as nat, segments@[k].vectors@.len()) as int,
                ),
        decreases segments@.len() - i,
    {
        trimmed.push(trim_segment(segments[i].vectors.as_slice(), trim));
        i += 1;
    }
    trimmed
}

/// A column of `height` zeros.
pub open spec fn zero_column(height: nat) -> Seq<u32> {
    Seq::new(height, |i: int| 0u32)
}

/// A spectrogram with `padding` zero columns of the given height before
/// and after it.
pub open spec fn padded(spectrogram: Seq<Seq<u32>>, padding: nat, height: nat) -> Seq<Seq<u32>> {
    Seq::new(padding, |i: int| zero_column(height)) + spectrogram + Seq::new(
        padding,
        |i: int| zero_column(height),
    )
}

/// Puts `padding` zero columns of the given height before and after the
/// spectrogram, so that a segment may reach past the query's edges.
pub fn pad_spectrogram(spectrogram: Vec<Vec<u32>>, padding: usize, height: usize) -> (out: Vec<
    Vec<u32>,
>)
    ensures
        vectors_view(out@) == padded(vectors_view(spectrogram@), padding as nat, height as nat),
{
    let mut out: Vec<Vec<u32>> = Vec::new();
    let ghost zeros = zero_column(height as nat);
    let mut i: usize = 0;
    while i < padding
        invariant
            i <= padding,
            zeros == zero_column(height as nat),
            vectors_view(out@) == Seq::new(i as nat, |k: int| zeros),
        decreases padding - i,
    {
        let column = zero_vec(height);
        proof {
            lemma_view_push(out@, column);
            assert(Seq::new(i as nat, |k: int| zeros).push(zeros) =~= Seq::new(
                (i + 1) as nat,
                |k: int| zeros,
            ));
        }
        out.push(column);
        i += 1;
    }
    let mut spectrogram = spectrogram;
    proof {
        lemma_view_concat(out@, spectrogram@);
    }
    out.append(&mut spectrogram);
    let ghost middle = vectors_view(out@);
    let mut i: usize = 0;
    while i < padding
        invariant
            i <= padding,
            zeros == zero_column(height as nat),
            vectors_view(out@) == middle + Seq::new(i as nat, |k: int| zeros),
        decreases padding - i,
    {
        let column = zero_vec(height);
        proof {
            lemma_view_push(out@, column);
            assert((middle + Seq::new(i as nat, |k: int| zeros)).push(zeros) =~= middle + Seq::new(
                (i + 1) as nat,
                |k: int| zeros,
            ));
        }
        out.push(column);
        i += 1;
    }
    out
}

/// The view of a run of vectors grows with the run.
pub proof fn lemma_view_push(vectors: Seq<Vec<u32>>, last: Vec<u32>)
    ensures
        vectors_view(vectors.push(last)) == vectors_view(vectors).push(last@),
{
    assert(vectors_view(vectors.push(last)) =~= vectors_view(vectors).push(last@));
}

/// A vector of `height` zeros.
pub fn zero_vec(height: usize) -> (column: Vec<u32>)
    ensures
        column@ == zero_column(height as nat),
{
    let mut column: Vec<u32> = Vec::new();
    let mut i: usize = 0;
    while i < height
        invariant
            i <= height,
            column@ == zero_column(i as nat),
        decreases height - i,
    {
        column.push(0);
        i += 1;
        assert(column@ =~= zero_column(i as nat));
    }
    column
}

/// The view of two runs of vectors joined is the two views joined.
pub proof fn lemma_view_concat(first: Seq<Vec<u32>>, second: Seq<Vec<u32>>)
    ensures
        vectors_view(first + second) == vectors_view(first) + vectors_view(second),
{
    assert(vectors_view(first + second) =~= vectors_view(first) + vectors_view(second));
}

/// The least of the errors of a segment's windows: the minimum of
/// infinity and the errors, a NaN never being taken.
pub open spec fn least_error(errors: Seq<u32>) -> u32
    decreases errors.len(),
{
    if errors.len() == 0 {
        INFINITY_BITS
    } else {
        minimum(least_error(errors.drop_last()), errors.last())
    }
}

/// The least of the errors of a segment's windows; infinity when there is
/// no window, or none whose error is a number.
pub fn min_window_error(errors: &[u32]) -> (least: u32)
    ensures
        least == least_error(errors@),
{
    let mut least: u32 = INFINITY_BITS;
    let mut i: usize = 0;
    while i < errors.len()
        invariant
            i <= errors@.len(),
            least == least_error(errors@.take(i as int)),
        decreases errors@.len() - i,
    {
        least = bits_minimum(least, errors[i]);
        assert(errors@.take(i + 1).drop_last() =~= errors@.take(i as int));
        i += 1;
    }
    assert(errors@.take(i as int) =~= errors@);
    least
}

/// Whether a segment of `segment_len` vectors is compared at all: it has at
/// least `min_vectors` vectors and is not longer than the spectrogram.
pub open spec fn is_candidate(segment_len: nat, min_vectors: nat, spectrogram_len: nat) -> bool {
    min_vectors <= segment_len <= spectrogram_len
}

/// How many windows of `segment_len` columns a spectrogram holds.
pub open spec fn window_count(spectrogram_len: nat, segment_len: nat) -> nat {
    if segment_len <= spectrogram_len {
        (spectrogram_len - segment_len + 1) as nat
    } else {
        0
    }
}

/// What one segment adds to the scores: its index and least error if it is
/// a candidate and that error is not above `max_error`, else nothing.
pub open spec fn segment_score(
    index: nat,
    segment_len: nat,
    errors: Seq<u32>,
    min_vectors: nat,
    spectrogram_len: nat,
    max_error: u32,
) -> Seq<(usize, u32)> {
    if is_candidate(segment_len, min_vectors, spectrogram_len) && !greater(
        least_error(errors),
        max_error,
    ) {
        seq![(index as usize, least_error(errors))]
    } else {
        Seq::empty()
    }
}

/// The scores of a run of segments, given each segment's length and the
/// errors of its windows: what each segment adds, in the segments' order.
pub open spec fn scores_of(
    segment_lens: Seq<nat>,
    errors: Seq<Seq<u32>>,
    min_vectors: nat,
    spectrogram_len: nat,
    max_error: u32,
) -> Seq<(usize, u32)>
    decreases segment_lens.len(),
{
    if segment_lens.len() == 0 {
        Seq::empty()
    } else {
        scores_of(
            segment_lens.drop_last(),
            errors.drop_last(),
            min_vectors,
            spectrogram_len,
            max_error,
        ) + segment_score(
            (segment_lens.len() - 1) as nat,
            segment_lens.last(),
            errors.last(),
            min_vectors,
            spectrogram_len,
            max_error,
        )
    }
}

/// Lengths as natural numbers.
pub open spec fn lens_view(lens: Seq<usize>) -> Seq<nat> {
    Seq::new(lens.len(), |i: int| lens[i] as nat)
}

/// The scores of a run of segments, given each segment's length and the
/// errors of its windows: every segment that has at least `min_vectors`
/// vectors and is not longer than the spectrogram is recorded with the
/// least of its errors, unless that is above `max_error`.
pub fn select_scores(
    segment_lens: &[usize],
    errors: &[Vec<u32>],
    min_vectors: usize,
    spectrogram_len: usize,
    max_error: u32,
) -> (scores: Vec<(usize, u32)>)
    requires
        segment_lens@.len() == errors@.len(),
    ensures
        scores@ == scores_of(
            lens_view(segment_lens@),
            vectors_view(errors@),
            min_vectors as nat,
            spectrogram_len as nat,
            max_error,
        ),
{
    let ghost lens = lens_view(segment_lens@);
    let ghost all = vectors_view(errors@);
    let mut scores: Vec<(usize, u32)> = Vec::new();
    let mut index: usize = 0;
    assert(lens.take(0) =~= Seq::<nat>::empty());
    while index < segment_lens.len()
        invariant
            index <= segment_lens@.len(),
            segment_lens@.len() == errors@.len(),
            lens == lens_view(segment_lens@),
            all == vectors_view(errors@),
            scores@ == scores_of(
                lens.take(index as int),
                all.take(index as int),
                min_vectors as nat,
                spectrogram_len as nat,
                max_error,
            ),
        decreases segment_lens@.len() - index,
    {
        let len = segment_lens[index];
        let least = min_window_error(errors[index].as_slice());
        proof {
            assert(lens.take(index + 1).drop_last() =~= lens.take(index as int));
            assert(all.take(index + 1).drop_last() =~= all.take(index as int));
            assert(all.take(index + 1).last() == errors@[index as int]@);
        }
        if min_vectors <= len && len <= spectrogram_len && !bits_greater(least, max_error) {
            scores.push((index, least));
        }
        proof {
            assert(scores@ =~= scores_of(
                lens.take(index + 1),
                all.take(index + 1),
                min_vectors as nat,
                spectrogram_len as nat,
                max_error,
            ));
        }
        index += 1;
    }
    proof {
        assert(lens.take(index as int) =~= lens);
        assert(all.take(index as int) =~= all);
    }
    scores
}

/// The lengths of the segments.
pub open spec fn segment_lens(segments: Seq<&[Vec<u32>]>) -> Seq<nat> {
    Seq::new(segments.len(), |i: int| segments[i]@.len())
}

/// Whether `error` is what `window_error` may give for the window of the
/// spectrogram that starts at column `start` and is as long as `segment`.
pub open spec fn is_window_error<F: Fn(&[Vec<u32>], &[Vec<u32>]) -> u32>(
    window_error: F,
    spectrogram: Seq<Seq<u32>>,
    start: int,
    segment: &[Vec<u32>],
    error: u32,
) -> bool {
    exists|window: &[Vec<u32>]|
        vectors_view(window@) == spectrogram.subrange(start, start + segment@.len())
            && #[trigger] call_ensures(window_error, (window, segment), error)
}

/// Whether `errors` are what `window_error` may give for a segment: one
/// error for each whole window of the spectrogram if the segment is a
/// candidate, and none if it is not.
pub open spec fn are_window_errors<F: Fn(&[Vec<u32>], &[Vec<u32>]) -> u32>(
    window_error: F,
    spectrogram: Seq<Seq<u32>>,
    segment: &[Vec<u32>],
    min_vectors: nat,
    errors: Seq<u32>,
) -> bool {
    if is_candidate(segment@.len(), min_vectors, spectrogram.len()) {
        &&& errors.len() == window_count(spectrogram.len(), segment@.len())
        &&& forall|start: int|
            0 <= start < errors.len() ==> is_window_error(
                window_error,
                spectrogram,
                start,
                segment,
                #[trigger] errors[start],
            )
    } else {
        errors.len() == 0
    }
}

/// Whether `scores` are the scores of the segments on the spectrogram
/// `whole`, where `errors` holds for each segment the errors that
/// `window_error` gave for its windows.
pub open spec fn scores_from<F: Fn(&[Vec<u32>], &[Vec<u32>]) -> u32>(
    window_error: F,
    whole: Seq<Seq<u32>>,
    segments: Seq<&[Vec<u32>]>,
    min_vectors: nat,
    max_error: u32,
    errors: Seq<Seq<u32>>,
    scores: Seq<(usize, u32)>,
) -> bool {
    &&& errors.len() == segments.len()
    &&& forall|i: int|
        0 <= i < segments.len() ==> are_window_errors(
            window_error,
            whole,
            segments[i],
            min_vectors,
            #[trigger] errors[i],
        )
    &&& scores == scores_of(segment_lens(segments), errors, min_vectors, whole.len(), max_error)
}

/// Scores the segments against a query's spectrogram.
///
/// The spectrogram gets `spectrogram_padding` zero columns at both ends.
/// Every segment that has at least `min_vectors` vectors and is not longer
/// than the padded spectrogram is laid on each window of its own length;
/// `window_error` gives the error of the segment on one window. A segment
/// is recorded with the least of these errors unless that is above
/// `max_error`. The result holds the recorded segments in ascending order
/// of their indices.
pub fn get_error<F: Fn(&[Vec<u32>], &[Vec<u32>]) -> u32>(
    spectrogram: Vec<Vec<u32>>,
    build_settings: &BuildSettings,
    min_vectors: usize,
    segments: &[&[Vec<u32>]],
    spectrogram_padding: usize,
    max_error: u32,
    window_error: F,
) -> (scores: Vec<(usize, u32)>)
    requires
        spectrogram@.len() + 2 * spectrogram_padding <= usize::MAX,
        forall|window: &[Vec<u32>], segment: &[Vec<u32>]|
            window@.len() == segment@.len() ==> call_requires(window_error, (window, segment)),
    ensures
        exists|errors: Seq<Seq<u32>>| #[trigger]
            scores_from(
                window_error,
                padded(
                    vectors_view(spectrogram@),
                    spectrogram_padding as nat,
                    build_settings.spectrogram_height as nat,
                ),
                segments@,
                min_vectors as nat,
                max_error,
                errors,
                scores@,
            ),
{
    let ghost whole = padded(
        vectors_view(spectrogram@),
        spectrogram_padding as nat,
        build_settings.spectrogram_height as nat,
    );
    let columns = pad_spectrogram(
        spectrogram,
        spectrogram_padding,
        build_settings.spectrogram_height as usize,
    );
    let columns = columns.as_slice();
    let ghost lens = segment_lens(segments@);
    let ghost mut errors: Seq<Seq<u32>> = Seq::empty();
    let mut scores: Vec<(usize, u32)> = Vec::new();
    let mut index: usize = 0;
    assert(lens.take(0) =~= Seq::<nat>::empty());
    while index < segments.len()
        invariant
            index <= segments@.len(),
            lens == segment_lens(segments@),
            vectors_view(columns@) == whole,
            forall|window: &[Vec<u32>], segment: &[Vec<u32>]|
                window@.len() == segment@.len() ==> call_requires(
                    window_error,
                    (window, segment),
                ),
            errors.len() == index,
            forall|i: int|
                0 <= i < index ==> are_window_errors(
                    window_error,
                    whole,
                    segments@[i],
                    min_vectors as nat,
                    #[trigger] errors[i],
                ),
            scores@ == scores_of(
                lens.take(index as int),
                errors,
                min_vectors as nat,
                whole.len(),
                max_error,
            ),
        decreases segments@.len() - index,
    {
        let segment: &[Vec<u32>] = segments[index];
        let ghost mut window_errors: Seq<u32> = Seq::empty();
        let mut least: u32 = INFINITY_BITS;
        let candidate = segment.len() <= columns.len() && segment.len() >= min_vectors;
        if candidate {
            let last_start = columns.len() - segment.len();
            let mut start: usize = 0;
            loop
                invariant_except_break
                    window_errors.len() == start,
                invariant
                    start <= last_start,
                    segment@.len() <= columns@.len() <= usize::MAX,
                    last_start == columns@.len() - segment@.len(),
                    vectors_view(columns@) == whole,
                    forall|window: &[Vec<u32>], segment: &[Vec<u32>]|
                        window@.len() == segment@.len() ==> call_requires(
                            window_error,
                            (window, segment),
                        ),
                    least == least_error(window_errors),
                    forall|k: int|
                        0 <= k < window_errors.len() ==> is_window_error(
                            window_error,
                            whole,
                            k,
                            segment,
                            #[trigger] window_errors[k],
                        ),
                ensures
                    window_errors.len() == last_start + 1,
                decreases last_start - start,
            {
                let window = slice_subrange(columns, start, start + segment.len());
                let error = window_error(window, segment);
                proof {
                    assert(vectors_view(window@) =~= whole.subrange(
                        start as int,
                        start + segment@.len(),
                    ));
                    assert(window_errors.push(error).drop_last() =~= window_errors);
                    window_errors = window_errors.push(error);
                }
                least = bits_minimum(least, error);
                if start == last_start {
                    break;
                }
                start += 1;
            }
        }
        proof {
            assert(errors.push(window_errors).drop_last() =~= errors);
            assert(lens.take(index + 1).drop_last() =~= lens.take(index as int));
            errors = errors.push(window_errors);
        }
        if candidate && !bits_greater(least, max_error) {
            scores.push((index, least));
        }
        proof {
            assert(scores@ =~= scores_of(
                lens.take(index + 1),
                errors,
                min_vectors as nat,
                whole.len(),
                max_error,
            ));
        }
        index += 1;
    }
    proof {
        assert(lens.take(index as int) =~= lens);
        assert(scores_from(
            window_error,
            whole,
            segments@,
            min_vectors as nat,
            max_error,
            errors,
            scores@,
        ));
    }
    scores
}

/// What the scores hold: exactly the candidates whose least error is not
/// above `max_error`, each once with that error, in ascending order of
/// their indices.
pub proof fn scores_of_holds_candidates(
    segment_lens: Seq<nat>,
    errors: Seq<Seq<u32>>,
    min_vectors: nat,
    spectrogram_len: nat,
    max_error: u32,
)
    requires
        segment_lens.len() == errors.len(),
        segment_lens.len() <= usize::MAX,
    ensures
        ({
            let scores = scores_of(segment_lens, errors, min_vectors, spectrogram_len, max_error);
            &&& forall|k: int|
                0 <= k < scores.len() ==> {
                    let i = (#[trigger] scores[k]).0 as int;
                    &&& 0 <= i < segment_lens.len()
                    &&& is_candidate(segment_lens[i], min_vectors, spectrogram_len)
                    &&& scores[k].1 == least_error(errors[i])
                    &&& !greater(scores[k].1, max_error)
                }
            &&& forall|j: int, k: int|
                0 <= j < k < scores.len() ==> (#[trigger] scores[j]).0 < (#[trigger] scores[k]).0
            &&& forall|i: int|
                0 <= i < segment_lens.len() && is_candidate(
                    segment_lens[i],
                    min_vectors,
                    spectrogram_len,
                ) && !greater(least_error(#[trigger] errors[i]), max_error) ==> exists|k: int|
                    0 <= k < scores.len() && (#[trigger] scores[k]).0 == i
        }),
    decreases segment_lens.len(),
{
    if segment_lens.len() > 0 {
        let front_lens = segment_lens.drop_last();
        let front_errors = errors.drop_last();
        let front = scores_of(front_lens, front_errors, min_vectors, spectrogram_len, max_error);
        let last = (segment_lens.len() - 1) as int;
        let added = segment_score(
            last as nat,
            segment_lens.last(),
            errors.last(),
            min_vectors,
            spectrogram_len,
            max_error,
        );
        let scores = front + added;
        assert(scores == scores_of(segment_lens, errors, min_vectors, spectrogram_len, max_error));
        scores_of_holds_candidates(front_lens, front_errors, min_vectors, spectrogram_len, max_error);
        assert forall|k: int| 0 <= k < scores.len() implies {
            let i = (#[trigger] scores[k]).0 as int;
            &&& 0 <= i < segment_lens.len()
            &&& is_candidate(segment_lens[i], min_vectors, spectrogram_len)
            &&& scores[k].1 == least_error(errors[i])
            &&& !greater(scores[k].1, max_error)
        } by {
            if k < front.len() {
                assert(scores[k] == front[k]);
                let i = front[k].0 as int;
                assert(front_lens[i] == segment_lens[i]);
                assert(front_errors[i] == errors[i]);
            } else {
                assert(scores[k] == added[k - front.len()]);
            }
        }
        assert forall|j: int, k: int| 0 <= j < k < scores.len() implies (#[trigger] scores[j]).0 < (
        #[trigger] scores[k]).0 by {
            assert(scores[j] == front[j]);
            if k < front.len() {
                assert(scores[k] == front[k]);
            } else {
                assert(scores[k] == added[k - front.len()]);
            }
        }
        assert forall|i: int|
            0 <= i < segment_lens.len() && is_candidate(
                segment_lens[i],
                min_vectors,
                spectrogram_len,
            ) && !greater(least_error(#[trigger] errors[i]), max_error) implies exists|k: int|
            0 <= k < scores.len() && (#[trigger] scores[k]).0 == i by {
            if i < last {
                assert(front_lens[i] == segment_lens[i]);
                assert(front_errors[i] == errors[i]);
                let k = choose|k: int| 0 <= k < front.len() && (#[trigger] front[k]).0 == i;
                assert(scores[k] == front[k]);
            } else {
                assert(scores[front.len() as int] == added[0]);
            }
        }
    }
}

/// Where no segment is short enough for the spectrogram, nothing is scored:
/// a query shorter than every segment gives an empty result.
pub proof fn no_candidate_no_score(
    segment_lens: Seq<nat>,
    errors: Seq<Seq<u32>>,
    min_vectors: nat,
    spectrogram_len: nat,
    max_error: u32,
)
    requires
        forall|i: int| 0 <= i < segment_lens.len() ==> #[trigger] segment_lens[i] > spectrogram_len,
    ensures
        scores_of(segment_lens, errors, min_vectors, spectrogram_len, max_error).len() == 0,
    decreases segment_lens.len(),
{
    if segment_lens.len() > 0 {
        let front_lens = segment_lens.drop_last();
        assert forall|i: int| 0 <= i < front_lens.len() implies #[trigger] front_lens[i]
            > spectrogram_len by {
            assert(front_lens[i] == segment_lens[i]);
        }
        no_candidate_no_score(
            front_lens,
            errors.drop_last(),
            min_vectors,
            spectrogram_len,
            max_error,
        );
    }
}

/// A segment longer than the spectrogram is left out: it has no window,
/// and no score carries its index.
pub proof fn longer_segment_excluded<F: Fn(&[Vec<u32>], &[Vec<u32>]) -> u32>(
    window_error: F,
    whole: Seq<Seq<u32>>,
    segments: Seq<&[Vec<u32>]>,
    min_vectors: nat,
    max_error: u32,
    errors: Seq<Seq<u32>>,
    scores: Seq<(usize, u32)>,
    index: int,
)
    requires
        scores_from(window_error, whole, segments, min_vectors, max_error, errors, scores),
        segments.len() <= usize::MAX,
        0 <= index < segments.len(),
        segments[index]@.len() > whole.len(),
    ensures
        errors[index].len() == 0,
        forall|k: int| 0 <= k < scores.len() ==> (#[trigger] scores[k]).0 != index,
{
    scores_of_holds_candidates(segment_lens(segments), errors, min_vectors, whole.len(), max_error);
}

/// The errors before any task has reported: infinity for every segment.
pub fn initial_errors(segments: usize) -> (errors: Vec<u32>)
    ensures
        errors@ == Seq::new(segments as nat, |i: int| INFINITY_BITS),
{
    let mut errors: Vec<u32> = Vec::new();
    let mut i: usize = 0;
    while i < segments
        invariant
            i <= segments,
            errors@ == Seq::new(i as nat, |k: int| INFINITY_BITS),
        decreases segments - i,
    {
        errors.push(INFINITY_BITS);
        i += 1;
        assert(errors@ =~= Seq::new(i as nat, |k: int| INFINITY_BITS));
    }
    errors
}

/// The error of one segment after a task's scores have been merged in:
/// the minimum of its error before and of every score that the task
/// reports for it.
pub open spec fn merged_error(current: u32, scores: Seq<(usize, u32)>, index: int) -> u32
    decreases scores.len(),
{
    if scores.len() == 0 {
        current
    } else {
        let before = merged_error(current, scores.drop_last(), index);
        if scores.last().0 == index {
            minimum(before, scores.last().1)
        } else {
            before
        }
    }
}

/// The errors of all segments after a task's scores have been merged in.
pub open spec fn merged(errors: Seq<u32>, scores: Seq<(usize, u32)>) -> Seq<u32> {
    Seq::new(errors.len(), |i: int| merged_error(errors[i], scores, i))
}

/// Merges the scores of one task into the errors: each segment keeps the
/// minimum of its error and of the task's scores for it. A score for an
/// index that the errors do not have is passed over.
pub fn merge_errors(errors: &mut Vec<u32>, scores: &[(usize, u32)])
    ensures
        final(errors)@ == merged(old(errors)@, scores@),
{
    let mut k: usize = 0;
    assert(scores@.take(0) =~= Seq::<(usize, u32)>::empty());
    assert(errors@ =~= merged(old(errors)@, scores@.take(0)));
    while k < scores.len()
        invariant
            k <= scores@.len(),
            errors@ == merged(old(errors)@, scores@.take(k as int)),
        decreases scores@.len() - k,
    {
        let (index, error) = scores[k];
        proof {
            assert(scores@.take(k + 1).drop_last() =~= scores@.take(k as int));
            assert(scores@.take(k + 1).last() == scores@[k as int]);
        }
        if index < errors.len() {
            let least = bits_minimum(errors[index], error);
            errors.set(index, least);
        }
        assert(errors@ =~= merged(old(errors)@, scores@.take(k + 1)));
        k += 1;
    }
    assert(scores@.take(k as int) =~= scores@);
}

/// The bit pattern that the minimum never prefers: a NaN with every bit
/// set.
pub open spec fn never_least() -> u32 {
    0xFFFF_FFFFu32
}

/// Merging scores into an error is taking the minimum of the error and of
/// what the scores alone give.
pub proof fn lemma_merged_error_splits(current: u32, scores: Seq<(usize, u32)>, index: int)
    ensures
        merged_error(current, scores, index) == minimum(
            current,
            merged_error(never_least(), scores, index),
        ),
    decreases scores.len(),
{
    if scores.len() > 0 {
        lemma_merged_error_splits(current, scores.drop_last(), index);
    }
}

/// The reducer is commutative: merging the scores of two tasks gives the
/// same errors in either order, and so the same ranking.
pub proof fn merge_commutative(errors: Seq<u32>, first: Seq<(usize, u32)>, second: Seq<(usize, u32)>)
    ensures
        merged(merged(errors, first), second) == merged(merged(errors, second), first),
        ranking(merged(merged(errors, first), second)) == ranking(
            merged(merged(errors, second), first),
        ),
{
    let one = merged(merged(errors, first), second);
    let other = merged(merged(errors, second), first);
    assert forall|i: int| 0 <= i < errors.len() implies one[i] == other[i] by {
        let a = merged_error(never_least(), first, i);
        let b = merged_error(never_least(), second, i);
        lemma_merged_error_splits(errors[i], first, i);
        lemma_merged_error_splits(errors[i], second, i);
        lemma_merged_error_splits(minimum(errors[i], a), second, i);
        lemma_merged_error_splits(minimum(errors[i], b), first, i);
        assert(minimum(minimum(errors[i], a), b) == minimum(minimum(errors[i], b), a));
    }
    assert(one =~= other);
}

/// Where a new error goes into a ranking: behind every entry that is not
/// above it, so that of two equal errors the earlier segment stays first.
pub open spec fn insert_position(ranking: Seq<(usize, u32)>, error: u32) -> nat
    decreases ranking.len(),
{
    if ranking.len() == 0 {
        0
    } else if greater(ranking.last().1, error) {
        insert_position(ranking.drop_last(), error)
    } else {
        ranking.len()
    }
}

/// The ranking of the segments: the segments with a finite error, each
/// with its index, in ascending order of the errors; segments of equal
/// error stand in the order of their indices.
pub open spec fn ranking(errors: Seq<u32>) -> Seq<(usize, u32)>
    decreases errors.len(),
{
    if errors.len() == 0 {
        Seq::empty()
    } else {
        let before = ranking(errors.drop_last());
        if is_finite(errors.last()) {
            before.insert(
                insert_position(before, errors.last()) as int,
                ((errors.len() - 1) as usize, errors.last()),
            )
        } else {
            before
        }
    }
}

/// The first `n` entries of a ranking, or all of it when it has fewer.
pub open spec fn top(ranking: Seq<(usize, u32)>, n: nat) -> Seq<(usize, u32)> {
    if n < ranking.len() {
        ranking.take(n as int)
    } else {
        ranking
    }
}

/// Whether a ranking is in order: errors ascending, and indices ascending
/// among equal errors.
pub open spec fn in_order(ranking: Seq<(usize, u32)>) -> bool {
    forall|a: int, b: int|
        0 <= a < b < ranking.len() ==> key((#[trigger] ranking[a]).1) < key(
            (#[trigger] ranking[b]).1,
        ) || (key(ranking[a].1) == key(ranking[b].1) && ranking[a].0 < ranking[b].0)
}

/// Whether every entry of a ranking is a segment below `count` with its
/// finite error.
pub open spec fn entries_from(ranking: Seq<(usize, u32)>, errors: Seq<u32>, count: int) -> bool {
    forall|k: int|
        0 <= k < ranking.len() ==> {
            let i = (#[trigger] ranking[k]).0 as int;
            0 <= i < count && i < errors.len() && ranking[k].1 == errors[i] && is_finite(
                errors[i],
            )
        }
}

/// In an ordered ranking the position of a new error parts the entries
/// that are not above it from those that are.
proof fn lemma_insert_position(ranking: Seq<(usize, u32)>, error: u32)
    requires
        in_order(ranking),
        forall|k: int| 0 <= k < ranking.len() ==> !is_nan((#[trigger] ranking[k]).1),
        !is_nan(error),
    ensures
        insert_position(ranking, error) <= ranking.len(),
        forall|k: int|
            0 <= k < insert_position(ranking, error) ==> key((#[trigger] ranking[k]).1) <= key(
                error,
            ),
        forall|k: int|
            insert_position(ranking, error) <= k < ranking.len() ==> key(
                (#[trigger] ranking[k]).1,
            ) > key(error),
    decreases ranking.len(),
{
    if ranking.len() > 0 {
        let front = ranking.drop_last();
        let last = (ranking.len() - 1) as int;
        assert forall|a: int, b: int| 0 <= a < b < front.len() implies key(
            (#[trigger] front[a]).1,
        ) < key((#[trigger] front[b]).1) || (key(front[a].1) == key(front[b].1) && front[a].0
            < front[b].0) by {
            assert(front[a] == ranking[a]);
            assert(front[b] == ranking[b]);
        }
        assert forall|k: int| 0 <= k < front.len() implies !is_nan((#[trigger] front[k]).1) by {
            assert(front[k] == ranking[k]);
        }
        lemma_insert_position(front, error);
        if greater(ranking.last().1, error) {
            assert forall|k: int| 0 <= k < insert_position(ranking, error) implies key(
                (#[trigger] ranking[k]).1,
            ) <= key(error) by {
                assert(front[k] == ranking[k]);
            }
            assert forall|k: int|
                insert_position(ranking, error) <= k < ranking.len() implies key(
                (#[trigger] ranking[k]).1,
            ) > key(error) by {
                if k < last {
                    assert(front[k] == ranking[k]);
                }
            }
        } else {
            assert forall|k: int| 0 <= k < ranking.len() implies key((#[trigger] ranking[k]).1)
                <= key(error) by {
                if k < last {
                    assert(key(ranking[k].1) <= key(ranking[last].1));
                }
            }
        }
    }
}

/// What the ranking holds: exactly the segments with a finite error, each
/// once with its error, the errors ascending and segments of equal error in
/// the order of their indices.
pub proof fn ranking_is_ordered_and_complete(errors: Seq<u32>)
    requires
        errors.len() <= usize::MAX,
    ensures
        in_order(ranking(errors)),
        entries_from(ranking(errors), errors, errors.len() as int),
        ranking(errors).len() <= errors.len(),
        forall|i: int|
            0 <= i < errors.len() && is_finite(#[trigger] errors[i]) ==> exists|k: int|
                0 <= k < ranking(errors).len() && #[trigger] ranking(errors)[k] == (
                    i as usize,
                    errors[i],
                ),
    decreases errors.len(),
{
    if errors.len() > 0 {
        let front = errors.drop_last();
        let before = ranking(front);
        let last = (errors.len() - 1) as int;
        let error = errors.last();
        ranking_is_ordered_and_complete(front);
        assert forall|k: int| 0 <= k < before.len() implies !is_nan((#[trigger] before[k]).1)
            && (before[k].0 as int) < last && before[k].1 == errors[before[k].0 as int] by {
            assert(front[before[k].0 as int] == errors[before[k].0 as int]);
        }
        if is_finite(error) {
            lemma_insert_position(before, error);
            let p = insert_position(before, error) as int;
            let entry = (last as usize, error);
            let after = before.insert(p, entry);
            assert(after == ranking(errors));
            assert forall|a: int, b: int| 0 <= a < b < after.len() implies key(
                (#[trigger] after[a]).1,
            ) < key((#[trigger] after[b]).1) || (key(after[a].1) == key(after[b].1) && after[a].0
                < after[b].0) by {
                if b < p {
                    assert(after[a] == before[a] && after[b] == before[b]);
                } else if b == p {
                    assert(after[a] == before[a]);
                } else if a < p {
                    assert(after[a] == before[a] && after[b] == before[b - 1]);
                } else if a == p {
                    assert(after[b] == before[b - 1]);
                } else {
                    assert(after[a] == before[a - 1] && after[b] == before[b - 1]);
                }
            }
            assert forall|k: int| 0 <= k < after.len() implies {
                let i = (#[trigger] after[k]).0 as int;
                0 <= i < errors.len() && i < errors.len() && after[k].1 == errors[i] && is_finite(
                    errors[i],
                )
            } by {
                if k < p {
                    assert(after[k] == before[k]);
                } else if k > p {
                    assert(after[k] == before[k - 1]);
                }
            }
            assert forall|i: int| 0 <= i < errors.len() && is_finite(
                #[trigger] errors[i],
            ) implies exists|k: int|
                0 <= k < after.len() && #[trigger] after[k] == (i as usize, errors[i]) by {
                if i < last {
                    assert(front[i] == errors[i]);
                    let k = choose|k: int|
                        0 <= k < before.len() && #[trigger] before[k] == (i as usize, front[i]);
                    if k < p {
                        assert(after[k] == before[k]);
                    } else {
                        assert(after[k + 1] == before[k]);
                    }
                } else {
                    assert(after[p] == entry);
                }
            }
        } else {
            assert(before == ranking(errors));
            assert forall|i: int| 0 <= i < errors.len() && is_finite(
                #[trigger] errors[i],
            ) implies exists|k: int|
                0 <= k < before.len() && #[trigger] before[k] == (i as usize, errors[i]) by {
                assert(front[i] == errors[i]);
            }
        }
    }
}

/// Ranks the segments by their errors and keeps the best `n_results`:
/// the segments with a finite error, in ascending order of the errors,
/// segments of equal error in the order of their indices.
pub fn rank(errors: &[u32], n_results: usize) -> (best: Vec<(usize, u32)>)
    ensures
        best@ == top(ranking(errors@), n_results as nat),
{
    let mut best: Vec<(usize, u32)> = Vec::new();
    let mut i: usize = 0;
    assert(errors@.take(0) =~= Seq::<u32>::empty());
    while i < errors.len()
        invariant
            i <= errors@.len(),
            best@ == ranking(errors@.take(i as int)),
        decreases errors@.len() - i,
    {
        let error = errors[i];
        proof {
            assert(errors@.take(i + 1).drop_last() =~= errors@.take(i as int));
            assert(errors@.take(i + 1).last() == error);
        }
        if bits_is_finite(error) {
            let ghost before = best@;
            let mut position: usize = best.len();
            assert(before.take(position as int) =~= before);
            while position > 0 && bits_greater(best[position - 1].1, error)
                invariant
                    position <= before.len(),
                    best@ == before,
                    insert_position(before, error) == insert_position(
                        before.take(position as int),
                        error,
                    ),
                decreases position,
            {
                proof {
                    assert(before.take(position as int).drop_last() =~= before.take(
                        position - 1,
                    ));
                }
                position -= 1;
            }
            proof {
                if position > 0 {
                    assert(before.take(position as int).last() == before[position - 1]);
                }
                assert(before.take(before.len() as int) =~= before);
            }
            best.insert(position, (i, error));
        }
        i += 1;
    }
    assert(errors@.take(i as int) =~= errors@);
    best.truncate(n_results);
    best
}

} // verus!
