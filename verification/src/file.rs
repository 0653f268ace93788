//! The index file: the build parameters and the segments of a corpus, and
//! their byte layout.
//!
//! All integers are little-endian. The file starts with the seven build
//! parameters and the number of segments; each segment is the byte length of
//! its title, the title in UTF-8, the number of its vectors, and the vectors
//! one after another, each `spectrogram_height` words long. There is no magic
//! number, no checksum and no padding.

use vstd::prelude::*;
use vstd::string::StringSliceAdditionalSpecFns;
use vstd::utf8::{decode_utf8, encode_utf8, valid_utf8};
use vstd::utf8::{encode_utf8_decode_utf8, encode_utf8_valid_utf8};
use crate::bytes::{
    le_bytes, le_value, lemma_read_written_bytes, lemma_read_written_u32, len_word, read_exact,
    read_u32, spec_read_exact, spec_read_u32, write_all, write_len, write_u32,
};

verus! {

/// Why an index could not be read.
#[derive(Debug, Clone, Copy, PartialEq, Eq, Structural)]
pub enum Error {
    /// The bytes end before the index does.
    IndexTruncated,
    /// A title is not valid UTF-8.
    Utf8,
}

/// The parameters of the transform that an index was built with.
#[derive(Debug, Clone, Copy, PartialEq, Eq, Structural)]
pub struct BuildSettings {
    pub fft_size: u32,
    pub fft_overlap: u32,
    pub spectrogram_height: u32,
    pub spectrogram_max_frequency: u32,
    pub resample_rate: u32,
    pub resample_chunk_size: u32,
    pub resample_sub_chunks: u32,
}

impl BuildSettings {
    /// The invariants of the parameters: all positive, the overlap shorter
    /// than the frame, the frequency cutoff not above half the sample rate.
    pub open spec fn valid(self) -> bool {
        &&& self.fft_size > 0
        &&& self.fft_overlap > 0
        &&& self.spectrogram_height > 0
        &&& self.spectrogram_max_frequency > 0
        &&& self.resample_rate > 0
        &&& self.resample_chunk_size > 0
        &&& self.resample_sub_chunks > 0
        &&& self.fft_overlap < self.fft_size
        &&& self.spectrogram_max_frequency <= self.resample_rate / 2
    }

    /// The 28 bytes of the parameters in the file. The definition is
    /// hidden until it is revealed.
    #[verifier::opaque]
    pub open spec fn spec_bytes(self) -> Seq<u8> {
        le_bytes(self.fft_size) + le_bytes(self.fft_overlap) + le_bytes(self.spectrogram_height)
            + le_bytes(self.spectrogram_max_frequency) + le_bytes(self.resample_rate) + le_bytes(
            self.resample_chunk_size,
        ) + le_bytes(self.resample_sub_chunks)
    }

    /// What reading the parameters from `input` gives: the parameters and
    /// the bytes after them, or the error. The definition is hidden until
    /// it is revealed.
    #[verifier::opaque]
    pub open spec fn spec_read(input: Seq<u8>) -> Result<(BuildSettings, Seq<u8>), Error> {
        if input.len() < 28 {
            Err(Error::IndexTruncated)
        } else {
            Ok(
                (
                    BuildSettings {
                        fft_size: le_value(input),
                        fft_overlap: le_value(input.skip(4)),
                        spectrogram_height: le_value(input.skip(8)),
                        spectrogram_max_frequency: le_value(input.skip(12)),
                        resample_rate: le_value(input.skip(16)),
                        resample_chunk_size: le_value(input.skip(20)),
                        resample_sub_chunks: le_value(input.skip(24)),
                    },
                    input.skip(28),
                ),
            )
        }
    }

    /// Whether the parameters keep their invariants.
    pub fn is_valid(&self) -> (r: bool)
        ensures
            r == self.valid(),
    {
        self.fft_size > 0 && self.fft_overlap > 0 && self.spectrogram_height > 0
            && self.spectrogram_max_frequency > 0 && self.resample_rate > 0
            && self.resample_chunk_size > 0 && self.resample_sub_chunks > 0 && self.fft_overlap
            < self.fft_size && self.spectrogram_max_frequency <= self.resample_rate / 2
    }

    /// Appends the parameters to `buffer` in the file's layout.
    pub fn write_to(&self, buffer: &mut Vec<u8>) -> (r: Result<(), Error>)
        ensures
            r is Ok,
            final(buffer)@ == old(buffer)@ + self.spec_bytes(),
    {
        reveal(BuildSettings::spec_bytes);
        write_u32(buffer, self.fft_size);
        write_u32(buffer, self.fft_overlap);
        write_u32(buffer, self.spectrogram_height);
        write_u32(buffer, self.spectrogram_max_frequency);
        write_u32(buffer, self.resample_rate);
        write_u32(buffer, self.resample_chunk_size);
        write_u32(buffer, self.resample_sub_chunks);
        assert(buffer@ =~= old(buffer)@ + self.spec_bytes());
        Ok(())
    }

    /// Reads the parameters from the front of `reader`. When the bytes end
    /// too early, `reader` is left as it was.
    pub fn read_from(reader: &mut &[u8]) -> (r: Result<BuildSettings, Error>)
        ensures
            match BuildSettings::spec_read(old(reader)@) {
                Ok((settings, rest)) => r == Ok::<BuildSettings, Error>(settings)
                    && final(reader)@ == rest,
                Err(e) => r == Err::<BuildSettings, Error>(e) && final(reader)@ == old(reader)@,
            },
    {
        reveal(BuildSettings::spec_read);
        let mut cursor: &[u8] = *reader;
        if cursor.len() < 28 {
            return Err(Error::IndexTruncated);
        }
        let ghost input = cursor@;
        let fft_size = read_u32(&mut cursor).unwrap();
        let fft_overlap = read_u32(&mut cursor).unwrap();
        let spectrogram_height = read_u32(&mut cursor).unwrap();
        assert(cursor@ =~= input.skip(12));
        let spectrogram_max_frequency = read_u32(&mut cursor).unwrap();
        let resample_rate = read_u32(&mut cursor).unwrap();
        assert(cursor@ =~= input.skip(20));
        let resample_chunk_size = read_u32(&mut cursor).unwrap();
        let resample_sub_chunks = read_u32(&mut cursor).unwrap();
        assert(cursor@ =~= input.skip(28));
        *reader = cursor;
        Ok(
            BuildSettings {
                fft_size,
                fft_overlap,
                spectrogram_height,
                spectrogram_max_frequency,
                resample_rate,
                resample_chunk_size,
                resample_sub_chunks,
            },
        )
    }
}

/// One reference recording: its title and its vectors in time order. A
/// vector holds the bit patterns of binary32 values.
#[derive(Debug, Clone, PartialEq, Eq)]
pub struct Segment {
    pub title: String,
    pub vectors: Vec<Vec<u32>>,
}

/// A segment as plain values.
pub struct SegmentView {
    pub title: Seq<char>,
    pub vectors: Seq<Seq<u32>>,
}

/// The vectors of a segment as sequences of words.
pub open spec fn vectors_view(vectors: Seq<Vec<u32>>) -> Seq<Seq<u32>> {
    Seq::new(vectors.len(), |i: int| vectors[i]@)
}

impl View for Segment {
    type V = SegmentView;

    open spec fn view(&self) -> SegmentView {
        SegmentView { title: self.title@, vectors: vectors_view(self.vectors@) }
    }
}

/// The bytes of one vector: its words in order.
pub open spec fn values_bytes(values: Seq<u32>) -> Seq<u8>
    decreases values.len(),
{
    if values.len() == 0 {
        Seq::empty()
    } else {
        values_bytes(values.drop_last()) + le_bytes(values.last())
    }
}

/// The bytes of a run of vectors: the vectors in order.
pub open spec fn vectors_bytes(vectors: Seq<Seq<u32>>) -> Seq<u8>
    decreases vectors.len(),
{
    if vectors.len() == 0 {
        Seq::empty()
    } else {
        vectors_bytes(vectors.drop_last()) + values_bytes(vectors.last())
    }
}

/// What reading `n` words from `input` gives: the words and the bytes after
/// them, or nothing when the bytes end first.
pub open spec fn spec_read_values(input: Seq<u8>, n: nat) -> Option<(Seq<u32>, Seq<u8>)>
    decreases n,
{
    if n == 0 {
        Some((Seq::empty(), input))
    } else {
        match spec_read_values(input, (n - 1) as nat) {
            Some((values, rest)) => match spec_read_u32(rest) {
                Some((x, after)) => Some((values.push(x), after)),
                None => None,
            },
            None => None,
        }
    }
}

/// What reading `count` vectors of `height` words from `input` gives: the
/// vectors and the bytes after them, or nothing when the bytes end first.
pub open spec fn spec_read_vectors(input: Seq<u8>, count: nat, height: nat) -> Option<
    (Seq<Seq<u32>>, Seq<u8>),
>
    decreases count,
{
    if count == 0 {
        Some((Seq::empty(), input))
    } else {
        match spec_read_vectors(input, (count - 1) as nat, height) {
            Some((vectors, rest)) => match spec_read_values(rest, height) {
                Some((values, after)) => Some((vectors.push(values), after)),
                None => None,
            },
            None => None,
        }
    }
}

impl SegmentView {
    /// The title in UTF-8.
    pub open spec fn title_bytes(self) -> Seq<u8> {
        encode_utf8(self.title)
    }

    /// The bytes of the segment in the file. Lengths are stored reduced to
    /// 32 bits.
    pub open spec fn spec_bytes(self) -> Seq<u8> {
        le_bytes(len_word(self.title_bytes().len())) + self.title_bytes() + le_bytes(
            len_word(self.vectors.len()),
        ) + vectors_bytes(self.vectors)
    }

    /// Whether the segment can stand in an index of the given vector
    /// height: its lengths fit the 32-bit fields, and every vector has that
    /// height.
    pub open spec fn fits(self, height: nat) -> bool {
        &&& self.title_bytes().len() <= u32::MAX
        &&& self.vectors.len() <= u32::MAX
        &&& forall|i: int| 0 <= i < self.vectors.len() ==> (#[trigger] self.vectors[i]).len() == height
    }
}

/// `String::from_utf8`: a string comes back exactly when the bytes are valid
/// UTF-8, and it then holds the characters that they encode.
#[verifier::external_body]
fn string_from_utf8(bytes: Vec<u8>) -> (r: Option<String>)
    ensures
        r is Some <==> valid_utf8(bytes@),
        r is Some ==> r->0@ == decode_utf8(bytes@),
{
    String::from_utf8(bytes).ok()
}

/// Once the bytes have ended, a longer read ends too.
proof fn lemma_read_values_none(input: Seq<u8>, k: nat, n: nat)
    requires
        k <= n,
        spec_read_values(input, k) is None,
    ensures
        spec_read_values(input, n) is None,
    decreases n,
{
    if k < n {
        lemma_read_values_none(input, k, (n - 1) as nat);
    }
}

/// Once the bytes have ended, reading more vectors ends too.
proof fn lemma_read_vectors_none(input: Seq<u8>, k: nat, n: nat, height: nat)
    requires
        k <= n,
        spec_read_vectors(input, k, height) is None,
    ensures
        spec_read_vectors(input, n, height) is None,
    decreases n,
{
    if k < n {
        lemma_read_vectors_none(input, k, (n - 1) as nat, height);
    }
}

/// Reads `n` words from the front of `reader`, or nothing, leaving `reader`
/// as it was, when the bytes end first.
fn read_values(reader: &mut &[u8], n: u32) -> (r: Option<Vec<u32>>)
    ensures
        match spec_read_values(old(reader)@, n as nat) {
            Some((values, rest)) => r is Some && r->0@ == values && final(reader)@ == rest,
            None => r is None && final(reader)@ == old(reader)@,
        },
{
    let mut cursor: &[u8] = *reader;
    let mut values: Vec<u32> = Vec::new();
    let mut i: u32 = 0;
    while i < n
        invariant
            i <= n,
            reader@ == old(reader)@,
            spec_read_values(old(reader)@, i as nat) == Some((values@, cursor@)),
        decreases n - i,
    {
        match read_u32(&mut cursor) {
            Some(x) => {
                values.push(x);
            },
            None => {
                proof {
                    lemma_read_values_none(old(reader)@, (i + 1) as nat, n as nat);
                }
                return None;
            },
        }
        i += 1;
    }
    *reader = cursor;
    Some(values)
}

impl Segment {
    /// What reading a segment of the given vector height from `input` gives:
    /// the segment and the bytes after it, or the first error met.
    pub open spec fn spec_read(input: Seq<u8>, height: nat) -> Result<(SegmentView, Seq<u8>), Error> {
        match spec_read_u32(input) {
            None => Err(Error::IndexTruncated),
            Some((title_len, after_len)) => match spec_read_exact(after_len, title_len as nat) {
                None => Err(Error::IndexTruncated),
                Some((title_bytes, after_title)) => if !valid_utf8(title_bytes) {
                    Err(Error::Utf8)
                } else {
                    match spec_read_u32(after_title) {
                        None => Err(Error::IndexTruncated),
                        Some((count, after_count)) => match spec_read_vectors(
                            after_count,
                            count as nat,
                            height,
                        ) {
                            None => Err(Error::IndexTruncated),
                            Some((vectors, rest)) => Ok(
                                (SegmentView { title: decode_utf8(title_bytes), vectors }, rest),
                            ),
                        },
                    }
                },
            },
        }
    }

    /// Whether the segment can stand in an index of the given vector
    /// height.
    pub fn fits(&self, height: u32) -> (r: bool)
        ensures
            r == self@.fits(height as nat),
    {
        if self.title.as_str().as_bytes().len() > u32::MAX as usize || self.vectors.len()
            > u32::MAX as usize {
            return false;
        }
        let mut i: usize = 0;
        while i < self.vectors.len()
            invariant
                i <= self.vectors@.len(),
                forall|k: int| 0 <= k < i ==> (#[trigger] self@.vectors[k]).len() == height,
            decreases self.vectors@.len() - i,
        {
            if self.vectors[i].len() != height as usize {
                assert(self@.vectors[i as int].len() != height);
                return false;
            }
            i += 1;
        }
        true
    }

    /// Appends the segment to `buffer` in the file's layout.
    pub fn write_to(&self, buffer: &mut Vec<u8>) -> (r: Result<(), Error>)
        ensures
            r is Ok,
            final(buffer)@ == old(buffer)@ + self@.spec_bytes(),
    {
        let title = self.title.as_str().as_bytes();
        write_len(buffer, title.len());
        write_all(buffer, title);
        write_len(buffer, self.vectors.len());
        let ghost head = buffer@;
        let ghost vectors = self@.vectors;
        assert(head =~= old(buffer)@ + (le_bytes(len_word(self@.title_bytes().len()))
            + self@.title_bytes() + le_bytes(len_word(self@.vectors.len()))));
        let mut i: usize = 0;
        while i < self.vectors.len()
            invariant
                i <= self.vectors@.len(),
                vectors == self@.vectors,
                buffer@ == head + vectors_bytes(vectors.take(i as int)),
            decreases self.vectors@.len() - i,
        {
            let vector = &self.vectors[i];
            let ghost before = buffer@;
            let mut j: usize = 0;
            while j < vector.len()
                invariant
                    j <= vector@.len(),
                    buffer@ == before + values_bytes(vector@.take(j as int)),
                decreases vector@.len() - j,
            {
                write_u32(buffer, vector[j]);
                proof {
                    let next = vector@.take(j + 1);
                    assert(next.drop_last() =~= vector@.take(j as int));
                    assert(buffer@ =~= before + values_bytes(next));
                }
                j += 1;
            }
            proof {
                assert(vector@.take(j as int) =~= vector@);
                let next = vectors.take(i + 1);
                assert(next.drop_last() =~= vectors.take(i as int));
                assert(next.last() == vector@);
                assert(buffer@ =~= head + vectors_bytes(next));
            }
            i += 1;
        }
        proof {
            assert(vectors.take(i as int) =~= vectors);
            assert(buffer@ =~= old(buffer)@ + self@.spec_bytes());
        }
        Ok(())
    }

    /// Reads a segment whose vectors are `vector_length` words long from the
    /// front of `reader`. On an error `reader` is left as it was.
    pub fn read_from(reader: &mut &[u8], vector_length: u32) -> (r: Result<Segment, Error>)
        ensures
            match Segment::spec_read(old(reader)@, vector_length as nat) {
                Ok((segment, rest)) => r matches Ok(s) && s@ == segment && final(reader)@ == rest,
                Err(e) => r matches Err(f) && f == e && final(reader)@ == old(reader)@,
            },
            r matches Ok(s) ==> s@.fits(vector_length as nat),
    {
        let mut cursor: &[u8] = *reader;
        let title_length = match read_u32(&mut cursor) {
            Some(n) => n,
            None => {
                return Err(Error::IndexTruncated);
            },
        };
        let title_buf = match read_exact(&mut cursor, title_length as usize) {
            Some(bytes) => bytes,
            None => {
                return Err(Error::IndexTruncated);
            },
        };
        let ghost title_bytes = title_buf@;
        let title = match string_from_utf8(title_buf) {
            Some(title) => title,
            None => {
                return Err(Error::Utf8);
            },
        };
        let n_vectors = match read_u32(&mut cursor) {
            Some(n) => n,
            None => {
                return Err(Error::IndexTruncated);
            },
        };
        let ghost after_count = cursor@;
        let ghost height = vector_length as nat;
        assert(Segment::spec_read(old(reader)@, height) == match spec_read_vectors(
            after_count,
            n_vectors as nat,
            height,
        ) {
            None => Err::<(SegmentView, Seq<u8>), Error>(Error::IndexTruncated),
            Some((vectors, rest)) => Ok(
                (SegmentView { title: decode_utf8(title_bytes), vectors }, rest),
            ),
        });
        let mut vectors: Vec<Vec<u32>> = Vec::new();
        let mut i: u32 = 0;
        while i < n_vectors
            invariant
                i <= n_vectors,
                reader@ == old(reader)@,
                height == vector_length,
                Segment::spec_read(old(reader)@, height) == match spec_read_vectors(
                    after_count,
                    n_vectors as nat,
                    height,
                ) {
                    None => Err::<(SegmentView, Seq<u8>), Error>(Error::IndexTruncated),
                    Some((vectors, rest)) => Ok(
                        (SegmentView { title: decode_utf8(title_bytes), vectors }, rest),
                    ),
                },
                spec_read_vectors(after_count, i as nat, vector_length as nat) == Some(
                    (vectors_view(vectors@), cursor@),
                ),
                forall|k: int| 0 <= k < vectors@.len() ==> (#[trigger] vectors@[k])@.len() == vector_length,
                vectors@.len() == i,
            decreases n_vectors - i,
        {
            let ghost before = cursor@;
            match read_values(&mut cursor, vector_length) {
                Some(values) => {
                    proof {
                        lemma_read_values_len(before, height);
                        assert(vectors_view(vectors@.push(values)) =~= vectors_view(vectors@).push(
                            values@,
                        ));
                    }
                    vectors.push(values);
                },
                None => {
                    proof {
                        lemma_read_vectors_none(
                            after_count,
                            (i + 1) as nat,
                            n_vectors as nat,
                            vector_length as nat,
                        );
                    }
                    return Err(Error::IndexTruncated);
                },
            }
            i += 1;
        }
        *reader = cursor;
        let segment = Segment { title, vectors };
        proof {
            vstd::utf8::decode_utf8_encode_utf8(title_bytes);
            assert(segment@.title_bytes() == title_bytes);
            assert forall|k: int| 0 <= k < segment@.vectors.len() implies (
            #[trigger] segment@.vectors[k]).len() == vector_length by {
                assert(segment@.vectors[k] == vectors@[k]@);
            }
        }
        Ok(segment)
    }
}

/// Reading `n` words gives `n` words.
proof fn lemma_read_values_len(input: Seq<u8>, n: nat)
    ensures
        spec_read_values(input, n) matches Some((values, _)) ==> values.len() == n,
    decreases n,
{
    if n > 0 {
        lemma_read_values_len(input, (n - 1) as nat);
    }
}

/// An index: the build parameters and the segments, in the order in which
/// they stand in the file.
#[derive(Debug, Clone, PartialEq, Eq)]
pub struct File {
    pub build_settings: BuildSettings,
    pub segments: Vec<Segment>,
}

/// An index as plain values.
pub struct FileView {
    pub build_settings: BuildSettings,
    pub segments: Seq<SegmentView>,
}

/// The segments of an index as plain values.
pub open spec fn segments_view(segments: Seq<Segment>) -> Seq<SegmentView> {
    Seq::new(segments.len(), |i: int| segments[i]@)
}

impl View for File {
    type V = FileView;

    open spec fn view(&self) -> FileView {
        FileView { build_settings: self.build_settings, segments: segments_view(self.segments@) }
    }
}

/// The bytes of a run of segments: the segments in order.
pub open spec fn segments_bytes(segments: Seq<SegmentView>) -> Seq<u8>
    decreases segments.len(),
{
    if segments.len() == 0 {
        Seq::empty()
    } else {
        segments_bytes(segments.drop_last()) + segments.last().spec_bytes()
    }
}

/// What reading `count` segments of the given vector height from `input`
/// gives: the segments and the bytes after them, or the first error met.
pub open spec fn spec_read_segments(input: Seq<u8>, count: nat, height: nat) -> Result<
    (Seq<SegmentView>, Seq<u8>),
    Error,
>
    decreases count,
{
    if count == 0 {
        Ok((Seq::empty(), input))
    } else {
        match spec_read_segments(input, (count - 1) as nat, height) {
            Ok((segments, rest)) => match Segment::spec_read(rest, height) {
                Ok((segment, after)) => Ok((segments.push(segment), after)),
                Err(e) => Err(e),
            },
            Err(e) => Err(e),
        }
    }
}

impl FileView {
    /// The bytes of the index: the parameters, the number of segments, the
    /// segments.
    pub open spec fn spec_bytes(self) -> Seq<u8> {
        self.build_settings.spec_bytes() + le_bytes(len_word(self.segments.len()))
            + segments_bytes(self.segments)
    }

    /// Whether the index can be stored without loss: the number of segments
    /// fits its 32-bit field, and every segment fits the index's vector
    /// height.
    pub open spec fn storable(self) -> bool {
        &&& self.segments.len() <= u32::MAX
        &&& forall|i: int|
            0 <= i < self.segments.len() ==> (#[trigger] self.segments[i]).fits(
                self.build_settings.spectrogram_height as nat,
            )
    }

    /// The data model's invariants: valid parameters, and an index that can
    /// be stored without loss.
    pub open spec fn valid(self) -> bool {
        self.build_settings.valid() && self.storable()
    }
}

/// After an error, reading more segments gives the same error.
proof fn lemma_read_segments_err(input: Seq<u8>, k: nat, n: nat, height: nat)
    requires
        k <= n,
        spec_read_segments(input, k, height) is Err,
    ensures
        spec_read_segments(input, n, height) == spec_read_segments(input, k, height),
    decreases n,
{
    if k < n {
        lemma_read_segments_err(input, k, (n - 1) as nat, height);
    }
}

impl File {
    /// What reading an index from `input` gives: the index and the bytes
    /// after it, or the first error met.
    pub open spec fn spec_read(input: Seq<u8>) -> Result<(FileView, Seq<u8>), Error> {
        match BuildSettings::spec_read(input) {
            Err(e) => Err(e),
            Ok((build_settings, after_settings)) => match spec_read_u32(after_settings) {
                None => Err(Error::IndexTruncated),
                Some((count, after_count)) => match spec_read_segments(
                    after_count,
                    count as nat,
                    build_settings.spectrogram_height as nat,
                ) {
                    Err(e) => Err(e),
                    Ok((segments, rest)) => Ok((FileView { build_settings, segments }, rest)),
                },
            },
        }
    }

    /// Whether the index can be stored without loss.
    pub fn is_storable(&self) -> (r: bool)
        ensures
            r == self@.storable(),
    {
        if self.segments.len() > u32::MAX as usize {
            return false;
        }
        let mut i: usize = 0;
        while i < self.segments.len()
            invariant
                i <= self.segments@.len(),
                forall|k: int|
                    0 <= k < i ==> (#[trigger] self@.segments[k]).fits(
                        self.build_settings.spectrogram_height as nat,
                    ),
            decreases self.segments@.len() - i,
        {
            if !self.segments[i].fits(self.build_settings.spectrogram_height) {
                assert(!self@.segments[i as int].fits(
                    self.build_settings.spectrogram_height as nat,
                ));
                return false;
            }
            i += 1;
        }
        true
    }

    /// Appends the index to `buffer` in the file's layout.
    pub fn write_to(&self, buffer: &mut Vec<u8>) -> (r: Result<(), Error>)
        ensures
            r is Ok,
            final(buffer)@ == old(buffer)@ + self@.spec_bytes(),
    {
        let _ = self.build_settings.write_to(buffer);
        write_len(buffer, self.segments.len());
        let ghost head = buffer@;
        let ghost segments = self@.segments;
        assert(head =~= old(buffer)@ + (self.build_settings.spec_bytes() + le_bytes(
            len_word(segments.len()),
        )));
        let mut i: usize = 0;
        while i < self.segments.len()
            invariant
                i <= self.segments@.len(),
                segments == self@.segments,
                buffer@ == head + segments_bytes(segments.take(i as int)),
            decreases self.segments@.len() - i,
        {
            let _ = self.segments[i].write_to(buffer);
            proof {
                let next = segments.take(i + 1);
                assert(next.drop_last() =~= segments.take(i as int));
                assert(next.last() == self.segments@[i as int]@);
                assert(buffer@ =~= head + segments_bytes(next));
            }
            i += 1;
        }
        proof {
            assert(segments.take(i as int) =~= segments);
            assert(buffer@ =~= old(buffer)@ + self@.spec_bytes());
        }
        Ok(())
    }

    /// Reads an index from the front of `reader`; bytes after it are left in
    /// `reader`. On an error `reader` is left as it was.
    pub fn read_from(reader: &mut &[u8]) -> (r: Result<File, Error>)
        ensures
            match File::spec_read(old(reader)@) {
                Ok((file, rest)) => r matches Ok(f) && f@ == file && final(reader)@ == rest,
                Err(e) => r matches Err(f) && f == e && final(reader)@ == old(reader)@,
            },
            r matches Ok(f) ==> f@.storable(),
    {
        let mut cursor: &[u8] = *reader;
        let build_settings = match BuildSettings::read_from(&mut cursor) {
            Ok(settings) => settings,
            Err(e) => {
                return Err(e);
            },
        };
        let n_segments = match read_u32(&mut cursor) {
            Some(n) => n,
            None => {
                return Err(Error::IndexTruncated);
            },
        };
        let ghost after_count = cursor@;
        let ghost height = build_settings.spectrogram_height as nat;
        let mut segments: Vec<Segment> = Vec::new();
        assert(segments_view(segments@) =~= Seq::<SegmentView>::empty());
        let mut i: u32 = 0;
        while i < n_segments
            invariant
                i <= n_segments,
                reader@ == old(reader)@,
                height == build_settings.spectrogram_height,
                File::spec_read(old(reader)@) == match spec_read_segments(
                    after_count,
                    n_segments as nat,
                    height,
                ) {
                    Err(e) => Err::<(FileView, Seq<u8>), Error>(e),
                    Ok((segments, rest)) => Ok((FileView { build_settings, segments }, rest)),
                },
                spec_read_segments(after_count, i as nat, height) == Ok::<
                    (Seq<SegmentView>, Seq<u8>),
                    Error,
                >((segments_view(segments@), cursor@)),
                forall|k: int| 0 <= k < segments@.len() ==> (#[trigger] segments@[k])@.fits(height),
                segments@.len() == i,
            decreases n_segments - i,
        {
            match Segment::read_from(&mut cursor, build_settings.spectrogram_height) {
                Ok(segment) => {
                    proof {
                        assert(segments_view(segments@.push(segment)) =~= segments_view(
                            segments@,
                        ).push(segment@));
                    }
                    segments.push(segment);
                },
                Err(e) => {
                    proof {
                        lemma_read_segments_err(
                            after_count,
                            (i + 1) as nat,
                            n_segments as nat,
                            height,
                        );
                    }
                    return Err(e);
                },
            }
            i += 1;
        }
        *reader = cursor;
        let file = File { build_settings, segments };
        proof {
            assert forall|k: int| 0 <= k < file@.segments.len() implies (
            #[trigger] file@.segments[k]).fits(height) by {
                assert(file@.segments[k] == segments@[k]@);
            }
        }
        Ok(file)
    }
}

/// Where the word of index `j` begins in a run of words.
pub open spec fn word_offset(j: int) -> int {
    4 * j
}

/// Reading `n` words takes the first `4 * n` bytes: the word of index `j`
/// is the one at bytes `4 * j` to `4 * j + 3`, and the read gives nothing
/// exactly when fewer bytes are there.
pub proof fn read_values_takes_words_in_order(input: Seq<u8>, n: nat)
    ensures
        input.len() < 4 * n ==> spec_read_values(input, n) is None,
        input.len() >= 4 * n ==> spec_read_values(input, n) == Some(
            (
                Seq::new(n, |j: int| le_value(input.skip(word_offset(j)))),
                input.skip(word_offset(n as int)),
            ),
        ),
    decreases n,
{
    if n == 0 {
        assert(input.skip(0) =~= input);
        assert(Seq::new(0, |j: int| le_value(input.skip(word_offset(j)))) =~= Seq::<u32>::empty());
    } else {
        let before = (n - 1) as nat;
        read_values_takes_words_in_order(input, before);
        if input.len() >= 4 * n {
            let rest = input.skip(word_offset(before as int));
            assert(rest.skip(4) =~= input.skip(word_offset(n as int)));
            assert(Seq::new(before, |j: int| le_value(input.skip(word_offset(j)))).push(
                le_value(rest),
            ) =~= Seq::new(n, |j: int| le_value(input.skip(word_offset(j)))));
        }
    }
}

/// Where the vector of index `i` begins in a run of vectors of `height`
/// words.
pub open spec fn vector_offset(i: int, height: nat) -> int {
    4 * (i * height)
}

/// Reading `count` vectors of `height` words takes the first `4 * count *
/// height` bytes: the vectors stand one after another, and the read gives
/// nothing exactly when fewer bytes are there.
pub proof fn read_vectors_takes_vectors_in_order(input: Seq<u8>, count: nat, height: nat)
    ensures
        input.len() < vector_offset(count as int, height) ==> spec_read_vectors(
            input,
            count,
            height,
        ) is None,
        input.len() >= vector_offset(count as int, height) ==> spec_read_vectors(
            input,
            count,
            height,
        ) == Some(
            (
                Seq::new(
                    count,
                    |i: int|
                        Seq::new(
                            height,
                            |j: int|
                                le_value(
                                    input.skip(vector_offset(i, height)).skip(word_offset(j)),
                                ),
                        ),
                ),
                input.skip(vector_offset(count as int, height)),
            ),
        ),
    decreases count,
{
    let grid = |n: nat|
        Seq::new(
            n,
            |i: int|
                Seq::new(
                    height,
                    |j: int| le_value(input.skip(vector_offset(i, height)).skip(word_offset(j))),
                ),
        );
    assert(vector_offset(0, height) == 0) by (nonlinear_arith);
    if count == 0 {
        assert(input.skip(0) =~= input);
        assert(grid(0) =~= Seq::<Seq<u32>>::empty());
    } else {
        let before = (count - 1) as nat;
        read_vectors_takes_vectors_in_order(input, before, height);
        assert(vector_offset(count as int, height) == vector_offset(before as int, height) + 4
            * height) by (nonlinear_arith)
            requires
                before == count - 1,
        ;
        assert(vector_offset(before as int, height) >= 0) by (nonlinear_arith);
        if input.len() >= vector_offset(before as int, height) {
            let rest = input.skip(vector_offset(before as int, height));
            read_values_takes_words_in_order(rest, height);
            if input.len() >= vector_offset(count as int, height) {
                assert(rest.skip(word_offset(height as int)) =~= input.skip(
                    vector_offset(count as int, height),
                ));
                assert(grid(before).push(grid(count)[before as int]) =~= grid(count));
            }
        }
    }
}

/// The words of a vector are read back as they were written, whatever
/// follows them.
pub proof fn values_round_trip(values: Seq<u32>, rest: Seq<u8>)
    ensures
        spec_read_values(values_bytes(values) + rest, values.len()) == Some((values, rest)),
    decreases values.len(),
{
    if values.len() == 0 {
        assert(values_bytes(values) + rest =~= rest);
        assert(values =~= Seq::empty());
    } else {
        let front = values.drop_last();
        let tail = le_bytes(values.last()) + rest;
        assert(values_bytes(values) + rest =~= values_bytes(front) + tail);
        values_round_trip(front, tail);
        lemma_read_written_u32(values.last(), rest);
        assert(front.push(values.last()) =~= values);
    }
}

/// Vectors of one height are read back as they were written, whatever
/// follows them.
pub proof fn vectors_round_trip(vectors: Seq<Seq<u32>>, height: nat, rest: Seq<u8>)
    requires
        forall|i: int| 0 <= i < vectors.len() ==> (#[trigger] vectors[i]).len() == height,
    ensures
        spec_read_vectors(vectors_bytes(vectors) + rest, vectors.len(), height) == Some(
            (vectors, rest),
        ),
    decreases vectors.len(),
{
    if vectors.len() == 0 {
        assert(vectors_bytes(vectors) + rest =~= rest);
        assert(vectors =~= Seq::empty());
    } else {
        let front = vectors.drop_last();
        let tail = values_bytes(vectors.last()) + rest;
        assert(vectors_bytes(vectors) + rest =~= vectors_bytes(front) + tail);
        assert forall|i: int| 0 <= i < front.len() implies (#[trigger] front[i]).len()
            == height by {
            assert(front[i] == vectors[i]);
        }
        vectors_round_trip(front, height, tail);
        values_round_trip(vectors.last(), rest);
        assert(front.push(vectors.last()) =~= vectors);
    }
}

/// The build parameters are read back as they were written, whatever
/// follows them.
pub proof fn build_settings_round_trip(settings: BuildSettings, rest: Seq<u8>)
    ensures
        settings.spec_bytes().len() == 28,
        BuildSettings::spec_read(settings.spec_bytes() + rest) == Ok::<
            (BuildSettings, Seq<u8>),
            Error,
        >((settings, rest)),
{
    reveal(BuildSettings::spec_bytes);
    reveal(BuildSettings::spec_read);
    let input = settings.spec_bytes() + rest;
    let r6 = le_bytes(settings.resample_sub_chunks) + rest;
    let r5 = le_bytes(settings.resample_chunk_size) + r6;
    let r4 = le_bytes(settings.resample_rate) + r5;
    let r3 = le_bytes(settings.spectrogram_max_frequency) + r4;
    let r2 = le_bytes(settings.spectrogram_height) + r3;
    let r1 = le_bytes(settings.fft_overlap) + r2;
    assert(input =~= le_bytes(settings.fft_size) + r1);
    lemma_read_written_u32(settings.fft_size, r1);
    lemma_read_written_u32(settings.fft_overlap, r2);
    lemma_read_written_u32(settings.spectrogram_height, r3);
    lemma_read_written_u32(settings.spectrogram_max_frequency, r4);
    lemma_read_written_u32(settings.resample_rate, r5);
    lemma_read_written_u32(settings.resample_chunk_size, r6);
    lemma_read_written_u32(settings.resample_sub_chunks, rest);
    assert(input.skip(4) =~= r1);
    assert(input.skip(8) =~= r2);
    assert(input.skip(12) =~= r3);
    assert(input.skip(16) =~= r4);
    assert(input.skip(20) =~= r5);
    assert(input.skip(24) =~= r6);
    assert(input.skip(28) =~= rest);
}

/// Concatenation may be regrouped from the right.
proof fn lemma_regroup(a: Seq<u8>, b: Seq<u8>, c: Seq<u8>, d: Seq<u8>, rest: Seq<u8>)
    ensures
        a + b + c + d + rest == a + (b + (c + (d + rest))),
        a + b + c + rest == a + (b + (c + rest)),
{
    assert(a + b + c + d + rest =~= a + (b + (c + (d + rest))));
    assert(a + b + c + rest =~= a + (b + (c + rest)));
}

/// A segment that fits the vector height is read back as it was written:
/// the same title, the same words in the same vectors, and whatever followed
/// it left over.
pub proof fn segment_round_trip(segment: SegmentView, height: nat, rest: Seq<u8>)
    requires
        segment.fits(height),
    ensures
        Segment::spec_read(segment.spec_bytes() + rest, height) == Ok::<
            (SegmentView, Seq<u8>),
            Error,
        >((segment, rest)),
{
    let title_bytes = encode_utf8(segment.title);
    let title_len = title_bytes.len() as u32;
    let count = segment.vectors.len() as u32;
    let after_count = vectors_bytes(segment.vectors) + rest;
    let after_title = le_bytes(count) + after_count;
    let after_len = title_bytes + after_title;
    let input = segment.spec_bytes() + rest;
    assert(len_word(title_bytes.len()) == title_len);
    assert(len_word(segment.vectors.len()) == count);
    assert(input == le_bytes(title_len) + after_len) by {
        lemma_regroup(
            le_bytes(title_len),
            title_bytes,
            le_bytes(count),
            vectors_bytes(segment.vectors),
            rest,
        );
    }
    assert(spec_read_u32(input) == Some((title_len, after_len))) by {
        lemma_read_written_u32(title_len, after_len);
    }
    assert(spec_read_exact(after_len, title_len as nat) == Some((title_bytes, after_title))) by {
        lemma_read_written_bytes(title_bytes, after_title);
    }
    assert(valid_utf8(title_bytes)) by {
        encode_utf8_valid_utf8(segment.title);
    }
    assert(decode_utf8(title_bytes) == segment.title) by {
        encode_utf8_decode_utf8(segment.title);
    }
    assert(spec_read_u32(after_title) == Some((count, after_count))) by {
        lemma_read_written_u32(count, after_count);
    }
    assert(spec_read_vectors(after_count, count as nat, height) == Some((segment.vectors, rest)))
        by {
        vectors_round_trip(segment.vectors, height, rest);
    }
}

/// Segments that fit the vector height are read back as they were written,
/// whatever follows them.
pub proof fn segments_round_trip(segments: Seq<SegmentView>, height: nat, rest: Seq<u8>)
    requires
        forall|i: int| 0 <= i < segments.len() ==> (#[trigger] segments[i]).fits(height),
    ensures
        spec_read_segments(segments_bytes(segments) + rest, segments.len(), height) == Ok::<
            (Seq<SegmentView>, Seq<u8>),
            Error,
        >((segments, rest)),
    decreases segments.len(),
{
    if segments.len() == 0 {
        assert(segments_bytes(segments) + rest =~= rest);
        assert(segments =~= Seq::empty());
    } else {
        let front = segments.drop_last();
        let tail = segments.last().spec_bytes() + rest;
        assert(segments_bytes(segments) + rest =~= segments_bytes(front) + tail);
        assert forall|i: int| 0 <= i < front.len() implies (#[trigger] front[i]).fits(height) by {
            assert(front[i] == segments[i]);
        }
        segments_round_trip(front, height, tail);
        segment_round_trip(segments.last(), height, rest);
        assert(front.push(segments.last()) =~= segments);
    }
}

/// An index is read in three steps: the parameters, the number of
/// segments, the segments.
proof fn lemma_file_read_steps(
    input: Seq<u8>,
    file: FileView,
    after_settings: Seq<u8>,
    count: u32,
    after_count: Seq<u8>,
    rest: Seq<u8>,
)
    requires
        BuildSettings::spec_read(input) == Ok::<(BuildSettings, Seq<u8>), Error>(
            (file.build_settings, after_settings),
        ),
        spec_read_u32(after_settings) == Some((count, after_count)),
        spec_read_segments(
            after_count,
            count as nat,
            file.build_settings.spectrogram_height as nat,
        ) == Ok::<(Seq<SegmentView>, Seq<u8>), Error>((file.segments, rest)),
    ensures
        File::spec_read(input) == Ok::<(FileView, Seq<u8>), Error>((file, rest)),
{
}

/// Reading what was written gives the index back: for every index that can
/// be stored without loss, reading its bytes yields the same parameters and
/// the same segments in the same order, and leaves what followed them.
pub proof fn file_round_trip(file: FileView, rest: Seq<u8>)
    requires
        file.storable(),
    ensures
        File::spec_read(file.spec_bytes() + rest) == Ok::<(FileView, Seq<u8>), Error>(
            (file, rest),
        ),
{
    let height = file.build_settings.spectrogram_height as nat;
    let count = file.segments.len() as u32;
    let after_count = segments_bytes(file.segments) + rest;
    let after_settings = le_bytes(count) + after_count;
    let input = file.build_settings.spec_bytes() + after_settings;
    assert(len_word(file.segments.len()) == count);
    lemma_regroup(
        file.build_settings.spec_bytes(),
        le_bytes(count),
        segments_bytes(file.segments),
        Seq::empty(),
        rest,
    );
    assert(file.spec_bytes() + rest == input);
    build_settings_round_trip(file.build_settings, after_settings);
    lemma_read_written_u32(count, after_count);
    segments_round_trip(file.segments, height, rest);
    lemma_file_read_steps(input, file, after_settings, count, after_count, rest);
}

} // verus!
