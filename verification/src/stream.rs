use crate::layout::chunk_count;
use crate::layout::chunk_range;
use crate::layout::chunk_size;
use crate::layout::dense_layer_floats;
use crate::layout::dense_total_bytes;
use crate::layout::div_ceil;
use crate::layout::law_chunks_tile;
use crate::layout::law_offsets_adjoin;
use crate::layout::layer_bytes;
use crate::layout::layer_floats;
use crate::layout::lemma_chunk_count;
use crate::layout::scaled_bytes;
use crate::layout::LayoutError;
use crate::layout::FLOAT_BYTES;
use vstd::prelude::*;

verus! {

/// How a weight file is worked through: chunk by chunk, each of the same
/// number of layers, the last perhaps of fewer.
#[derive(Clone, Copy, Debug, PartialEq, Eq, Structural)]
pub struct Stream {
    pub layers: u64,
    pub chunk_layers: usize,
    pub width: usize,
}

/// Why a weight file cannot be worked through.
#[derive(Clone, Copy, Debug, PartialEq, Eq, Structural)]
pub enum StreamError {
    /// A chunk has no layers.
    EmptyChunk,
    /// The layers have no width.
    NoWidth,
    /// The parameters of a layer, or of a chunk, or the chunks number more
    /// than `usize` holds.
    TooLarge,
    /// The file is too long.
    Layout(LayoutError),
}

/// Where a chunk lies.
#[derive(Clone, Copy, Debug, PartialEq, Eq, Structural)]
pub struct Span {
    /// Its first layer.
    pub start_layer: u64,
    /// How many layers it has.
    pub count: usize,
    /// How many parameters it has.
    pub floats: usize,
    /// The position in the file at which it starts.
    pub offset: u64,
}

impl Stream {
    /// How many chunks there are.
    pub open spec fn chunks(self) -> int {
        chunk_count(self.layers as int, self.chunk_layers as int)
    }

    /// Parameters of one layer.
    pub open spec fn size(self) -> int {
        layer_floats(self.width as int)
    }

    /// Layers of the largest chunk.
    pub open spec fn largest(self) -> int {
        if self.layers < self.chunk_layers {
            self.layers as int
        } else {
            self.chunk_layers as int
        }
    }

    /// Every chunk can be counted, and found in a file.
    pub open spec fn wf(self) -> bool {
        &&& 0 < self.chunk_layers
        &&& 0 < self.width
        &&& self.size() <= usize::MAX
        &&& layer_bytes(self.width as int) <= usize::MAX
        &&& self.layers * layer_bytes(self.width as int) <= u64::MAX
        &&& self.largest() * self.size() <= usize::MAX
        &&& self.chunks() <= usize::MAX
    }

    /// Where chunk `k` lies.
    pub open spec fn span_of(self, k: int) -> Span {
        let start = k * self.chunk_layers;
        let count = chunk_size(k, self.layers as int, self.chunk_layers as int);
        Span {
            start_layer: start as u64,
            count: count as usize,
            floats: (count * self.size()) as usize,
            offset: (start * layer_bytes(self.width as int)) as u64,
        }
    }

    /// The way through a file of `layers` layers of width `width`, in chunks of
    /// `chunk_layers`.
    pub fn new(layers: u64, chunk_layers: usize, width: usize) -> (r: Result<Stream, StreamError>)
        ensures
            ({
                let s = Stream { layers, chunk_layers, width };
                match r {
                    Ok(stream) => stream == s && s.wf(),
                    Err(StreamError::EmptyChunk) => chunk_layers == 0,
                    Err(StreamError::NoWidth) => chunk_layers > 0 && width == 0,
                    Err(StreamError::Layout(e)) => {
                        &&& chunk_layers > 0
                        &&& width > 0
                        &&& s.size() <= usize::MAX
                        &&& scaled_bytes(layers, width, LayoutError::TotalBytes) == Err::<
                            u64,
                            LayoutError,
                        >(e)
                    },
                    Err(StreamError::TooLarge) => {
                        &&& chunk_layers > 0
                        &&& width > 0
                        &&& s.size() > usize::MAX || {
                            &&& scaled_bytes(layers, width, LayoutError::TotalBytes) is Ok
                            &&& s.largest() * s.size() > usize::MAX || s.chunks() > usize::MAX
                        }
                    },
                }
            }),
    {
        if chunk_layers == 0 {
            return Err(StreamError::EmptyChunk);
        }
        if width == 0 {
            return Err(StreamError::NoWidth);
        }
        let ghost s = Stream { layers, chunk_layers, width };
        proof {
            assert(width as int * width >= 0) by (nonlinear_arith);
        }
        let square: usize = match width.checked_mul(width) {
            Some(square) => square,
            None => {
                return Err(StreamError::TooLarge);
            },
        };
        if square > usize::MAX - width {
            return Err(StreamError::TooLarge);
        }
        let size: usize = dense_layer_floats(width);
        match dense_total_bytes(layers, width) {
            Ok(_) => {},
            Err(e) => {
                return Err(StreamError::Layout(e));
            },
        }
        let largest: usize = if layers < chunk_layers as u64 {
            layers as usize
        } else {
            chunk_layers
        };
        if largest.checked_mul(size).is_none() {
            return Err(StreamError::TooLarge);
        }
        if div_ceil(layers, chunk_layers as u64) > usize::MAX as u64 {
            return Err(StreamError::TooLarge);
        }
        Ok(Stream { layers, chunk_layers, width })
    }

    /// How many chunks there are.
    pub fn count(&self) -> (n: usize)
        requires
            self.wf(),
        ensures
            n == self.chunks(),
    {
        div_ceil(self.layers, self.chunk_layers as u64) as usize
    }

    /// A chunk lies within the file.
    pub proof fn lemma_span(self, k: int)
        requires
            self.wf(),
            0 <= k < self.chunks(),
        ensures
            self.span_of(k).start_layer == k * self.chunk_layers,
            self.span_of(k).count == chunk_size(k, self.layers as int, self.chunk_layers as int),
            self.span_of(k).floats == self.span_of(k).count * self.size(),
            self.span_of(k).offset == k * self.chunk_layers * layer_bytes(self.width as int),
            0 < self.span_of(k).count,
            self.span_of(k).start_layer + self.span_of(k).count <= self.layers,
            0 < self.size(),
    {
        law_chunks_tile(self.layers as int, self.chunk_layers as int, k);
        let start = k * self.chunk_layers;
        let count = chunk_size(k, self.layers as int, self.chunk_layers as int);
        if k + 1 < self.chunks() {
            law_chunks_tile(self.layers as int, self.chunk_layers as int, k + 1);
        }
        assert(0 < self.size()) by (nonlinear_arith)
            requires
                self.size() == self.width * self.width + self.width,
                self.width > 0,
        ;
        assert(0 <= count * self.size() <= self.largest() * self.size()) by (nonlinear_arith)
            requires
                0 <= count <= self.largest(),
                0 < self.size(),
        ;
        assert(0 <= start * layer_bytes(self.width as int) <= self.layers * layer_bytes(
            self.width as int,
        )) by (nonlinear_arith)
            requires
                0 <= start <= self.layers,
                0 < layer_bytes(self.width as int),
        ;
    }

    /// Where chunk `k` lies.
    pub fn span(&self, k: usize) -> (span: Span)
        requires
            self.wf(),
            k < self.chunks(),
        ensures
            span == self.span_of(k as int),
            span.start_layer == k * self.chunk_layers,
            span.count == self.chunk_layers || span.start_layer + span.count == self.layers,
            span.count <= self.chunk_layers,
            span.start_layer + span.count <= self.layers,
            span.floats == span.count * (self.width * self.width + self.width),
            span.offset == span.start_layer * (4 * (self.width * self.width + self.width)),
    {
        proof {
            self.lemma_span(k as int);
        }
        let (start_layer, count) = chunk_range(k, self.layers, self.chunk_layers);
        let size: usize = dense_layer_floats(self.width);
        let bytes: u64 = (size * FLOAT_BYTES) as u64;
        Span { start_layer, count, floats: count * size, offset: start_layer * bytes }
    }
}

/// A file can be worked through if and only if its chunks and layers are not empty, and
/// the bytes of a layer and of the file, the parameters of the largest chunk, and the
/// chunks can be counted. The largest chunk has as many layers as asked for, or as many
/// as there are where these are fewer.
pub proof fn law_what_a_stream_takes(s: Stream)
    ensures
        s.size() == s.width * s.width + s.width,
        s.largest() <= s.layers,
        s.largest() <= s.chunk_layers,
        s.largest() == s.layers || s.largest() == s.chunk_layers,
        s.wf() <==> {
            let size = s.width * s.width + s.width;
            &&& 0 < s.chunk_layers
            &&& 0 < s.width
            &&& 4 * size <= usize::MAX
            &&& s.layers * (4 * size) <= u64::MAX
            &&& s.largest() * size <= usize::MAX
            &&& chunk_count(s.layers as int, s.chunk_layers as int) <= usize::MAX
        },
{
    assert(0 <= s.width * s.width) by (nonlinear_arith);
}

/// The chunks of a file adjoin: the first starts at its first byte, each where
/// the one before ends, and the last ends at its last byte.
pub proof fn law_spans_tile_the_file(s: Stream, k: int)
    requires
        s.wf(),
        0 <= k < s.chunks(),
    ensures
        s.span_of(0).offset == 0,
        k + 1 < s.chunks() ==> s.span_of(k).offset + FLOAT_BYTES * s.span_of(k).floats
            == s.span_of(k + 1).offset,
        k + 1 == s.chunks() ==> s.span_of(k).offset + FLOAT_BYTES * s.span_of(k).floats == s.layers
            * layer_bytes(s.width as int),
{
    s.lemma_span(0);
    s.lemma_span(k);
    law_chunks_tile(s.layers as int, s.chunk_layers as int, k);
    law_offsets_adjoin(
        k * s.chunk_layers,
        chunk_size(k, s.layers as int, s.chunk_layers as int),
        s.width as int,
    );
    if k + 1 < s.chunks() {
        s.lemma_span(k + 1);
    }
}

/// Bytes of the first `k` chunks together.
pub open spec fn bytes_of_chunks(s: Stream, k: int) -> int
    decreases k,
{
    if k <= 0 {
        0
    } else {
        bytes_of_chunks(s, k - 1) + FLOAT_BYTES * s.span_of(k - 1).floats
    }
}

/// A pass over all chunks moves the whole file, each byte once: after `k` chunks
/// it stands where chunk `k` starts, and in the end at the end of the file.
pub proof fn law_pass_moves_the_whole_file(s: Stream, k: int)
    requires
        s.wf(),
        0 <= k <= s.chunks(),
    ensures
        k < s.chunks() ==> bytes_of_chunks(s, k) == s.span_of(k).offset,
        k == s.chunks() ==> bytes_of_chunks(s, k) == s.layers * layer_bytes(s.width as int),
    decreases k,
{
    if k > 0 {
        law_pass_moves_the_whole_file(s, k - 1);
        law_spans_tile_the_file(s, k - 1);
    } else if s.chunks() > 0 {
        law_spans_tile_the_file(s, 0);
    } else {
        lemma_chunk_count(s.layers as int, s.chunk_layers as int);
    }
}

/// Numbers of the first `k` chunks together.
pub open spec fn numbers_of_chunks(s: Stream, k: int) -> int
    decreases k,
{
    if k <= 0 {
        0
    } else {
        numbers_of_chunks(s, k - 1) + s.span_of(k - 1).floats
    }
}

/// A file of numbers after `part` was written at number `at`.
pub open spec fn overwritten<T>(file: Seq<T>, at: int, part: Seq<T>) -> Seq<T> {
    file.take(at) + part + file.skip(at + part.len())
}

/// A file of numbers after the first `k` chunks were written, each with as many
/// of the numbers `drawn` as it holds, from where the chunk before left off.
pub open spec fn written_chunks<T>(s: Stream, file: Seq<T>, drawn: Seq<T>, k: int) -> Seq<T>
    decreases k,
{
    if k <= 0 {
        file
    } else {
        overwritten(
            written_chunks(s, file, drawn, k - 1),
            s.span_of(k - 1).offset as int / FLOAT_BYTES as int,
            drawn.subrange(numbers_of_chunks(s, k - 1), numbers_of_chunks(s, k)),
        )
    }
}

/// As many numbers are drawn as bytes are moved.
proof fn lemma_numbers_of_chunks(s: Stream, k: int)
    ensures
        bytes_of_chunks(s, k) == FLOAT_BYTES * numbers_of_chunks(s, k),
    decreases k,
{
    if k > 0 {
        lemma_numbers_of_chunks(s, k - 1);
    }
}

/// What is written after `k` chunks.
proof fn lemma_written_chunks<T>(s: Stream, file: Seq<T>, drawn: Seq<T>, k: int)
    requires
        s.wf(),
        0 <= k <= s.chunks(),
        file.len() == s.layers * s.size(),
        drawn.len() == file.len(),
    ensures
        0 <= numbers_of_chunks(s, k) <= file.len(),
        k == s.chunks() ==> numbers_of_chunks(s, k) == file.len(),
        written_chunks(s, file, drawn, k) == drawn.take(numbers_of_chunks(s, k)) + file.skip(
            numbers_of_chunks(s, k),
        ),
    decreases k,
{
    let total = s.layers * layer_bytes(s.width as int);
    assert(total == FLOAT_BYTES * (s.layers * s.size())) by (nonlinear_arith)
        requires
            total == s.layers * (FLOAT_BYTES * s.size()),
    ;
    lemma_numbers_of_chunks(s, k);
    law_pass_moves_the_whole_file(s, k);
    if k < s.chunks() {
        s.lemma_span(k);
        law_spans_tile_the_file(s, k);
        lemma_span_ends(s, k);
    }
    if k > 0 {
        lemma_written_chunks(s, file, drawn, k - 1);
        lemma_numbers_of_chunks(s, k - 1);
        law_pass_moves_the_whole_file(s, k - 1);
        s.lemma_span(k - 1);
        let a = numbers_of_chunks(s, k - 1);
        let b = numbers_of_chunks(s, k);
        assert(s.span_of(k - 1).offset as int / FLOAT_BYTES as int == a);
        let before = drawn.take(a) + file.skip(a);
        assert(overwritten(before, a, drawn.subrange(a, b)) =~= drawn.take(b) + file.skip(b));
    } else {
        assert(drawn.take(0) + file.skip(0) =~= file);
    }
}

/// A chunk starts within the file.
proof fn lemma_span_ends(s: Stream, k: int)
    requires
        s.wf(),
        0 <= k < s.chunks(),
    ensures
        s.span_of(k).offset <= s.layers * layer_bytes(s.width as int),
{
    s.lemma_span(k);
    let start = k * s.chunk_layers;
    let bytes = layer_bytes(s.width as int);
    assert(start * bytes <= s.layers * bytes) by (nonlinear_arith)
        requires
            start <= s.layers,
            0 <= bytes,
    ;
}

/// A file that is filled with numbers as they are drawn holds those numbers, in
/// the order drawn, whatever the size of the chunks and whatever it held before.
pub proof fn law_file_holds_the_draws<T>(s: Stream, file: Seq<T>, drawn: Seq<T>)
    requires
        s.wf(),
        file.len() == s.layers * s.size(),
        drawn.len() == file.len(),
    ensures
        written_chunks(s, file, drawn, s.chunks()) == drawn,
        numbers_of_chunks(s, s.chunks()) == drawn.len(),
{
    lemma_chunk_count(s.layers as int, s.chunk_layers as int);
    lemma_written_chunks(s, file, drawn, s.chunks());
    assert(drawn.take(drawn.len() as int) + file.skip(file.len() as int) =~= drawn);
}

} // verus!
