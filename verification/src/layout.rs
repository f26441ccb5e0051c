use vstd::arithmetic::div_mod::lemma_fundamental_div_mod;
use vstd::prelude::*;

verus! {

/// Pixels of one image.
pub const INPUTS: usize = 784;

/// Rows, and columns, of one image.
pub const SIDE: usize = 28;

/// Classes that the network tells apart.
pub const CLASSES: usize = 10;

/// Width of the narrow network.
pub const WIDTH: usize = 2;

/// Parameters of one layer of the narrow network.
pub const LAYER_FLOATS: usize = 6;

/// Bytes of one layer of the narrow network.
pub const LAYER_BYTES: u64 = 24;

/// Bytes of one stored number.
pub const FLOAT_BYTES: usize = 4;

/// The largest width that a dense network may have.
pub const MAX_WIDTH: usize = 512;

/// Why the size of a weight file is refused.
#[derive(Clone, Copy, Debug, PartialEq, Eq, Structural)]
pub enum LayoutError {
    /// One dense layer takes more bytes than `usize` holds.
    LayerBytes,
    /// The weight file would be longer than `u64` holds.
    TotalBytes,
    /// The weights number more than `u64` holds.
    TotalFloats,
    /// The weights number more than `usize` holds.
    MemoryFloats,
    /// The layer starts beyond what `u64` holds.
    Offset,
    /// The file has another length than its layers take.
    Length { actual: u64, expected: u64 },
}

/// Why a width is refused.
#[derive(Clone, Copy, Debug, PartialEq, Eq, Structural)]
pub enum WidthError {
    Zero,
    TooLarge,
}

/// Parameters of one dense layer: a square matrix and a bias.
pub open spec fn layer_floats(width: int) -> int {
    width * width + width
}

/// Bytes of one dense layer.
pub open spec fn layer_bytes(width: int) -> int {
    FLOAT_BYTES * layer_floats(width)
}

/// The product of `layers` and the bytes of one layer, or the reason why
/// there is none: `overflow` where the product itself is too large.
pub open spec fn scaled_bytes(layers: u64, width: usize, overflow: LayoutError) -> Result<
    u64,
    LayoutError,
> {
    if layer_bytes(width as int) > usize::MAX {
        Err(LayoutError::LayerBytes)
    } else if layers * layer_bytes(width as int) > u64::MAX {
        Err(overflow)
    } else {
        Ok((layers * layer_bytes(width as int)) as u64)
    }
}

/// The number of parameters of one dense layer.
pub fn dense_layer_floats(width: usize) -> (floats: usize)
    requires
        layer_floats(width as int) <= usize::MAX,
    ensures
        floats == layer_floats(width as int),
        floats == width * width + width,
{
    proof {
        assert(0 <= width * width) by (nonlinear_arith);
    }
    width * width + width
}

/// The number of bytes of one dense layer.
pub fn dense_layer_bytes(width: usize) -> (r: Result<u64, LayoutError>)
    requires
        layer_floats(width as int) <= usize::MAX,
    ensures
        r == (if layer_bytes(width as int) <= usize::MAX {
            Ok::<u64, LayoutError>(layer_bytes(width as int) as u64)
        } else {
            Err::<u64, LayoutError>(LayoutError::LayerBytes)
        }),
{
    let floats: usize = dense_layer_floats(width);
    match floats.checked_mul(FLOAT_BYTES) {
        Some(bytes) => Ok(bytes as u64),
        None => Err(LayoutError::LayerBytes),
    }
}

/// The length of a dense weight file.
pub fn dense_total_bytes(layers: u64, width: usize) -> (r: Result<u64, LayoutError>)
    requires
        layer_floats(width as int) <= usize::MAX,
    ensures
        r == scaled_bytes(layers, width, LayoutError::TotalBytes),
{
    let bytes: u64 = dense_layer_bytes(width)?;
    match layers.checked_mul(bytes) {
        Some(total) => Ok(total),
        None => Err(LayoutError::TotalBytes),
    }
}

/// The number of parameters of all dense layers together.
pub fn dense_total_floats(layers: u64, width: usize) -> (r: Result<usize, LayoutError>)
    requires
        layer_floats(width as int) <= usize::MAX,
    ensures
        r == (if layers * layer_floats(width as int) > u64::MAX {
            Err::<usize, LayoutError>(LayoutError::TotalFloats)
        } else if layers * layer_floats(width as int) > usize::MAX {
            Err::<usize, LayoutError>(LayoutError::MemoryFloats)
        } else {
            Ok::<usize, LayoutError>((layers * layer_floats(width as int)) as usize)
        }),
{
    match layers.checked_mul(dense_layer_floats(width) as u64) {
        None => Err(LayoutError::TotalFloats),
        Some(floats) => {
            if floats > usize::MAX as u64 {
                Err(LayoutError::MemoryFloats)
            } else {
                Ok(floats as usize)
            }
        },
    }
}

/// The position in a dense weight file at which layer `start_layer` starts.
pub fn dense_byte_offset(start_layer: u64, width: usize) -> (r: Result<u64, LayoutError>)
    requires
        layer_floats(width as int) <= usize::MAX,
    ensures
        r == scaled_bytes(start_layer, width, LayoutError::Offset),
{
    let bytes: u64 = dense_layer_bytes(width)?;
    match start_layer.checked_mul(bytes) {
        Some(offset) => Ok(offset),
        None => Err(LayoutError::Offset),
    }
}

/// Accepts the widths from one to `MAX_WIDTH`.
pub fn validate_width(width: usize) -> (r: Result<(), WidthError>)
    ensures
        r == (if width == 0 {
            Err::<(), WidthError>(WidthError::Zero)
        } else if width > MAX_WIDTH {
            Err::<(), WidthError>(WidthError::TooLarge)
        } else {
            Ok::<(), WidthError>(())
        }),
{
    if width == 0 {
        return Err(WidthError::Zero);
    }
    if width > MAX_WIDTH {
        return Err(WidthError::TooLarge);
    }
    Ok(())
}

/// The length of a narrow weight file.
pub fn narrow_total_bytes(layers: u64) -> (r: Result<u64, LayoutError>)
    ensures
        r == (if layers * LAYER_BYTES <= u64::MAX {
            Ok::<u64, LayoutError>((layers * LAYER_BYTES) as u64)
        } else {
            Err::<u64, LayoutError>(LayoutError::TotalBytes)
        }),
{
    match layers.checked_mul(LAYER_BYTES) {
        Some(total) => Ok(total),
        None => Err(LayoutError::TotalBytes),
    }
}

/// Accepts a file that is as long as it should be.
pub open spec fn length_verdict(actual: u64, expected: Result<u64, LayoutError>) -> Result<
    (),
    LayoutError,
> {
    match expected {
        Ok(expected) => if actual == expected {
            Ok(())
        } else {
            Err(LayoutError::Length { actual, expected })
        },
        Err(e) => Err(e),
    }
}

/// Accepts a narrow weight file of `actual` bytes if that is what `layers`
/// layers take.
pub fn verify_weights_len(actual: u64, layers: u64) -> (r: Result<(), LayoutError>)
    ensures
        layers * LAYER_BYTES > u64::MAX ==> r == Err::<(), LayoutError>(LayoutError::TotalBytes),
        layers * LAYER_BYTES <= u64::MAX ==> r == length_verdict(
            actual,
            Ok((layers * LAYER_BYTES) as u64),
        ),
        r is Ok <==> actual == 24 * layers,
{
    let expected: u64 = narrow_total_bytes(layers)?;
    if actual != expected {
        return Err(LayoutError::Length { actual, expected });
    }
    Ok(())
}

/// Accepts a dense weight file of `actual` bytes if that is what `layers`
/// layers take.
pub fn verify_dense_weights_len(actual: u64, layers: u64, width: usize) -> (r: Result<
    (),
    LayoutError,
>)
    requires
        layer_floats(width as int) <= usize::MAX,
    ensures
        r == length_verdict(actual, scaled_bytes(layers, width, LayoutError::TotalBytes)),
        r is Ok <==> 4 * (width * width + width) <= usize::MAX && actual == layers * (4 * (width
            * width + width)),
{
    let expected: u64 = dense_total_bytes(layers, width)?;
    if actual != expected {
        return Err(LayoutError::Length { actual, expected });
    }
    Ok(())
}

/// The number of chunks of `y` layers that hold `x` layers.
pub open spec fn chunk_count(x: int, y: int) -> int {
    if x % y == 0 {
        x / y
    } else {
        x / y + 1
    }
}

/// The quotient of `x` by `y`, rounded up.
pub fn div_ceil(x: u64, y: u64) -> (r: u64)
    requires
        y > 0,
    ensures
        r == chunk_count(x as int, y as int),
        (r - 1) * y < x <= r * y,
{
    proof {
        lemma_chunk_count(x as int, y as int);
        lemma_quotient_bound(x as int, y as int);
    }
    if x % y == 0 {
        x / y
    } else {
        x / y + 1
    }
}

/// Layers of chunk `k`.
pub open spec fn chunk_size(k: int, layers: int, chunk_layers: int) -> int {
    if layers - k * chunk_layers < chunk_layers {
        layers - k * chunk_layers
    } else {
        chunk_layers
    }
}

/// The first layer of chunk `chunk_idx`, and how many layers it has.
pub fn chunk_range(chunk_idx: usize, layers: u64, chunk_layers: usize) -> (r: (u64, usize))
    requires
        chunk_idx * chunk_layers <= layers,
    ensures
        r.0 == chunk_idx * chunk_layers,
        r.1 == chunk_size(chunk_idx as int, layers as int, chunk_layers as int),
{
    let start: u64 = chunk_idx as u64 * chunk_layers as u64;
    let remaining: u64 = layers - start;
    let count: usize = if remaining < chunk_layers as u64 {
        remaining as usize
    } else {
        chunk_layers
    };
    (start, count)
}

/// What the rounded-up quotient is.
pub proof fn lemma_chunk_count(x: int, y: int)
    requires
        0 <= x,
        0 < y,
    ensures
        0 <= chunk_count(x, y),
        (chunk_count(x, y) - 1) * y < x <= chunk_count(x, y) * y,
        chunk_count(x, y) == 0 <==> x == 0,
{
    lemma_fundamental_div_mod(x, y);
    assert(0 <= x / y && 0 <= x % y < y) by (nonlinear_arith)
        requires
            0 <= x,
            0 < y,
    ;
    let q = x / y;
    assert(y * q == q * y) by (nonlinear_arith);
    assert((q - 1) * y == q * y - y) by (nonlinear_arith);
    assert((q + 1) * y == q * y + y) by (nonlinear_arith);
    if q == 0 {
        assert(q * y == 0) by (nonlinear_arith)
            requires
                q == 0,
        ;
    } else {
        assert(q * y >= y) by (nonlinear_arith)
            requires
                q >= 1,
                y > 0,
        ;
    }
}

proof fn lemma_quotient_bound(x: int, y: int)
    requires
        0 <= x,
        0 < y,
    ensures
        x % y != 0 ==> x / y < x,
{
    lemma_fundamental_div_mod(x, y);
    let q = x / y;
    let m = x % y;
    assert(m != 0 ==> q < x) by (nonlinear_arith)
        requires
            x == y * q + m,
            0 < y,
            0 <= m,
            0 <= x,
            m == x % y,
            q == x / y,
    ;
}

/// The chunks split the layers: the first starts at layer zero, each starts
/// where the one before ends, none is empty or larger than asked for, and the
/// last ends at the last layer.
pub proof fn law_chunks_tile(layers: int, chunk_layers: int, k: int)
    requires
        0 <= layers,
        0 < chunk_layers,
        0 <= k < chunk_count(layers, chunk_layers),
    ensures
        0 <= k * chunk_layers < layers,
        0 < chunk_size(k, layers, chunk_layers) <= chunk_layers,
        k + 1 < chunk_count(layers, chunk_layers) ==> k * chunk_layers + chunk_size(
            k,
            layers,
            chunk_layers,
        ) == (k + 1) * chunk_layers,
        k + 1 == chunk_count(layers, chunk_layers) ==> k * chunk_layers + chunk_size(
            k,
            layers,
            chunk_layers,
        ) == layers,
{
    let n = chunk_count(layers, chunk_layers);
    lemma_chunk_count(layers, chunk_layers);
    assert(0 <= k * chunk_layers <= (n - 1) * chunk_layers) by (nonlinear_arith)
        requires
            0 <= k < n,
            0 < chunk_layers,
    ;
    assert((k + 1) * chunk_layers == k * chunk_layers + chunk_layers) by (nonlinear_arith);
    if k + 1 < n {
        assert((k + 1) * chunk_layers <= (n - 1) * chunk_layers) by (nonlinear_arith)
            requires
                k + 1 < n,
                0 < chunk_layers,
        ;
    }
}

/// A dense layer is a square matrix and a bias, each number four bytes, whatever the
/// width. A file takes as many bytes as its layers together, unless that is more than
/// can be written down.
pub proof fn law_dense_sizes(layers: u64, width: usize, overflow: LayoutError, actual: u64)
    ensures
        layer_floats(width as int) == width * width + width,
        layer_bytes(width as int) == 4 * (width * width + width),
        scaled_bytes(layers, width, overflow) == ({
            let bytes = 4 * (width * width + width);
            if bytes > usize::MAX {
                Err::<u64, LayoutError>(LayoutError::LayerBytes)
            } else if layers * bytes > u64::MAX {
                Err::<u64, LayoutError>(overflow)
            } else {
                Ok::<u64, LayoutError>((layers * bytes) as u64)
            }
        }),
        length_verdict(actual, scaled_bytes(layers, width, overflow)) is Ok <==> scaled_bytes(
            layers,
            width,
            overflow,
        ) == Ok::<u64, LayoutError>(actual),
        scaled_bytes(layers, width, overflow) matches Ok(expected) ==> (actual != expected
            ==> length_verdict(actual, scaled_bytes(layers, width, overflow)) == Err::<
            (),
            LayoutError,
        >(LayoutError::Length { actual, expected })),
        scaled_bytes(layers, width, overflow) matches Err(e) ==> length_verdict(
            actual,
            scaled_bytes(layers, width, overflow),
        ) == Err::<(), LayoutError>(e),
{
}

/// A chunk has as many layers as asked for, or as many as are left where these are
/// fewer.
pub proof fn law_chunk_sizes(k: int, layers: int, chunk_layers: int)
    ensures
        chunk_size(k, layers, chunk_layers) <= chunk_layers,
        chunk_size(k, layers, chunk_layers) <= layers - k * chunk_layers,
        chunk_size(k, layers, chunk_layers) == chunk_layers || chunk_size(k, layers, chunk_layers)
            == layers - k * chunk_layers,
{
}

/// A narrow layer is laid out as a dense layer of width two.
pub proof fn law_narrow_is_dense()
    ensures
        layer_floats(WIDTH as int) == LAYER_FLOATS,
        layer_bytes(WIDTH as int) == LAYER_BYTES,
{
}

/// The bytes of adjoining ranges of layers adjoin: what follows `count`
/// layers from `start` starts where layer `start + count` does.
pub proof fn law_offsets_adjoin(start: int, count: int, width: int)
    ensures
        start * layer_bytes(width) + FLOAT_BYTES * (count * layer_floats(width)) == (start + count)
            * layer_bytes(width),
{
    let b = layer_floats(width);
    assert(start * (4 * b) + 4 * (count * b) == (start + count) * (4 * b)) by (nonlinear_arith);
}

/// Every accepted width has layers that `usize` counts in floats and in bytes,
/// even where `usize` has only 32 bits.
pub proof fn law_accepted_width_fits(width: int)
    requires
        0 < width <= MAX_WIDTH,
    ensures
        0 < layer_floats(width) <= 262656,
        0 < layer_bytes(width) <= 1050624,
{
    assert(0 < width * width + width <= 512 * 512 + 512) by (nonlinear_arith)
        requires
            0 < width <= 512,
    ;
}

} // verus!
