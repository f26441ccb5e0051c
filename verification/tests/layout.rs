use deep_net::layout::chunk_range;
use deep_net::layout::dense_byte_offset;
use deep_net::layout::dense_layer_bytes;
use deep_net::layout::dense_layer_floats;
use deep_net::layout::dense_total_bytes;
use deep_net::layout::dense_total_floats;
use deep_net::layout::div_ceil;
use deep_net::layout::narrow_total_bytes;
use deep_net::layout::validate_width;
use deep_net::layout::verify_dense_weights_len;
use deep_net::layout::verify_weights_len;
use deep_net::layout::LayoutError;
use deep_net::layout::WidthError;
use deep_net::layout::LAYER_BYTES;
use deep_net::layout::LAYER_FLOATS;
use deep_net::layout::WIDTH;
use deep_net::stream::Span;
use deep_net::stream::Stream;
use deep_net::stream::StreamError;
use deep_net::transfer::Short;
use deep_net::transfer::Transfer;

/// A width whose layers number within `usize` while their bytes do not.
const VAST: usize = 1 << 31;

#[test]
fn narrow_file_of_hundred_million_layers_takes_2_4_gb() {
    assert_eq!(narrow_total_bytes(100_000_000), Ok(2_400_000_000));
}

#[test]
fn dense_files_of_hundred_million_layers() {
    assert_eq!(dense_total_bytes(100_000_000, 8), Ok(28_800_000_000));
    assert_eq!(dense_total_bytes(100_000_000, 16), Ok(108_800_000_000));
    assert_eq!(dense_total_bytes(100_000_000, 32), Ok(422_400_000_000));
    assert_eq!(dense_total_bytes(100_000_000, 64), Ok(1_664_000_000_000));
}

#[test]
fn narrow_layers_are_dense_layers_of_width_two() {
    assert_eq!(dense_layer_floats(WIDTH), LAYER_FLOATS);
    assert_eq!(dense_layer_bytes(WIDTH), Ok(LAYER_BYTES));
    assert_eq!(dense_total_bytes(7, WIDTH), narrow_total_bytes(7));
}

#[test]
fn layer_sizes() {
    assert_eq!(dense_layer_floats(1), 2);
    assert_eq!(dense_layer_floats(4), 20);
    assert_eq!(dense_layer_floats(32), 1056);
    assert_eq!(dense_layer_bytes(4), Ok(80));
    assert_eq!(dense_layer_bytes(VAST), Err(LayoutError::LayerBytes));
}

#[test]
fn totals_that_do_not_fit() {
    assert_eq!(narrow_total_bytes(u64::MAX / 24), Ok(u64::MAX / 24 * 24));
    assert_eq!(narrow_total_bytes(u64::MAX / 24 + 1), Err(LayoutError::TotalBytes));
    assert_eq!(dense_total_bytes(u64::MAX, 4), Err(LayoutError::TotalBytes));
    assert_eq!(dense_total_bytes(1, VAST), Err(LayoutError::LayerBytes));
    assert_eq!(dense_total_floats(u64::MAX, 4), Err(LayoutError::TotalFloats));
    assert_eq!(dense_total_floats(3, 4), Ok(60));
    assert_eq!(dense_byte_offset(u64::MAX, 4), Err(LayoutError::Offset));
    assert_eq!(dense_byte_offset(1, VAST), Err(LayoutError::LayerBytes));
    assert_eq!(dense_byte_offset(3, 4), Ok(240));
}

#[test]
fn offsets_of_adjoining_ranges_adjoin() {
    let first = dense_byte_offset(5, 8).unwrap();
    let next = dense_byte_offset(5 + 7, 8).unwrap();
    assert_eq!(first + 4 * 7 * dense_layer_floats(8) as u64, next);
}

#[test]
fn widths_from_one_to_512_are_accepted() {
    assert_eq!(validate_width(0), Err(WidthError::Zero));
    assert_eq!(validate_width(1), Ok(()));
    assert_eq!(validate_width(512), Ok(()));
    assert_eq!(validate_width(513), Err(WidthError::TooLarge));
    assert!(dense_layer_bytes(512).unwrap() <= 1_050_624);
}

#[test]
fn weight_files_of_another_length_are_refused() {
    assert_eq!(verify_weights_len(240, 10), Ok(()));
    assert_eq!(
        verify_weights_len(239, 10),
        Err(LayoutError::Length { actual: 239, expected: 240 })
    );
    assert_eq!(verify_weights_len(0, u64::MAX), Err(LayoutError::TotalBytes));
    assert_eq!(verify_dense_weights_len(80, 1, 4), Ok(()));
    assert_eq!(
        verify_dense_weights_len(81, 1, 4),
        Err(LayoutError::Length { actual: 81, expected: 80 })
    );
    assert_eq!(verify_dense_weights_len(0, u64::MAX, 4), Err(LayoutError::TotalBytes));
    assert_eq!(verify_dense_weights_len(0, 1, VAST), Err(LayoutError::LayerBytes));
}

#[test]
fn quotients_are_rounded_up() {
    assert_eq!(div_ceil(0, 3), 0);
    assert_eq!(div_ceil(1, 3), 1);
    assert_eq!(div_ceil(3, 3), 1);
    assert_eq!(div_ceil(4, 3), 2);
    assert_eq!(div_ceil(u64::MAX, 1), u64::MAX);
}

#[test]
fn chunks_tile_the_layers() {
    let mut next = 0;
    for k in 0..4 {
        let (start, count) = chunk_range(k, 10, 3);
        assert_eq!(start, next);
        next = start + count as u64;
    }
    assert_eq!(next, 10);
    assert_eq!(chunk_range(3, 10, 3), (9, 1));
    assert_eq!(chunk_range(0, 2, 3), (0, 2));
}

#[test]
fn streams_that_cannot_be_worked_through() {
    assert_eq!(Stream::new(10, 0, 4), Err(StreamError::EmptyChunk));
    assert_eq!(Stream::new(10, 3, 0), Err(StreamError::NoWidth));
    assert_eq!(Stream::new(10, 3, usize::MAX), Err(StreamError::TooLarge));
    assert_eq!(
        Stream::new(u64::MAX, 3, 4),
        Err(StreamError::Layout(LayoutError::TotalBytes))
    );
    assert_eq!(
        Stream::new(1, 3, VAST),
        Err(StreamError::Layout(LayoutError::LayerBytes))
    );
}

#[test]
fn spans_tile_the_file() {
    let stream = Stream::new(10, 4, 4).unwrap();
    assert_eq!(stream.count(), 3);
    assert_eq!(stream.span(0), Span { start_layer: 0, count: 4, floats: 80, offset: 0 });
    assert_eq!(stream.span(1), Span { start_layer: 4, count: 4, floats: 80, offset: 320 });
    assert_eq!(stream.span(2), Span { start_layer: 8, count: 2, floats: 40, offset: 640 });
    let last = stream.span(2);
    assert_eq!(
        last.offset + 4 * last.floats as u64,
        dense_total_bytes(10, 4).unwrap()
    );
    assert_eq!(Stream::new(0, 4, 4).unwrap().count(), 0);
}

#[test]
fn a_new_narrow_file_holds_the_numbers_in_the_order_drawn() {
    let drawn: Vec<u32> = (0..7 * 6).map(|i| i * i + 5).collect();
    for chunk_layers in [1usize, 2, 3, 7, 50] {
        let stream = Stream::new(7, chunk_layers, WIDTH).unwrap();
        let mut file = vec![u32::MAX; 7 * LAYER_FLOATS];
        let mut source = drawn.iter().copied();
        for k in 0..stream.count() {
            let span = stream.span(k);
            let at = span.offset as usize / 4;
            let part: Vec<u32> = source.by_ref().take(span.floats).collect();
            file[at..at + span.floats].copy_from_slice(&part);
        }
        assert_eq!(file, drawn);
    }
}

#[test]
fn transfers_go_on_where_they_stopped() {
    let mut t = Transfer::new(100, 10);
    assert_eq!(t.next(), Some((0, 100)));
    assert_eq!(t.advance(4), Ok(()));
    assert_eq!(t.next(), Some((4, 104)));
    assert_eq!(t.advance(6), Ok(()));
    assert_eq!(t.next(), None);
}

#[test]
fn transfers_of_nothing_are_short() {
    let mut t = Transfer::new(100, 10);
    assert_eq!(t.advance(3), Ok(()));
    assert_eq!(t.advance(0), Err(Short));
    assert_eq!(t.next(), Some((3, 103)));
    assert_eq!(Transfer::new(7, 0).next(), None);
}

#[test]
fn transfers_in_single_bytes_cover_the_buffer() {
    let mut t = Transfer::new(u64::MAX - 5, 5);
    let mut seen = Vec::new();
    while let Some((from, position)) = t.next() {
        seen.push((from, position));
        t.advance(1).unwrap();
    }
    assert_eq!(seen.len(), 5);
    assert_eq!(seen[4], (4, u64::MAX - 1));
}
