use deep_net::codec::floats;
use deep_net::codec::head_bytes;
use deep_net::codec::HeadError;
use deep_net::head::Head;
use deep_net::layout::WidthError;
use deep_net::layout::CLASSES;
use deep_net::layout::INPUTS;

fn numbered(width: usize) -> Head<u32> {
    let mut next = 0x01020304u32;
    let mut take = |n: usize| {
        let mut v = Vec::new();
        for _ in 0..n {
            v.push(next);
            next = next.wrapping_mul(2654435761).wrapping_add(17);
        }
        v
    };
    Head {
        width,
        input_w: take(INPUTS * width),
        input_b: take(width),
        output_w: take(width * CLASSES),
        output_b: take(CLASSES),
    }
}

fn bytes_of_words(words: &[u32]) -> Vec<u8> {
    let mut bytes = Vec::new();
    for word in words {
        bytes.extend_from_slice(&word.to_le_bytes());
    }
    bytes
}

#[test]
fn head_sizes() {
    assert_eq!(floats(1), 784 + 1 + 10 + 10);
    assert_eq!(floats(2), 1600);
    assert_eq!(floats(128), 101_770);
    assert_eq!(head_bytes(2), Some(6400));
    assert_eq!(head_bytes(usize::MAX / 4), None);
}

#[test]
fn words_are_stored_least_significant_byte_first() {
    let bytes = numbered(1).encode();
    assert_eq!(bytes[..4], [0x04, 0x03, 0x02, 0x01]);
}

#[test]
fn sections_follow_each_other() {
    let head = numbered(3);
    let mut words = head.input_w.clone();
    words.extend_from_slice(&head.input_b);
    words.extend_from_slice(&head.output_w);
    words.extend_from_slice(&head.output_b);
    assert_eq!(head.encode(), bytes_of_words(&words));
}

#[test]
fn saved_head_loads() {
    let head = numbered(2);
    let read = Head::load_narrow(&head.encode()).unwrap_or_else(|_| panic!("refused"));
    assert_eq!(read.width, 2);
    assert_eq!(read.input_w, head.input_w);
    assert_eq!(read.input_b, head.input_b);
    assert_eq!(read.output_w, head.output_w);
    assert_eq!(read.output_b, head.output_b);
}

#[test]
fn saved_head_keeps_the_bits_of_its_numbers() {
    let mut head = numbered(1);
    head.output_b[9] = f32::NAN.to_bits() | 5;
    head.output_b[8] = (-0.0f32).to_bits();
    let read = Head::load_mlp(&head.encode(), 1).unwrap_or_else(|_| panic!("refused"));
    assert_eq!(read.output_b[9], f32::NAN.to_bits() | 5);
    assert_eq!(f32::from_bits(read.output_b[8]).to_bits(), (-0.0f32).to_bits());
}

#[test]
fn loaded_head_saves() {
    let mut bytes = Vec::new();
    for i in 0..head_bytes(3).unwrap() {
        bytes.push((i * 31 % 251) as u8);
    }
    let head = Head::load_dense(&bytes, 3).unwrap_or_else(|_| panic!("refused"));
    assert_eq!(head.encode(), bytes);
}

#[test]
fn head_files_of_another_length_are_refused() {
    let bytes = numbered(2).encode();
    assert_eq!(
        Head::load_narrow(&bytes[1..]).err(),
        Some(HeadError::Length { actual: 6399, expected: 6400 })
    );
    assert_eq!(
        Head::load_dense(&bytes, 3).err(),
        Some(HeadError::Length { actual: 6400, expected: 9580 })
    );
    assert_eq!(
        Head::load_mlp(&[], 1).err(),
        Some(HeadError::Length { actual: 0, expected: 3220 })
    );
}

#[test]
fn heads_without_width_are_refused() {
    assert_eq!(Head::load_dense(&[], 0).err(), Some(HeadError::Width(WidthError::Zero)));
    assert_eq!(
        Head::load_dense(&[], 513).err(),
        Some(HeadError::Width(WidthError::TooLarge))
    );
    assert_eq!(Head::load_mlp(&[], 0).err(), Some(HeadError::NoHidden));
}
