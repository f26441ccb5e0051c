use deep_net::arith::Arith;
use deep_net::idx::be_u32;
use deep_net::idx::parse_images;
use deep_net::idx::parse_labels;
use deep_net::idx::unpack;
use deep_net::idx::IdxError;
use deep_net::idx::Mnist;
use flate2::write::GzEncoder;
use flate2::Compression;
use std::io::Write;

struct Single;

impl Arith<f32> for Single {
    fn from_u64(&self, n: u64) -> f32 {
        n as f32
    }
    fn neg_infinity(&self) -> f32 {
        f32::NEG_INFINITY
    }
    fn least_probability(&self) -> f32 {
        1.0e-20
    }
    fn add(&self, a: f32, b: f32) -> f32 {
        a + b
    }
    fn sub(&self, a: f32, b: f32) -> f32 {
        a - b
    }
    fn mul(&self, a: f32, b: f32) -> f32 {
        a * b
    }
    fn div(&self, a: f32, b: f32) -> f32 {
        a / b
    }
    fn neg(&self, a: f32) -> f32 {
        -a
    }
    fn max(&self, a: f32, b: f32) -> f32 {
        a.max(b)
    }
    fn abs(&self, a: f32) -> f32 {
        a.abs()
    }
    fn tanh(&self, a: f32) -> f32 {
        a.tanh()
    }
    fn exp(&self, a: f32) -> f32 {
        a.exp()
    }
    fn ln(&self, a: f32) -> f32 {
        a.ln()
    }
    fn sqrt(&self, a: f32) -> f32 {
        a.sqrt()
    }
    fn same(&self, a: f32, b: f32) -> bool {
        a == b
    }
    fn above(&self, a: f32, b: f32) -> bool {
        a > b
    }
    fn at_most(&self, a: f32, b: f32) -> bool {
        a <= b
    }
}

fn header(words: &[u32]) -> Vec<u8> {
    let mut bytes = Vec::new();
    for word in words {
        bytes.extend_from_slice(&word.to_be_bytes());
    }
    bytes
}

fn image_file(count: u32) -> Vec<u8> {
    let mut bytes = header(&[2051, count, 28, 28]);
    for i in 0..count as usize * 784 {
        bytes.push((i % 256) as u8);
    }
    bytes
}

fn label_file(count: u32) -> Vec<u8> {
    let mut bytes = header(&[2049, count]);
    for i in 0..count {
        bytes.push((i % 10) as u8);
    }
    bytes
}

#[test]
fn words_are_read_most_significant_byte_first() {
    assert_eq!(be_u32(&[9, 0x01, 0x02, 0x03, 0x04], 1), 0x01020304);
    assert_eq!(be_u32(&[0xff, 0xff, 0xff, 0xff], 0), u32::MAX);
}

#[test]
fn pixels_are_scaled_to_one() {
    let (images, count) = parse_images(&Single, &image_file(2)).unwrap();
    assert_eq!(count, 2);
    assert_eq!(images.len(), 2 * 784);
    assert_eq!(images[0], 0.0);
    assert_eq!(images[51], 0.2);
    assert_eq!(images[255], 1.0);
    assert_eq!(images[256], 0.0);
    assert_eq!(images[784], 16.0f32 / 255.0);
}

#[test]
fn image_files_are_refused() {
    let images = |data: &[u8]| parse_images(&Single, data).err();
    assert_eq!(images(&[0; 15]), Some(IdxError::ImagesTooShort));
    assert_eq!(images(&header(&[2049, 0, 28, 28])), Some(IdxError::ImageMagic(2049)));
    assert_eq!(
        images(&header(&[2051, 0, 28, 27])),
        Some(IdxError::Dimensions { rows: 28, cols: 27 })
    );
    assert_eq!(
        images(&header(&[2051, 0, 14, 28])),
        Some(IdxError::Dimensions { rows: 14, cols: 28 })
    );
    assert_eq!(
        images(&header(&[2051, 1, 28, 28])),
        Some(IdxError::ImageLength { actual: 16, expected: 800 })
    );
    let mut long = image_file(1);
    long.push(0);
    assert_eq!(images(&long), Some(IdxError::ImageLength { actual: 801, expected: 800 }));
    assert_eq!(parse_images(&Single, &image_file(0)).unwrap(), (Vec::<f32>::new(), 0));
}

#[test]
fn labels_follow_their_header() {
    assert_eq!(parse_labels(&label_file(12)).unwrap(), vec![0, 1, 2, 3, 4, 5, 6, 7, 8, 9, 0, 1]);
    assert_eq!(parse_labels(&label_file(0)).unwrap(), Vec::<u8>::new());
}

#[test]
fn label_files_are_refused() {
    assert_eq!(parse_labels(&[0; 7]), Err(IdxError::LabelsTooShort));
    assert_eq!(parse_labels(&header(&[2051, 0])), Err(IdxError::LabelMagic(2051)));
    assert_eq!(
        parse_labels(&header(&[2049, 3])),
        Err(IdxError::LabelLength { actual: 8, expected: 11 })
    );
}

#[test]
fn data_sets_pair_images_with_labels() {
    let data = Mnist::parse(
        &Single,
        &image_file(3),
        &label_file(3),
        &image_file(2),
        &label_file(2),
    )
    .unwrap_or_else(|_| panic!("refused"));
    assert_eq!(data.train_len(), 3);
    assert_eq!(data.test_len(), 2);
    assert_eq!(data.train_images.len(), 3 * 784);
    assert_eq!(data.test_labels, vec![0, 1]);
}

#[test]
fn data_sets_that_do_not_pair_are_refused() {
    let error = |a: &[u8], b: &[u8], c: &[u8], d: &[u8]| Mnist::parse(&Single, a, b, c, d).err();
    let (i1, i2) = (image_file(1), image_file(2));
    let (l1, l2) = (label_file(1), label_file(2));
    assert_eq!(error(&i1, &l2, &i1, &l1), Some(IdxError::TrainCount));
    assert_eq!(error(&i1, &l1, &i2, &l1), Some(IdxError::TestCount));
    assert_eq!(error(&i1, &l2, &i2, &l1), Some(IdxError::TrainCount));
    assert_eq!(error(&l1, &l2, &i2, &l1), Some(IdxError::ImagesTooShort));
    assert_eq!(error(&i1, &[], &[], &[]), Some(IdxError::LabelsTooShort));
    assert_eq!(error(&i1, &l1, &[], &[]), Some(IdxError::ImagesTooShort));
    assert_eq!(error(&i1, &l2, &i2, &[]), Some(IdxError::LabelsTooShort));
}

#[test]
fn downloads_are_unpacked() {
    let file = label_file(100);
    let mut encoder = GzEncoder::new(Vec::new(), Compression::default());
    encoder.write_all(&file).unwrap();
    let packed = encoder.finish().unwrap();
    assert_ne!(packed, file);
    assert_eq!(unpack(&packed), Ok(file));
    assert_eq!(unpack(&packed[..packed.len() - 9]), Err(IdxError::Gzip));
    assert_eq!(unpack(b"no gzip"), Err(IdxError::Gzip));
}
