use crate::arith::faithful;
use crate::arith::Arith;
use crate::division::lemma_over_times;
use crate::division::undoes;
use crate::layout::INPUTS;
use crate::layout::SIDE;
use flate2::read::GzDecoder;
use std::io::Read;
use vstd::prelude::*;
use vstd::slice::slice_subrange;
use vstd::slice::slice_to_vec;

verus! {

/// The first word of an image file.
pub const IMAGE_MAGIC: u32 = 2051;

/// The first word of a label file.
pub const LABEL_MAGIC: u32 = 2049;

/// Bytes before the pixels of an image file.
pub const IMAGE_HEADER: usize = 16;

/// Bytes before the labels of a label file.
pub const LABEL_HEADER: usize = 8;

/// The value of a pixel at full brightness.
pub const FULL: u64 = 255;

/// Why a data file is refused.
#[derive(Clone, Copy, Debug, PartialEq, Eq, Structural)]
pub enum IdxError {
    /// The image file ends before its pixels start.
    ImagesTooShort,
    /// The first word of the image file is another one.
    ImageMagic(u32),
    /// The images have another size.
    Dimensions { rows: u32, cols: u32 },
    /// The image file has another length than its images take.
    ImageLength { actual: usize, expected: u64 },
    /// The label file ends before its labels start.
    LabelsTooShort,
    /// The first word of the label file is another one.
    LabelMagic(u32),
    /// The label file has another length than its labels take.
    LabelLength { actual: usize, expected: u64 },
    /// There are more or fewer training images than labels.
    TrainCount,
    /// There are more or fewer test images than labels.
    TestCount,
    /// The file cannot be decompressed.
    Gzip,
}

/// The number that four bytes, most significant first, stand for.
pub open spec fn be_value(s: Seq<u8>) -> int {
    s[0] * 0x1000000 + s[1] * 0x10000 + s[2] * 0x100 + s[3]
}

/// The word at position `offset`.
pub open spec fn word_at(data: Seq<u8>, offset: int) -> int {
    be_value(data.subrange(offset, offset + 4))
}

/// The word at position `offset`, most significant byte first.
pub fn be_u32(data: &[u8], offset: usize) -> (word: u32)
    requires
        offset + 4 <= data@.len(),
    ensures
        word == word_at(data@, offset as int),
{
    let a: u32 = data[offset] as u32;
    let b: u32 = data[offset + 1] as u32;
    let c: u32 = data[offset + 2] as u32;
    let d: u32 = data[offset + 3] as u32;
    a * 0x1000000 + b * 0x10000 + c * 0x100 + d
}

/// How many images a file holds, or why it is refused.
pub open spec fn image_count(data: Seq<u8>) -> Result<int, IdxError> {
    let count = word_at(data, 4);
    let expected = IMAGE_HEADER + count * INPUTS;
    if data.len() < IMAGE_HEADER {
        Err(IdxError::ImagesTooShort)
    } else if word_at(data, 0) != IMAGE_MAGIC {
        Err(IdxError::ImageMagic(word_at(data, 0) as u32))
    } else if word_at(data, 8) != SIDE || word_at(data, 12) != SIDE {
        Err(IdxError::Dimensions { rows: word_at(data, 8) as u32, cols: word_at(data, 12) as u32 })
    } else if data.len() != expected {
        Err(IdxError::ImageLength { actual: data.len() as usize, expected: expected as u64 })
    } else {
        Ok(count)
    }
}

/// The pixels of an image file, each between zero and one.
pub open spec fn image_pixels<T, A: Arith<T>>(ar: A, data: Seq<u8>) -> Seq<T> {
    Seq::new(
        (data.len() - IMAGE_HEADER) as nat,
        |i: int| ar.over(ar.whole(data[IMAGE_HEADER + i] as u64), ar.whole(FULL)),
    )
}

/// The pixels of an image file, and how many images they make.
pub fn parse_images<T: Copy, A: Arith<T>>(ar: &A, data: &[u8]) -> (r: Result<
    (Vec<T>, usize),
    IdxError,
>)
    ensures
        match r {
            Ok((images, count)) => {
                &&& image_count(data@) == Ok::<int, IdxError>(count as int)
                &&& images@.len() == count * INPUTS
                &&& faithful::<T, A>(*ar) ==> images@ == image_pixels(*ar, data@)
                &&& faithful::<T, A>(*ar) ==> forall|i: int|
                    0 <= i < images@.len() ==> #[trigger] images@[i] == ar.over(
                        ar.whole(data@[16 + i] as u64),
                        ar.whole(255),
                    )
            },
            Err(e) => image_count(data@) == Err::<int, IdxError>(e),
        },
{
    if data.len() < IMAGE_HEADER {
        return Err(IdxError::ImagesTooShort);
    }
    let magic: u32 = be_u32(data, 0);
    let count: u32 = be_u32(data, 4);
    let rows: u32 = be_u32(data, 8);
    let cols: u32 = be_u32(data, 12);
    if magic != IMAGE_MAGIC {
        return Err(IdxError::ImageMagic(magic));
    }
    if rows != SIDE as u32 || cols != SIDE as u32 {
        return Err(IdxError::Dimensions { rows, cols });
    }
    let expected: u64 = IMAGE_HEADER as u64 + count as u64 * INPUTS as u64;
    if data.len() as u64 != expected {
        return Err(IdxError::ImageLength { actual: data.len(), expected });
    }
    let len: usize = data.len();
    let total: usize = len - IMAGE_HEADER;
    let mut images: Vec<T> = Vec::with_capacity(total);
    let mut i: usize = 0;
    while i < total
        invariant
            i <= total,
            total + IMAGE_HEADER == len == data@.len(),
            images@.len() == i,
            faithful::<T, A>(*ar) ==> forall|k: int|
                0 <= k < i ==> images@[k] == image_pixels(*ar, data@)[k],
        decreases total - i,
    {
        let pixel = ar.from_u64(data[IMAGE_HEADER + i] as u64);
        images.push(ar.div(pixel, ar.from_u64(FULL)));
        i += 1;
    }
    proof {
        if faithful::<T, A>(*ar) {
            assert(images@ =~= image_pixels(*ar, data@));
        }
    }
    Ok((images, count as usize))
}

/// The labels of a label file, or why it is refused.
pub open spec fn label_values(data: Seq<u8>) -> Result<Seq<u8>, IdxError> {
    let expected = LABEL_HEADER + word_at(data, 4);
    if data.len() < LABEL_HEADER {
        Err(IdxError::LabelsTooShort)
    } else if word_at(data, 0) != LABEL_MAGIC {
        Err(IdxError::LabelMagic(word_at(data, 0) as u32))
    } else if data.len() != expected {
        Err(IdxError::LabelLength { actual: data.len() as usize, expected: expected as u64 })
    } else {
        Ok(data.skip(LABEL_HEADER as int))
    }
}

/// The labels of a label file.
pub fn parse_labels(data: &[u8]) -> (r: Result<Vec<u8>, IdxError>)
    ensures
        match r {
            Ok(labels) => label_values(data@) == Ok::<Seq<u8>, IdxError>(labels@) && labels@
                == data@.skip(8),
            Err(e) => label_values(data@) == Err::<Seq<u8>, IdxError>(e),
        },
{
    if data.len() < LABEL_HEADER {
        return Err(IdxError::LabelsTooShort);
    }
    let magic: u32 = be_u32(data, 0);
    let count: u32 = be_u32(data, 4);
    if magic != LABEL_MAGIC {
        return Err(IdxError::LabelMagic(magic));
    }
    let expected: u64 = LABEL_HEADER as u64 + count as u64;
    if data.len() as u64 != expected {
        return Err(IdxError::LabelLength { actual: data.len(), expected });
    }
    let labels: Vec<u8> = slice_to_vec(slice_subrange(data, LABEL_HEADER, data.len()));
    Ok(labels)
}

/// Labelled images to train with, and labelled images to test with.
pub struct Mnist<T> {
    pub train_images: Vec<T>,
    pub train_labels: Vec<u8>,
    pub test_images: Vec<T>,
    pub test_labels: Vec<u8>,
}

/// The verdict on four data files: the first file that is refused, in the order
/// in which they are named, then the first pair that does not match.
pub open spec fn mnist_verdict(
    train_images: Seq<u8>,
    train_labels: Seq<u8>,
    test_images: Seq<u8>,
    test_labels: Seq<u8>,
) -> Result<(), IdxError> {
    match (
        image_count(train_images),
        label_values(train_labels),
        image_count(test_images),
        label_values(test_labels),
    ) {
        (Err(e), _, _, _) => Err(e),
        (Ok(_), Err(e), _, _) => Err(e),
        (Ok(_), Ok(_), Err(e), _) => Err(e),
        (Ok(_), Ok(_), Ok(_), Err(e)) => Err(e),
        (Ok(a), Ok(b), Ok(c), Ok(d)) => if a != b.len() {
            Err(IdxError::TrainCount)
        } else if c != d.len() {
            Err(IdxError::TestCount)
        } else {
            Ok(())
        },
    }
}

impl<T: Copy> Mnist<T> {
    /// Every label has its image.
    pub open spec fn wf(self) -> bool {
        &&& self.train_images@.len() == self.train_labels@.len() * INPUTS
        &&& self.test_images@.len() == self.test_labels@.len() * INPUTS
    }

    /// The data that four files hold.
    pub fn parse<A: Arith<T>>(
        ar: &A,
        train_images: &[u8],
        train_labels: &[u8],
        test_images: &[u8],
        test_labels: &[u8],
    ) -> (r: Result<Mnist<T>, IdxError>)
        ensures
            match r {
                Ok(m) => {
                    &&& mnist_verdict(
                        train_images@,
                        train_labels@,
                        test_images@,
                        test_labels@,
                    ) is Ok
                    &&& m.wf()
                    &&& label_values(train_labels@) == Ok::<Seq<u8>, IdxError>(m.train_labels@)
                    &&& label_values(test_labels@) == Ok::<Seq<u8>, IdxError>(m.test_labels@)
                    &&& faithful::<T, A>(*ar) ==> m.train_images@ == image_pixels(
                        *ar,
                        train_images@,
                    )
                    &&& faithful::<T, A>(*ar) ==> m.test_images@ == image_pixels(*ar, test_images@)
                    &&& faithful::<T, A>(*ar) ==> forall|i: int|
                        0 <= i < m.train_images@.len() ==> #[trigger] m.train_images@[i] == ar.over(
                            ar.whole(train_images@[16 + i] as u64),
                            ar.whole(255),
                        )
                    &&& faithful::<T, A>(*ar) ==> forall|i: int|
                        0 <= i < m.test_images@.len() ==> #[trigger] m.test_images@[i] == ar.over(
                            ar.whole(test_images@[16 + i] as u64),
                            ar.whole(255),
                        )
                    &&& m.train_labels@ == train_labels@.skip(8)
                    &&& m.test_labels@ == test_labels@.skip(8)
                },
                Err(e) => mnist_verdict(
                    train_images@,
                    train_labels@,
                    test_images@,
                    test_labels@,
                ) == Err::<(), IdxError>(e),
            },
    {
        let (train_pixels, train_count) = match parse_images(ar, train_images) {
            Ok(parsed) => parsed,
            Err(e) => {
                return Err(e);
            },
        };
        let train_values = match parse_labels(train_labels) {
            Ok(parsed) => parsed,
            Err(e) => {
                return Err(e);
            },
        };
        let (test_pixels, test_count) = match parse_images(ar, test_images) {
            Ok(parsed) => parsed,
            Err(e) => {
                return Err(e);
            },
        };
        let test_values = match parse_labels(test_labels) {
            Ok(parsed) => parsed,
            Err(e) => {
                return Err(e);
            },
        };
        if train_count != train_values.len() {
            return Err(IdxError::TrainCount);
        }
        if test_count != test_values.len() {
            return Err(IdxError::TestCount);
        }
        Ok(
            Mnist {
                train_images: train_pixels,
                train_labels: train_values,
                test_images: test_pixels,
                test_labels: test_values,
            },
        )
    }

    /// How many labelled images there are to train with.
    pub fn train_len(&self) -> (n: usize)
        ensures
            n == self.train_labels@.len(),
    {
        self.train_labels.len()
    }

    /// How many labelled images there are to test with.
    pub fn test_len(&self) -> (n: usize)
        ensures
            n == self.test_labels@.len(),
    {
        self.test_labels.len()
    }
}

/// Every pixel of an image file is its byte over 255, whatever the byte. This holds
/// with rounding too. Without rounding, a pixel times 255 is its byte again, and pixels
/// of different bytes are different where different bytes are different numbers.
pub proof fn law_pixels_are_bytes<T, A: Arith<T>>(ar: A, data: Seq<u8>, i: int, j: int)
    requires
        0 <= i < data.len() - 16,
        0 <= j < data.len() - 16,
    ensures
        image_pixels(ar, data).len() == data.len() - 16,
        image_pixels(ar, data)[i] == ar.over(ar.whole(data[16 + i] as u64), ar.whole(255)),
        undoes::<T, A>(ar) && ar.whole(255) != ar.whole(0) ==> {
            &&& ar.times(image_pixels(ar, data)[i], ar.whole(255)) == ar.whole(
                data[16 + i] as u64,
            )
            &&& ar.whole(data[16 + i] as u64) != ar.whole(data[16 + j] as u64) ==> image_pixels(
                ar,
                data,
            )[i] != image_pixels(ar, data)[j]
        },
{
    if undoes::<T, A>(ar) && ar.whole(255) != ar.whole(0) {
        lemma_over_times(ar, ar.whole(data[16 + i] as u64), ar.whole(255));
        lemma_over_times(ar, ar.whole(data[16 + j] as u64), ar.whole(255));
    }
}

/// A word of a file is its four bytes, most significant first.
pub proof fn law_words_are_big_endian(data: Seq<u8>, offset: int)
    requires
        0 <= offset,
        offset + 4 <= data.len(),
    ensures
        word_at(data, offset) == 16777216 * data[offset] + 65536 * data[offset + 1] + 256
            * data[offset + 2] + data[offset + 3],
        0 <= word_at(data, offset) <= u32::MAX,
{
}

/// An image file is accepted if and only if it starts with the words 2051, a count, 28
/// and 28, and goes on with 784 bytes for each image that the count names. The first
/// thing that is wrong is reported.
pub proof fn law_accepted_image_files(data: Seq<u8>)
    ensures
        data.len() < 16 ==> image_count(data) == Err::<int, IdxError>(IdxError::ImagesTooShort),
        data.len() >= 16 ==> {
            let magic = word_at(data, 0);
            let count = word_at(data, 4);
            let rows = word_at(data, 8);
            let cols = word_at(data, 12);
            let expected = 16 + 784 * count;
            &&& magic != 2051 ==> image_count(data) == Err::<int, IdxError>(
                IdxError::ImageMagic(magic as u32),
            )
            &&& magic == 2051 && !(rows == 28 && cols == 28) ==> image_count(data) == Err::<
                int,
                IdxError,
            >(IdxError::Dimensions { rows: rows as u32, cols: cols as u32 })
            &&& magic == 2051 && rows == 28 && cols == 28 && data.len() != expected
                ==> image_count(data) == Err::<int, IdxError>(
                IdxError::ImageLength { actual: data.len() as usize, expected: expected as u64 },
            )
            &&& magic == 2051 && rows == 28 && cols == 28 && data.len() == expected
                ==> image_count(data) == Ok::<int, IdxError>(count)
        },
{
}

/// A label file is accepted if and only if it starts with the words 2049 and a count,
/// and goes on with as many bytes as the count names, which are the labels. The first
/// thing that is wrong is reported.
pub proof fn law_accepted_label_files(data: Seq<u8>)
    ensures
        data.len() < 8 ==> label_values(data) == Err::<Seq<u8>, IdxError>(
            IdxError::LabelsTooShort,
        ),
        data.len() >= 8 ==> {
            let magic = word_at(data, 0);
            let expected = 8 + word_at(data, 4);
            &&& magic != 2049 ==> label_values(data) == Err::<Seq<u8>, IdxError>(
                IdxError::LabelMagic(magic as u32),
            )
            &&& magic == 2049 && data.len() != expected ==> label_values(data) == Err::<
                Seq<u8>,
                IdxError,
            >(IdxError::LabelLength { actual: data.len() as usize, expected: expected as u64 })
            &&& magic == 2049 && data.len() == expected ==> label_values(data) == Ok::<
                Seq<u8>,
                IdxError,
            >(data.skip(8))
        },
{
}

/// Four data files are accepted if and only if each of them is, and there are as many
/// images as labels to train with and to test with. A file that is refused comes before
/// a pair that does not match, and what comes first in the order of the files is
/// reported.
pub proof fn law_accepted_data(
    train_images: Seq<u8>,
    train_labels: Seq<u8>,
    test_images: Seq<u8>,
    test_labels: Seq<u8>,
)
    ensures
        ({
            let verdict = mnist_verdict(train_images, train_labels, test_images, test_labels);
            let a = image_count(train_images);
            let b = label_values(train_labels);
            let c = image_count(test_images);
            let d = label_values(test_labels);
            &&& a is Err ==> verdict == Err::<(), IdxError>(a->Err_0)
            &&& a is Ok && b is Err ==> verdict == Err::<(), IdxError>(b->Err_0)
            &&& a is Ok && b is Ok && c is Err ==> verdict == Err::<(), IdxError>(c->Err_0)
            &&& a is Ok && b is Ok && c is Ok && d is Err ==> verdict == Err::<(), IdxError>(
                d->Err_0,
            )
            &&& a is Ok && b is Ok && c is Ok && d is Ok ==> {
                &&& a->Ok_0 != b->Ok_0.len() ==> verdict == Err::<(), IdxError>(
                    IdxError::TrainCount,
                )
                &&& a->Ok_0 == b->Ok_0.len() && c->Ok_0 != d->Ok_0.len() ==> verdict == Err::<
                    (),
                    IdxError,
                >(IdxError::TestCount)
                &&& a->Ok_0 == b->Ok_0.len() && c->Ok_0 == d->Ok_0.len() ==> verdict == Ok::<
                    (),
                    IdxError,
                >(())
            }
        }),
{
}

/// An error of reading.
#[verifier::external_type_specification]
#[verifier::external_body]
pub struct ExIoError(std::io::Error);

/// What a gzip member decompresses to, if it can be decompressed.
pub uninterp spec fn gunzipped(data: Seq<u8>) -> Option<Seq<u8>>;

/// Reads `data` to its end through a `flate2::read::GzDecoder`. Trusted: whether
/// that succeeds, and what is read, depends on `data` alone.
#[verifier::external_body]
fn gunzip(data: &[u8]) -> (r: Result<Vec<u8>, std::io::Error>)
    ensures
        match r {
            Ok(bytes) => gunzipped(data@) == Some(bytes@),
            Err(_) => gunzipped(data@) is None,
        },
{
    let mut bytes = Vec::new();
    GzDecoder::new(data).read_to_end(&mut bytes)?;
    Ok(bytes)
}

/// The data file in a compressed download.
pub fn unpack(download: &[u8]) -> (r: Result<Vec<u8>, IdxError>)
    ensures
        match r {
            Ok(bytes) => gunzipped(download@) == Some(bytes@),
            Err(e) => gunzipped(download@) is None && e == IdxError::Gzip,
        },
{
    match gunzip(download) {
        Ok(bytes) => Ok(bytes),
        Err(_) => Err(IdxError::Gzip),
    }
}

} // verus!
