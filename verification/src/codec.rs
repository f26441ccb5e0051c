use crate::head::Head;
use crate::layout::validate_width;
use crate::layout::WidthError;
use crate::layout::CLASSES;
use crate::layout::FLOAT_BYTES;
use crate::layout::INPUTS;
use crate::layout::MAX_WIDTH;
use crate::layout::WIDTH;
use vstd::prelude::*;
use vstd::slice::slice_subrange;
use vstd::slice::slice_to_vec;

verus! {

/// Why a stored head is refused.
#[derive(Clone, Copy, Debug, PartialEq, Eq, Structural)]
pub enum HeadError {
    Width(WidthError),
    /// A perceptron has no hidden units.
    NoHidden,
    /// The file has another length than the head takes.
    Length { actual: usize, expected: usize },
}

/// Numbers in a head of width `width`.
pub open spec fn head_floats(width: int) -> int {
    INPUTS * width + width + width * CLASSES + CLASSES
}

/// The word that four bytes, least significant first, stand for.
pub open spec fn le_value(s: Seq<u8>) -> u32 {
    (s[0] + s[1] * 0x100 + s[2] * 0x10000 + s[3] * 0x1000000) as u32
}

/// The four bytes of a word, least significant first.
pub open spec fn le_bytes(x: u32) -> Seq<u8> {
    seq![
        (x % 0x100) as u8,
        ((x / 0x100) % 0x100) as u8,
        ((x / 0x10000) % 0x100) as u8,
        (x / 0x1000000) as u8,
    ]
}

/// The words that a file of whole words holds.
pub open spec fn words_of(bytes: Seq<u8>) -> Seq<u32> {
    Seq::new(bytes.len() / 4, |i: int| le_value(bytes.subrange(4 * i, 4 * i + 4)))
}

/// A file that holds the given words.
pub open spec fn bytes_of(words: Seq<u32>) -> Seq<u8>
    decreases words.len(),
{
    if words.len() == 0 {
        Seq::empty()
    } else {
        bytes_of(words.drop_last()) + le_bytes(words.last())
    }
}

/// A word is the word of its bytes, and four bytes are the bytes of their word.
pub proof fn lemma_word_round_trip(x: u32, s: Seq<u8>)
    ensures
        le_value(le_bytes(x)) == x,
        s.len() == 4 ==> le_bytes(le_value(s)) == s,
{
    let y = x / 0x100;
    let z = x / 0x10000;
    assert(z == y / 0x100 && x / 0x1000000 == z / 0x100);
    if s.len() == 4 {
        lemma_digits(s[0] as int, s[1] as int, s[2] as int, s[3] as int);
        assert(le_bytes(le_value(s)) =~= s);
    }
}

/// The digits of a number of four digits.
proof fn lemma_digits(a: int, b: int, c: int, d: int)
    requires
        0 <= a < 0x100,
        0 <= b < 0x100,
        0 <= c < 0x100,
        0 <= d < 0x100,
    ensures
        ({
            let x = a + b * 0x100 + c * 0x10000 + d * 0x1000000;
            &&& 0 <= x < 0x100000000
            &&& x % 0x100 == a
            &&& (x / 0x100) % 0x100 == b
            &&& (x / 0x10000) % 0x100 == c
            &&& x / 0x1000000 == d
        }),
{
    let x = a + b * 0x100 + c * 0x10000 + d * 0x1000000;
    let y = b + c * 0x100 + d * 0x10000;
    let z = c + d * 0x100;
    assert(x == a + 0x100 * y);
    assert(x / 0x100 == y);
    assert(y == b + 0x100 * z);
    assert(y / 0x100 == z);
    assert(x / 0x10000 == z);
    assert(x / 0x1000000 == d);
}

/// Where the bytes of a word lie.
proof fn lemma_bytes_of(words: Seq<u32>, i: int)
    requires
        0 <= i < words.len(),
    ensures
        bytes_of(words).len() == 4 * words.len(),
        bytes_of(words).subrange(4 * i, 4 * i + 4) == le_bytes(words[i]),
    decreases words.len(),
{
    let before = words.drop_last();
    if before.len() == 0 {
        assert(bytes_of(before).len() == 0);
    } else {
        lemma_bytes_of(before, 0);
    }
    if i == words.len() - 1 {
        assert(bytes_of(words).subrange(4 * i, 4 * i + 4) =~= le_bytes(words[i]));
    } else {
        lemma_bytes_of(before, i);
        assert(bytes_of(words).subrange(4 * i, 4 * i + 4) =~= bytes_of(before).subrange(
            4 * i,
            4 * i + 4,
        ));
    }
}

/// The bytes of words after words.
proof fn lemma_bytes_of_concat(a: Seq<u32>, b: Seq<u32>)
    ensures
        bytes_of(a + b) == bytes_of(a) + bytes_of(b),
    decreases b.len(),
{
    if b.len() == 0 {
        assert(a + b =~= a);
        assert(bytes_of(a) + bytes_of(b) =~= bytes_of(a));
    } else {
        lemma_bytes_of_concat(a, b.drop_last());
        assert((a + b).drop_last() =~= a + b.drop_last());
        assert(bytes_of(a) + bytes_of(b.drop_last()) + le_bytes(b.last()) =~= bytes_of(a) + (
        bytes_of(b.drop_last()) + le_bytes(b.last())));
    }
}

/// Reading words gives back the words that were written.
pub proof fn law_words_read_back(words: Seq<u32>)
    ensures
        bytes_of(words).len() == 4 * words.len(),
        words_of(bytes_of(words)) == words,
{
    if words.len() > 0 {
        lemma_bytes_of(words, 0);
    }
    assert forall|i: int| 0 <= i < words.len() implies words_of(bytes_of(words))[i] == words[i] by {
        lemma_bytes_of(words, i);
        lemma_word_round_trip(words[i], Seq::empty());
    }
    assert(words_of(bytes_of(words)) =~= words);
}

/// Writing the words of a file gives back the file.
pub proof fn law_bytes_write_back(bytes: Seq<u8>)
    requires
        bytes.len() % 4 == 0,
    ensures
        bytes_of(words_of(bytes)) == bytes,
    decreases bytes.len(),
{
    let words = words_of(bytes);
    if bytes.len() == 0 {
        assert(bytes_of(words) =~= bytes);
    } else {
        let n = bytes.len() - 4;
        let before = bytes.take(n);
        law_bytes_write_back(before);
        assert forall|i: int| 0 <= i < words.len() - 1 implies words_of(before)[i]
            == words.drop_last()[i] by {
            assert(before.subrange(4 * i, 4 * i + 4) =~= bytes.subrange(4 * i, 4 * i + 4));
        }
        assert(words_of(before) =~= words.drop_last());
        let tail = bytes.subrange(n, n + 4);
        assert(words.last() == le_value(tail));
        lemma_word_round_trip(0, tail);
        assert(before + tail =~= bytes);
    }
}

/// The words of a file are its bytes four by four, least significant first, and so are
/// the bytes of the words that are written.
pub proof fn law_words_are_little_endian(words: Seq<u32>, bytes: Seq<u8>, i: int)
    requires
        0 <= i,
    ensures
        words_of(bytes).len() == bytes.len() / 4,
        4 * i + 4 <= bytes.len() ==> words_of(bytes)[i] == bytes[4 * i] + 256 * bytes[4 * i + 1]
            + 65536 * bytes[4 * i + 2] + 16777216 * bytes[4 * i + 3],
        i < words.len() ==> {
            let b = bytes_of(words);
            &&& b.len() == 4 * words.len()
            &&& words[i] == b[4 * i] + 256 * b[4 * i + 1] + 65536 * b[4 * i + 2] + 16777216 * b[4
                * i + 3]
        },
{
    if 4 * i + 4 <= bytes.len() {
        let s = bytes.subrange(4 * i, 4 * i + 4);
        lemma_digits(s[0] as int, s[1] as int, s[2] as int, s[3] as int);
        assert(words_of(bytes)[i] == le_value(s));
    }
    if i < words.len() {
        lemma_bytes_of(words, i);
        let b = bytes_of(words);
        let s = b.subrange(4 * i, 4 * i + 4);
        lemma_word_round_trip(words[i], s);
        lemma_digits(s[0] as int, s[1] as int, s[2] as int, s[3] as int);
        assert(le_value(s) == words[i]);
    }
}

/// Adds the bytes of `words` to a file.
fn write_words(bytes: &mut Vec<u8>, words: &Vec<u32>)
    ensures
        final(bytes)@ == old(bytes)@ + bytes_of(words@),
{
    let n: usize = words.len();
    let mut i: usize = 0;
    assert(words@.take(0) =~= Seq::<u32>::empty());
    assert(bytes@ + Seq::<u8>::empty() =~= bytes@);
    while i < n
        invariant
            i <= n,
            n == words@.len(),
            bytes@ == old(bytes)@ + bytes_of(words@.take(i as int)),
        decreases n - i,
    {
        let x: u32 = words[i];
        let ghost before = bytes@;
        bytes.push((x % 0x100) as u8);
        bytes.push(((x / 0x100) % 0x100) as u8);
        bytes.push(((x / 0x10000) % 0x100) as u8);
        bytes.push((x / 0x1000000) as u8);
        proof {
            assert(words@.take(i + 1).drop_last() =~= words@.take(i as int));
            assert(bytes@ =~= before + le_bytes(x));
            assert(before + le_bytes(x) =~= old(bytes)@ + (bytes_of(words@.take(i as int))
                + le_bytes(x)));
        }
        i += 1;
    }
    assert(words@.take(n as int) =~= words@);
}

/// The words of a file.
fn read_words(bytes: &[u8]) -> (words: Vec<u32>)
    ensures
        words@ == words_of(bytes@),
{
    let len: usize = bytes.len();
    let n: usize = len / 4;
    let mut words: Vec<u32> = Vec::with_capacity(n);
    let mut i: usize = 0;
    while i < n
        invariant
            i <= n,
            len == bytes@.len(),
            n == len / 4,
            words@.len() == i,
            forall|k: int| 0 <= k < i ==> words@[k] == words_of(bytes@)[k],
        decreases n - i,
    {
        let part = slice_subrange(bytes, 4 * i, 4 * i + 4);
        let a: u32 = part[0] as u32;
        let b: u32 = part[1] as u32;
        let c: u32 = part[2] as u32;
        let d: u32 = part[3] as u32;
        words.push(a + b * 0x100 + c * 0x10000 + d * 0x1000000);
        i += 1;
    }
    assert(words@ =~= words_of(bytes@));
    words
}

impl<T> Head<T> {
    /// The numbers of a head in the order in which they are stored. The width is not
    /// stored: whoever loads a head gives it.
    pub open spec fn flat(self) -> Seq<T> {
        self.input_w@ + self.input_b@ + self.output_w@ + self.output_b@
    }
}

/// The number of numbers in a head of width `width`.
pub fn floats(width: usize) -> (n: usize)
    requires
        head_floats(width as int) <= usize::MAX,
    ensures
        n == head_floats(width as int),
{
    INPUTS * width + width + width * CLASSES + CLASSES
}

/// The length of the file of a head of width `width`, if `usize` holds it.
pub fn head_bytes(width: usize) -> (r: Option<usize>)
    ensures
        r == (if FLOAT_BYTES * head_floats(width as int) <= usize::MAX {
            Some((FLOAT_BYTES * head_floats(width as int)) as usize)
        } else {
            None::<usize>
        }),
{
    let per_unit: usize = FLOAT_BYTES * (INPUTS + 1 + CLASSES);
    assert(per_unit == 3180);
    match width.checked_mul(per_unit) {
        Some(bytes) => bytes.checked_add(FLOAT_BYTES * CLASSES),
        None => None,
    }
}

/// What loading a head of width `width` from a file gives.
pub open spec fn loaded(bytes: Seq<u8>, width: usize, r: Result<Head<u32>, HeadError>) -> bool {
    match r {
        Ok(head) => {
            &&& bytes.len() == FLOAT_BYTES * head_floats(width as int)
            &&& head.wf()
            &&& head.width == width
            &&& head.flat() == words_of(bytes)
        },
        Err(e) => {
            &&& bytes.len() != FLOAT_BYTES * head_floats(width as int)
            &&& e == (HeadError::Length {
                actual: bytes.len() as usize,
                expected: (FLOAT_BYTES * head_floats(width as int)) as usize,
            })
        },
    }
}

impl Head<u32> {
    /// The head of width `width` that a file holds, each number by its bit
    /// pattern.
    pub fn decode(bytes: &[u8], width: usize) -> (r: Result<Head<u32>, HeadError>)
        requires
            0 < width,
            FLOAT_BYTES * head_floats(width as int) <= usize::MAX,
        ensures
            loaded(bytes@, width, r),
    {
        let expected: usize = floats(width) * FLOAT_BYTES;
        if bytes.len() != expected {
            return Err(HeadError::Length { actual: bytes.len(), expected });
        }
        let words = read_words(bytes);
        let a: usize = INPUTS * width;
        let b: usize = a + width;
        let c: usize = b + width * CLASSES;
        let d: usize = c + CLASSES;
        let head = Head {
            width,
            input_w: slice_to_vec(slice_subrange(words.as_slice(), 0, a)),
            input_b: slice_to_vec(slice_subrange(words.as_slice(), a, b)),
            output_w: slice_to_vec(slice_subrange(words.as_slice(), b, c)),
            output_b: slice_to_vec(slice_subrange(words.as_slice(), c, d)),
        };
        assert(head.flat() =~= words_of(bytes@));
        Ok(head)
    }

    /// The file that holds a head.
    pub fn encode(&self) -> (bytes: Vec<u8>)
        ensures
            bytes@ == bytes_of(self.flat()),
    {
        let mut bytes: Vec<u8> = Vec::new();
        write_words(&mut bytes, &self.input_w);
        write_words(&mut bytes, &self.input_b);
        write_words(&mut bytes, &self.output_w);
        write_words(&mut bytes, &self.output_b);
        proof {
            lemma_bytes_of_concat(self.input_w@, self.input_b@);
            lemma_bytes_of_concat(self.input_w@ + self.input_b@, self.output_w@);
            lemma_bytes_of_concat(
                self.input_w@ + self.input_b@ + self.output_w@,
                self.output_b@,
            );
            assert(Seq::<u8>::empty() + bytes_of(self.input_w@) =~= bytes_of(self.input_w@));
        }
        bytes
    }

    /// The head of a narrow network.
    pub fn load_narrow(bytes: &[u8]) -> (r: Result<Head<u32>, HeadError>)
        ensures
            loaded(bytes@, WIDTH, r),
    {
        Head::<u32>::decode(bytes, WIDTH)
    }

    /// The head of a dense network of width `width`.
    pub fn load_dense(bytes: &[u8], width: usize) -> (r: Result<Head<u32>, HeadError>)
        ensures
            width == 0 ==> r == Err::<Head<u32>, HeadError>(HeadError::Width(WidthError::Zero)),
            width > MAX_WIDTH ==> r == Err::<Head<u32>, HeadError>(
                HeadError::Width(WidthError::TooLarge),
            ),
            0 < width <= MAX_WIDTH ==> loaded(bytes@, width, r),
    {
        match validate_width(width) {
            Ok(()) => {},
            Err(e) => {
                return Err(HeadError::Width(e));
            },
        }
        Head::<u32>::decode(bytes, width)
    }

    /// The head of a perceptron with `hidden` hidden units.
    pub fn load_mlp(bytes: &[u8], hidden: usize) -> (r: Result<Head<u32>, HeadError>)
        requires
            FLOAT_BYTES * head_floats(hidden as int) <= usize::MAX,
        ensures
            hidden == 0 ==> r == Err::<Head<u32>, HeadError>(HeadError::NoHidden),
            0 < hidden ==> loaded(bytes@, hidden, r),
    {
        if hidden == 0 {
            return Err(HeadError::NoHidden);
        }
        Head::<u32>::decode(bytes, hidden)
    }
}

/// A head is stored as its input weights, its input bias, its output weights and its
/// output bias, one after the other. A file is loaded if and only if it is as long as
/// these take: four bytes for each of 784 input weights, a bias and ten output weights
/// per unit, and for ten output biases. The head then has the width asked for and holds
/// the words of the file.
pub proof fn law_stored_heads(
    head: Head<u32>,
    bytes: Seq<u8>,
    width: usize,
    r: Result<Head<u32>, HeadError>,
)
    ensures
        head_floats(width as int) == 784 * width + width + 10 * width + 10,
        head.flat() == head.input_w@ + head.input_b@ + head.output_w@ + head.output_b@,
        loaded(bytes, width, r) == (if bytes.len() == 4 * (795 * width + 10) {
            &&& r is Ok
            &&& r->Ok_0.wf()
            &&& r->Ok_0.width == width
            &&& r->Ok_0.flat() == words_of(bytes)
        } else {
            r == Err::<Head<u32>, HeadError>(
                HeadError::Length {
                    actual: bytes.len() as usize,
                    expected: (4 * (795 * width + 10)) as usize,
                },
            )
        }),
{
}

/// Loading a saved head gives it back: the file has the length that loading
/// asks for, and every head of the same width that it holds is the one saved.
pub proof fn law_saved_head_loads(saved: Head<u32>, read: Head<u32>)
    requires
        saved.wf(),
        read.wf(),
        read.width == saved.width,
        read.flat() == words_of(bytes_of(saved.flat())),
    ensures
        bytes_of(saved.flat()).len() == FLOAT_BYTES * head_floats(saved.width as int),
        read.input_w@ == saved.input_w@,
        read.input_b@ == saved.input_b@,
        read.output_w@ == saved.output_w@,
        read.output_b@ == saved.output_b@,
        read@ == saved@,
{
    law_words_read_back(saved.flat());
    let x = saved.flat();
    let a = INPUTS * saved.width;
    let b = a + saved.width;
    let c = b + saved.width * CLASSES;
    let d = c + CLASSES;
    assert(read.input_w@ =~= x.subrange(0, a) && saved.input_w@ =~= x.subrange(0, a));
    assert(read.input_b@ =~= x.subrange(a, b) && saved.input_b@ =~= x.subrange(a, b));
    assert(read.output_w@ =~= x.subrange(b, c) && saved.output_w@ =~= x.subrange(b, c));
    assert(read.output_b@ =~= x.subrange(c, d) && saved.output_b@ =~= x.subrange(c, d));
}

/// Saving a loaded head gives back the file.
pub proof fn law_loaded_head_saves(bytes: Seq<u8>, width: usize, head: Head<u32>)
    requires
        loaded(bytes, width, Ok(head)),
    ensures
        bytes_of(head.flat()) == bytes,
{
    law_bytes_write_back(bytes);
}

} // verus!
