use vstd::prelude::*;

use crate::tensor::{flat_index, lemma_flat_index_bounds, lemma_flat_index_injective, Tensor};

verus! {

/// The IDX magic number of an image file: unsigned bytes, three dimensions.
pub const IMAGE_MAGIC: u32 = 2051;

/// The IDX magic number of a label file: unsigned bytes, one dimension.
pub const LABEL_MAGIC: u32 = 2049;

/// MNIST images are square, this many pixels on each side.
pub const IMAGE_SIDE: u32 = 28;

/// Pixels per image (`IMAGE_SIDE * IMAGE_SIDE`).
pub const IMAGE_PIXELS: usize = 784;

/// MNIST labels are digits, so a one-hot label row has this many cells.
pub const DIGIT_CLASSES: usize = 10;

/// Why an IDX file was refused.
#[derive(Debug, Clone, Copy, PartialEq, Eq)]
pub enum IdxError {
    /// The file ends before its header or its payload does.
    Truncated,
    /// The magic number is not the one of the expected kind of file.
    WrongMagic,
    /// The images are not `IMAGE_SIDE x IMAGE_SIDE` pixels.
    WrongImageSize,
    /// The payload is not one byte per pixel of every image.
    LengthMismatch,
    /// A label's one-hot cell would fall past the end of the label tensor.
    LabelOutOfRange,
}

/// The big-endian unsigned 32-bit number in `s[off .. off + 4]`.
pub open spec fn be_u32(s: Seq<u8>, off: int) -> int {
    s[off] * 16777216 + s[off + 1] * 65536 + s[off + 2] * 256 + s[off + 3]
}

/// Law (big-endian decoding): the four bytes at `off` are the base-256 digits
/// of `be_u32(s, off)`, most significant first, and the number fits in 32 bits:
/// every byte counts in full, so each header value is read exactly.
pub proof fn law_be_u32_digits(s: Seq<u8>, off: int)
    requires
        0 <= off,
        off + 4 <= s.len(),
    ensures
        0 <= be_u32(s, off) < 0x1_0000_0000,
        be_u32(s, off) / 16777216 == s[off],
        (be_u32(s, off) / 65536) % 256 == s[off + 1],
        (be_u32(s, off) / 256) % 256 == s[off + 2],
        be_u32(s, off) % 256 == s[off + 3],
{
    let b0 = s[off] as int;
    let b1 = s[off + 1] as int;
    let b2 = s[off + 2] as int;
    let b3 = s[off + 3] as int;
    let v = be_u32(s, off);
    vstd::arithmetic::div_mod::lemma_fundamental_div_mod_converse(
        v,
        16777216,
        b0,
        b1 * 65536 + b2 * 256 + b3,
    );
    vstd::arithmetic::div_mod::lemma_fundamental_div_mod_converse(
        v,
        65536,
        b0 * 256 + b1,
        b2 * 256 + b3,
    );
    vstd::arithmetic::div_mod::lemma_fundamental_div_mod_converse(b0 * 256 + b1, 256, b0, b1);
    vstd::arithmetic::div_mod::lemma_fundamental_div_mod_converse(
        v,
        256,
        b0 * 65536 + b1 * 256 + b2,
        b3,
    );
    vstd::arithmetic::div_mod::lemma_fundamental_div_mod_converse(
        b0 * 65536 + b1 * 256 + b2,
        256,
        b0 * 256 + b1,
        b2,
    );
}

/// The first reason, in the order the header is read, for which `s` is not
/// an MNIST image file; `None` when it is one.
pub open spec fn image_file_error(s: Seq<u8>) -> Option<IdxError> {
    if s.len() < 4 {
        Some(IdxError::Truncated)
    } else if be_u32(s, 0) != IMAGE_MAGIC {
        Some(IdxError::WrongMagic)
    } else if s.len() < 16 {
        Some(IdxError::Truncated)
    } else if be_u32(s, 8) != IMAGE_SIDE || be_u32(s, 12) != IMAGE_SIDE {
        Some(IdxError::WrongImageSize)
    } else if be_u32(s, 4) * IMAGE_PIXELS != s.len() - 16 {
        Some(IdxError::LengthMismatch)
    } else {
        None
    }
}

/// The number of labels that the header of a label file announces.
pub open spec fn label_count(s: Seq<u8>) -> int {
    be_u32(s, 4)
}

/// The label byte at file position `k` (label number `k - 8`) has its one-hot
/// cell, at flat position `(k - 8) * DIGIT_CLASSES + label`, past the end of a
/// `count x DIGIT_CLASSES` label tensor.
pub open spec fn label_overflows(s: Seq<u8>, k: int) -> bool {
    (k - 8) * DIGIT_CLASSES + s[k] >= label_count(s) * DIGIT_CLASSES
}

/// The first reason for which `s` is not an MNIST label file; `None` when it is one.
/// Bytes after the announced labels are ignored. A label byte is refused only
/// where its one-hot cell would lie past the end of the label tensor; a byte
/// of 10 or more that stays inside marks a cell of a later row.
pub open spec fn label_file_error(s: Seq<u8>) -> Option<IdxError> {
    if s.len() < 4 {
        Some(IdxError::Truncated)
    } else if be_u32(s, 0) != LABEL_MAGIC {
        Some(IdxError::WrongMagic)
    } else if s.len() < 8 || s.len() < 8 + label_count(s) {
        Some(IdxError::Truncated)
    } else if exists|k: int| 8 <= k < 8 + label_count(s) && #[trigger] label_overflows(s, k) {
        Some(IdxError::LabelOutOfRange)
    } else {
        None
    }
}

/// Law: a label file with a sound header and all its label bytes is accepted
/// exactly when every label's one-hot cell lies inside the `count x 10`
/// label tensor, which is what `one_hot` needs of its labels.
pub proof fn law_labels_accepted_iff_one_hot_fits(s: Seq<u8>)
    requires
        s.len() >= 8,
        be_u32(s, 0) == LABEL_MAGIC,
        s.len() >= 8 + label_count(s),
    ensures
        label_file_error(s) is None <==> forall|r: int|
            0 <= r < label_count(s) ==> #[trigger] flat_index(r, s[8 + r] as int, DIGIT_CLASSES as int)
                < label_count(s) * DIGIT_CLASSES,
{
    if label_file_error(s) is None {
        assert forall|r: int| 0 <= r < label_count(s) implies #[trigger] flat_index(
            r,
            s[8 + r] as int,
            DIGIT_CLASSES as int,
        ) < label_count(s) * DIGIT_CLASSES by {
            assert(!label_overflows(s, 8 + r));
        }
    } else {
        let k = choose|k: int| 8 <= k < 8 + label_count(s) && #[trigger] label_overflows(s, k);
        assert(flat_index(k - 8, s[8 + (k - 8)] as int, DIGIT_CLASSES as int) >= label_count(s)
            * DIGIT_CLASSES);
    }
}

/// Reads the big-endian unsigned 32-bit number at `bytes[off .. off + 4]`.
fn read_be_u32(bytes: &[u8], off: usize) -> (v: u32)
    requires
        off + 4 <= bytes@.len(),
    ensures
        v == be_u32(bytes@, off as int),
{
    let b0 = bytes[off] as u32;
    let b1 = bytes[off + 1] as u32;
    let b2 = bytes[off + 2] as u32;
    let b3 = bytes[off + 3] as u32;
    b0 * 16777216 + b1 * 65536 + b2 * 256 + b3
}

/// Decodes an MNIST image file: a 16-byte header (magic number 2051, number
/// of images, rows, columns, each a big-endian `u32`; rows and columns must be
/// 28) and then one byte per pixel. The result has one image per row and
/// `IMAGE_PIXELS` raw pixel bytes per image.
pub fn parse_idx_images(bytes: &[u8]) -> (res: Result<Tensor<u8>, IdxError>)
    ensures
        match res {
            Ok(t) => {
                &&& image_file_error(bytes@) is None
                &&& t.wf()
                &&& t.shape == (be_u32(bytes@, 4) as usize, IMAGE_PIXELS)
                &&& t.data@ == bytes@.skip(16)
            },
            Err(e) => image_file_error(bytes@) == Some(e),
        },
{
    let len = bytes.len();
    if len < 4 {
        return Err(IdxError::Truncated);
    }
    if read_be_u32(bytes, 0) != IMAGE_MAGIC {
        return Err(IdxError::WrongMagic);
    }
    if len < 16 {
        return Err(IdxError::Truncated);
    }
    let count = read_be_u32(bytes, 4);
    let rows = read_be_u32(bytes, 8);
    let cols = read_be_u32(bytes, 12);
    if rows != IMAGE_SIDE || cols != IMAGE_SIDE {
        return Err(IdxError::WrongImageSize);
    }
    let payload = len - 16;
    if (count as usize) > payload / IMAGE_PIXELS || (count as usize) * IMAGE_PIXELS != payload {
        proof {
            if (count as usize) > payload / IMAGE_PIXELS {
                assert(count * IMAGE_PIXELS > payload) by (nonlinear_arith)
                    requires
                        count > payload / 784,
                ;
            }
        }
        return Err(IdxError::LengthMismatch);
    }
    let mut data: Vec<u8> = Vec::with_capacity(payload);
    let mut i: usize = 16;
    while i < len
        invariant
            len == bytes@.len(),
            16 <= i <= len,
            data@ == bytes@.subrange(16, i as int),
        decreases len - i,
    {
        data.push(bytes[i]);
        i += 1;
        assert(data@ =~= bytes@.subrange(16, i as int));
    }
    assert(data@ =~= bytes@.skip(16));
    Ok(Tensor::new(data, (count as usize, IMAGE_PIXELS)))
}

/// Decodes an MNIST label file: an 8-byte header (magic number 2049 and the
/// number of labels, each a big-endian `u32`) and then one byte per label
/// (a digit from 0 to 9 in MNIST files). A label whose one-hot cell would
/// fall past the end of the `count x 10` label tensor is refused.
pub fn parse_idx_labels(bytes: &[u8]) -> (res: Result<Vec<u8>, IdxError>)
    ensures
        match res {
            Ok(labels) => {
                &&& label_file_error(bytes@) is None
                &&& labels@ == bytes@.subrange(8, 8 + label_count(bytes@))
            },
            Err(e) => label_file_error(bytes@) == Some(e),
        },
{
    let len = bytes.len();
    if len < 4 {
        return Err(IdxError::Truncated);
    }
    if read_be_u32(bytes, 0) != LABEL_MAGIC {
        return Err(IdxError::WrongMagic);
    }
    if len < 8 {
        return Err(IdxError::Truncated);
    }
    let count = read_be_u32(bytes, 4) as usize;
    if len - 8 < count {
        return Err(IdxError::Truncated);
    }
    let mut labels: Vec<u8> = Vec::with_capacity(count);
    let mut i: usize = 0;
    while i < count
        invariant
            len == bytes@.len(),
            be_u32(bytes@, 0) == LABEL_MAGIC,
            count == label_count(bytes@),
            8 + count <= len,
            i <= count,
            labels@ == bytes@.subrange(8, 8 + i),
            forall|k: int| 8 <= k < 8 + i ==> !#[trigger] label_overflows(bytes@, k),
        decreases count - i,
    {
        let label = bytes[8 + i];
        // The cell `i * 10 + label` lies past `count * 10` exactly when
        // `label >= (count - i) * 10`, which needs `count - i <= 25` for a byte.
        let rest = count - i;
        if rest <= 25 && label as usize >= rest * DIGIT_CLASSES {
            assert(label_overflows(bytes@, 8 + i as int));
            return Err(IdxError::LabelOutOfRange);
        }
        assert(!label_overflows(bytes@, 8 + i as int));
        labels.push(label);
        i += 1;
        assert(labels@ =~= bytes@.subrange(8, 8 + i));
    }
    Ok(labels)
}

/// Some label row `r < upto` marks flat position `p`: `r * classes + labels[r] == p`.
pub open spec fn marks(labels: Seq<u8>, classes: int, upto: int, p: int) -> bool {
    exists|r: int| 0 <= r < upto && #[trigger] flat_index(r, labels[r] as int, classes) == p
}

/// One row per label, `classes` cells per row, all `zero` except that label
/// `r` puts `one` at flat position `r * classes + labels[r]`, its cell in
/// row `r` when the label is below `classes`.
pub fn one_hot<T: Copy>(labels: &Vec<u8>, classes: usize, zero: T, one: T) -> (t: Tensor<T>)
    requires
        labels@.len() * classes <= usize::MAX,
        forall|r: int|
            0 <= r < labels@.len() ==> #[trigger] flat_index(r, labels@[r] as int, classes as int)
                < labels@.len() * classes,
    ensures
        t.wf(),
        t.shape == (labels@.len() as usize, classes),
        forall|p: int|
            0 <= p < t.data@.len() ==> #[trigger] t.data@[p] == (if marks(
                labels@,
                classes as int,
                labels@.len() as int,
                p,
            ) {
                one
            } else {
                zero
            }),
        forall|r: int|
            0 <= r < labels@.len() ==> t.data@[#[trigger] flat_index(
                r,
                labels@[r] as int,
                classes as int,
            )] == one,
        (forall|r: int| 0 <= r < labels@.len() ==> #[trigger] labels@[r] < classes) ==> forall|
            r: int,
            c: int,
        |
            0 <= r < labels@.len() && 0 <= c < classes ==> #[trigger] t.at(r, c) == (if c
                == labels@[r] as int {
                one
            } else {
                zero
            }),
{
    let n = labels.len();
    let mut t = Tensor::full((n, classes), zero);
    let mut r: usize = 0;
    while r < n
        invariant
            n == labels@.len(),
            n * classes <= usize::MAX,
            t.wf(),
            t.shape == (n, classes),
            forall|rr: int|
                0 <= rr < labels@.len() ==> #[trigger] flat_index(rr, labels@[rr] as int, classes as int)
                    < labels@.len() * classes,
            r <= n,
            forall|p: int|
                0 <= p < t.data@.len() ==> #[trigger] t.data@[p] == (if marks(
                    labels@,
                    classes as int,
                    r as int,
                    p,
                ) {
                    one
                } else {
                    zero
                }),
        decreases n - r,
    {
        let ghost q = flat_index(r as int, labels@[r as int] as int, classes as int);
        proof {
            assert(q < n * classes);
            assert(0 <= r * classes) by (nonlinear_arith);
        }
        let pos = r * classes + labels[r] as usize;
        let ghost prev = t.data@;
        t.data.set(pos, one);
        proof {
            assert forall|p: int| 0 <= p < t.data@.len() implies #[trigger] t.data@[p] == (if marks(
                labels@,
                classes as int,
                r + 1,
                p,
            ) {
                one
            } else {
                zero
            }) by {
                if p == q {
                    assert(flat_index(r as int, labels@[r as int] as int, classes as int) == p);
                    assert(marks(labels@, classes as int, r + 1, p));
                } else {
                    assert(prev[p] == t.data@[p]);
                    if marks(labels@, classes as int, r + 1, p) {
                        let w = choose|w: int|
                            0 <= w < r + 1 && #[trigger] flat_index(w, labels@[w] as int, classes as int)
                                == p;
                        assert(w != r);
                        assert(marks(labels@, classes as int, r as int, p));
                    }
                    if marks(labels@, classes as int, r as int, p) {
                        let w = choose|w: int|
                            0 <= w < r && #[trigger] flat_index(w, labels@[w] as int, classes as int) == p;
                        assert(flat_index(w, labels@[w] as int, classes as int) == p);
                        assert(marks(labels@, classes as int, r + 1, p));
                    }
                }
            }
        }
        r += 1;
    }
    proof {
        assert forall|rr: int| 0 <= rr < labels@.len() implies t.data@[#[trigger] flat_index(
            rr,
            labels@[rr] as int,
            classes as int,
        )] == one by {
            let p = flat_index(rr, labels@[rr] as int, classes as int);
            assert(marks(labels@, classes as int, n as int, p));
        }
        if forall|rr: int| 0 <= rr < labels@.len() ==> #[trigger] labels@[rr] < classes {
            assert forall|rr: int, c: int| 0 <= rr < labels@.len() && 0 <= c < classes implies #[trigger] t.at(
                rr,
                c,
            ) == (if c == labels@[rr] as int {
                one
            } else {
                zero
            }) by {
                lemma_flat_index_bounds(rr, c, n as int, classes as int);
                let p = flat_index(rr, c, classes as int);
                if c == labels@[rr] as int {
                    assert(marks(labels@, classes as int, n as int, p));
                } else if marks(labels@, classes as int, n as int, p) {
                    let w = choose|w: int|
                        0 <= w < n && #[trigger] flat_index(w, labels@[w] as int, classes as int) == p;
                    assert(labels@[w] < classes);
                    lemma_flat_index_injective(w, labels@[w] as int, rr, c, classes as int);
                }
            }
        }
    }
    t
}

/// How many of the first `k` positions hold the same class in `a` and `b`.
pub open spec fn matching_count(a: Seq<usize>, b: Seq<usize>, k: int) -> nat
    decreases k,
{
    if k <= 0 {
        0
    } else {
        matching_count(a, b, k - 1) + if a[k - 1] == b[k - 1] {
            1nat
        } else {
            0nat
        }
    }
}

/// Law (counting matches): the count over the first `k` positions is the
/// number of positions `i < k` where `a` and `b` agree, as vstd's filter of
/// those positions gives it; every agreeing position counts once, the last one too.
pub proof fn law_matching_count_is_filter(a: Seq<usize>, b: Seq<usize>, k: int)
    requires
        0 <= k <= a.len(),
        k <= b.len(),
    ensures
        matching_count(a, b, k) == Seq::new(k as nat, |i: int| i).filter(|i: int| a[i] == b[i]).len(),
    decreases k,
{
    let idx = Seq::new(k as nat, |i: int| i);
    reveal(Seq::filter);
    if k > 0 {
        law_matching_count_is_filter(a, b, k - 1);
        assert(idx.drop_last() =~= Seq::new((k - 1) as nat, |i: int| i));
        assert(idx.last() == k - 1);
    }
}

/// The number of rows whose predicted class equals the target class: the
/// count behind the accuracy of a classifier.
pub fn count_matching(predicted: &Vec<usize>, target: &Vec<usize>) -> (count: usize)
    requires
        predicted@.len() == target@.len(),
    ensures
        count == matching_count(predicted@, target@, predicted@.len() as int),
{
    let n = predicted.len();
    let mut count: usize = 0;
    let mut i: usize = 0;
    while i < n
        invariant
            n == predicted@.len(),
            n == target@.len(),
            i <= n,
            count == matching_count(predicted@, target@, i as int),
            count <= i,
        decreases n - i,
    {
        if predicted[i] == target[i] {
            count += 1;
        }
        i += 1;
    }
    count
}

} // verus!
