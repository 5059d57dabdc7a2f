use vstd::prelude::*;

use rand::seq::SliceRandom;

use crate::tensor::{row_range, Tensor};

verus! {

broadcast use vstd::seq_lib::group_to_multiset_ensures;

/// Shuffles `order` in place with `rand::seq::SliceRandom::shuffle`, drawing
/// from the thread-local generator `rand::rng()`.
/// The crate's source permutes the slice by swaps only, so the contract states
/// that the length and the multiset of elements are kept. Which order comes out
/// depends on chance and is left open. (`rand::rng()` panics if the operating
/// system's random source fails on first use; nothing here can rule that out.)
#[verifier::external_body]
fn shuffle_in_place(order: &mut Vec<usize>)
    ensures
        final(order)@.len() == old(order)@.len(),
        final(order)@.to_multiset() == old(order)@.to_multiset(),
{
    order.shuffle(&mut rand::rng());
}

/// The end of batch `k`: `(k + 1) * batch_size`, but no further than `n`.
pub open spec fn batch_end(k: int, batch_size: int, n: int) -> int {
    if (k + 1) * batch_size <= n {
        (k + 1) * batch_size
    } else {
        n
    }
}

/// Mini-batches of paired samples: row `i` of `x` goes with row `i` of `y`.
pub struct DataLoader<T> {
    pub x: Tensor<T>,
    pub y: Tensor<T>,
    pub batch_size: usize,
    pub shuffle: bool,
}

impl<T> DataLoader<T> {
    /// `x` and `y` are well formed and pair up row by row, and batches are
    /// not empty unless there are no samples at all.
    pub open spec fn ready(&self) -> bool {
        &&& self.x.wf()
        &&& self.y.wf()
        &&& self.x.shape.0 == self.y.shape.0
        &&& (self.batch_size > 0 || self.x.shape.0 == 0)
    }

    /// Law: in a batching of `order`, position `p` of the order is row
    /// `p % batch_size` of batch `p / batch_size`, so every position of the
    /// order lands in a batch (and, by `is_batching`, in no other place).
    pub proof fn law_position_in_batch(
        &self,
        order: Seq<usize>,
        batches: Seq<(Tensor<T>, Tensor<T>)>,
        p: int,
    )
        requires
            self.batch_size > 0,
            self.is_batching(order, batches),
            0 <= p < order.len(),
        ensures
            p / (self.batch_size as int) < batches.len(),
            p % (self.batch_size as int) < batches[p / (self.batch_size as int)].0.rows(),
            p % (self.batch_size as int) < batches[p / (self.batch_size as int)].1.rows(),
            forall|c: int|
                0 <= c < self.x.cols() ==> #[trigger] batches[p / (self.batch_size as int)].0.at(
                    p % (self.batch_size as int),
                    c,
                ) == self.x.at(order[p] as int, c),
            forall|c: int|
                0 <= c < self.y.cols() ==> #[trigger] batches[p / (self.batch_size as int)].1.at(
                    p % (self.batch_size as int),
                    c,
                ) == self.y.at(order[p] as int, c),
    {
        let bs = self.batch_size as int;
        let n = order.len() as int;
        let k = p / bs;
        let j = p % bs;
        vstd::arithmetic::div_mod::lemma_fundamental_div_mod(p, bs);
        assert(k * bs == bs * k) by (nonlinear_arith);
        assert(0 <= k) by (nonlinear_arith)
            requires
                0 <= p,
                0 < bs,
                k == p / bs,
        ;
        if k >= batches.len() {
            assert(batches.len() * bs <= k * bs) by (nonlinear_arith)
                requires
                    k >= batches.len(),
                    bs > 0,
            ;
            assert(false);
        }
        assert((k + 1) * bs == k * bs + bs) by (nonlinear_arith);
        let idx = order.subrange(k * bs, batch_end(k, bs, n));
        assert(batches[k].0.is_rows_of(&self.x, idx));
        assert(idx[j] == order[p]);
    }

    /// Law: a batching of `n` samples has `ceil(n / batch_size)` batches.
    pub proof fn law_batch_count(&self, order: Seq<usize>, batches: Seq<(Tensor<T>, Tensor<T>)>)
        requires
            self.batch_size > 0,
            self.is_batching(order, batches),
        ensures
            batches.len() == (order.len() + self.batch_size - 1) / (self.batch_size as int),
    {
        let bs = self.batch_size as int;
        let n = order.len() as int;
        let k = batches.len() as int;
        if k > 0 {
            assert((k - 1) * bs < n);
            assert((k - 1) * bs == k * bs - bs) by (nonlinear_arith);
        } else {
            assert(k == 0);
            assert(k * bs == 0) by (nonlinear_arith)
                requires
                    k == 0,
            ;
        }
        vstd::arithmetic::div_mod::lemma_fundamental_div_mod_converse(
            n + bs - 1,
            bs,
            k,
            n + bs - 1 - k * bs,
        );
    }

    /// `batches` cuts the sample order `order` into consecutive runs of
    /// `batch_size` samples (the last run may be shorter): batch `k` holds the
    /// rows `order[k * batch_size .. batch_end(k)]` of `x` and of `y`.
    pub open spec fn is_batching(&self, order: Seq<usize>, batches: Seq<(Tensor<T>, Tensor<T>)>) -> bool {
        let n = order.len() as int;
        let bs = self.batch_size as int;
        &&& batches.len() * bs >= n
        &&& forall|k: int| 0 <= k < batches.len() ==> #[trigger] (k * bs) < n
        &&& forall|k: int|
            0 <= k < batches.len() ==> {
                let idx = order.subrange(k * bs, batch_end(k, bs, n));
                &&& (#[trigger] batches[k]).0.is_rows_of(&self.x, idx)
                &&& batches[k].1.is_rows_of(&self.y, idx)
            }
    }
}

/// The first `hi - lo` elements of `v` starting at `lo`, as a vector of their own.
fn copy_range(v: &Vec<usize>, lo: usize, hi: usize) -> (res: Vec<usize>)
    requires
        lo <= hi <= v@.len(),
    ensures
        res@ == v@.subrange(lo as int, hi as int),
{
    let mut res: Vec<usize> = Vec::with_capacity(hi - lo);
    let mut i: usize = lo;
    while i < hi
        invariant
            lo <= i <= hi,
            hi <= v@.len(),
            res@ == v@.subrange(lo as int, i as int),
        decreases hi - i,
    {
        res.push(v[i]);
        i += 1;
        assert(res@ =~= v@.subrange(lo as int, i as int));
    }
    res
}

/// The sample order `0, 1, ..., n - 1`.
fn identity_order(n: usize) -> (res: Vec<usize>)
    ensures
        res@ == row_range(0, n as int),
{
    let mut res: Vec<usize> = Vec::with_capacity(n);
    let mut i: usize = 0;
    while i < n
        invariant
            i <= n,
            res@ == row_range(0, i as int),
        decreases n - i,
    {
        res.push(i);
        i += 1;
        assert(res@ =~= row_range(0, i as int));
    }
    res
}

impl<T: Copy> DataLoader<T> {
    /// A loader over the samples `x` with targets `y`; both must have the same number of rows.
    pub fn new(x: Tensor<T>, y: Tensor<T>, batch_size: usize, shuffle: bool) -> (res: Self)
        requires
            x.shape.0 == y.shape.0,
        ensures
            res.x == x,
            res.y == y,
            res.batch_size == batch_size,
            res.shuffle == shuffle,
    {
        DataLoader { x, y, batch_size, shuffle }
    }

    /// Cuts the samples, taken in the order `order`, into batches of
    /// `batch_size` (the last batch holds what is left).
    pub fn batches_in_order(&self, order: &Vec<usize>) -> (res: Vec<(Tensor<T>, Tensor<T>)>)
        requires
            self.ready(),
            order@.len() <= self.x.shape.0,
            forall|k: int| 0 <= k < order@.len() ==> #[trigger] order@[k] < self.x.shape.0,
        ensures
            self.is_batching(order@, res@),
    {
        let n = order.len();
        let bs = self.batch_size;
        let mut batches: Vec<(Tensor<T>, Tensor<T>)> = Vec::new();
        let mut start: usize = 0;
        let ghost mut k: int = 0;
        // Both buffers have usize lengths, which bounds every batch taken from them.
        let _x_len = self.x.data.len();
        let _y_len = self.y.data.len();
        while start < n
            invariant
                self.ready(),
                n == order@.len(),
                n <= self.x.shape.0,
                bs == self.batch_size,
                forall|i: int| 0 <= i < order@.len() ==> #[trigger] order@[i] < self.x.shape.0,
                self.x.data@.len() <= usize::MAX,
                self.y.data@.len() <= usize::MAX,
                start <= n,
                batches@.len() == k,
                0 <= k,
                start < n ==> start == k * bs,
                start == n ==> k * bs >= n,
                forall|kk: int| 0 <= kk < k ==> #[trigger] (kk * bs) < n,
                forall|kk: int|
                    0 <= kk < k ==> {
                        let idx = order@.subrange(kk * bs, batch_end(kk, bs as int, n as int));
                        &&& (#[trigger] batches@[kk]).0.is_rows_of(&self.x, idx)
                        &&& batches@[kk].1.is_rows_of(&self.y, idx)
                    },
            decreases n - start,
        {
            let end = if bs < n - start {
                start + bs
            } else {
                n
            };
            proof {
                assert((k + 1) * bs == k * bs + bs) by (nonlinear_arith);
                assert(end == batch_end(k, bs as int, n as int));
            }
            let idx = copy_range(order, start, end);
            proof {
                assert((end - start) * self.x.shape.1 <= self.x.shape.0 * self.x.shape.1)
                    by (nonlinear_arith)
                    requires
                        end - start <= self.x.shape.0,
                ;
                assert((end - start) * self.y.shape.1 <= self.y.shape.0 * self.y.shape.1)
                    by (nonlinear_arith)
                    requires
                        end - start <= self.y.shape.0,
                ;
            }
            let batch_x = self.x.get_rows(&idx);
            let batch_y = self.y.get_rows(&idx);
            batches.push((batch_x, batch_y));
            proof {
                assert(batches@[k].0.is_rows_of(&self.x, idx@));
                k = k + 1;
            }
            start = end;
        }
        batches
    }

    /// The batches of one epoch. Without shuffling they take the samples in
    /// order; with shuffling, in an order drawn at random: every sample still
    /// appears exactly once.
    pub fn get_batches(&self) -> (res: Vec<(Tensor<T>, Tensor<T>)>)
        requires
            self.ready(),
        ensures
            !self.shuffle ==> self.is_batching(row_range(0, self.x.rows()), res@),
            self.shuffle ==> exists|order: Seq<usize>|
                #[trigger] self.is_batching(order, res@) && order.to_multiset() == row_range(
                    0,
                    self.x.rows(),
                ).to_multiset(),
    {
        let n = self.x.shape.0;
        let mut order = identity_order(n);
        if self.shuffle {
            let ghost before = order@;
            shuffle_in_place(&mut order);
            proof {
                assert forall|k: int| 0 <= k < order@.len() implies #[trigger] order@[k] < n by {
                    assert(order@.contains(order@[k]));
                    assert(before.to_multiset().count(order@[k]) > 0);
                    assert(before.contains(order@[k]));
                }
            }
        }
        self.batches_in_order(&order)
    }
}

} // verus!
