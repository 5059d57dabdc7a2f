use vstd::prelude::*;

verus! {

/// `result` is a value that folding the step `f` over `xs` from the left,
/// starting at `acc`, can produce: each step calls `f(acc, x)` and goes on
/// with what that call returned.
pub open spec fn folds_to<T, F: Fn(T, T) -> T>(f: F, acc: T, xs: Seq<T>, result: T) -> bool
    decreases xs.len(),
{
    if xs.len() == 0 {
        result == acc
    } else {
        exists|next: T|
            #[trigger] call_ensures(f, (acc, xs[0]), next) && folds_to(f, next, xs.drop_first(), result)
    }
}

/// Like `folds_to`, over two sequences taken side by side: each step calls
/// `f(acc, xs[k], ys[k])`.
pub open spec fn folds_pairs_to<T, F: Fn(T, T, T) -> T>(
    f: F,
    acc: T,
    xs: Seq<T>,
    ys: Seq<T>,
    result: T,
) -> bool
    decreases xs.len(),
{
    if xs.len() == 0 {
        result == acc
    } else {
        exists|next: T|
            #[trigger] call_ensures(f, (acc, xs[0], ys[0]), next) && folds_pairs_to(
                f,
                next,
                xs.drop_first(),
                ys.drop_first(),
                result,
            )
    }
}

/// `result` is a column where a left-to-right scan of `xs` for its largest
/// element can end: the scan is at column `start` holding `best` (found at
/// `best_idx`), and moves its choice to column `c` whenever `greater(xs[c], best)`
/// returns `true`.
pub open spec fn argmax_scan<T, G: Fn(T, T) -> bool>(
    greater: G,
    best: T,
    best_idx: int,
    xs: Seq<T>,
    start: int,
    result: int,
) -> bool
    decreases xs.len() - start,
{
    if start >= xs.len() {
        result == best_idx
    } else {
        exists|b: bool|
            #[trigger] call_ensures(greater, (xs[start], best), b) && if b {
                argmax_scan(greater, xs[start], start, xs, start + 1, result)
            } else {
                argmax_scan(greater, best, best_idx, xs, start + 1, result)
            }
    }
}

/// One step of an argmax scan (see `lemma_folds_step`).
pub proof fn lemma_argmax_step<T, G: Fn(T, T) -> bool>(
    greater: G,
    lowest: T,
    best: T,
    best_idx: int,
    xs: Seq<T>,
    c: int,
    b: bool,
)
    requires
        0 <= c < xs.len(),
        call_ensures(greater, (xs[c], best), b),
        forall|r: int| #[trigger]
            argmax_scan(greater, best, best_idx, xs, c, r) ==> argmax_scan(greater, lowest, 0, xs, 0, r),
    ensures
        b ==> forall|r: int| #[trigger]
            argmax_scan(greater, xs[c], c, xs, c + 1, r) ==> argmax_scan(greater, lowest, 0, xs, 0, r),
        !b ==> forall|r: int| #[trigger]
            argmax_scan(greater, best, best_idx, xs, c + 1, r) ==> argmax_scan(
                greater,
                lowest,
                0,
                xs,
                0,
                r,
            ),
{
    if b {
        assert forall|r: int| #[trigger] argmax_scan(greater, xs[c], c, xs, c + 1, r) implies argmax_scan(
            greater,
            lowest,
            0,
            xs,
            0,
            r,
        ) by {
            assert(argmax_scan(greater, best, best_idx, xs, c, r));
        }
    } else {
        assert forall|r: int| #[trigger]
            argmax_scan(greater, best, best_idx, xs, c + 1, r) implies argmax_scan(
            greater,
            lowest,
            0,
            xs,
            0,
            r,
        ) by {
            assert(argmax_scan(greater, best, best_idx, xs, c, r));
        }
    }
}

/// One step of a left fold: if every result of the remaining fold from `acc`
/// is a result of the whole fold, so is every result of the remaining fold
/// from the value that the step returned.
pub proof fn lemma_folds_step<T, F: Fn(T, T) -> T>(
    f: F,
    start: T,
    acc: T,
    next: T,
    xs: Seq<T>,
    k: int,
)
    requires
        0 <= k < xs.len(),
        call_ensures(f, (acc, xs[k]), next),
        forall|r: T| #[trigger] folds_to(f, acc, xs.skip(k), r) ==> folds_to(f, start, xs, r),
    ensures
        forall|r: T| #[trigger] folds_to(f, next, xs.skip(k + 1), r) ==> folds_to(f, start, xs, r),
{
    assert(xs.skip(k).drop_first() =~= xs.skip(k + 1));
    assert forall|r: T| #[trigger] folds_to(f, next, xs.skip(k + 1), r) implies folds_to(
        f,
        start,
        xs,
        r,
    ) by {
        assert(xs.skip(k)[0] == xs[k]);
        assert(call_ensures(f, (acc, xs.skip(k)[0]), next));
        assert(folds_to(f, acc, xs.skip(k), r));
    }
}

/// One step of a paired left fold (see `lemma_folds_step`).
pub proof fn lemma_folds_pairs_step<T, F: Fn(T, T, T) -> T>(
    f: F,
    start: T,
    acc: T,
    next: T,
    xs: Seq<T>,
    ys: Seq<T>,
    k: int,
)
    requires
        0 <= k < xs.len(),
        xs.len() == ys.len(),
        call_ensures(f, (acc, xs[k], ys[k]), next),
        forall|r: T| #[trigger]
            folds_pairs_to(f, acc, xs.skip(k), ys.skip(k), r) ==> folds_pairs_to(f, start, xs, ys, r),
    ensures
        forall|r: T| #[trigger]
            folds_pairs_to(f, next, xs.skip(k + 1), ys.skip(k + 1), r) ==> folds_pairs_to(
                f,
                start,
                xs,
                ys,
                r,
            ),
{
    assert(xs.skip(k).drop_first() =~= xs.skip(k + 1));
    assert(ys.skip(k).drop_first() =~= ys.skip(k + 1));
    assert forall|r: T| #[trigger]
        folds_pairs_to(f, next, xs.skip(k + 1), ys.skip(k + 1), r) implies folds_pairs_to(
        f,
        start,
        xs,
        ys,
        r,
    ) by {
        assert(xs.skip(k)[0] == xs[k]);
        assert(ys.skip(k)[0] == ys[k]);
        assert(call_ensures(f, (acc, xs.skip(k)[0], ys.skip(k)[0]), next));
        assert(folds_pairs_to(f, acc, xs.skip(k), ys.skip(k), r));
    }
}

/// `gt` is a strict total order on `T`: irreflexive, transitive, and any two
/// different values are ordered one way or the other.
pub open spec fn is_strict_total_order<T>(gt: spec_fn(T, T) -> bool) -> bool {
    &&& forall|x: T| !#[trigger] gt(x, x)
    &&& forall|x: T, y: T, z: T| #[trigger] gt(x, y) && #[trigger] gt(y, z) ==> gt(x, z)
    &&& forall|x: T, y: T| x != y ==> #[trigger] gt(x, y) || #[trigger] gt(y, x)
}

/// The scan invariant behind `law_argmax_scan_is_first_maximum`.
proof fn lemma_argmax_scan_maximum<T, G: Fn(T, T) -> bool>(
    greater: G,
    gt: spec_fn(T, T) -> bool,
    lowest: T,
    best: T,
    best_idx: int,
    xs: Seq<T>,
    start: int,
    result: int,
)
    requires
        is_strict_total_order(gt),
        forall|x: T, y: T, b: bool| call_ensures(greater, (x, y), b) ==> b == gt(x, y),
        forall|c: int| 0 <= c < xs.len() ==> !gt(lowest, #[trigger] xs[c]),
        xs.len() > 0,
        0 <= start <= xs.len(),
        0 <= best_idx < xs.len(),
        start == 0 ==> best == lowest && best_idx == 0,
        start > 0 ==> best == xs[best_idx] && best_idx < start,
        forall|c: int| 0 <= c < start ==> !gt(#[trigger] xs[c], best),
        forall|c: int| 0 <= c < best_idx ==> gt(best, #[trigger] xs[c]),
        argmax_scan(greater, best, best_idx, xs, start, result),
    ensures
        0 <= result < xs.len(),
        forall|c: int| 0 <= c < xs.len() ==> !gt(#[trigger] xs[c], xs[result]),
        forall|c: int| 0 <= c < result ==> gt(xs[result], #[trigger] xs[c]),
    decreases xs.len() - start,
{
    if start >= xs.len() {
        assert(best == xs[best_idx]);
    } else {
        let b = choose|b: bool|
            #[trigger] call_ensures(greater, (xs[start], best), b) && if b {
                argmax_scan(greater, xs[start], start, xs, start + 1, result)
            } else {
                argmax_scan(greater, best, best_idx, xs, start + 1, result)
            };
        assert(b == gt(xs[start], best));
        if b {
            assert forall|c: int| 0 <= c < start + 1 implies !gt(#[trigger] xs[c], xs[start]) by {
                if c < start && gt(xs[c], xs[start]) {
                    assert(gt(xs[c], best));
                }
            }
            assert forall|c: int| 0 <= c < start implies gt(xs[start], #[trigger] xs[c]) by {
                assert(!gt(xs[c], best));
                if xs[c] != best {
                    assert(gt(best, xs[c]));
                }
            }
            lemma_argmax_scan_maximum(greater, gt, lowest, xs[start], start, xs, start + 1, result);
        } else {
            if start == 0 {
                assert(!gt(lowest, xs[0]));
                assert(xs[0] == best);
            }
            lemma_argmax_scan_maximum(greater, gt, lowest, best, best_idx, xs, start + 1, result);
        }
    }
}

/// Law (argmax): when `greater` computes a strict total order `gt` and
/// `lowest` lies below or at every element, a complete argmax scan of a
/// non-empty `xs` ends on a column whose element no other element exceeds,
/// and every earlier column holds a strictly smaller element: the first
/// position of the maximum.
pub proof fn law_argmax_scan_is_first_maximum<T, G: Fn(T, T) -> bool>(
    greater: G,
    gt: spec_fn(T, T) -> bool,
    lowest: T,
    xs: Seq<T>,
    result: int,
)
    requires
        is_strict_total_order(gt),
        forall|x: T, y: T, b: bool| call_ensures(greater, (x, y), b) ==> b == gt(x, y),
        forall|c: int| 0 <= c < xs.len() ==> !gt(lowest, #[trigger] xs[c]),
        xs.len() > 0,
        argmax_scan(greater, lowest, 0, xs, 0, result),
    ensures
        0 <= result < xs.len(),
        forall|c: int| 0 <= c < xs.len() ==> !gt(#[trigger] xs[c], xs[result]),
        forall|c: int| 0 <= c < result ==> gt(xs[result], #[trigger] xs[c]),
{
    lemma_argmax_scan_maximum(greater, gt, lowest, lowest, 0, xs, 0, result);
}

/// The pairs `(xs[k], ys[k])`, side by side.
pub open spec fn zip_seqs<T>(xs: Seq<T>, ys: Seq<T>) -> Seq<(T, T)> {
    Seq::new(xs.len(), |k: int| (xs[k], ys[k]))
}

/// Law: where every call of `f` returns `g` of its arguments, the only value
/// a paired fold can give is vstd's left fold of `g` over all the pairs, one
/// step per pair, from the first to the last.
pub proof fn law_folds_pairs_is_fold_left<T, F: Fn(T, T, T) -> T>(
    f: F,
    g: spec_fn(T, T, T) -> T,
    acc: T,
    xs: Seq<T>,
    ys: Seq<T>,
    result: T,
)
    requires
        xs.len() == ys.len(),
        forall|a: T, x: T, y: T, v: T| call_ensures(f, (a, x, y), v) ==> v == g(a, x, y),
        folds_pairs_to(f, acc, xs, ys, result),
    ensures
        result == zip_seqs(xs, ys).fold_left(acc, |a: T, p: (T, T)| g(a, p.0, p.1)),
    decreases xs.len(),
{
    let h = |a: T, p: (T, T)| g(a, p.0, p.1);
    zip_seqs(xs, ys).lemma_fold_left_alt(acc, h);
    if xs.len() > 0 {
        let next = choose|next: T|
            #[trigger] call_ensures(f, (acc, xs[0], ys[0]), next) && folds_pairs_to(
                f,
                next,
                xs.drop_first(),
                ys.drop_first(),
                result,
            );
        law_folds_pairs_is_fold_left(f, g, next, xs.drop_first(), ys.drop_first(), result);
        zip_seqs(xs.drop_first(), ys.drop_first()).lemma_fold_left_alt(next, h);
        assert(zip_seqs(xs, ys).subrange(1, xs.len() as int) =~= zip_seqs(
            xs.drop_first(),
            ys.drop_first(),
        ));
        reveal_with_fuel(Seq::fold_left_alt, 1);
    }
}

/// Law: where every call of `f` returns `g` of its arguments, the only value
/// a fold can give is vstd's left fold of `g` over all of `xs`.
pub proof fn law_folds_is_fold_left<T, F: Fn(T, T) -> T>(
    f: F,
    g: spec_fn(T, T) -> T,
    acc: T,
    xs: Seq<T>,
    result: T,
)
    requires
        forall|a: T, x: T, v: T| call_ensures(f, (a, x), v) ==> v == g(a, x),
        folds_to(f, acc, xs, result),
    ensures
        result == xs.fold_left(acc, g),
    decreases xs.len(),
{
    xs.lemma_fold_left_alt(acc, g);
    if xs.len() > 0 {
        let next = choose|next: T|
            #[trigger] call_ensures(f, (acc, xs[0]), next) && folds_to(f, next, xs.drop_first(), result);
        law_folds_is_fold_left(f, g, next, xs.drop_first(), result);
        xs.drop_first().lemma_fold_left_alt(next, g);
        assert(xs.subrange(1, xs.len() as int) =~= xs.drop_first());
        reveal_with_fuel(Seq::fold_left_alt, 1);
    }
}

} // verus!
