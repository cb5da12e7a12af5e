//! Stable ranking: the first items of a list in some order.

use vstd::prelude::*;

verus! {

/// An order on the items `0..size`. Items that neither precede nor follow each
/// other are ranked by their position.
pub trait Order {
    /// Number of items.
    spec fn size(&self) -> int;

    /// Which item is ranked before which other, whatever their positions.
    spec fn less(&self) -> spec_fn(int, int) -> bool;

    /// No two items are ranked before each other, and an item between two others
    /// cannot be level with both.
    proof fn lemma_weak_order(&self, i: int, j: int, k: int)
        requires
            0 <= i < self.size(),
            0 <= j < self.size(),
            0 <= k < self.size(),
        ensures
            !((self.less())(i, j) && (self.less())(j, i)),
            (self.less())(i, k) ==> (self.less())(i, j) || (self.less())(j, k),
    ;

    /// Decides [`Order::less`].
    fn before(&self, i: usize, j: usize) -> (b: bool)
        requires
            i < self.size(),
            j < self.size(),
        ensures
            b == (self.less())(i as int, j as int),
    ;
}

/// Whether `i` comes before `j` in a stable ranking.
pub open spec fn precedes(less: spec_fn(int, int) -> bool, i: int, j: int) -> bool {
    less(i, j) || (!less(j, i) && i < j)
}

/// Whether `order` lists exactly the items of `0..n` that `keep` selects, sorted by
/// `less`, and items that are level in the order of their positions.
pub open spec fn is_ranking(
    less: spec_fn(int, int) -> bool,
    n: int,
    keep: Seq<bool>,
    order: Seq<int>,
) -> bool {
    &&& forall|a: int, b: int|
        0 <= a < b < order.len() ==> precedes(less, #[trigger] order[a], #[trigger] order[b])
    &&& forall|i: int| #[trigger] order.contains(i) <==> 0 <= i < n && keep[i]
}

/// The smaller of a limit and a length.
pub open spec fn at_most(limit: usize, len: nat) -> int {
    if limit < len {
        limit as int
    } else {
        len as int
    }
}

/// Positions as integers.
pub open spec fn indices(v: Seq<usize>) -> Seq<int> {
    v.map_values(|i: usize| i as int)
}

/// `order` with `x` inserted at position `q`.
spec fn inserted(order: Seq<int>, q: int, x: int) -> Seq<int> {
    order.take(q) + seq![x] + order.skip(q)
}

/// The place of an item in a ranking of items with smaller positions.
proof fn lemma_place<O: Order>(o: O, order: Seq<int>, x: int) -> (q: int)
    requires
        0 <= x < o.size(),
        forall|a: int| 0 <= a < order.len() ==> 0 <= #[trigger] order[a] < x,
        forall|a: int, b: int|
            0 <= a < b < order.len() ==> precedes(o.less(), #[trigger] order[a], #[trigger] order[b]),
    ensures
        0 <= q <= order.len(),
        forall|a: int| 0 <= a < q ==> !(o.less())(x, #[trigger] order[a]),
        forall|a: int| q <= a < order.len() ==> (o.less())(x, #[trigger] order[a]),
    decreases order.len(),
{
    if order.len() > 0 && (o.less())(x, order.last()) {
        let init = order.drop_last();
        assert forall|a: int, b: int| 0 <= a < b < init.len() implies precedes(
            o.less(),
            #[trigger] init[a],
            #[trigger] init[b],
        ) by {
            assert(init[a] == order[a] && init[b] == order[b]);
        }
        assert forall|a: int| 0 <= a < init.len() implies 0 <= #[trigger] init[a] < x by {
            assert(init[a] == order[a]);
        }
        let q = lemma_place(o, init, x);
        assert forall|a: int| 0 <= a < q implies !(o.less())(x, #[trigger] order[a]) by {
            assert(init[a] == order[a]);
        }
        assert forall|a: int| q <= a < order.len() implies (o.less())(x, #[trigger] order[a]) by {
            if a < init.len() {
                assert(init[a] == order[a]);
            }
        }
        q
    } else {
        let q = order.len() as int;
        assert forall|a: int| 0 <= a < q implies !(o.less())(x, #[trigger] order[a]) by {
            if (o.less())(x, order[a]) && a < q - 1 {
                assert(precedes(o.less(), order[a], order[q - 1]));
                o.lemma_weak_order(order[a], order[q - 1], order[a]);
                o.lemma_weak_order(x, order[q - 1], order[a]);
            }
        }
        q
    }
}

/// Inserting an item at its place gives a ranking again.
proof fn lemma_insert<O: Order>(
    o: O,
    n: int,
    keep: Seq<bool>,
    order: Seq<int>,
    q: int,
)
    requires
        0 <= n < o.size(),
        is_ranking(o.less(), n, keep, order),
        keep[n],
        0 <= q <= order.len(),
        forall|a: int| 0 <= a < q ==> !(o.less())(n, #[trigger] order[a]),
        forall|a: int| q <= a < order.len() ==> (o.less())(n, #[trigger] order[a]),
    ensures
        is_ranking(o.less(), n + 1, keep, inserted(order, q, n)),
{
    let new = inserted(order, q, n);
    assert forall|a: int, b: int| 0 <= a < b < new.len() implies precedes(
        o.less(),
        #[trigger] new[a],
        #[trigger] new[b],
    ) by {
        let a0 = if a < q {
            a
        } else {
            a - 1
        };
        let b0 = if b < q {
            b
        } else {
            b - 1
        };
        if a != q {
            assert(order.contains(order[a0]));
            assert(new[a] == order[a0]);
        }
        if b != q {
            assert(order.contains(order[b0]));
            assert(new[b] == order[b0]);
        }
    }
    assert forall|i: int| #[trigger] new.contains(i) <==> 0 <= i < n + 1 && keep[i] by {
        if new.contains(i) {
            let a = choose|a: int| 0 <= a < new.len() && new[a] == i;
            if a < q {
                assert(order[a] == i);
                assert(order.contains(i));
            } else if a > q {
                assert(order[a - 1] == i);
                assert(order.contains(i));
            }
        }
        if 0 <= i < n && keep[i] {
            assert(order.contains(i));
            let a = choose|a: int| 0 <= a < order.len() && order[a] == i;
            if a < q {
                assert(new[a] == i);
            } else {
                assert(new[a + 1] == i);
            }
        }
        if i == n {
            assert(new[q] == n);
        }
    }
}

/// A ranking of `0..n` is one of `0..n + 1`, if the last item is not selected.
proof fn lemma_skip<O: Order>(o: O, n: int, keep: Seq<bool>, order: Seq<int>)
    requires
        0 <= n,
        is_ranking(o.less(), n, keep, order),
        !keep[n],
    ensures
        is_ranking(o.less(), n + 1, keep, order),
{
    assert forall|i: int| #[trigger] order.contains(i) <==> 0 <= i < n + 1 && keep[i] by {}
}

/// The first `limit` items of the ranking of those items that `keep` marks.
pub fn first_ranked<O: Order>(o: &O, keep: &Vec<bool>, limit: usize) -> (best: Vec<usize>)
    requires
        o.size() == keep@.len(),
    ensures
        exists|order: Seq<int>|
            #[trigger] is_ranking(o.less(), keep@.len() as int, keep@, order) && indices(best@)
                == order.take(at_most(limit, order.len())),
{
    let ghost mut order: Seq<int> = Seq::empty();
    let mut best: Vec<usize> = Vec::new();
    let mut i: usize = 0;
    assert(indices(best@) =~= order.take(at_most(limit, order.len())));
    while i < keep.len()
        invariant
            o.size() == keep@.len(),
            0 <= i <= keep@.len(),
            is_ranking(o.less(), i as int, keep@, order),
            indices(best@) == order.take(at_most(limit, order.len())),
        decreases keep.len() - i,
    {
        if keep[i] {
            let ghost len = best@.len();
            proof {
                assert forall|a: int| 0 <= a < order.len() implies 0 <= #[trigger] order[a]
                    < i by {
                    assert(order.contains(order[a]));
                }
            }
            let ghost q = lemma_place(*o, order, i as int);
            let mut p: usize = best.len();
            assert(indices(best@).len() == len);
            assert forall|a: int| 0 <= a < len implies #[trigger] best@[a] == order[a]
                && best@[a] < i by {
                assert(indices(best@)[a] == best@[a]);
                assert(order.contains(order[a]));
            }
            while p > 0 && o.before(i, best[p - 1])
                invariant
                    o.size() == keep@.len(),
                    i < keep@.len(),
                    0 <= p <= best@.len(),
                    best@.len() == len,
                    len <= order.len(),
                    0 <= q <= order.len(),
                    forall|a: int|
                        0 <= a < len ==> #[trigger] best@[a] == order[a] && best@[a] < i,
                    forall|a: int| 0 <= a < q ==> !(o.less())(i as int, #[trigger] order[a]),
                    forall|a: int| q <= a < order.len() ==> (o.less())(i as int, #[trigger] order[a]),
                    p < len ==> q <= p,
                decreases p,
            {
                p = p - 1;
            }
            assert(p == if q < len {
                q
            } else {
                len as int
            }) by {
                if p > 0 {
                    assert(best@[p - 1] == order[p - 1]);
                }
            }
            let ghost before = best@;
            if p < limit {
                best.insert(p, i);
                if best.len() > limit {
                    let _dropped = best.pop();
                }
            }
            proof {
                lemma_insert(*o, i as int, keep@, order, q);
                let new = inserted(order, q, i as int);
                assert(indices(best@) =~= new.take(at_most(limit, new.len()))) by {
                    assert(indices(before) == order.take(at_most(limit, order.len())));
                    assert forall|a: int| 0 <= a < best@.len() implies #[trigger] indices(best@)[a]
                        == new[a] by {
                        if a < p {
                            assert(best@[a] == before[a]);
                            assert(indices(before)[a] == before[a]);
                        } else if a > p {
                            assert(best@[a] == before[a - 1]);
                            assert(indices(before)[a - 1] == before[a - 1]);
                        }
                    }
                }
                order = new;
            }
        } else {
            proof {
                lemma_skip(*o, i as int, keep@, order);
            }
        }
        i = i + 1;
    }
    assert(is_ranking(o.less(), keep@.len() as int, keep@, order));
    best
}

/// The positions in a ranking are positions of items.
pub proof fn lemma_ranked<O: Order>(
    o: O,
    keep: Seq<bool>,
    order: Seq<int>,
    best: Seq<usize>,
    limit: usize,
)
    requires
        is_ranking(o.less(), keep.len() as int, keep, order),
        indices(best) == order.take(at_most(limit, order.len())),
    ensures
        best.len() == at_most(limit, order.len()),
        forall|k: int|
            0 <= k < best.len() ==> #[trigger] best[k] == order[k] && best[k] < keep.len(),
{
    assert(indices(best).len() == best.len());
    assert forall|k: int| 0 <= k < best.len() implies #[trigger] best[k] == order[k] && best[k]
        < keep.len() by {
        assert(indices(best)[k] == best[k]);
        assert(order.contains(order[k]));
    }
}

/// Whether `less` ranks no two of the items `0..n` before each other, and no item
/// between two others is level with both.
pub open spec fn is_weak_order(less: spec_fn(int, int) -> bool, n: int) -> bool {
    &&& forall|i: int, j: int|
        0 <= i < n && 0 <= j < n ==> !(#[trigger] less(i, j) && less(j, i))
    &&& forall|i: int, j: int, k: int|
        0 <= i < n && 0 <= j < n && 0 <= k < n && #[trigger] less(i, k) ==> #[trigger] less(i, j)
            || less(j, k)
}

/// There is only one ranking.
pub proof fn law_ranking_is_unique(
    less: spec_fn(int, int) -> bool,
    n: int,
    keep: Seq<bool>,
    x: Seq<int>,
    y: Seq<int>,
)
    requires
        is_weak_order(less, n),
        is_ranking(less, n, keep, x),
        is_ranking(less, n, keep, y),
    ensures
        x == y,
{
    lemma_same_order(less, n, x, y);
}

proof fn lemma_same_order(less: spec_fn(int, int) -> bool, n: int, x: Seq<int>, y: Seq<int>)
    requires
        is_weak_order(less, n),
        forall|a: int, b: int|
            0 <= a < b < x.len() ==> precedes(less, #[trigger] x[a], #[trigger] x[b]),
        forall|a: int, b: int|
            0 <= a < b < y.len() ==> precedes(less, #[trigger] y[a], #[trigger] y[b]),
        forall|i: int| #[trigger] x.contains(i) <==> y.contains(i),
        forall|i: int| #[trigger] x.contains(i) ==> 0 <= i < n,
    ensures
        x == y,
    decreases x.len(),
{
    if x.len() == 0 {
        if y.len() > 0 {
            assert(y.contains(y[0]));
            assert(x.contains(y[0]));
        }
        assert(x =~= y);
    } else {
        assert(x.contains(x[0]));
        assert(y.contains(x[0]));
        assert(y.contains(y[0]));
        assert(x.contains(y[0]));
        let p = choose|p: int| 0 <= p < y.len() && y[p] == x[0];
        let q = choose|q: int| 0 <= q < x.len() && x[q] == y[0];
        if p > 0 && q > 0 {
            assert(precedes(less, y[0], y[p]));
            assert(precedes(less, x[0], x[q]));
            assert(!(less(x[0], y[0]) && less(y[0], x[0])));
        }
        assert(x[0] == y[0]);
        let xs = x.drop_first();
        let ys = y.drop_first();
        assert forall|a: int| 0 <= a < x.len() implies 0 <= #[trigger] x[a] < n by {
            assert(x.contains(x[a]));
        }
        assert forall|a: int| 0 <= a < y.len() implies 0 <= #[trigger] y[a] < n by {
            assert(y.contains(y[a]));
            assert(x.contains(y[a]));
        }
        assert forall|i: int| #[trigger] xs.contains(i) <==> ys.contains(i) by {
            lemma_rest(less, n, x, i);
            lemma_rest(less, n, y, i);
            assert(x.contains(i) <==> y.contains(i));
        }
        assert forall|i: int| #[trigger] xs.contains(i) implies 0 <= i < n by {
            lemma_rest(less, n, x, i);
            assert(x.contains(i));
        }
        lemma_same_order(less, n, xs, ys);
        assert(x =~= seq![x[0]] + xs);
        assert(y =~= seq![y[0]] + ys);
    }
}

/// What a ranking holds behind its first item.
proof fn lemma_rest(less: spec_fn(int, int) -> bool, n: int, x: Seq<int>, i: int)
    requires
        is_weak_order(less, n),
        x.len() > 0,
        forall|a: int, b: int|
            0 <= a < b < x.len() ==> precedes(less, #[trigger] x[a], #[trigger] x[b]),
        forall|a: int| 0 <= a < x.len() ==> 0 <= #[trigger] x[a] < n,
    ensures
        x.drop_first().contains(i) <==> x.contains(i) && i != x[0],
{
    let xs = x.drop_first();
    if xs.contains(i) {
        let a = choose|a: int| 0 <= a < xs.len() && xs[a] == i;
        assert(x[a + 1] == i);
        assert(precedes(less, x[0], x[a + 1]));
        if i == x[0] {
            assert(!(less(i, i) && less(i, i)));
        }
    }
    if x.contains(i) && i != x[0] {
        let a = choose|a: int| 0 <= a < x.len() && x[a] == i;
        assert(xs[a - 1] == i);
    }
}

/// A ranking of all items lists each of them once.
pub proof fn lemma_ranking_len(
    less: spec_fn(int, int) -> bool,
    n: int,
    keep: Seq<bool>,
    order: Seq<int>,
)
    requires
        0 <= n,
        is_weak_order(less, n),
        is_ranking(less, n, keep, order),
        forall|i: int| 0 <= i < n ==> #[trigger] keep[i],
    ensures
        order.len() == n,
{
    assert(order.no_duplicates()) by {
        assert forall|a: int, b: int| 0 <= a < b < order.len() implies order[a] != order[b] by {
            assert(precedes(less, order[a], order[b]));
            assert(order.contains(order[a]));
            let x = order[a];
            assert(!(less(x, x) && less(x, x)));
        }
    }
    order.unique_seq_to_set();
    vstd::set_lib::lemma_int_range(0, n);
    assert forall|i: int| #[trigger] order.to_set().contains(i) <==> 0 <= i < n by {
        assert(order.contains(i) <==> 0 <= i < n && keep[i]);
    }
    assert(order.to_set() =~= vstd::set_lib::set_int_range(0, n));
}

/// Byte strings in lexicographic order.
pub open spec fn bytes_less(a: Seq<u8>, b: Seq<u8>) -> bool
    decreases a.len(),
{
    if b.len() == 0 {
        false
    } else if a.len() == 0 {
        true
    } else if a[0] != b[0] {
        a[0] < b[0]
    } else {
        bytes_less(a.drop_first(), b.drop_first())
    }
}

/// The lexicographic order is a weak order.
pub proof fn lemma_bytes_weak_order(a: Seq<u8>, b: Seq<u8>, c: Seq<u8>)
    ensures
        !(bytes_less(a, b) && bytes_less(b, a)),
        bytes_less(a, c) ==> bytes_less(a, b) || bytes_less(b, c),
    decreases a.len() + b.len() + c.len(),
{
    if a.len() > 0 && b.len() > 0 {
        if c.len() > 0 {
            lemma_bytes_weak_order(a.drop_first(), b.drop_first(), c.drop_first());
        } else {
            lemma_bytes_weak_order(a.drop_first(), b.drop_first(), c);
        }
    }
}

/// Decides [`bytes_less`].
pub fn bytes_before(a: &[u8], b: &[u8]) -> (r: bool)
    ensures
        r == bytes_less(a@, b@),
{
    let mut i: usize = 0;
    assert(a@.skip(0) =~= a@);
    assert(b@.skip(0) =~= b@);
    while i < a.len() && i < b.len() && a[i] == b[i]
        invariant
            0 <= i <= a@.len(),
            i <= b@.len(),
            bytes_less(a@.skip(i as int), b@.skip(i as int)) == bytes_less(a@, b@),
        decreases a.len() - i,
    {
        proof {
            assert(a@.skip(i as int).drop_first() =~= a@.skip(i + 1));
            assert(b@.skip(i as int).drop_first() =~= b@.skip(i + 1));
        }
        i = i + 1;
    }
    if i >= b.len() {
        false
    } else if i >= a.len() {
        true
    } else {
        a[i] < b[i]
    }
}

} // verus!
