//! The L2 projection: per coin and side, orders at each price level
//! aggregated into total size and order count, depth-limited.

use vstd::prelude::*;
use crate::book::{px_before, side_sorted, CoinBookV};
use crate::multi_book::OrderBooks;
use crate::order::L4Order;
use crate::types::{Coin, Px, Side};

verus! {

/// One aggregated price level: the price, the summed size of its orders,
/// and how many orders rest there.
#[derive(Debug, Clone, Copy, PartialEq, Eq, Structural)]
pub struct L2Level {
    pub px: Px,
    pub total_sz: u128,
    pub num_orders: u64,
}

/// The ghost shape of an aggregated price level.
#[verifier::ext_equal]
pub ghost struct L2LevelV {
    pub px: u64,
    pub total_sz: int,
    pub num_orders: int,
}

impl View for L2Level {
    type V = L2LevelV;

    open spec fn view(&self) -> L2LevelV {
        L2LevelV { px: self.px.0, total_sz: self.total_sz as int, num_orders: self.num_orders as int }
    }
}

/// Folds one more order into an aggregation: joins the last level when the
/// price matches, else opens a new level.
pub open spec fn l2_push(levels: Seq<L2LevelV>, o: L4Order) -> Seq<L2LevelV> {
    if levels.len() > 0 && levels.last().px == o.limit_px.0 {
        levels.update(
            levels.len() - 1,
            L2LevelV {
                px: o.limit_px.0,
                total_sz: levels.last().total_sz + o.sz.0,
                num_orders: levels.last().num_orders + 1,
            },
        )
    } else {
        levels.push(L2LevelV { px: o.limit_px.0, total_sz: o.sz.0 as int, num_orders: 1 })
    }
}

/// The aggregation of a whole ladder: consecutive equal prices collapse
/// into one level each, in the ladder's own price order.
pub open spec fn l2_levels(s: Seq<L4Order>) -> Seq<L2LevelV>
    decreases s.len(),
{
    if s.len() == 0 {
        Seq::empty()
    } else {
        l2_push(l2_levels(s.drop_last()), s.last())
    }
}

/// The aggregation truncated to the top `depth` levels.
pub open spec fn l2_levels_depth(s: Seq<L4Order>, depth: int) -> Seq<L2LevelV> {
    let full = l2_levels(s);
    if full.len() <= depth {
        full
    } else {
        full.take(depth)
    }
}

/// Every aggregated level counts at least one and at most `s.len()` orders,
/// and its total is bounded by its count times the largest size.
pub proof fn lemma_l2_levels_bounds(s: Seq<L4Order>)
    ensures
        forall|i: int|
            0 <= i < l2_levels(s).len() ==> (1 <= #[trigger] l2_levels(s)[i].num_orders <= s.len()
                && 0 <= l2_levels(s)[i].total_sz <= l2_levels(s)[i].num_orders * u64::MAX),
    decreases s.len(),
{
    if s.len() > 0 {
        lemma_l2_levels_bounds(s.drop_last());
        let prev = l2_levels(s.drop_last());
        assert forall|i: int|
            0 <= i < l2_levels(s).len() implies (1 <= #[trigger] l2_levels(s)[i].num_orders
            <= s.len() && 0 <= l2_levels(s)[i].total_sz <= l2_levels(s)[i].num_orders
            * u64::MAX) by {
            if prev.len() > 0 && prev.last().px == s.last().limit_px.0 {
                if i < prev.len() - 1 {
                    assert(l2_levels(s)[i] == prev[i]);
                } else {
                    assert(prev[prev.len() - 1].total_sz <= prev[prev.len() - 1].num_orders
                        * u64::MAX);
                    assert((prev.last().num_orders + 1) * u64::MAX == prev.last().num_orders
                        * u64::MAX + u64::MAX) by (nonlinear_arith);
                }
            } else {
                if i < prev.len() {
                    assert(l2_levels(s)[i] == prev[i]);
                }
            }
        }
    }
}

/// Aggregates one ladder into at most `depth` L2 levels.
fn side_l2(v: &Vec<L4Order>, depth: usize) -> (r: Vec<L2Level>)
    ensures
        r@.map(|i: int, l: L2Level| l@) == l2_levels_depth(v@, depth as int),
{
    let mut levels: Vec<L2Level> = Vec::new();
    let mut i: usize = 0;
    proof {
        assert(v@.take(0) =~= Seq::<L4Order>::empty());
        assert(levels@.map(|k: int, l: L2Level| l@) =~= l2_levels(v@.take(0)));
    }
    while i < v.len()
        invariant
            0 <= i <= v.len(),
            levels@.map(|k: int, l: L2Level| l@) == l2_levels(v@.take(i as int)),
            levels@.len() <= i,
        decreases v.len() - i,
    {
        let ghost pre = levels@.map(|k: int, l: L2Level| l@);
        proof {
            lemma_l2_levels_bounds(v@.take(i as int));
            assert(v@.take(i + 1).drop_last() =~= v@.take(i as int));
            assert(v@.take(i + 1).last() == v@[i as int]);
        }
        let o = &v[i];
        let n = levels.len();
        let mut joined = false;
        if n > 0 {
            if levels[n - 1].px.0 == o.limit_px.0 {
                joined = true;
            }
        }
        if joined {
            let last = levels[n - 1];
            proof {
                assert(pre[n - 1] == last@);
                assert(pre[n - 1].num_orders <= i);
                assert(pre[n - 1].total_sz <= pre[n - 1].num_orders * u64::MAX);
                assert(i * (u64::MAX as int) + u64::MAX < u128::MAX) by (nonlinear_arith)
                    requires
                        0 <= i < 0x1_0000_0000_0000_0000,
                ;
                assert(pre[n - 1].num_orders * u64::MAX <= i * (u64::MAX as int))
                    by (nonlinear_arith)
                    requires
                        0 <= pre[n - 1].num_orders <= i,
                ;
            }
            let merged = L2Level {
                px: last.px,
                total_sz: last.total_sz + o.sz.0 as u128,
                num_orders: last.num_orders + 1,
            };
            let _old = levels.remove(n - 1);
            levels.push(merged);
            proof {
                assert(levels@.map(|k: int, l: L2Level| l@) =~= pre.update(
                    pre.len() - 1,
                    merged@,
                ));
                assert(levels@.map(|k: int, l: L2Level| l@) =~= l2_levels(v@.take(i + 1)));
            }
        } else {
            let fresh = L2Level { px: o.limit_px, total_sz: o.sz.0 as u128, num_orders: 1 };
            levels.push(fresh);
            proof {
                assert(levels@.map(|k: int, l: L2Level| l@) =~= pre.push(fresh@));
                assert(levels@.map(|k: int, l: L2Level| l@) =~= l2_levels(v@.take(i + 1)));
            }
        }
        i = i + 1;
    }
    proof {
        assert(v@.take(v@.len() as int) =~= v@);
    }
    // truncate to the requested depth
    let mut out: Vec<L2Level> = Vec::new();
    let mut j: usize = 0;
    let keep = if levels.len() <= depth {
        levels.len()
    } else {
        depth
    };
    while j < keep
        invariant
            0 <= j <= keep,
            keep <= levels.len(),
            out@.len() == j,
            out@.map(|k: int, l: L2Level| l@) =~= levels@.map(|k: int, l: L2Level| l@).take(
                j as int,
            ),
        decreases keep - j,
    {
        out.push(levels[j]);
        proof {
            assert(levels@.map(|k: int, l: L2Level| l@)[j as int] == levels@[j as int]@);
            assert(out@.drop_last() =~= out@.take(j as int));
            assert(out@.map(|k: int, l: L2Level| l@) =~= levels@.map(|k: int, l: L2Level| l@)
                .take(j + 1));
        }
        j = j + 1;
    }
    proof {
        if levels@.len() <= depth as int {
            assert(levels@.map(|k: int, l: L2Level| l@).take(keep as int) =~= levels@.map(
                |k: int, l: L2Level| l@,
            ));
        }
    }
    out
}

/// One coin's L2 snapshot: aggregated bid and ask levels in price-priority
/// order.
#[derive(Debug)]
pub struct L2BookSnapshot {
    pub coin: Coin,
    pub bids: Vec<L2Level>,
    pub asks: Vec<L2Level>,
}

/// Whether one L2 snapshot is the depth-limited aggregation of one book.
pub open spec fn l2_book_matches(snap: L2BookSnapshot, b: CoinBookV, depth: int) -> bool {
    &&& snap.coin@ == b.coin
    &&& snap.bids@.map(|i: int, l: L2Level| l@) == l2_levels_depth(b.bids, depth)
    &&& snap.asks@.map(|i: int, l: L2Level| l@) == l2_levels_depth(b.asks, depth)
}

/// Whether a whole L2 snapshot set matches a whole book set, coin by coin.
pub open spec fn l2_books_match(
    snaps: Seq<L2BookSnapshot>,
    bs: Seq<CoinBookV>,
    depth: int,
) -> bool {
    &&& snaps.len() == bs.len()
    &&& forall|i: int| 0 <= i < bs.len() ==> l2_book_matches(#[trigger] snaps[i], bs[i], depth)
}

/// Aggregates every coin's book into its depth-limited L2 form.
pub fn compute_l2_snapshots(books: &OrderBooks, depth: usize) -> (r: Vec<L2BookSnapshot>)
    ensures
        l2_books_match(r@, books@, depth as int),
{
    let mut r: Vec<L2BookSnapshot> = Vec::new();
    let mut i: usize = 0;
    while i < books.books.len()
        invariant
            0 <= i <= books.books.len(),
            r@.len() == i,
            books@.len() == books.books@.len(),
            forall|k: int| 0 <= k < i ==> l2_book_matches(#[trigger] r@[k], books@[k], depth as int),
        decreases books.books.len() - i,
    {
        let b = &books.books[i];
        let snap = L2BookSnapshot {
            coin: b.coin.dup(),
            bids: side_l2(&b.bids, depth),
            asks: side_l2(&b.asks, depth),
        };
        proof {
            assert(books@[i as int] == books.books@[i as int]@);
        }
        r.push(snap);
        i = i + 1;
    }
    r
}


/// In the aggregation of a price-ordered ladder the level prices are
/// strictly ordered: no price level is collapsed into separate nodes, and
/// the levels keep the ladder's price-priority order.
pub proof fn lemma_l2_strictly_ordered(side: Side, s: Seq<L4Order>)
    requires
        side_sorted(side, s),
    ensures
        s.len() > 0 ==> l2_levels(s).len() > 0 && l2_levels(s).last().px
            == s.last().limit_px.0,
        forall|i: int, j: int|
            0 <= i < j < l2_levels(s).len() ==> px_before(
                side,
                l2_levels(s)[i].px,
                l2_levels(s)[j].px,
            ),
    decreases s.len(),
{
    if s.len() > 0 {
        let d = s.drop_last();
        assert(side_sorted(side, d)) by {
            assert forall|i: int, j: int| 0 <= i < j < d.len() implies !px_before(
                side,
                d[j].limit_px.0,
                d[i].limit_px.0,
            ) by {
                assert(d[i] == s[i] && d[j] == s[j]);
            }
        }
        lemma_l2_strictly_ordered(side, d);
        let prev = l2_levels(d);
        let o = s.last();
        let t = l2_levels(s);
        if prev.len() > 0 && prev.last().px == o.limit_px.0 {
            assert forall|i: int, j: int| 0 <= i < j < t.len() implies px_before(
                side,
                t[i].px,
                t[j].px,
            ) by {
                assert(t[i].px == prev[i].px && t[j].px == prev[j].px);
            }
        } else if prev.len() > 0 {
            assert(d.len() > 0);
            assert(!px_before(side, o.limit_px.0, d.last().limit_px.0)) by {
                assert(d.last() == s[s.len() - 2] && o == s[s.len() - 1]);
            }
            assert(px_before(side, prev.last().px, o.limit_px.0));
            assert forall|i: int, j: int| 0 <= i < j < t.len() implies px_before(
                side,
                t[i].px,
                t[j].px,
            ) by {
                if j < t.len() - 1 {
                    assert(t[i].px == prev[i].px && t[j].px == prev[j].px);
                } else {
                    assert(t[i].px == prev[i].px);
                    if i < prev.len() - 1 {
                        assert(px_before(side, prev[i].px, prev.last().px));
                    }
                }
            }
        }
    }
}

} // verus!
