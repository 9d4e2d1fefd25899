//! The single-coin book: one bid ladder and one ask ladder of L4 orders.
//!
//! Each ladder is a flat sequence of orders held in price-priority order
//! (bids descending, asks ascending); orders at the same price keep their
//! insertion (FIFO) order, a new order entering behind the orders already
//! resting at its price.

use vstd::prelude::*;
use crate::errors::BookError;
use crate::order::L4Order;
use crate::types::{Coin, Side, Sz};

verus! {

/// Whether price `a` has strictly better priority than price `b` on `side`:
/// higher first for bids, lower first for asks.
pub open spec fn px_before(side: Side, a: u64, b: u64) -> bool {
    match side {
        Side::Bid => a > b,
        Side::Ask => a < b,
    }
}

/// Executable price-priority comparison.
pub fn px_before_exec(side: Side, a: u64, b: u64) -> (r: bool)
    ensures
        r == px_before(side, a, b),
{
    match side {
        Side::Bid => a > b,
        Side::Ask => a < b,
    }
}

/// Index of the first order with the given oid, or `s.len()` if absent.
pub open spec fn find_oid(s: Seq<L4Order>, oid: u64) -> int
    decreases s.len(),
{
    if s.len() == 0 {
        0
    } else if s[0].oid == oid {
        0
    } else {
        1 + find_oid(s.skip(1), oid)
    }
}

/// Whether some order in the sequence carries the given oid.
pub open spec fn has_oid(s: Seq<L4Order>, oid: u64) -> bool {
    exists|i: int| 0 <= i < s.len() && s[i].oid == oid
}

/// `find_oid` is the first index of the oid; it equals the length exactly
/// when the oid is absent.
pub proof fn lemma_find_oid(s: Seq<L4Order>, oid: u64)
    ensures
        0 <= find_oid(s, oid) <= s.len(),
        find_oid(s, oid) < s.len() ==> s[find_oid(s, oid)].oid == oid,
        forall|k: int| 0 <= k < find_oid(s, oid) ==> s[k].oid != oid,
        (find_oid(s, oid) < s.len()) == has_oid(s, oid),
    decreases s.len(),
{
    if s.len() == 0 {
    } else if s[0].oid == oid {
    } else {
        lemma_find_oid(s.skip(1), oid);
        assert forall|k: int| 0 <= k < find_oid(s, oid) implies s[k].oid != oid by {
            if k > 0 {
                assert(s.skip(1)[k - 1] == s[k]);
            }
        }
        if find_oid(s, oid) < s.len() {
            assert(s.skip(1)[find_oid(s.skip(1), oid)] == s[find_oid(s, oid)]);
        }
        if has_oid(s, oid) {
            let w = choose|i: int| 0 <= i < s.len() && s[i].oid == oid;
            assert(w > 0);
            assert(s.skip(1)[w - 1] == s[w]);
            assert(has_oid(s.skip(1), oid));
        }
    }
}

/// Index at which a new order of price `px` enters the ladder: after every
/// resting order whose price is not strictly worse, so FIFO order holds
/// within a price level.
pub open spec fn insert_pos(side: Side, s: Seq<L4Order>, px: u64) -> int
    decreases s.len(),
{
    if s.len() == 0 {
        0
    } else if px_before(side, px, s[0].limit_px.0) {
        0
    } else {
        1 + insert_pos(side, s.skip(1), px)
    }
}

/// `insert_pos` is the first index whose price is strictly worse than `px`.
pub proof fn lemma_insert_pos(side: Side, s: Seq<L4Order>, px: u64)
    ensures
        0 <= insert_pos(side, s, px) <= s.len(),
        insert_pos(side, s, px) < s.len() ==> px_before(
            side,
            px,
            s[insert_pos(side, s, px)].limit_px.0,
        ),
        forall|k: int| 0 <= k < insert_pos(side, s, px) ==> !px_before(side, px, s[k].limit_px.0),
    decreases s.len(),
{
    if s.len() == 0 {
    } else if px_before(side, px, s[0].limit_px.0) {
    } else {
        lemma_insert_pos(side, s.skip(1), px);
        assert forall|k: int| 0 <= k < insert_pos(side, s, px) implies !px_before(
            side,
            px,
            s[k].limit_px.0,
        ) by {
            if k > 0 {
                assert(s.skip(1)[k - 1] == s[k]);
            }
        }
        if insert_pos(side, s, px) < s.len() {
            assert(s.skip(1)[insert_pos(side, s.skip(1), px)] == s[insert_pos(side, s, px)]);
        }
    }
}

/// The ladder after a new order is added.
pub open spec fn side_add(side: Side, s: Seq<L4Order>, o: L4Order) -> Seq<L4Order> {
    s.insert(insert_pos(side, s, o.limit_px.0), o)
}

/// The given order with its size overwritten.
pub open spec fn with_sz(o: L4Order, sz: Sz) -> L4Order {
    L4Order { sz, ..o }
}

/// The ladder after the first order with the given oid has its size
/// overwritten; unchanged when the oid is absent.
pub open spec fn side_modify(s: Seq<L4Order>, oid: u64, new_sz: Sz) -> Seq<L4Order> {
    let f = find_oid(s, oid);
    if f < s.len() {
        s.update(f, with_sz(s[f], new_sz))
    } else {
        s
    }
}

/// The ladder after the first order with the given oid is removed;
/// unchanged when the oid is absent.
pub open spec fn side_cancel(s: Seq<L4Order>, oid: u64) -> Seq<L4Order> {
    let f = find_oid(s, oid);
    if f < s.len() {
        s.remove(f)
    } else {
        s
    }
}

/// The ladder is in price-priority order: no later order has a strictly
/// better price than an earlier one.
pub open spec fn side_sorted(side: Side, s: Seq<L4Order>) -> bool {
    forall|i: int, j: int|
        0 <= i < j < s.len() ==> !px_before(side, s[j].limit_px.0, s[i].limit_px.0)
}

/// Every order in the ladder belongs to this coin and side.
pub open spec fn side_fields_ok(side: Side, coin: Seq<char>, s: Seq<L4Order>) -> bool {
    forall|i: int| 0 <= i < s.len() ==> (s[i].side == side && s[i].coin@ == coin)
}

/// No oid occurs twice in the sequence.
pub open spec fn oids_unique(s: Seq<L4Order>) -> bool {
    forall|i: int, j: int| 0 <= i < j < s.len() ==> s[i].oid != s[j].oid
}

/// The ghost shape of a single-coin book.
#[verifier::ext_equal]
pub ghost struct CoinBookV {
    pub coin: Seq<char>,
    pub bids: Seq<L4Order>,
    pub asks: Seq<L4Order>,
}

/// Whether some order on either side of the book carries the given oid.
pub open spec fn book_has_oid(b: CoinBookV, oid: u64) -> bool {
    has_oid(b.bids, oid) || has_oid(b.asks, oid)
}

/// No oid of the first sequence occurs in the second.
pub open spec fn oids_disjoint(s1: Seq<L4Order>, s2: Seq<L4Order>) -> bool {
    forall|i: int, j: int|
        0 <= i < s1.len() && 0 <= j < s2.len() ==> s1[i].oid != s2[j].oid
}

/// Well-formedness of a single-coin book: both ladders are in price-priority
/// order, every order matches the book's coin and its ladder's side, and no
/// oid occurs twice on the book.
pub open spec fn book_wf(b: CoinBookV) -> bool {
    &&& side_sorted(Side::Bid, b.bids)
    &&& side_sorted(Side::Ask, b.asks)
    &&& side_fields_ok(Side::Bid, b.coin, b.bids)
    &&& side_fields_ok(Side::Ask, b.coin, b.asks)
    &&& oids_unique(b.bids)
    &&& oids_unique(b.asks)
    &&& oids_disjoint(b.bids, b.asks)
}

/// The single-coin book: ordered bid and ask ladders of L4 orders.
#[derive(Debug)]
pub struct CoinBook {
    pub coin: Coin,
    pub bids: Vec<L4Order>,
    pub asks: Vec<L4Order>,
}

impl View for CoinBook {
    type V = CoinBookV;

    open spec fn view(&self) -> CoinBookV {
        CoinBookV { coin: self.coin@, bids: self.bids@, asks: self.asks@ }
    }
}

/// The book after a new order is added to the ladder its side selects.
pub open spec fn book_add(b: CoinBookV, o: L4Order) -> CoinBookV {
    match o.side {
        Side::Bid => CoinBookV { bids: side_add(Side::Bid, b.bids, o), ..b },
        Side::Ask => CoinBookV { asks: side_add(Side::Ask, b.asks, o), ..b },
    }
}

/// The book after the first order with the given oid (bids searched first)
/// has its size overwritten.
pub open spec fn book_modify(b: CoinBookV, oid: u64, new_sz: Sz) -> CoinBookV {
    if has_oid(b.bids, oid) {
        CoinBookV { bids: side_modify(b.bids, oid, new_sz), ..b }
    } else {
        CoinBookV { asks: side_modify(b.asks, oid, new_sz), ..b }
    }
}

/// The book after the first order with the given oid (bids searched first)
/// is removed.
pub open spec fn book_cancel(b: CoinBookV, oid: u64) -> CoinBookV {
    if has_oid(b.bids, oid) {
        CoinBookV { bids: side_cancel(b.bids, oid), ..b }
    } else {
        CoinBookV { asks: side_cancel(b.asks, oid), ..b }
    }
}

/// Index of the first order with the given oid, or the length if absent.
fn find_oid_in(v: &Vec<L4Order>, oid: u64) -> (r: usize)
    ensures
        r as int == find_oid(v@, oid),
        (r < v.len()) == has_oid(v@, oid),
{
    proof {
        lemma_find_oid(v@, oid);
    }
    let mut i: usize = 0;
    while i < v.len()
        invariant
            0 <= i <= v.len(),
            forall|k: int| 0 <= k < i ==> v@[k].oid != oid,
        decreases v.len() - i,
    {
        if v[i].oid == oid {
            proof {
                lemma_find_oid(v@, oid);
                if find_oid(v@, oid) < i as int {
                    assert(v@[find_oid(v@, oid)].oid == oid);
                }
            }
            return i;
        }
        i = i + 1;
    }
    proof {
        lemma_find_oid(v@, oid);
        if find_oid(v@, oid) < v@.len() {
            assert(v@[find_oid(v@, oid)].oid == oid);
        }
    }
    i
}

/// Inserts the order into the ladder at its priority position, behind the
/// orders already resting at its price.
fn vec_insert_sorted(side: Side, v: &mut Vec<L4Order>, o: L4Order)
    ensures
        final(v)@ == side_add(side, old(v)@, o),
{
    proof {
        lemma_insert_pos(side, old(v)@, o.limit_px.0);
    }
    let px = o.limit_px.0;
    let mut i: usize = 0;
    while i < v.len() && !px_before_exec(side, px, v[i].limit_px.0)
        invariant
            0 <= i <= v.len(),
            v@ == old(v)@,
            forall|k: int| 0 <= k < i ==> !px_before(side, px, v@[k].limit_px.0),
        decreases v.len() - i,
    {
        i = i + 1;
    }
    proof {
        lemma_insert_pos(side, old(v)@, px);
        let p = insert_pos(side, old(v)@, px);
        if p < i as int {
            assert(!px_before(side, px, old(v)@[p].limit_px.0));
        }
        if (i as int) < p {
            assert(!px_before(side, px, old(v)@[i as int].limit_px.0));
        }
        assert(p == i as int);
    }
    v.insert(i, o);
}

/// Overwrites the size of the order at index `j`.
fn vec_set_sz(v: &mut Vec<L4Order>, j: usize, new_sz: Sz)
    requires
        j < old(v).len(),
    ensures
        final(v)@ == old(v)@.update(j as int, with_sz(old(v)@[j as int], new_sz)),
{
    let mut x = v[j].dup();
    x.sz = new_sz;
    let ghost prev = v@;
    let _removed = v.remove(j);
    v.insert(j, x);
    proof {
        assert(v@ =~= prev.update(j as int, with_sz(prev[j as int], new_sz)));
    }
}

impl CoinBook {
    /// An empty book for the given coin.
    pub fn new(coin: Coin) -> (r: Self)
        ensures
            r@.coin == coin@,
            r@.bids.len() == 0,
            r@.asks.len() == 0,
            book_wf(r@),
    {
        CoinBook { coin, bids: Vec::new(), asks: Vec::new() }
    }

    /// An owned copy of this book, equal to the original.
    pub fn dup(&self) -> (r: CoinBook)
        ensures
            r@ == self@,
    {
        let r = CoinBook {
            coin: self.coin.dup(),
            bids: dup_orders(&self.bids),
            asks: dup_orders(&self.asks),
        };
        proof {
            assert(r@ =~= self@);
        }
        r
    }

    /// Adds an order at the tail of its price level. Fails with
    /// `DuplicateOid` (leaving the book unchanged) exactly when the oid is
    /// already present on either side of this coin's book.
    pub fn add(&mut self, o: L4Order) -> (r: Result<(), BookError>)
        ensures
            book_has_oid(old(self)@, o.oid) ==> r == Err::<(), BookError>(BookError::DuplicateOid)
                && final(self)@ == old(self)@,
            !book_has_oid(old(self)@, o.oid) ==> r == Ok::<(), BookError>(())
                && final(self)@ == book_add(old(self)@, o),
    {
        if find_oid_in(&self.bids, o.oid) < self.bids.len()
            || find_oid_in(&self.asks, o.oid) < self.asks.len() {
            return Err(BookError::DuplicateOid);
        }
        match o.side {
            Side::Bid => vec_insert_sorted(Side::Bid, &mut self.bids, o),
            Side::Ask => vec_insert_sorted(Side::Ask, &mut self.asks, o),
        }
        Ok(())
    }

    /// Overwrites the size of the order with the given oid; returns `false`
    /// (leaving the book unchanged) exactly when the oid is absent. A zero
    /// size keeps the order on the book: the diff stream owns removal.
    pub fn modify_size(&mut self, oid: u64, new_sz: Sz) -> (r: bool)
        ensures
            r == book_has_oid(old(self)@, oid),
            final(self)@ == book_modify(old(self)@, oid, new_sz),
    {
        proof {
            lemma_find_oid(old(self)@.bids, oid);
            lemma_find_oid(old(self)@.asks, oid);
        }
        let jb = find_oid_in(&self.bids, oid);
        if jb < self.bids.len() {
            vec_set_sz(&mut self.bids, jb, new_sz);
            return true;
        }
        let ja = find_oid_in(&self.asks, oid);
        if ja < self.asks.len() {
            vec_set_sz(&mut self.asks, ja, new_sz);
            return true;
        }
        false
    }

    /// Removes the order with the given oid; returns `false` (leaving the
    /// book unchanged) exactly when the oid is absent.
    pub fn cancel(&mut self, oid: u64) -> (r: bool)
        ensures
            r == book_has_oid(old(self)@, oid),
            final(self)@ == book_cancel(old(self)@, oid),
    {
        proof {
            lemma_find_oid(old(self)@.bids, oid);
            lemma_find_oid(old(self)@.asks, oid);
        }
        let jb = find_oid_in(&self.bids, oid);
        if jb < self.bids.len() {
            let _removed = self.bids.remove(jb);
            return true;
        }
        let ja = find_oid_in(&self.asks, oid);
        if ja < self.asks.len() {
            let _removed = self.asks.remove(ja);
            return true;
        }
        false
    }
}

/// An owned copy of a ladder, equal to the original element by element.
pub fn dup_orders(v: &Vec<L4Order>) -> (r: Vec<L4Order>)
    ensures
        r@ == v@,
{
    let mut r: Vec<L4Order> = Vec::new();
    let mut i: usize = 0;
    while i < v.len()
        invariant
            0 <= i <= v.len(),
            r@ =~= v@.take(i as int),
        decreases v.len() - i,
    {
        r.push(v[i].dup());
        proof {
            assert(r@ =~= v@.take(i + 1));
        }
        i = i + 1;
    }
    proof {
        assert(r@ =~= v@);
    }
    r
}


/// Inserting an order at its priority position keeps the ladder in
/// price-priority order and adds exactly its oid.
pub proof fn lemma_side_add_wf(side: Side, s: Seq<L4Order>, o: L4Order)
    requires
        side_sorted(side, s),
    ensures
        side_sorted(side, side_add(side, s, o)),
        side_add(side, s, o).len() == s.len() + 1,
        forall|x: u64| has_oid(side_add(side, s, o), x) == (has_oid(s, x) || x == o.oid),
        oids_unique(s) && !has_oid(s, o.oid) ==> oids_unique(side_add(side, s, o)),
        forall|k: int|
            0 <= k < side_add(side, s, o).len() ==> (#[trigger] side_add(side, s, o)[k] == o
                || s.contains(side_add(side, s, o)[k])),
{
    lemma_insert_pos(side, s, o.limit_px.0);
    let p = insert_pos(side, s, o.limit_px.0);
    s.insert_ensures(p, o);
    let t = side_add(side, s, o);
    assert forall|i: int, j: int| 0 <= i < j < t.len() implies !px_before(
        side,
        t[j].limit_px.0,
        t[i].limit_px.0,
    ) by {
        if i < p && j < p {
        } else if i < p && j == p {
        } else if i == p && j > p {
            assert(t[j] == s[j - 1]);
            if p < s.len() {
                assert(!px_before(side, s[j - 1].limit_px.0, s[p].limit_px.0) || j - 1 == p);
            }
        } else if i < p && j > p {
            assert(t[i] == s[i] && t[j] == s[j - 1]);
        } else if i > p && j > p {
            assert(t[i] == s[i - 1] && t[j] == s[j - 1]);
        }
    }
    assert forall|x: u64| has_oid(t, x) == (has_oid(s, x) || x == o.oid) by {
        if has_oid(t, x) {
            let w = choose|i: int| 0 <= i < t.len() && t[i].oid == x;
            if w < p {
                assert(s[w].oid == x);
            } else if w == p {
            } else {
                assert(s[w - 1].oid == x);
            }
        }
        if has_oid(s, x) {
            let w = choose|i: int| 0 <= i < s.len() && s[i].oid == x;
            if w < p {
                assert(t[w].oid == x);
            } else {
                assert(t[w + 1].oid == x);
            }
        }
        if x == o.oid {
            assert(t[p].oid == x);
        }
    }
    if oids_unique(s) && !has_oid(s, o.oid) {
        assert forall|i: int, j: int| 0 <= i < j < t.len() implies t[i].oid != t[j].oid by {
            if i < p && j < p {
            } else if j == p {
                assert(t[i] == s[i]);
            } else if i == p {
                assert(t[j] == s[j - 1]);
            } else if i < p {
                assert(t[i] == s[i] && t[j] == s[j - 1]);
            } else {
                assert(t[i] == s[i - 1] && t[j] == s[j - 1]);
            }
        }
    }
    assert forall|k: int| 0 <= k < t.len() implies (#[trigger] t[k] == o || s.contains(
        t[k],
    )) by {
        if k < p {
            assert(t[k] == s[k]);
            assert(s.contains(s[k]));
        } else if k > p {
            assert(t[k] == s[k - 1]);
            assert(s.contains(s[k - 1]));
        }
    }
}

/// Adding a new order with the book's coin keeps the book well-formed; the
/// books oids afterwards are the old ones plus the new oid.
pub proof fn lemma_book_add_wf(b: CoinBookV, o: L4Order)
    requires
        book_wf(b),
        o.coin@ == b.coin,
        !book_has_oid(b, o.oid),
    ensures
        book_wf(book_add(b, o)),
        forall|x: u64| book_has_oid(book_add(b, o), x) == (book_has_oid(b, x) || x == o.oid),
{
    match o.side {
        Side::Bid => {
            lemma_side_add_wf(Side::Bid, b.bids, o);
            let t = side_add(Side::Bid, b.bids, o);
            assert forall|i: int, j: int|
                0 <= i < t.len() && 0 <= j < b.asks.len() implies t[i].oid != b.asks[j].oid by {
                assert(t[i] == o || b.bids.contains(t[i]));
                if t[i] != o {
                    let w = choose|k: int| 0 <= k < b.bids.len() && b.bids[k] == t[i];
                    assert(b.bids[w].oid != b.asks[j].oid);
                }
            }
            assert forall|k: int| 0 <= k < t.len() implies (t[k].side == Side::Bid && t[k].coin@
                == b.coin) by {
                assert(t[k] == o || b.bids.contains(t[k]));
                if t[k] != o {
                    let w = choose|m: int| 0 <= m < b.bids.len() && b.bids[m] == t[k];
                }
            }
        },
        Side::Ask => {
            lemma_side_add_wf(Side::Ask, b.asks, o);
            let t = side_add(Side::Ask, b.asks, o);
            assert forall|i: int, j: int|
                0 <= i < b.bids.len() && 0 <= j < t.len() implies b.bids[i].oid != t[j].oid by {
                assert(t[j] == o || b.asks.contains(t[j]));
                if t[j] != o {
                    let w = choose|k: int| 0 <= k < b.asks.len() && b.asks[k] == t[j];
                    assert(b.bids[i].oid != b.asks[w].oid);
                }
            }
            assert forall|k: int| 0 <= k < t.len() implies (t[k].side == Side::Ask && t[k].coin@
                == b.coin) by {
                assert(t[k] == o || b.asks.contains(t[k]));
                if t[k] != o {
                    let w = choose|m: int| 0 <= m < b.asks.len() && b.asks[m] == t[k];
                }
            }
        },
    }
}

/// Overwriting one order's size keeps the book well-formed and keeps every
/// oid on the book: in particular an update to size zero does not remove
/// the order.
pub proof fn lemma_book_modify_wf(b: CoinBookV, oid: u64, new_sz: Sz)
    requires
        book_wf(b),
    ensures
        book_wf(book_modify(b, oid, new_sz)),
        forall|x: u64| book_has_oid(book_modify(b, oid, new_sz), x) == book_has_oid(b, x),
        book_modify(b, oid, new_sz).bids.len() == b.bids.len(),
        book_modify(b, oid, new_sz).asks.len() == b.asks.len(),
{
    lemma_find_oid(b.bids, oid);
    lemma_find_oid(b.asks, oid);
    lemma_side_modify_pointwise(b.bids, oid, new_sz);
    lemma_side_modify_pointwise(b.asks, oid, new_sz);
    let t = book_modify(b, oid, new_sz);
    assert forall|x: u64| book_has_oid(t, x) == book_has_oid(b, x) by {
        lemma_side_modify_oids(b.bids, oid, new_sz, x);
        lemma_side_modify_oids(b.asks, oid, new_sz, x);
    }
}

/// Overwriting a size keeps a ladder's length and every order's price,
/// side, coin and oid.
pub proof fn lemma_side_modify_pointwise(s: Seq<L4Order>, oid: u64, new_sz: Sz)
    ensures
        side_modify(s, oid, new_sz).len() == s.len(),
        forall|k: int|
            0 <= k < s.len() ==> ((#[trigger] side_modify(s, oid, new_sz)[k]).oid == s[k].oid
                && side_modify(s, oid, new_sz)[k].limit_px == s[k].limit_px && side_modify(
                s,
                oid,
                new_sz,
            )[k].side == s[k].side && side_modify(s, oid, new_sz)[k].coin@ == s[k].coin@),
{
    lemma_find_oid(s, oid);
}

/// Overwriting a size changes no oid in the ladder.
pub proof fn lemma_side_modify_oids(s: Seq<L4Order>, oid: u64, new_sz: Sz, x: u64)
    ensures
        has_oid(side_modify(s, oid, new_sz), x) == has_oid(s, x),
{
    lemma_find_oid(s, oid);
    let t = side_modify(s, oid, new_sz);
    if has_oid(t, x) {
        let w = choose|i: int| 0 <= i < t.len() && t[i].oid == x;
        assert(s[w].oid == x);
    }
    if has_oid(s, x) {
        let w = choose|i: int| 0 <= i < s.len() && s[i].oid == x;
        assert(t[w].oid == x);
    }
}

/// Removing one order keeps the book well-formed and keeps every other oid.
pub proof fn lemma_book_cancel_wf(b: CoinBookV, oid: u64)
    requires
        book_wf(b),
    ensures
        book_wf(book_cancel(b, oid)),
        forall|x: u64|
            book_has_oid(book_cancel(b, oid), x) ==> book_has_oid(b, x),
{
    lemma_find_oid(b.bids, oid);
    lemma_find_oid(b.asks, oid);
    if has_oid(b.bids, oid) {
        let f = find_oid(b.bids, oid);
        b.bids.remove_ensures(f);
        lemma_side_remove_wf(Side::Bid, b.coin, b.bids, f);
        let t = b.bids.remove(f);
        assert forall|i: int, j: int|
            0 <= i < t.len() && 0 <= j < b.asks.len() implies t[i].oid != b.asks[j].oid by {
            if i < f {
                assert(t[i] == b.bids[i]);
            } else {
                assert(t[i] == b.bids[i + 1]);
            }
        }
        assert forall|x: u64| has_oid(t, x) implies has_oid(b.bids, x) by {
            let w = choose|i: int| 0 <= i < t.len() && t[i].oid == x;
            if w < f {
                assert(b.bids[w].oid == x);
            } else {
                assert(b.bids[w + 1].oid == x);
            }
        }
    } else if has_oid(b.asks, oid) {
        let f = find_oid(b.asks, oid);
        b.asks.remove_ensures(f);
        lemma_side_remove_wf(Side::Ask, b.coin, b.asks, f);
        let t = b.asks.remove(f);
        assert forall|i: int, j: int|
            0 <= i < b.bids.len() && 0 <= j < t.len() implies b.bids[i].oid != t[j].oid by {
            if j < f {
                assert(t[j] == b.asks[j]);
            } else {
                assert(t[j] == b.asks[j + 1]);
            }
        }
        assert forall|x: u64| has_oid(t, x) implies has_oid(b.asks, x) by {
            let w = choose|i: int| 0 <= i < t.len() && t[i].oid == x;
            if w < f {
                assert(b.asks[w].oid == x);
            } else {
                assert(b.asks[w + 1].oid == x);
            }
        }
    }
}

/// Removing one order keeps a ladder sorted, its fields consistent, and its
/// oids unique.
proof fn lemma_side_remove_wf(side: Side, coin: Seq<char>, s: Seq<L4Order>, f: int)
    requires
        0 <= f < s.len(),
        side_sorted(side, s),
        side_fields_ok(side, coin, s),
        oids_unique(s),
    ensures
        side_sorted(side, s.remove(f)),
        side_fields_ok(side, coin, s.remove(f)),
        oids_unique(s.remove(f)),
{
    s.remove_ensures(f);
    let t = s.remove(f);
    assert forall|i: int, j: int| 0 <= i < j < t.len() implies (!px_before(
        side,
        t[j].limit_px.0,
        t[i].limit_px.0,
    ) && t[i].oid != t[j].oid) by {
        let i0: int = if i < f { i } else { i + 1 };
        let j0: int = if j < f { j } else { j + 1 };
        assert(t[i] == s[i0] && t[j] == s[j0]);
    }
    assert forall|i: int| 0 <= i < t.len() implies (t[i].side == side && t[i].coin@ == coin) by {
        let i0: int = if i < f { i } else { i + 1 };
        assert(t[i] == s[i0]);
    }
}

} // verus!
