//! The multi-coin book: a mapping from coin to its single-coin book, with
//! snapshot export and import.

use vstd::prelude::*;
use crate::book::{
    book_add, book_cancel, book_has_oid, book_modify, book_wf, has_oid, insert_pos,
    lemma_book_add_wf, lemma_book_cancel_wf, lemma_book_modify_wf, lemma_find_oid,
    lemma_insert_pos, px_before, CoinBook, CoinBookV,
};
use crate::errors::BookError;
use crate::order::L4Order;
use crate::types::{Coin, Oid, Side, Sz};

verus! {

/// An empty single-coin book shape for the given coin.
pub open spec fn empty_book(coin: Seq<char>) -> CoinBookV {
    CoinBookV { coin, bids: Seq::empty(), asks: Seq::empty() }
}

/// Index of the first book for the given coin, or `bs.len()` if none.
pub open spec fn find_coin(bs: Seq<CoinBookV>, coin: Seq<char>) -> int
    decreases bs.len(),
{
    if bs.len() == 0 {
        0
    } else if bs[0].coin == coin {
        0
    } else {
        1 + find_coin(bs.skip(1), coin)
    }
}

/// Whether some book is kept for the given coin.
pub open spec fn has_coin(bs: Seq<CoinBookV>, coin: Seq<char>) -> bool {
    exists|i: int| 0 <= i < bs.len() && bs[i].coin == coin
}

/// `find_coin` is the first index of the coin; it equals the length exactly
/// when the coin is absent.
pub proof fn lemma_find_coin(bs: Seq<CoinBookV>, coin: Seq<char>)
    ensures
        0 <= find_coin(bs, coin) <= bs.len(),
        find_coin(bs, coin) < bs.len() ==> bs[find_coin(bs, coin)].coin == coin,
        forall|k: int| 0 <= k < find_coin(bs, coin) ==> bs[k].coin != coin,
        (find_coin(bs, coin) < bs.len()) == has_coin(bs, coin),
    decreases bs.len(),
{
    if bs.len() == 0 {
    } else if bs[0].coin == coin {
    } else {
        lemma_find_coin(bs.skip(1), coin);
        assert forall|k: int| 0 <= k < find_coin(bs, coin) implies bs[k].coin != coin by {
            if k > 0 {
                assert(bs.skip(1)[k - 1] == bs[k]);
            }
        }
        if find_coin(bs, coin) < bs.len() {
            assert(bs.skip(1)[find_coin(bs.skip(1), coin)] == bs[find_coin(bs, coin)]);
        }
        if has_coin(bs, coin) {
            let w = choose|i: int| 0 <= i < bs.len() && bs[i].coin == coin;
            assert(w > 0);
            assert(bs.skip(1)[w - 1] == bs[w]);
            assert(has_coin(bs.skip(1), coin));
        }
    }
}

/// Whether the book for the given coin exists and holds the given oid.
pub open spec fn books_has_order(bs: Seq<CoinBookV>, coin: Seq<char>, oid: u64) -> bool {
    let i = find_coin(bs, coin);
    i < bs.len() && book_has_oid(bs[i], oid)
}

/// Whether adding the order fails with `DuplicateOid`: its coin is already
/// kept and that book already holds the oid.
pub open spec fn add_order_err(bs: Seq<CoinBookV>, o: L4Order) -> bool {
    books_has_order(bs, o.coin@, o.oid)
}

/// The books after an order is added: appended to a fresh book when its coin
/// is new, inserted into the coin's book otherwise; unchanged on
/// `DuplicateOid`.
pub open spec fn spec_add_order(bs: Seq<CoinBookV>, o: L4Order) -> Seq<CoinBookV> {
    let i = find_coin(bs, o.coin@);
    if i == bs.len() {
        bs.push(book_add(empty_book(o.coin@), o))
    } else if book_has_oid(bs[i], o.oid) {
        bs
    } else {
        bs.update(i, book_add(bs[i], o))
    }
}

/// The books after the order's size is overwritten; unchanged when the coin
/// or the oid is absent.
pub open spec fn spec_modify_books(
    bs: Seq<CoinBookV>,
    coin: Seq<char>,
    oid: u64,
    new_sz: Sz,
) -> Seq<CoinBookV> {
    if books_has_order(bs, coin, oid) {
        let i = find_coin(bs, coin);
        bs.update(i, book_modify(bs[i], oid, new_sz))
    } else {
        bs
    }
}

/// The books after the order is removed; unchanged when the coin or the oid
/// is absent.
pub open spec fn spec_cancel_books(bs: Seq<CoinBookV>, coin: Seq<char>, oid: u64) -> Seq<
    CoinBookV,
> {
    if books_has_order(bs, coin, oid) {
        let i = find_coin(bs, coin);
        bs.update(i, book_cancel(bs[i], oid))
    } else {
        bs
    }
}

/// Well-formedness of the multi-coin book: every single-coin book is
/// well-formed and no coin is kept twice.
pub open spec fn books_wf(bs: Seq<CoinBookV>) -> bool {
    &&& forall|i: int| 0 <= i < bs.len() ==> book_wf(bs[i])
    &&& forall|i: int, j: int| 0 <= i < j < bs.len() ==> bs[i].coin != bs[j].coin
}

/// The multi-coin book: one single-coin book per known coin.
#[derive(Debug)]
pub struct OrderBooks {
    pub books: Vec<CoinBook>,
}

impl View for OrderBooks {
    type V = Seq<CoinBookV>;

    open spec fn view(&self) -> Seq<CoinBookV> {
        self.books@.map(|i: int, b: CoinBook| b@)
    }
}

/// A full per-coin L4 snapshot: an immutable ordered list of orders per
/// side for every coin.
#[derive(Debug)]
pub struct Snapshots {
    pub books: Vec<CoinBook>,
}

impl View for Snapshots {
    type V = Seq<CoinBookV>;

    open spec fn view(&self) -> Seq<CoinBookV> {
        self.books@.map(|i: int, b: CoinBook| b@)
    }
}

impl OrderBooks {
    /// A book set with no coins.
    pub fn new() -> (r: Self)
        ensures
            r@.len() == 0,
            books_wf(r@),
    {
        let r = OrderBooks { books: Vec::new() };
        proof {
            assert(r@ =~= Seq::<CoinBookV>::empty());
        }
        r
    }

    /// Index of the coin's book, or the number of books when the coin is
    /// not kept.
    fn find_coin_in(&self, coin: &Coin) -> (r: usize)
        ensures
            r as int == find_coin(self@, coin@),
            r <= self.books.len(),
            (r < self.books.len()) == has_coin(self@, coin@),
            self@.len() == self.books@.len(),
    {
        let mut i: usize = 0;
        while i < self.books.len()
            invariant
                0 <= i <= self.books.len(),
                forall|k: int| 0 <= k < i ==> self@[k].coin != coin@,
                self@.len() == self.books@.len(),
            decreases self.books.len() - i,
        {
            if self.books[i].coin.eq_coin(coin) {
                proof {
                    lemma_find_coin(self@, coin@);
                    assert(self@[i as int] == self.books@[i as int]@);
                    assert(self@[i as int].coin == coin@);
                    if find_coin(self@, coin@) < i as int {
                        assert(self@[find_coin(self@, coin@)].coin == coin@);
                    }
                }
                return i;
            }
            i = i + 1;
        }
        proof {
            lemma_find_coin(self@, coin@);
            if find_coin(self@, coin@) < self@.len() {
                assert(self@[find_coin(self@, coin@)].coin == coin@);
            }
        }
        i
    }

    /// Adds an order to its coin's book, creating the book when the coin is
    /// new. Fails with `DuplicateOid` (changing nothing) exactly when the
    /// oid is already on that coin's book.
    pub fn add_order(&mut self, o: L4Order) -> (r: Result<(), BookError>)
        ensures
            r == (if add_order_err(old(self)@, o) {
                Err::<(), BookError>(BookError::DuplicateOid)
            } else {
                Ok::<(), BookError>(())
            }),
            final(self)@ == spec_add_order(old(self)@, o),
    {
        let i = self.find_coin_in(&o.coin);
        if i == self.books.len() {
            let mut b = CoinBook::new(o.coin.dup());
            let ghost b0 = b@;
            proof {
                assert(b0.bids =~= Seq::<L4Order>::empty());
                assert(b0.asks =~= Seq::<L4Order>::empty());
                assert(b0 =~= empty_book(o.coin@));
            }
            let r = b.add(o);
            proof {
                assert(r is Ok);
                assert(b@ == book_add(empty_book(o.coin@), o));
            }
            self.books.push(b);
            proof {
                assert(self@ =~= spec_add_order(old(self)@, o));
            }
            Ok(())
        } else {
            let mut b = self.books.remove(i);
            let r = b.add(o);
            self.books.insert(i, b);
            proof {
                assert(self.books@ =~= old(self).books@.update(i as int, b));
                if book_has_oid(old(self)@[i as int], o.oid) {
                    assert(self@ =~= old(self)@);
                } else {
                    assert(self@ =~= spec_add_order(old(self)@, o));
                }
            }
            r
        }
    }

    /// Overwrites the size of the order with the given oid on the given
    /// coin's book; returns `false` (changing nothing) exactly when the coin
    /// or the oid is absent.
    pub fn modify_sz(&mut self, oid: Oid, coin: Coin, new_sz: Sz) -> (r: bool)
        ensures
            r == books_has_order(old(self)@, coin@, oid.0),
            final(self)@ == spec_modify_books(old(self)@, coin@, oid.0, new_sz),
    {
        let i = self.find_coin_in(&coin);
        if i == self.books.len() {
            proof {
                assert(self@ =~= spec_modify_books(old(self)@, coin@, oid.0, new_sz));
            }
            return false;
        }
        let mut b = self.books.remove(i);
        let r = b.modify_size(oid.0, new_sz);
        self.books.insert(i, b);
        proof {
            assert(self.books@ =~= old(self).books@.update(i as int, b));
            if book_has_oid(old(self)@[i as int], oid.0) {
                assert(self@ =~= spec_modify_books(old(self)@, coin@, oid.0, new_sz));
            } else {
                lemma_find_oid(old(self)@[i as int].bids, oid.0);
                lemma_find_oid(old(self)@[i as int].asks, oid.0);
                assert(book_modify(old(self)@[i as int], oid.0, new_sz) =~= old(
                    self,
                )@[i as int]);
                assert(self@ =~= old(self)@);
                assert(self@ =~= spec_modify_books(old(self)@, coin@, oid.0, new_sz));
            }
        }
        r
    }

    /// Removes the order with the given oid from the given coin's book;
    /// returns `false` (changing nothing) exactly when the coin or the oid
    /// is absent.
    pub fn cancel_order(&mut self, oid: Oid, coin: Coin) -> (r: bool)
        ensures
            r == books_has_order(old(self)@, coin@, oid.0),
            final(self)@ == spec_cancel_books(old(self)@, coin@, oid.0),
    {
        let i = self.find_coin_in(&coin);
        if i == self.books.len() {
            proof {
                assert(self@ =~= spec_cancel_books(old(self)@, coin@, oid.0));
            }
            return false;
        }
        let mut b = self.books.remove(i);
        let r = b.cancel(oid.0);
        self.books.insert(i, b);
        proof {
            assert(self.books@ =~= old(self).books@.update(i as int, b));
            if book_has_oid(old(self)@[i as int], oid.0) {
                assert(self@ =~= spec_cancel_books(old(self)@, coin@, oid.0));
            } else {
                lemma_find_oid(old(self)@[i as int].bids, oid.0);
                lemma_find_oid(old(self)@[i as int].asks, oid.0);
                assert(book_cancel(old(self)@[i as int], oid.0) =~= old(self)@[i as int]);
                assert(self@ =~= old(self)@);
                assert(self@ =~= spec_cancel_books(old(self)@, coin@, oid.0));
            }
        }
        r
    }

    /// The set of coins currently known, in book order.
    pub fn universe(&self) -> (r: Vec<Coin>)
        ensures
            r@.len() == self@.len(),
            forall|i: int| 0 <= i < r@.len() ==> r@[i]@ == self@[i].coin,
    {
        let mut r: Vec<Coin> = Vec::new();
        let mut i: usize = 0;
        while i < self.books.len()
            invariant
                0 <= i <= self.books.len(),
                r@.len() == i,
                forall|k: int| 0 <= k < i ==> r@[k]@ == self@[k].coin,
            decreases self.books.len() - i,
        {
            r.push(self.books[i].coin.dup());
            i = i + 1;
        }
        r
    }

    /// A full per-coin L4 snapshot: a by-value copy of every book.
    pub fn to_snapshots(&self) -> (r: Snapshots)
        ensures
            r@ == self@,
    {
        let mut books: Vec<CoinBook> = Vec::new();
        let mut i: usize = 0;
        while i < self.books.len()
            invariant
                0 <= i <= self.books.len(),
                books@.len() == i,
                forall|k: int| 0 <= k < i ==> #[trigger] books@[k]@ == self@[k],
            decreases self.books.len() - i,
        {
            books.push(self.books[i].dup());
            i = i + 1;
        }
        let r = Snapshots { books };
        proof {
            assert(r@ =~= self@);
        }
        r
    }
}


/// Whether an order from a snapshot enters the rebuilt book: it belongs to
/// the book's coin, survives the trigger filter, and its oid is not yet on
/// the book.
pub open spec fn import_keep(b: CoinBookV, o: L4Order, ignore_triggers: bool) -> bool {
    &&& o.coin@ == b.coin
    &&& !(ignore_triggers && o.is_trigger)
    &&& !book_has_oid(b, o.oid)
}

/// Folds a run of snapshot orders into a book, adding each order that
/// `import_keep` admits.
pub open spec fn fold_add(b: CoinBookV, s: Seq<L4Order>, ignore_triggers: bool) -> CoinBookV
    decreases s.len(),
{
    if s.len() == 0 {
        b
    } else {
        fold_add(
            if import_keep(b, s[0], ignore_triggers) {
                book_add(b, s[0])
            } else {
                b
            },
            s.skip(1),
            ignore_triggers,
        )
    }
}

/// The book rebuilt from one coin's snapshot: its bid orders, then its ask
/// orders, folded into an empty book.
pub open spec fn import_book(b: CoinBookV, ignore_triggers: bool) -> CoinBookV {
    fold_add(empty_book(b.coin), b.bids + b.asks, ignore_triggers)
}

/// The books rebuilt from a full snapshot, one per distinct coin, the first
/// snapshot for a coin winning.
pub open spec fn import_books(
    acc: Seq<CoinBookV>,
    bs: Seq<CoinBookV>,
    ignore_triggers: bool,
) -> Seq<CoinBookV>
    decreases bs.len(),
{
    if bs.len() == 0 {
        acc
    } else {
        import_books(
            if has_coin(acc, bs[0].coin) {
                acc
            } else {
                acc.push(import_book(bs[0], ignore_triggers))
            },
            bs.skip(1),
            ignore_triggers,
        )
    }
}

impl OrderBooks {
    /// Reconstructs all books from a full snapshot; `ignore_triggers`
    /// filters out trigger orders during import.
    pub fn from_snapshots(snapshot: Snapshots, ignore_triggers: bool) -> (r: Self)
        ensures
            r@ == import_books(Seq::empty(), snapshot@, ignore_triggers),
    {
        let ghost snap0 = snapshot@;
        let mut books = snapshot.books;
        let mut r = OrderBooks::new();
        proof {
            assert(books@.map(|i: int, b: CoinBook| b@) =~= snap0);
            assert(r@ =~= Seq::<CoinBookV>::empty());
        }
        while books.len() > 0
            invariant
                import_books(Seq::empty(), snap0, ignore_triggers) == import_books(
                    r@,
                    books@.map(|i: int, b: CoinBook| b@),
                    ignore_triggers,
                ),
            decreases books.len(),
        {
            let ghost pre = books@.map(|i: int, b: CoinBook| b@);
            let sb = books.remove(0);
            proof {
                assert(books@.map(|i: int, b: CoinBook| b@) =~= pre.skip(1));
                assert(pre[0] == sb@);
            }
            let i = r.find_coin_in(&sb.coin);
            if i < r.books.len() {
                proof {
                    assert(import_books(r@, pre, ignore_triggers) == import_books(
                        r@,
                        pre.skip(1),
                        ignore_triggers,
                    ));
                }
            } else {
                let imported = import_coin_book(sb, ignore_triggers);
                let ghost racc = r@;
                r.books.push(imported);
                proof {
                    assert(r@ =~= racc.push(imported@));
                    assert(import_books(racc, pre, ignore_triggers) == import_books(
                        racc.push(import_book(pre[0], ignore_triggers)),
                        pre.skip(1),
                        ignore_triggers,
                    ));
                }
            }
        }
        proof {
            assert(books@.map(|i: int, b: CoinBook| b@) =~= Seq::<CoinBookV>::empty());
        }
        r
    }
}

/// Rebuilds one coin's book from its snapshot: bid orders then ask orders,
/// each added unless the trigger filter or a duplicate oid drops it.
fn import_coin_book(sb: CoinBook, ignore_triggers: bool) -> (r: CoinBook)
    ensures
        r@ == import_book(sb@, ignore_triggers),
{
    let ghost sv = sb@;
    let CoinBook { coin, bids, asks } = sb;
    let mut orders = bids;
    let mut asks = asks;
    orders.append(&mut asks);
    proof {
        assert(orders@ == sv.bids + sv.asks);
    }
    let mut b = CoinBook::new(coin.dup());
    proof {
        assert(b@.bids =~= Seq::<L4Order>::empty());
        assert(b@.asks =~= Seq::<L4Order>::empty());
        assert(b@ =~= empty_book(sv.coin));
    }
    while orders.len() > 0
        invariant
            import_book(sv, ignore_triggers) == fold_add(b@, orders@, ignore_triggers),
            b@.coin == sv.coin,
        decreases orders.len(),
    {
        let ghost pre = orders@;
        let o = orders.remove(0);
        proof {
            assert(orders@ =~= pre.skip(1));
        }
        let keep = o.coin.eq_coin(&b.coin) && !(ignore_triggers && o.is_trigger);
        if keep {
            let ghost bpre = b@;
            let _added = b.add(o);
            proof {
                if book_has_oid(bpre, o.oid) {
                    assert(!import_keep(bpre, pre[0], ignore_triggers));
                    assert(b@ == bpre);
                } else {
                    assert(import_keep(bpre, pre[0], ignore_triggers));
                    assert(b@ == book_add(bpre, pre[0]));
                }
            }
        } else {
            proof {
                assert(!import_keep(b@, pre[0], ignore_triggers));
            }
        }
    }
    proof {
        assert(orders@ =~= Seq::<L4Order>::empty());
    }
    b
}


/// Adding an order that does not collide keeps every book well-formed and
/// every coin kept once.
pub proof fn lemma_spec_add_order_wf(bs: Seq<CoinBookV>, o: L4Order)
    requires
        books_wf(bs),
        !add_order_err(bs, o),
    ensures
        books_wf(spec_add_order(bs, o)),
{
    lemma_find_coin(bs, o.coin@);
    let i = find_coin(bs, o.coin@);
    if i == bs.len() {
        let eb = empty_book(o.coin@);
        assert(book_wf(eb));
        assert(!book_has_oid(eb, o.oid));
        lemma_book_add_wf(eb, o);
        let t = bs.push(book_add(eb, o));
        assert(book_add(eb, o).coin == o.coin@);
        assert forall|a: int, b: int| 0 <= a < b < t.len() implies t[a].coin != t[b].coin by {
            if b == t.len() - 1 {
                assert(t[a] == bs[a]);
            }
        }
    } else {
        assert(bs[i].coin == o.coin@);
        assert(!book_has_oid(bs[i], o.oid));
        lemma_book_add_wf(bs[i], o);
        assert(book_add(bs[i], o).coin == bs[i].coin);
    }
}

/// Overwriting a size keeps every book well-formed and every coin kept
/// once; in particular an update to size zero keeps the order on its book.
pub proof fn lemma_spec_modify_books_wf(bs: Seq<CoinBookV>, coin: Seq<char>, oid: u64, new_sz: Sz)
    requires
        books_wf(bs),
    ensures
        books_wf(spec_modify_books(bs, coin, oid, new_sz)),
        books_has_order(bs, coin, oid) ==> books_has_order(
            spec_modify_books(bs, coin, oid, new_sz),
            coin,
            oid,
        ),
{
    lemma_find_coin(bs, coin);
    if books_has_order(bs, coin, oid) {
        let i = find_coin(bs, coin);
        lemma_book_modify_wf(bs[i], oid, new_sz);
        let t = spec_modify_books(bs, coin, oid, new_sz);
        assert(book_modify(bs[i], oid, new_sz).coin == bs[i].coin);
        lemma_find_coin(t, coin);
        assert forall|k: int| 0 <= k < t.len() implies t[k].coin == bs[k].coin by {}
        assert(t[find_coin(t, coin)].coin == coin ==> true);
        if find_coin(t, coin) < t.len() {
        }
        assert(t[i].coin == coin);
        assert(has_coin(t, coin));
        let f2 = find_coin(t, coin);
        assert(f2 < t.len());
        if f2 < i {
            assert(t[f2].coin != coin);
        }
        if f2 > i {
            assert(t[i].coin != coin);
        }
        assert(f2 == i);
        assert(book_has_oid(t[i], oid));
    }
}

/// Removing an order keeps every book well-formed and every coin kept once.
pub proof fn lemma_spec_cancel_books_wf(bs: Seq<CoinBookV>, coin: Seq<char>, oid: u64)
    requires
        books_wf(bs),
    ensures
        books_wf(spec_cancel_books(bs, coin, oid)),
{
    lemma_find_coin(bs, coin);
    if books_has_order(bs, coin, oid) {
        let i = find_coin(bs, coin);
        lemma_book_cancel_wf(bs[i], oid);
        assert(book_cancel(bs[i], oid).coin == bs[i].coin);
    }
}

/// Folding snapshot orders into a well-formed book keeps it well-formed and
/// keeps its coin.
pub proof fn lemma_fold_add_wf(b: CoinBookV, s: Seq<L4Order>, ignore_triggers: bool)
    requires
        book_wf(b),
    ensures
        book_wf(fold_add(b, s, ignore_triggers)),
        fold_add(b, s, ignore_triggers).coin == b.coin,
    decreases s.len(),
{
    if s.len() > 0 {
        if import_keep(b, s[0], ignore_triggers) {
            lemma_book_add_wf(b, s[0]);
            assert(book_add(b, s[0]).coin == b.coin);
            lemma_fold_add_wf(book_add(b, s[0]), s.skip(1), ignore_triggers);
        } else {
            lemma_fold_add_wf(b, s.skip(1), ignore_triggers);
        }
    }
}

/// Importing a snapshot yields a well-formed book set.
pub proof fn lemma_import_books_wf(acc: Seq<CoinBookV>, bs: Seq<CoinBookV>, ignore_triggers: bool)
    requires
        books_wf(acc),
    ensures
        books_wf(import_books(acc, bs, ignore_triggers)),
    decreases bs.len(),
{
    if bs.len() > 0 {
        if has_coin(acc, bs[0].coin) {
            lemma_import_books_wf(acc, bs.skip(1), ignore_triggers);
        } else {
            let eb = empty_book(bs[0].coin);
            assert(book_wf(eb));
            lemma_fold_add_wf(eb, bs[0].bids + bs[0].asks, ignore_triggers);
            let acc2 = acc.push(import_book(bs[0], ignore_triggers));
            assert forall|a: int, b: int|
                0 <= a < b < acc2.len() implies acc2[a].coin != acc2[b].coin by {
                if b == acc2.len() - 1 {
                    assert(acc2[a] == acc[a]);
                    assert(import_book(bs[0], ignore_triggers).coin == bs[0].coin);
                }
            }
            lemma_import_books_wf(acc2, bs.skip(1), ignore_triggers);
        }
    }
}

/// Folding the bid ladder of a well-formed book back in, from position `k`
/// on, and then its ask ladder, reproduces the book exactly.
proof fn lemma_fold_bids(b: CoinBookV, k: int)
    requires
        book_wf(b),
        0 <= k <= b.bids.len(),
    ensures
        fold_add(
            CoinBookV { coin: b.coin, bids: b.bids.take(k), asks: Seq::empty() },
            b.bids.skip(k) + b.asks,
            false,
        ) == b,
    decreases b.bids.len() - k,
{
    let acc = CoinBookV { coin: b.coin, bids: b.bids.take(k), asks: Seq::empty() };
    let s = b.bids.skip(k) + b.asks;
    if k == b.bids.len() {
        assert(b.bids.take(k) =~= b.bids);
        assert(s =~= b.asks);
        lemma_fold_asks(b, 0);
        assert(b.asks.take(0) =~= Seq::<L4Order>::empty());
        assert(b.asks.skip(0) =~= b.asks);
    } else {
        let o = b.bids[k];
        assert(s[0] == o);
        assert(!has_oid(acc.bids, o.oid)) by {
            if has_oid(acc.bids, o.oid) {
                let w = choose|i: int| 0 <= i < acc.bids.len() && acc.bids[i].oid == o.oid;
                assert(b.bids[w].oid == b.bids[k].oid);
            }
        }
        assert(import_keep(acc, o, false));
        lemma_insert_pos(Side::Bid, acc.bids, o.limit_px.0);
        let p = insert_pos(Side::Bid, acc.bids, o.limit_px.0);
        assert forall|j: int| 0 <= j < k implies !px_before(
            Side::Bid,
            o.limit_px.0,
            acc.bids[j].limit_px.0,
        ) by {
            assert(acc.bids[j] == b.bids[j]);
        }
        assert(p == k) by {
            if p < k {
                assert(px_before(Side::Bid, o.limit_px.0, acc.bids[p].limit_px.0));
            }
        }
        assert(o.side == Side::Bid);
        let acc2 = book_add(acc, o);
        assert(acc2.bids =~= b.bids.take(k + 1)) by {
            assert(acc2.bids == acc.bids.insert(k, o));
            acc.bids.insert_ensures(k, o);
        }
        assert(acc2 =~= (CoinBookV {
            coin: b.coin,
            bids: b.bids.take(k + 1),
            asks: Seq::empty(),
        }));
        assert(s.skip(1) =~= b.bids.skip(k + 1) + b.asks);
        lemma_fold_bids(b, k + 1);
    }
}

/// Folding the ask ladder of a well-formed book back in, from position `k`
/// on, reproduces the book exactly.
proof fn lemma_fold_asks(b: CoinBookV, k: int)
    requires
        book_wf(b),
        0 <= k <= b.asks.len(),
    ensures
        fold_add(
            CoinBookV { coin: b.coin, bids: b.bids, asks: b.asks.take(k) },
            b.asks.skip(k),
            false,
        ) == b,
    decreases b.asks.len() - k,
{
    let acc = CoinBookV { coin: b.coin, bids: b.bids, asks: b.asks.take(k) };
    let s = b.asks.skip(k);
    if k == b.asks.len() {
        assert(b.asks.take(k) =~= b.asks);
        assert(acc =~= b);
        assert(s =~= Seq::<L4Order>::empty());
    } else {
        let o = b.asks[k];
        assert(s[0] == o);
        assert(!has_oid(acc.asks, o.oid)) by {
            if has_oid(acc.asks, o.oid) {
                let w = choose|i: int| 0 <= i < acc.asks.len() && acc.asks[i].oid == o.oid;
                assert(b.asks[w].oid == b.asks[k].oid);
            }
        }
        assert(!has_oid(acc.bids, o.oid)) by {
            if has_oid(acc.bids, o.oid) {
                let w = choose|i: int| 0 <= i < acc.bids.len() && acc.bids[i].oid == o.oid;
                assert(b.bids[w].oid == b.asks[k].oid);
            }
        }
        assert(import_keep(acc, o, false));
        lemma_insert_pos(Side::Ask, acc.asks, o.limit_px.0);
        let p = insert_pos(Side::Ask, acc.asks, o.limit_px.0);
        assert forall|j: int| 0 <= j < k implies !px_before(
            Side::Ask,
            o.limit_px.0,
            acc.asks[j].limit_px.0,
        ) by {
            assert(acc.asks[j] == b.asks[j]);
        }
        assert(p == k) by {
            if p < k {
                assert(px_before(Side::Ask, o.limit_px.0, acc.asks[p].limit_px.0));
            }
        }
        assert(o.side == Side::Ask);
        let acc2 = book_add(acc, o);
        assert(acc2.asks =~= b.asks.take(k + 1)) by {
            assert(acc2.asks == acc.asks.insert(k, o));
            acc.asks.insert_ensures(k, o);
        }
        assert(acc2 =~= (CoinBookV { coin: b.coin, bids: b.bids, asks: b.asks.take(k + 1) }));
        assert(s.skip(1) =~= b.asks.skip(k + 1));
        lemma_fold_asks(b, k + 1);
    }
}

/// Rebuilding one well-formed book from its own snapshot, with the trigger
/// filter off, reproduces it exactly.
pub proof fn lemma_import_book_id(b: CoinBookV)
    requires
        book_wf(b),
    ensures
        import_book(b, false) == b,
{
    lemma_fold_bids(b, 0);
    assert(b.bids.take(0) =~= Seq::<L4Order>::empty());
    assert(b.bids.skip(0) =~= b.bids);
    assert((CoinBookV { coin: b.coin, bids: b.bids.take(0), asks: Seq::empty() }) =~= empty_book(
        b.coin,
    ));
}

/// Round trip: importing a full snapshot of a well-formed book set onto the
/// given prefix, with the trigger filter off, appends the books exactly as
/// they were, provided no coin repeats.
pub proof fn lemma_import_books_id(acc: Seq<CoinBookV>, bs: Seq<CoinBookV>)
    requires
        books_wf(bs),
        forall|i: int, j: int|
            0 <= i < acc.len() && 0 <= j < bs.len() ==> acc[i].coin != bs[j].coin,
    ensures
        import_books(acc, bs, false) == acc + bs,
    decreases bs.len(),
{
    if bs.len() == 0 {
        assert(acc + bs =~= acc);
    } else {
        assert(!has_coin(acc, bs[0].coin)) by {
            if has_coin(acc, bs[0].coin) {
                let w = choose|i: int| 0 <= i < acc.len() && acc[i].coin == bs[0].coin;
            }
        }
        lemma_import_book_id(bs[0]);
        let acc2 = acc.push(bs[0]);
        assert forall|i: int, j: int|
            0 <= i < acc2.len() && 0 <= j < bs.skip(1).len() implies acc2[i].coin != bs.skip(
            1,
        )[j].coin by {
            assert(bs.skip(1)[j] == bs[j + 1]);
            if i < acc.len() {
                assert(acc2[i] == acc[i]);
            } else {
                assert(acc2[i] == bs[0]);
            }
        }
        assert(books_wf(bs.skip(1))) by {
            assert forall|i: int| 0 <= i < bs.skip(1).len() implies book_wf(
                #[trigger] bs.skip(1)[i],
            ) by {
                assert(bs.skip(1)[i] == bs[i + 1]);
            }
            assert forall|i: int, j: int|
                0 <= i < j < bs.skip(1).len() implies bs.skip(1)[i].coin != bs.skip(
                1,
            )[j].coin by {
                assert(bs.skip(1)[i] == bs[i + 1] && bs.skip(1)[j] == bs[j + 1]);
            }
        }
        lemma_import_books_id(acc2, bs.skip(1));
        assert(acc2 + bs.skip(1) =~= acc + bs);
    }
}

/// Round trip: rebuilding the whole book set from its own full snapshot,
/// with the trigger filter off, reproduces it exactly — the same orders in
/// the same ladder positions for every coin.
pub proof fn lemma_snapshot_roundtrip(bs: Seq<CoinBookV>)
    requires
        books_wf(bs),
    ensures
        import_books(Seq::empty(), bs, false) == bs,
{
    lemma_import_books_id(Seq::empty(), bs);
    assert(Seq::<CoinBookV>::empty() + bs =~= bs);
}

} // verus!
