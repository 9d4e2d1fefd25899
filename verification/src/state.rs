//! The state engine: owns the multi-coin book and advances it one block at
//! a time by reconciling the status and diff streams.

use vstd::prelude::*;
use vstd::string::*;
use std::collections::HashMap;
use crate::book::CoinBookV;
use crate::errors::BookError;
use crate::multi_book::{
    add_order_err, books_has_order, books_wf, lemma_import_books_wf, lemma_spec_add_order_wf,
    lemma_spec_cancel_books_wf, lemma_spec_modify_books_wf, spec_add_order, spec_cancel_books,
    spec_modify_books, OrderBooks, Snapshots,
};
use crate::node_data::{
    raw_order_parses, spec_is_inserted_into_book, spec_lift_order, Batch, NodeDataOrderDiff,
    NodeDataOrderStatus, OrderDiff,
};
use crate::order::{spec_is_special_address, L4Order};
use crate::types::{fixed_val, spec_is_spot, valid_decimal, Coin, Oid, Px, Sz};

verus! {

broadcast use vstd::std_specs::hash::group_hash_axioms;

/// The status map for one block: oid to status, over the statuses that put
/// their order on the book, a later status overwriting an earlier one.
pub open spec fn spec_status_map(ss: Seq<NodeDataOrderStatus>) -> Map<u64, NodeDataOrderStatus>
    decreases ss.len(),
{
    if ss.len() == 0 {
        Map::empty()
    } else {
        let m = spec_status_map(ss.drop_last());
        if spec_is_inserted_into_book(ss.last()) {
            m.insert(ss.last().order.oid, ss.last())
        } else {
            m
        }
    }
}

/// The constant strings a synthesized special-address order carries. Their
/// values are fixed by `synth_strings_wf`; the engine states its result up
/// to the identity of these freshly allocated strings.
pub ghost struct SynthStrings {
    pub trigger_condition: String,
    pub trigger_px: String,
    pub order_type: String,
    pub tif: String,
}

/// The synthesized constants: no trigger condition, zero trigger price, a
/// `"Limit"` order with `"Alo"` time-in-force.
pub open spec fn synth_strings_wf(c: SynthStrings) -> bool {
    &&& c.trigger_condition@ == "N/A"@
    &&& c.trigger_px@ == "0.0"@
    &&& c.order_type@ == "Limit"@
    &&& c.tif@ == "Alo"@
}

/// The order synthesized for a `New` diff from a special address: built
/// from the diff's fields, a limit order with `"Alo"` time-in-force, all
/// trigger behaviour disabled, timestamped with the block time.
pub open spec fn synth_order(c: SynthStrings, d: NodeDataOrderDiff, sz: Sz, t: u64) -> L4Order {
    L4Order {
        user: d.user,
        coin: d.coin,
        side: d.side,
        limit_px: Px(fixed_val(d.px@) as u64),
        sz,
        oid: d.oid,
        timestamp: t,
        trigger_condition: c.trigger_condition,
        is_trigger: false,
        trigger_px: c.trigger_px,
        is_position_tpsl: false,
        reduce_only: false,
        order_type: c.order_type,
        tif: Some(c.tif),
        cloid: None,
    }
}

/// One reconciliation step: what a single diff does to the books and the
/// status map, or the error that aborts the block.
pub open spec fn spec_step(
    bs: Seq<CoinBookV>,
    m: Map<u64, NodeDataOrderStatus>,
    d: NodeDataOrderDiff,
    t: u64,
    ignore_spot: bool,
    c: SynthStrings,
) -> Result<(Seq<CoinBookV>, Map<u64, NodeDataOrderStatus>), BookError> {
    if spec_is_spot(d.coin@) && ignore_spot {
        Ok((bs, m))
    } else {
        match d.raw_book_diff {
            OrderDiff::New { sz } => {
                if m.contains_key(d.oid) {
                    let raw = m[d.oid].order;
                    if raw_order_parses(raw) {
                        let o = spec_lift_order(raw, sz, t);
                        if add_order_err(bs, o) {
                            Err(BookError::DuplicateOid)
                        } else {
                            Ok((spec_add_order(bs, o), m.remove(d.oid)))
                        }
                    } else {
                        Err(BookError::ParseError)
                    }
                } else if spec_is_special_address(d.user@) {
                    if valid_decimal(d.px@) && fixed_val(d.px@) <= u64::MAX {
                        let o = synth_order(c, d, sz, t);
                        if add_order_err(bs, o) {
                            Err(BookError::DuplicateOid)
                        } else {
                            Ok((spec_add_order(bs, o), m))
                        }
                    } else {
                        Err(BookError::ParseError)
                    }
                } else {
                    Err(BookError::OrphanNew)
                }
            },
            OrderDiff::Update { new_sz } => {
                if books_has_order(bs, d.coin@, d.oid) {
                    Ok((spec_modify_books(bs, d.coin@, d.oid, new_sz), m))
                } else {
                    Err(BookError::OrphanUpdate)
                }
            },
            OrderDiff::Remove => {
                if books_has_order(bs, d.coin@, d.oid) {
                    Ok((spec_cancel_books(bs, d.coin@, d.oid), m))
                } else {
                    Err(BookError::OrphanRemove)
                }
            },
        }
    }
}

/// The books after a whole block of diffs is reconciled in order, or the
/// first error.
pub open spec fn spec_apply_diffs(
    bs: Seq<CoinBookV>,
    m: Map<u64, NodeDataOrderStatus>,
    diffs: Seq<NodeDataOrderDiff>,
    t: u64,
    ignore_spot: bool,
    c: SynthStrings,
) -> Result<Seq<CoinBookV>, BookError>
    decreases diffs.len(),
{
    if diffs.len() == 0 {
        Ok(bs)
    } else {
        match spec_step(bs, m, diffs[0], t, ignore_spot, c) {
            Ok((bs1, m1)) => spec_apply_diffs(bs1, m1, diffs.skip(1), t, ignore_spot, c),
            Err(e) => Err(e),
        }
    }
}

/// The ghost shape of the engine.
#[verifier::ext_equal]
pub ghost struct StateV {
    pub books: Seq<CoinBookV>,
    pub height: u64,
    pub time: u64,
    pub snapped: bool,
    pub ignore_spot: bool,
}

/// A full L4 snapshot together with the block height and time it reflects.
#[derive(Debug)]
pub struct TimedSnapshots {
    pub time: u64,
    pub height: u64,
    pub snapshot: Snapshots,
}

/// The outcome of an advancing apply: either the block reconciles and the
/// engine moves to the new height, time and books with `snapped` cleared,
/// or the first error is surfaced and the engine is exactly its old self.
pub open spec fn apply_outcome(
    st: StateV,
    statuses: Seq<NodeDataOrderStatus>,
    diffs: Seq<NodeDataOrderDiff>,
    h: u64,
    t: u64,
    c: SynthStrings,
    r: Result<(), BookError>,
    st2: StateV,
) -> bool {
    match spec_apply_diffs(st.books, spec_status_map(statuses), diffs, t, st.ignore_spot, c) {
        Ok(bs) => r == Ok::<(), BookError>(()) && st2 == (StateV {
            books: bs,
            height: h,
            time: t,
            snapped: false,
            ignore_spot: st.ignore_spot,
        }),
        Err(e) => r == Err::<(), BookError>(e) && st2 == st,
    }
}

/// What `l2_snapshots` does to the engine: nothing when `snapped` is
/// already set; else it sets `snapped` exactly when asked to prevent
/// future snapshots.
pub open spec fn spec_l2_transition(st: StateV, prevent_future_snaps: bool) -> StateV {
    if st.snapped {
        st
    } else {
        StateV { snapped: prevent_future_snaps, ..st }
    }
}

/// The order-book state engine: the multi-coin book plus the height and
/// time it reflects, the `snapped` flag, and the spot-filter setting.
#[derive(Debug)]
pub struct OrderBookState {
    pub order_book: OrderBooks,
    pub height: u64,
    pub time: u64,
    pub snapped: bool,
    pub ignore_spot: bool,
}

impl View for OrderBookState {
    type V = StateV;

    open spec fn view(&self) -> StateV {
        StateV {
            books: self.order_book@,
            height: self.height,
            time: self.time,
            snapped: self.snapped,
            ignore_spot: self.ignore_spot,
        }
    }
}

impl OrderBookState {
    /// Constructs an engine from a full snapshot at the given height and
    /// time; `snapped` starts clear.
    pub fn from_snapshot(
        snapshot: Snapshots,
        height: u64,
        time: u64,
        ignore_triggers: bool,
        ignore_spot: bool,
    ) -> (r: Self)
        ensures
            r@.books == crate::multi_book::import_books(
                Seq::empty(),
                snapshot@,
                ignore_triggers,
            ),
            r@.height == height,
            r@.time == time,
            r@.snapped == false,
            r@.ignore_spot == ignore_spot,
            books_wf(r@.books),
    {
        proof {
            assert(books_wf(Seq::<CoinBookV>::empty()));
            lemma_import_books_wf(Seq::empty(), snapshot@, ignore_triggers);
        }
        OrderBookState {
            order_book: OrderBooks::from_snapshots(snapshot, ignore_triggers),
            height,
            time,
            snapped: false,
            ignore_spot,
        }
    }

    /// The height of the last applied block.
    pub fn height(&self) -> (r: u64)
        ensures
            r == self@.height,
    {
        self.height
    }

    /// A full L4 snapshot of the current state; always succeeds and leaves
    /// the engine untouched.
    pub fn compute_snapshot(&self) -> (r: TimedSnapshots)
        ensures
            r.time == self@.time,
            r.height == self@.height,
            r.snapshot@ == self@.books,
    {
        TimedSnapshots {
            time: self.time,
            height: self.height,
            snapshot: self.order_book.to_snapshots(),
        }
    }

    /// The set of coins currently known.
    pub fn compute_universe(&self) -> (r: Vec<Coin>)
        ensures
            r@.len() == self@.books.len(),
            forall|i: int| 0 <= i < r@.len() ==> r@[i]@ == self@.books[i].coin,
    {
        self.order_book.universe()
    }

    /// Emits the L2 snapshot for the current (height, time) unless one has
    /// already been emitted (`snapped`); `prevent_future_snaps` marks the
    /// current height as snapped so later calls return nothing until the
    /// next block.
    pub fn l2_snapshots(&mut self, prevent_future_snaps: bool, depth: usize) -> (r: Option<
        (u64, Vec<crate::l2::L2BookSnapshot>),
    >)
        ensures
            final(self)@ == spec_l2_transition(old(self)@, prevent_future_snaps),
            old(self).snapped ==> r is None,
            !old(self).snapped ==> (r matches Some(p) && p.0 == old(self).time
                && crate::l2::l2_books_match(p.1@, old(self)@.books, depth as int)),
    {
        if self.snapped {
            proof {
                assert(self@ =~= spec_l2_transition(old(self)@, prevent_future_snaps));
            }
            None
        } else {
            self.snapped = prevent_future_snaps || self.snapped;
            proof {
                assert(self@ =~= spec_l2_transition(old(self)@, prevent_future_snaps));
            }
            Some((self.time, crate::l2::compute_l2_snapshots(&self.order_book, depth)))
        }
    }

    /// Reconciles one block of statuses and diffs into the book.
    ///
    /// The two batches must carry the same block number, else
    /// `BlockMismatch`. A height more than one above the current one is a
    /// `BlockGap`; a height at or below the current one is tolerated as a
    /// replayed block and changes nothing. A height of exactly one above
    /// reconciles the diffs in order; on the first error the engine is left
    /// exactly in its pre-apply state.
    pub fn apply_updates(
        &mut self,
        order_statuses: Batch<NodeDataOrderStatus>,
        order_diffs: Batch<NodeDataOrderDiff>,
    ) -> (r: Result<(), BookError>)
        ensures
            order_statuses.block_number != order_diffs.block_number ==> (r == Err::<
                (),
                BookError,
            >(BookError::BlockMismatch) && final(self)@ == old(self)@),
            order_statuses.block_number == order_diffs.block_number
                && order_statuses.block_number > old(self).height + 1 ==> (r == Err::<
                (),
                BookError,
            >(BookError::BlockGap) && final(self)@ == old(self)@),
            order_statuses.block_number == order_diffs.block_number
                && order_statuses.block_number <= old(self).height ==> (r == Ok::<
                (),
                BookError,
            >(()) && final(self)@ == old(self)@),
            order_statuses.block_number == order_diffs.block_number
                && order_statuses.block_number == old(self).height + 1 ==> exists|c: SynthStrings|
                #[trigger] synth_strings_wf(c) && apply_outcome(
                    old(self)@,
                    order_statuses.events@,
                    order_diffs.events@,
                    order_statuses.block_number,
                    order_statuses.block_time,
                    c,
                    r,
                    final(self)@,
                ),
    {
        let height = order_statuses.block_number;
        let t = order_statuses.block_time;
        if height != order_diffs.block_number {
            return Err(BookError::BlockMismatch);
        }
        if self.height < u64::MAX && height > self.height + 1 {
            return Err(BookError::BlockGap);
        }
        if height <= self.height {
            // tolerate a replayed block: caching may have begun long before
            // a snapshot was fetched
            return Ok(());
        }
        let ghost st0 = self@;
        // synthesized-order constants
        let na: String = "N/A".to_owned();
        let zero_px: String = "0.0".to_owned();
        let limit: String = "Limit".to_owned();
        let alo: String = "Alo".to_owned();
        let ghost c = SynthStrings {
            trigger_condition: na,
            trigger_px: zero_px,
            order_type: limit,
            tif: alo,
        };
        // the status map for this block
        let ghost ss0 = order_statuses.events@;
        let mut statuses = order_statuses.events;
        let mut order_map: HashMap<u64, NodeDataOrderStatus> = HashMap::new();
        let total = statuses.len();
        let mut i: usize = 0;
        proof {
            assert(ss0.take(0) =~= Seq::<NodeDataOrderStatus>::empty());
        }
        while statuses.len() > 0
            invariant
                i + statuses.len() == total,
                total == ss0.len(),
                statuses@ =~= ss0.skip(i as int),
                order_map@ == spec_status_map(ss0.take(i as int)),
            decreases statuses.len(),
        {
            let s = statuses.remove(0);
            proof {
                assert(s == ss0[i as int]);
                assert(statuses@ =~= ss0.skip(i as int + 1));
                assert(ss0.take(i as int + 1).drop_last() =~= ss0.take(i as int));
                assert(ss0.take(i as int + 1).last() == ss0[i as int]);
            }
            if s.is_inserted_into_book() {
                let oid = s.order.oid;
                order_map.insert(oid, s);
            }
            i = i + 1;
        }
        proof {
            assert(ss0.take(i as int) =~= ss0);
        }
        // reconcile the diffs into a candidate book; the engine itself is
        // only touched once the whole block has succeeded
        let mut candidate = dup_books(&self.order_book);
        let ghost ds0 = order_diffs.events@;
        let mut diffs = order_diffs.events;
        proof {
            assert(spec_apply_diffs(st0.books, order_map@, ds0, t, self.ignore_spot, c)
                == spec_apply_diffs(candidate@, order_map@, diffs@, t, self.ignore_spot, c));
        }
        let ghost m0 = order_map@;
        let ignore_spot = self.ignore_spot;
        let ghost h0 = old(self).height;
        while diffs.len() > 0
            invariant
                synth_strings_wf(c),
                c == (SynthStrings {
                    trigger_condition: na,
                    trigger_px: zero_px,
                    order_type: limit,
                    tif: alo,
                }),
                height == order_statuses.block_number,
                height == order_diffs.block_number,
                t == order_statuses.block_time,
                h0 == old(self).height,
                h0 < u64::MAX,
                height == h0 + 1,
                self@ == old(self)@,
                st0 == old(self)@,
                ignore_spot == old(self).ignore_spot,
                ss0 == order_statuses.events@,
                ds0 == order_diffs.events@,
                m0 == spec_status_map(ss0),
                spec_apply_diffs(st0.books, m0, ds0, t, ignore_spot, c) == spec_apply_diffs(
                    candidate@,
                    order_map@,
                    diffs@,
                    t,
                    ignore_spot,
                    c,
                ),
            decreases diffs.len(),
        {
            let ghost dpre = diffs@;
            let ghost mpre = order_map@;
            let ghost bpre = candidate@;
            let d = diffs.remove(0);
            proof {
                assert(diffs@ =~= dpre.skip(1));
                assert(d == dpre[0]);
            }
            if d.coin.is_spot() && ignore_spot {
                proof {
                    assert(spec_step(bpre, mpre, dpre[0], t, ignore_spot, c) == Ok::<
                        (Seq<CoinBookV>, Map<u64, NodeDataOrderStatus>),
                        BookError,
                    >((bpre, mpre)));
                }
                continue;
            }
            match d.raw_book_diff {
                OrderDiff::New { sz } => {
                    match order_map.remove(&d.oid) {
                        Some(status) => {
                            proof {
                                assert(mpre.contains_key(d.oid) && status == mpre[d.oid]);
                                assert(order_map@ == mpre.remove(d.oid));
                            }
                            let o = match status.order.into_l4_order(sz, t) {
                                Ok(o) => o,
                                Err(e) => {
                                    proof {
                                        assert(spec_step(bpre, mpre, d, t, ignore_spot, c)
                                            == Err::<
                                            (Seq<CoinBookV>, Map<u64, NodeDataOrderStatus>),
                                            BookError,
                                        >(BookError::ParseError));
                                    }
                                    return Err(e);
                                },
                            };
                            proof {
                                assert(o == spec_lift_order(mpre[d.oid].order, sz, t));
                            }
                            match candidate.add_order(o) {
                                Ok(()) => {
                                    proof {
                                        assert(candidate@ == spec_add_order(bpre, o));
                                        assert(spec_step(bpre, mpre, dpre[0], t, ignore_spot, c)
                                            == Ok::<
                                            (Seq<CoinBookV>, Map<u64, NodeDataOrderStatus>),
                                            BookError,
                                        >((candidate@, order_map@)));
                                    }
                                },
                                Err(e) => {
                                    proof {
                                        assert(e == BookError::DuplicateOid);
                                        assert(spec_step(bpre, mpre, dpre[0], t, ignore_spot, c)
                                            == Err::<
                                            (Seq<CoinBookV>, Map<u64, NodeDataOrderStatus>),
                                            BookError,
                                        >(BookError::DuplicateOid));
                                    }
                                    return Err(e);
                                },
                            }
                        },
                        None => {
                            if d.special_address() {
                                proof {
                                    assert(!mpre.contains_key(d.oid));
                                    assert(order_map@ == mpre);
                                }
                                let px = match Px::parse_from_str(d.px.as_str()) {
                                    Ok(px) => px,
                                    Err(e) => {
                                        proof {
                                            assert(spec_step(bpre, mpre, dpre[0], t, ignore_spot, c)
                                                == Err::<
                                                (Seq<CoinBookV>, Map<u64, NodeDataOrderStatus>),
                                                BookError,
                                            >(BookError::ParseError));
                                        }
                                        return Err(e);
                                    },
                                };
                                let o = L4Order {
                                    user: d.user,
                                    coin: d.coin,
                                    side: d.side,
                                    limit_px: px,
                                    sz,
                                    oid: d.oid,
                                    timestamp: t,
                                    trigger_condition: na.clone(),
                                    is_trigger: false,
                                    trigger_px: zero_px.clone(),
                                    is_position_tpsl: false,
                                    reduce_only: false,
                                    order_type: limit.clone(),
                                    tif: Some(alo.clone()),
                                    cloid: None,
                                };
                                proof {
                                    assert(o == synth_order(c, dpre[0], sz, t));
                                }
                                match candidate.add_order(o) {
                                    Ok(()) => {
                                        proof {
                                            assert(candidate@ == spec_add_order(bpre, o));
                                            assert(spec_step(bpre, mpre, dpre[0], t, ignore_spot, c)
                                                == Ok::<
                                                (Seq<CoinBookV>, Map<u64, NodeDataOrderStatus>),
                                                BookError,
                                            >((candidate@, order_map@)));
                                        }
                                    },
                                    Err(e) => {
                                        proof {
                                            assert(spec_step(bpre, mpre, dpre[0], t, ignore_spot, c)
                                                == Err::<
                                                (Seq<CoinBookV>, Map<u64, NodeDataOrderStatus>),
                                                BookError,
                                            >(BookError::DuplicateOid));
                                        }
                                        return Err(e);
                                    },
                                }
                            } else {
                                proof {
                                    assert(spec_step(bpre, mpre, dpre[0], t, ignore_spot, c)
                                        == Err::<
                                        (Seq<CoinBookV>, Map<u64, NodeDataOrderStatus>),
                                        BookError,
                                    >(BookError::OrphanNew));
                                }
                                return Err(BookError::OrphanNew);
                            }
                        },
                    }
                },
                OrderDiff::Update { new_sz } => {
                    if !candidate.modify_sz(Oid::new(d.oid), d.coin, new_sz) {
                        proof {
                            assert(spec_step(bpre, mpre, dpre[0], t, ignore_spot, c) == Err::<
                                (Seq<CoinBookV>, Map<u64, NodeDataOrderStatus>),
                                BookError,
                            >(BookError::OrphanUpdate));
                        }
                        return Err(BookError::OrphanUpdate);
                    }
                    proof {
                        assert(spec_step(bpre, mpre, dpre[0], t, ignore_spot, c) == Ok::<
                            (Seq<CoinBookV>, Map<u64, NodeDataOrderStatus>),
                            BookError,
                        >((candidate@, order_map@)));
                    }
                },
                OrderDiff::Remove => {
                    if !candidate.cancel_order(Oid::new(d.oid), d.coin) {
                        proof {
                            assert(spec_step(bpre, mpre, dpre[0], t, ignore_spot, c) == Err::<
                                (Seq<CoinBookV>, Map<u64, NodeDataOrderStatus>),
                                BookError,
                            >(BookError::OrphanRemove));
                        }
                        return Err(BookError::OrphanRemove);
                    }
                    proof {
                        assert(spec_step(bpre, mpre, dpre[0], t, ignore_spot, c) == Ok::<
                            (Seq<CoinBookV>, Map<u64, NodeDataOrderStatus>),
                            BookError,
                        >((candidate@, order_map@)));
                    }
                },
            }
        }
        proof {
            assert(diffs@ =~= Seq::<NodeDataOrderDiff>::empty());
            assert(spec_apply_diffs(st0.books, m0, ds0, t, ignore_spot, c) == Ok::<
                Seq<CoinBookV>,
                BookError,
            >(candidate@));
        }
        self.order_book = candidate;
        self.height = height;
        self.time = t;
        self.snapped = false;
        Ok(())
    }
}

/// An owned copy of the multi-coin book, equal to the original.
fn dup_books(b: &OrderBooks) -> (r: OrderBooks)
    ensures
        r@ == b@,
{
    let mut books: Vec<crate::book::CoinBook> = Vec::new();
    let mut i: usize = 0;
    while i < b.books.len()
        invariant
            0 <= i <= b.books.len(),
            books@.len() == i,
            forall|k: int| 0 <= k < i ==> #[trigger] books@[k]@ == b@[k],
        decreases b.books.len() - i,
    {
        books.push(b.books[i].dup());
        i = i + 1;
    }
    let r = OrderBooks { books };
    proof {
        assert(r@ =~= b@);
    }
    r
}


/// One successful reconciliation step keeps the book set well-formed:
/// ladders stay strictly price-ordered with FIFO runs, fields stay
/// consistent, and no oid doubles on a coin.
pub proof fn lemma_step_wf(
    bs: Seq<CoinBookV>,
    m: Map<u64, NodeDataOrderStatus>,
    d: NodeDataOrderDiff,
    t: u64,
    ignore_spot: bool,
    c: SynthStrings,
)
    requires
        books_wf(bs),
        spec_step(bs, m, d, t, ignore_spot, c) is Ok,
    ensures
        books_wf(spec_step(bs, m, d, t, ignore_spot, c)->Ok_0.0),
{
    if spec_is_spot(d.coin@) && ignore_spot {
    } else {
        match d.raw_book_diff {
            OrderDiff::New { sz } => {
                if m.contains_key(d.oid) {
                    lemma_spec_add_order_wf(bs, spec_lift_order(m[d.oid].order, sz, t));
                } else {
                    lemma_spec_add_order_wf(bs, synth_order(c, d, sz, t));
                }
            },
            OrderDiff::Update { new_sz } => {
                lemma_spec_modify_books_wf(bs, d.coin@, d.oid, new_sz);
            },
            OrderDiff::Remove => {
                lemma_spec_cancel_books_wf(bs, d.coin@, d.oid);
            },
        }
    }
}

/// A successfully reconciled block keeps the book set well-formed.
pub proof fn lemma_apply_diffs_wf(
    bs: Seq<CoinBookV>,
    m: Map<u64, NodeDataOrderStatus>,
    diffs: Seq<NodeDataOrderDiff>,
    t: u64,
    ignore_spot: bool,
    c: SynthStrings,
)
    requires
        books_wf(bs),
        spec_apply_diffs(bs, m, diffs, t, ignore_spot, c) is Ok,
    ensures
        books_wf(spec_apply_diffs(bs, m, diffs, t, ignore_spot, c)->Ok_0),
    decreases diffs.len(),
{
    if diffs.len() > 0 {
        lemma_step_wf(bs, m, diffs[0], t, ignore_spot, c);
        let (bs1, m1) = spec_step(bs, m, diffs[0], t, ignore_spot, c)->Ok_0;
        lemma_apply_diffs_wf(bs1, m1, diffs.skip(1), t, ignore_spot, c);
    }
}

/// Every reachable engine state keeps a well-formed book set: `apply_updates`
/// preserves well-formedness whether it succeeds or fails.
pub proof fn lemma_apply_outcome_wf(
    st: StateV,
    statuses: Seq<NodeDataOrderStatus>,
    diffs: Seq<NodeDataOrderDiff>,
    h: u64,
    t: u64,
    c: SynthStrings,
    r: Result<(), BookError>,
    st2: StateV,
)
    requires
        books_wf(st.books),
        apply_outcome(st, statuses, diffs, h, t, c, r, st2),
    ensures
        books_wf(st2.books),
{
    let m = spec_status_map(statuses);
    if spec_apply_diffs(st.books, m, diffs, t, st.ignore_spot, c) is Ok {
        lemma_apply_diffs_wf(st.books, m, diffs, t, st.ignore_spot, c);
    }
}

/// Heights are contiguous and `snapped` clears: a successful advancing apply
/// moves the engine to exactly the submitted height, with the block's time,
/// and with `snapped` false even if it was true before.
pub proof fn lemma_apply_advances(
    st: StateV,
    statuses: Seq<NodeDataOrderStatus>,
    diffs: Seq<NodeDataOrderDiff>,
    h: u64,
    t: u64,
    c: SynthStrings,
    r: Result<(), BookError>,
    st2: StateV,
)
    requires
        apply_outcome(st, statuses, diffs, h, t, c, r, st2),
        r is Ok,
    ensures
        st2.height == h,
        st2.time == t,
        st2.snapped == false,
        st2.ignore_spot == st.ignore_spot,
{
}

/// A failed apply leaves the engine exactly in its pre-apply state.
pub proof fn lemma_apply_err_unchanged(
    st: StateV,
    statuses: Seq<NodeDataOrderStatus>,
    diffs: Seq<NodeDataOrderDiff>,
    h: u64,
    t: u64,
    c: SynthStrings,
    r: Result<(), BookError>,
    st2: StateV,
)
    requires
        apply_outcome(st, statuses, diffs, h, t, c, r, st2),
        r is Err,
    ensures
        st2 == st,
{
}

/// Emitting an L2 snapshot with `prevent_future_snaps` set leaves the engine
/// snapped, so an immediately following emission at the same height returns
/// nothing.
pub proof fn lemma_l2_snapshot_once(st: StateV)
    ensures
        spec_l2_transition(st, true).snapped,
        spec_l2_transition(spec_l2_transition(st, true), true) == spec_l2_transition(st, true),
{
}

} // verus!
