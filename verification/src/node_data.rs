//! Deserialized per-block node events: raw book diffs, order statuses, and
//! the batch envelope they arrive in.

use vstd::prelude::*;
use vstd::string::*;
use crate::errors::BookError;
use crate::order::{L4Order, UserAddr};
use crate::types::{fixed_val, valid_decimal, Coin, Oid, Px, Side, Sz};

verus! {

/// A decoded raw book diff: the three mutations the diff stream can carry.
#[derive(Debug, Clone, Copy, PartialEq, Eq, Structural)]
pub enum OrderDiff {
    New { sz: Sz },
    Update { new_sz: Sz },
    Remove,
}

/// One diff event from the node's raw book diff stream.
#[derive(Debug)]
pub struct NodeDataOrderDiff {
    pub user: UserAddr,
    pub oid: u64,
    pub side: Side,
    pub px: String,
    pub coin: Coin,
    pub raw_book_diff: OrderDiff,
}

impl NodeDataOrderDiff {
    pub fn diff(&self) -> (r: OrderDiff)
        ensures
            r == self.raw_book_diff,
    {
        self.raw_book_diff
    }

    pub fn oid(&self) -> (r: Oid)
        ensures
            r.0 == self.oid,
    {
        Oid::new(self.oid)
    }

    pub fn coin(&self) -> (r: Coin)
        ensures
            r@ == self.coin@,
    {
        self.coin.dup()
    }

    pub fn user(&self) -> (r: UserAddr)
        ensures
            r@ == self.user@,
    {
        self.user
    }

    pub fn side(&self) -> (r: Side)
        ensures
            r == self.side,
    {
        self.side
    }

    pub fn px(&self) -> (r: String)
        ensures
            r@ == self.px@,
    {
        self.px.clone()
    }

    /// Whether the diff's source is the assistance fund or HIP-2.
    pub fn special_address(&self) -> (r: bool)
        ensures
            r == crate::order::spec_is_special_address(self.user@),
    {
        self.user.is_special()
    }
}

/// The wire form of an L4 order as a status event carries it: price and
/// size still in their decimal string forms.
#[derive(Debug)]
pub struct RawL4Order {
    pub user: UserAddr,
    pub coin: Coin,
    pub side: Side,
    pub limit_px: String,
    pub sz: String,
    pub oid: u64,
    pub timestamp: u64,
    pub trigger_condition: String,
    pub is_trigger: bool,
    pub trigger_px: String,
    pub is_position_tpsl: bool,
    pub reduce_only: bool,
    pub order_type: String,
    pub tif: Option<String>,
    pub cloid: Option<String>,
}

/// Whether both scalar strings of the wire order parse into 64-bit
/// fixed-point values.
pub open spec fn raw_order_parses(raw: RawL4Order) -> bool {
    &&& valid_decimal(raw.limit_px@) && fixed_val(raw.limit_px@) <= u64::MAX
    &&& valid_decimal(raw.sz@) && fixed_val(raw.sz@) <= u64::MAX
}

/// The book order a wire order lifts to, its size overwritten with `sz` and
/// its timestamp with the block time `t`.
pub open spec fn spec_lift_order(raw: RawL4Order, sz: Sz, t: u64) -> L4Order {
    L4Order {
        user: raw.user,
        coin: raw.coin,
        side: raw.side,
        limit_px: Px(fixed_val(raw.limit_px@) as u64),
        sz,
        oid: raw.oid,
        timestamp: t,
        trigger_condition: raw.trigger_condition,
        is_trigger: raw.is_trigger,
        trigger_px: raw.trigger_px,
        is_position_tpsl: raw.is_position_tpsl,
        reduce_only: raw.reduce_only,
        order_type: raw.order_type,
        tif: raw.tif,
        cloid: raw.cloid,
    }
}

impl RawL4Order {
    /// Lifts the wire order into a book order, overwriting its size with
    /// `sz` and its timestamp with the block time `t`; `ParseError` exactly
    /// when a scalar string does not parse.
    pub fn into_l4_order(self, sz: Sz, t: u64) -> (r: Result<L4Order, BookError>)
        ensures
            raw_order_parses(self) ==> r == Ok::<L4Order, BookError>(spec_lift_order(self, sz, t)),
            !raw_order_parses(self) ==> r == Err::<L4Order, BookError>(BookError::ParseError),
    {
        let limit_px = match Px::parse_from_str(self.limit_px.as_str()) {
            Ok(v) => v,
            Err(e) => {
                return Err(e);
            },
        };
        let _sz_parsed = match Sz::parse_from_str(self.sz.as_str()) {
            Ok(v) => v,
            Err(e) => {
                return Err(e);
            },
        };
        Ok(
            L4Order {
                user: self.user,
                coin: self.coin,
                side: self.side,
                limit_px,
                sz,
                oid: self.oid,
                timestamp: t,
                trigger_condition: self.trigger_condition,
                is_trigger: self.is_trigger,
                trigger_px: self.trigger_px,
                is_position_tpsl: self.is_position_tpsl,
                reduce_only: self.reduce_only,
                order_type: self.order_type,
                tif: self.tif,
                cloid: self.cloid,
            },
        )
    }
}

/// One status event from the node's order status stream.
#[derive(Debug)]
pub struct NodeDataOrderStatus {
    pub time: u64,
    pub user: UserAddr,
    pub status: String,
    pub order: RawL4Order,
}

/// Whether a status event puts its order on the book: an `"open"` status of
/// a non-trigger order whose time-in-force is not `"Ioc"`, or a
/// `"triggered"` status of a trigger order.
pub open spec fn spec_is_inserted_into_book(s: NodeDataOrderStatus) -> bool {
    ||| (s.status@ == "open"@ && !s.order.is_trigger && !(s.order.tif matches Some(t) && t@
        == "Ioc"@))
    ||| (s.order.is_trigger && s.status@ == "triggered"@)
}

impl NodeDataOrderStatus {
    /// Whether this status puts its order on the book.
    pub fn is_inserted_into_book(&self) -> (r: bool)
        ensures
            r == spec_is_inserted_into_book(*self),
    {
        let open: String = "open".to_owned();
        let triggered: String = "triggered".to_owned();
        let ioc: String = "Ioc".to_owned();
        let tif_is_ioc = match &self.order.tif {
            Some(t) => *t == ioc,
            None => false,
        };
        (self.status == open && !self.order.is_trigger && !tif_is_ioc) || (self.order.is_trigger
            && self.status == triggered)
    }
}

/// One per-block batch of events as deserialized from a node file.
#[derive(Debug)]
pub struct Batch<E> {
    pub local_time: u64,
    pub block_time: u64,
    pub block_number: u64,
    pub events: Vec<E>,
}

impl<E> Batch<E> {
    /// The block time in milliseconds.
    pub fn block_time(&self) -> (r: u64)
        ensures
            r == self.block_time,
    {
        self.block_time
    }

    /// The block height this batch advances to.
    pub fn block_number(&self) -> (r: u64)
        ensures
            r == self.block_number,
    {
        self.block_number
    }

    /// The batch's events, in their original order.
    pub fn events(self) -> (r: Vec<E>)
        ensures
            r == self.events,
    {
        self.events
    }
}

/// The three per-block event streams a node process writes.
#[derive(Debug, Clone, Copy, PartialEq, Eq, Structural)]
pub enum EventSource {
    Fills,
    OrderStatuses,
    OrderDiffs,
}

impl EventSource {
    /// The directory holding this stream's batch files, under the node's
    /// data root.
    pub fn event_source_dir(self, dir: &str) -> (r: String)
        ensures
            self is Fills ==> r@ == dir@ + "/hl/data/node_fills_by_block"@,
            self is OrderStatuses ==> r@ == dir@ + "/hl/data/node_order_statuses_by_block"@,
            self is OrderDiffs ==> r@ == dir@ + "/hl/data/node_raw_book_diffs_by_block"@,
    {
        let base: String = dir.to_owned();
        match self {
            EventSource::Fills => base.concat("/hl/data/node_fills_by_block"),
            EventSource::OrderStatuses => base.concat("/hl/data/node_order_statuses_by_block"),
            EventSource::OrderDiffs => base.concat("/hl/data/node_raw_book_diffs_by_block"),
        }
    }
}

} // verus!
