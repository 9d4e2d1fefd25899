//! The L4 order record: one resting limit order with its full metadata.

use vstd::prelude::*;
use crate::types::{Coin, Px, Side, Sz};

verus! {

/// Byte repeated through the assistance-fund address.
pub const ASSISTANCE_FUND_BYTE: u8 = 0xFE;

/// Byte repeated through the HIP-2 address.
pub const HIP_2_BYTE: u8 = 0xFF;

/// A 20-byte user address.
#[derive(Debug, Clone, Copy)]
pub struct UserAddr {
    pub bytes: [u8; 20],
}

impl View for UserAddr {
    type V = Seq<u8>;

    open spec fn view(&self) -> Seq<u8> {
        self.bytes@
    }
}

/// Whether every byte of the address equals `b`.
pub open spec fn spec_addr_repeats(addr: Seq<u8>, b: u8) -> bool {
    forall|i: int| 0 <= i < addr.len() ==> addr[i] == b
}

/// Whether the address is one of the two recognized special addresses: the
/// assistance fund (`0xFE` repeated) or HIP-2 (`0xFF` repeated).
pub open spec fn spec_is_special_address(addr: Seq<u8>) -> bool {
    spec_addr_repeats(addr, ASSISTANCE_FUND_BYTE) || spec_addr_repeats(addr, HIP_2_BYTE)
}

impl UserAddr {
    pub fn new(bytes: [u8; 20]) -> (r: Self)
        ensures
            r@ == bytes@,
    {
        UserAddr { bytes }
    }

    /// Whether every byte equals `b`.
    pub fn repeats(&self, b: u8) -> (r: bool)
        ensures
            r == spec_addr_repeats(self@, b),
    {
        let mut i: usize = 0;
        while i < 20
            invariant
                0 <= i <= 20,
                self@.len() == 20,
                forall|j: int| 0 <= j < i ==> self@[j] == b,
            decreases 20 - i,
        {
            if self.bytes[i] != b {
                return false;
            }
            i = i + 1;
        }
        true
    }

    /// Whether this is the assistance-fund or the HIP-2 address.
    pub fn is_special(&self) -> (r: bool)
        ensures
            r == spec_is_special_address(self@),
    {
        self.repeats(ASSISTANCE_FUND_BYTE) || self.repeats(HIP_2_BYTE)
    }
}

/// One resting limit order. All attributes other than `sz` and `timestamp`
/// are immutable for the order's lifetime in the book.
#[derive(Debug, Clone)]
pub struct L4Order {
    pub user: UserAddr,
    pub coin: Coin,
    pub side: Side,
    pub limit_px: Px,
    pub sz: Sz,
    pub oid: u64,
    pub timestamp: u64,
    pub trigger_condition: String,
    pub is_trigger: bool,
    pub trigger_px: String,
    pub is_position_tpsl: bool,
    pub reduce_only: bool,
    pub order_type: String,
    pub tif: Option<String>,
    pub cloid: Option<String>,
}

/// An owned copy of an optional string.
pub fn dup_opt_string(s: &Option<String>) -> (r: Option<String>)
    ensures
        r == *s,
{
    match s {
        Some(v) => Some(v.clone()),
        None => None,
    }
}

impl L4Order {
    /// An owned copy of this order, equal to the original.
    pub fn dup(&self) -> (r: L4Order)
        ensures
            r == *self,
    {
        let r = L4Order {
            user: self.user,
            coin: Coin(self.coin.0.clone()),
            side: self.side,
            limit_px: self.limit_px,
            sz: self.sz,
            oid: self.oid,
            timestamp: self.timestamp,
            trigger_condition: self.trigger_condition.clone(),
            is_trigger: self.is_trigger,
            trigger_px: self.trigger_px.clone(),
            is_position_tpsl: self.is_position_tpsl,
            reduce_only: self.reduce_only,
            order_type: self.order_type.clone(),
            tif: dup_opt_string(&self.tif),
            cloid: dup_opt_string(&self.cloid),
        };
        proof {
            assert(r.coin.0 == self.coin.0);
            assert(r == *self);
        }
        r
    }
}

} // verus!
