//! Prices are integer ticks and quantities integer lots.

use vstd::prelude::*;

verus! {

pub type Price = u32;

pub type Qty = u32;

pub type OrderId = u64;

/// Small integer identifying who owns an order. The engine only uses it for
/// self-match prevention and for tagging fills.
pub type Owner = u16;

#[derive(Clone, Copy, Debug, PartialEq, Eq, Structural)]
pub enum Side {
    Buy,
    Sell,
}

impl Side {
    pub open spec fn opposite(self) -> Side {
        match self {
            Side::Buy => Side::Sell,
            Side::Sell => Side::Buy,
        }
    }

    /// The other side of the market.
    pub fn flip(self) -> (r: Side)
        ensures
            r == self.opposite(),
            r != self,
    {
        match self {
            Side::Buy => Side::Sell,
            Side::Sell => Side::Buy,
        }
    }
}

/// One trade. The maker is the resting order, the taker is the incoming one.
#[derive(Clone, Copy, Debug, PartialEq, Eq, Structural)]
pub struct Fill {
    pub price: Price,
    pub qty: Qty,
    pub maker: OrderId,
    pub maker_owner: Owner,
    pub taker: OrderId,
    pub taker_owner: Owner,
    pub taker_side: Side,
}

#[derive(Clone, Copy, Debug, PartialEq, Eq, Structural)]
pub enum Event {
    Fill(Fill),
    /// An incoming order would have traded against the same owner's resting
    /// order. The resting order is canceled and matching goes on (the
    /// cancel-oldest self-trade prevention policy).
    SelfMatch { canceled: OrderId, owner: Owner, lost_qty: Qty },
}

} // verus!
