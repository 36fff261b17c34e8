//! Orders: identity, execution state and the status derived from it.

use vstd::prelude::*;

verus! {

/// How an order is priced.
#[derive(Clone, Copy, Debug, PartialEq, Eq, Structural)]
pub enum OrderType {
    MarketOrder,
    LimitOrder,
}

/// The side of the book an order belongs to.
#[derive(Clone, Copy, Debug, PartialEq, Eq, Structural)]
pub enum OrderSide {
    Buy,
    Sell,
}

/// How long an order stays alive after it has been submitted.
#[derive(Clone, Copy, Debug, PartialEq, Eq, Structural)]
pub enum OrderLifeTime {
    GoodTilCancel,
    FillOrKill,
    ImmidiateOrCancel,
}

/// Where an order stands in its life.
#[derive(Clone, Copy, Debug, PartialEq, Eq, Structural)]
pub enum OrderStatus {
    New,
    Open,
    PartiallyFilled,
    Filled,
    Canceled,
    Rejected,
    Expired,
}

/// The status that follows from an order's quantities alone: `Open` while
/// nothing has been executed, `Filled` once nothing remains, and
/// `PartiallyFilled` in between.
pub open spec fn derived_status(initial: nat, remaining: nat) -> OrderStatus {
    if remaining == initial {
        OrderStatus::Open
    } else if remaining == 0 {
        OrderStatus::Filled
    } else {
        OrderStatus::PartiallyFilled
    }
}

/// The mathematical value of an order.
pub struct OrderView {
    pub side: OrderSide,
    pub id: Seq<char>,
    pub ticker: Seq<char>,
    pub price: nat,
    pub initial: nat,
    pub remaining: nat,
    pub kind: OrderType,
    pub lifetime: OrderLifeTime,
    pub status: OrderStatus,
}

impl OrderView {
    /// The same order with another status.
    pub open spec fn with_status(self, status: OrderStatus) -> OrderView {
        OrderView { status, ..self }
    }

    /// The same order with another remaining quantity.
    pub open spec fn with_remaining(self, remaining: nat) -> OrderView {
        OrderView { remaining, ..self }
    }

    /// The same order with the status that its quantities call for.
    pub open spec fn refreshed(self) -> OrderView {
        self.with_status(derived_status(self.initial, self.remaining))
    }

    /// The order after `quantity` of it has been executed.
    pub open spec fn filled_by(self, quantity: nat) -> OrderView
        recommends
            quantity <= self.remaining,
    {
        self.with_remaining((self.remaining - quantity) as nat).refreshed()
    }

    /// Whether the order has reached a state that it never leaves: filled,
    /// canceled, rejected or expired. Such an order is never matched or
    /// queued again.
    pub open spec fn is_terminal(self) -> bool {
        ||| self.status == OrderStatus::Filled
        ||| self.status == OrderStatus::Canceled
        ||| self.status == OrderStatus::Rejected
        ||| self.status == OrderStatus::Expired
    }
}

/// One order intent: who it is, what it asks for, and how far it has been
/// executed.
#[derive(Debug)]
pub struct OrderRecord {
    order_side: OrderSide,
    order_id: String,
    price: u64,
    ticker: String,
    initial_quantity: u64,
    remaining_quantity: u64,
    order_type: OrderType,
    order_life_time: OrderLifeTime,
    order_status: OrderStatus,
}

impl View for OrderRecord {
    type V = OrderView;

    closed spec fn view(&self) -> OrderView {
        OrderView {
            side: self.order_side,
            id: self.order_id@,
            ticker: self.ticker@,
            price: self.price as nat,
            initial: self.initial_quantity as nat,
            remaining: self.remaining_quantity as nat,
            kind: self.order_type,
            lifetime: self.order_life_time,
            status: self.order_status,
        }
    }
}

impl Clone for OrderRecord {
    fn clone(&self) -> (copy: Self)
        ensures
            copy@ == self@,
    {
        OrderRecord {
            order_side: self.order_side,
            order_id: self.order_id.clone(),
            price: self.price,
            ticker: self.ticker.clone(),
            initial_quantity: self.initial_quantity,
            remaining_quantity: self.remaining_quantity,
            order_type: self.order_type,
            order_life_time: self.order_life_time,
            order_status: self.order_status,
        }
    }
}

impl OrderRecord {
    /// A new order: nothing executed yet, status `New`.
    pub fn new(
        order_side: OrderSide,
        order_id: String,
        ticker: String,
        price: u64,
        initial_quantity: u64,
        order_type: OrderType,
        order_life_time: OrderLifeTime,
    ) -> (order: Self)
        ensures
            order@ == (OrderView {
                side: order_side,
                id: order_id@,
                ticker: ticker@,
                price: price as nat,
                initial: initial_quantity as nat,
                remaining: initial_quantity as nat,
                kind: order_type,
                lifetime: order_life_time,
                status: OrderStatus::New,
            }),
    {
        OrderRecord {
            order_side,
            order_id,
            price,
            initial_quantity,
            remaining_quantity: initial_quantity,
            order_type,
            order_life_time,
            order_status: OrderStatus::New,
            ticker,
        }
    }

    /// Sets the status to the one that the quantities call for.
    pub fn refresh_order_status(&mut self)
        ensures
            final(self)@ == old(self)@.refreshed(),
    {
        if self.remaining_quantity == self.initial_quantity {
            self.order_status = OrderStatus::Open;
        } else if self.remaining_quantity == 0 {
            self.order_status = OrderStatus::Filled;
        } else {
            self.order_status = OrderStatus::PartiallyFilled;
        }
    }

    /// Marks the order expired. When an order expires is for the caller's
    /// clock to say: nothing in the matching core sets this status.
    pub fn expire(&mut self)
        ensures
            final(self)@ == old(self)@.with_status(OrderStatus::Expired),
    {
        self.order_status = OrderStatus::Expired;
    }

    /// Every quantity and the price of an order fit in 64 bits.
    pub proof fn lemma_view_bounded(&self)
        ensures
            self@.price <= u64::MAX,
            self@.initial <= u64::MAX,
            self@.remaining <= u64::MAX,
    {
    }

    /// Executes `quantity` of the order and refreshes its status.
    pub(crate) fn fill(&mut self, quantity: u64)
        requires
            quantity <= old(self)@.remaining,
        ensures
            final(self)@ == old(self)@.filled_by(quantity as nat),
    {
        self.remaining_quantity = self.remaining_quantity - quantity;
        self.refresh_order_status();
    }

    /// Lowers the remaining quantity by `quantity` and leaves the status as it
    /// is.
    pub(crate) fn reduce(&mut self, quantity: u64)
        requires
            quantity <= old(self)@.remaining,
        ensures
            final(self)@ == old(self)@.with_remaining(
                (old(self)@.remaining - quantity) as nat,
            ),
    {
        self.remaining_quantity = self.remaining_quantity - quantity;
    }

    /// Overwrites the status.
    pub(crate) fn set_status(&mut self, status: OrderStatus)
        ensures
            final(self)@ == old(self)@.with_status(status),
    {
        self.order_status = status;
    }

    pub fn order_side(&self) -> (side: OrderSide)
        ensures
            side == self@.side,
    {
        self.order_side
    }

    pub fn order_id(&self) -> (id: &String)
        ensures
            id@ == self@.id,
    {
        &self.order_id
    }

    /// Whether the order bears the identifier `id`.
    pub fn has_id(&self, id: &String) -> (same: bool)
        ensures
            same == (self@.id == id@),
    {
        self.order_id == *id
    }

    pub fn ticker(&self) -> (ticker: &String)
        ensures
            ticker@ == self@.ticker,
    {
        &self.ticker
    }

    pub fn price(&self) -> (price: u64)
        ensures
            price == self@.price,
    {
        self.price
    }

    pub fn initial_quantity(&self) -> (quantity: u64)
        ensures
            quantity == self@.initial,
    {
        self.initial_quantity
    }

    pub fn remaining_quantity(&self) -> (quantity: u64)
        ensures
            quantity == self@.remaining,
    {
        self.remaining_quantity
    }

    pub fn order_type(&self) -> (kind: OrderType)
        ensures
            kind == self@.kind,
    {
        self.order_type
    }

    pub fn order_life_time(&self) -> (lifetime: OrderLifeTime)
        ensures
            lifetime == self@.lifetime,
    {
        self.order_life_time
    }

    pub fn order_status(&self) -> (status: OrderStatus)
        ensures
            status == self@.status,
    {
        self.order_status
    }
}

} // verus!
