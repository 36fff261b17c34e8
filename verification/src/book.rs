//! The order book of one instrument: bids and asks, each best price first,
//! and the pipeline that a new order goes through: admission, matching,
//! resting.

use crate::level::{LevelView, OrderEntry};
use crate::matching::{
    available, available_on, cancel_levels, cancel_side, has_level, holds_order, levels_view,
    levels_wf, locate, match_levels, match_side, opposite, rank, rest_levels, rest_side,
};
use crate::order::{OrderLifeTime, OrderRecord, OrderSide, OrderStatus, OrderType, OrderView};
use std::collections::VecDeque;
use vstd::prelude::*;

verus! {

/// Whether an order comes to rest in the book: a market order never does, nor
/// one in a terminal state (filled, canceled, rejected or expired), nor one
/// that asked for immediate execution and got part of it.
pub open spec fn rests(order: OrderView) -> bool {
    &&& order.kind != OrderType::MarketOrder
    &&& !order.is_terminal()
    &&& !(order.lifetime == OrderLifeTime::ImmidiateOrCancel && order.status
        == OrderStatus::PartiallyFilled)
}

/// The mathematical value of an order book: the levels of each side, best
/// price first.
pub struct BookView {
    pub bids: Seq<LevelView>,
    pub asks: Seq<LevelView>,
}

impl BookView {
    /// The book in which nothing rests.
    pub open spec fn empty() -> BookView {
        BookView { bids: Seq::empty(), asks: Seq::empty() }
    }

    /// The invariant of a book: on either side no level is empty, every
    /// level's total is the sum of what remains of its orders, and no price
    /// occurs twice; the bids run from the highest price down and the asks
    /// from the lowest price up.
    pub open spec fn wf(self) -> bool {
        &&& levels_wf(self.bids, OrderSide::Buy)
        &&& levels_wf(self.asks, OrderSide::Sell)
    }

    /// The levels that hold the orders of `side`.
    pub open spec fn side(self, side: OrderSide) -> Seq<LevelView> {
        match side {
            OrderSide::Buy => self.bids,
            OrderSide::Sell => self.asks,
        }
    }

    /// The book with `levels` in place of the levels of `side`.
    pub open spec fn with_side(self, side: OrderSide, levels: Seq<LevelView>) -> BookView {
        match side {
            OrderSide::Buy => BookView { bids: levels, asks: self.asks },
            OrderSide::Sell => BookView { bids: self.bids, asks: levels },
        }
    }

    /// The quantity that `order` could trade against at once: what rests on
    /// the other side at prices within its limit.
    pub open spec fn available_for(self, order: OrderView) -> nat {
        available(self.side(opposite(order.side)), order.side, order.price)
    }

    /// Whether `order` passes admission: an order that must be filled whole
    /// passes only where the book can fill it whole; any other order passes.
    pub open spec fn admits(self, order: OrderView) -> bool {
        order.lifetime == OrderLifeTime::FillOrKill ==> self.available_for(order)
            >= order.remaining
    }

    /// The book and the order after `order` has been matched against the
    /// other side and its status refreshed.
    pub open spec fn matched(self, order: OrderView) -> (BookView, OrderView) {
        let (levels, left) = match_levels(
            self.side(opposite(order.side)),
            order.side,
            order.price,
            order.remaining,
        );
        (self.with_side(opposite(order.side), levels), order.with_remaining(left).refreshed())
    }

    /// The book after `order` has come to rest on its own side, where it is
    /// one that rests.
    pub open spec fn rested(self, order: OrderView) -> BookView {
        if rests(order) {
            self.with_side(order.side, rest_levels(self.side(order.side), order))
        } else {
            self
        }
    }

    /// The book and the order after `order` has been submitted. An order in a
    /// terminal state is left alone. An order that does not
    /// pass admission is rejected and the book stays as it is. Any other
    /// order is matched and then rested.
    pub open spec fn submitted(self, order: OrderView) -> (BookView, OrderView) {
        if order.is_terminal() {
            (self, order)
        } else if !self.admits(order) {
            (self, order.with_status(OrderStatus::Rejected))
        } else {
            let (book, done) = self.matched(order);
            (book.rested(done), done)
        }
    }

    /// The book and the reference after the order that `reference` names by
    /// side, price and identifier has been canceled: where it rests, it leaves
    /// the book and the reference is marked canceled; where it does not,
    /// nothing changes.
    pub open spec fn canceled(self, reference: OrderView) -> (BookView, OrderView) {
        let levels = self.side(reference.side);
        if holds_order(levels, reference.side, reference.price, reference.id) {
            (
                self.with_side(
                    reference.side,
                    cancel_levels(levels, reference.side, reference.price, reference.id),
                ),
                reference.with_status(OrderStatus::Canceled),
            )
        } else {
            (self, reference)
        }
    }
}

/// The resting orders of one instrument.
#[derive(Debug)]
pub struct OrderBook {
    buy_orders: VecDeque<OrderEntry>,
    sell_orders: VecDeque<OrderEntry>,
}

impl View for OrderBook {
    type V = BookView;

    closed spec fn view(&self) -> BookView {
        BookView { bids: levels_view(self.buy_orders@), asks: levels_view(self.sell_orders@) }
    }
}

impl OrderBook {
    /// The invariant of a book, stated over its view.
    pub open spec fn wf(&self) -> bool {
        self@.wf()
    }

    /// A book in which nothing rests.
    pub fn new() -> (book: Self)
        ensures
            book@ == BookView::empty(),
            book.wf(),
    {
        let book = OrderBook { buy_orders: VecDeque::new(), sell_orders: VecDeque::new() };
        assert(book@.bids =~= Seq::empty());
        assert(book@.asks =~= Seq::empty());
        book
    }

    /// The bid levels, highest price first.
    pub fn buy_orders(&self) -> (levels: &VecDeque<OrderEntry>)
        ensures
            levels_view(levels@) == self@.bids,
    {
        &self.buy_orders
    }

    /// The ask levels, lowest price first.
    pub fn sell_orders(&self) -> (levels: &VecDeque<OrderEntry>)
        ensures
            levels_view(levels@) == self@.asks,
    {
        &self.sell_orders
    }

    /// The level at `price` among the orders of `side`, if there is one.
    pub fn entry(&self, side: OrderSide, price: u64) -> (level: Option<&OrderEntry>)
        ensures
            level.is_some() == has_level(self@.side(side), side, price as nat),
            level.is_some() ==> level.unwrap()@ == self@.side(side)[rank(
                self@.side(side),
                side,
                price as nat,
            ) as int],
    {
        let levels = match side {
            OrderSide::Buy => &self.buy_orders,
            OrderSide::Sell => &self.sell_orders,
        };
        let i: usize = locate(levels, side, price);
        if i < levels.len() && levels[i].price() == price {
            Some(&levels[i])
        } else {
            None
        }
    }

    /// The quantity that `incoming_order` could trade against at once: the
    /// sum of the totals of the levels of the other side at prices within its
    /// limit. Where that sum does not fit in 128 bits, the largest number that
    /// does.
    pub fn get_remaining_available_quantity(&self, incoming_order: &OrderRecord) -> (quantity:
        u128)
        ensures
            quantity == if self@.available_for(incoming_order@) <= u128::MAX {
                self@.available_for(incoming_order@)
            } else {
                u128::MAX as nat
            },
    {
        let side = incoming_order.order_side();
        match side {
            OrderSide::Buy => available_on(&self.sell_orders, side, incoming_order.price()),
            OrderSide::Sell => available_on(&self.buy_orders, side, incoming_order.price()),
        }
    }

    /// Admission: whether the book can do what the order's lifetime asks of
    /// it before anything is matched.
    fn validate_incoming_order(&self, incoming_order: &OrderRecord) -> (admitted: bool)
        ensures
            admitted == self@.admits(incoming_order@),
    {
        match incoming_order.order_life_time() {
            OrderLifeTime::FillOrKill => {
                let wanted: u64 = incoming_order.remaining_quantity();
                self.get_remaining_available_quantity(incoming_order) >= wanted as u128
            },
            _ => true,
        }
    }

    /// Matching: trades `incoming_order` against the other side, best price
    /// first and first come first served within a price, and refreshes its
    /// status.
    fn match_order(&mut self, incoming_order: &mut OrderRecord)
        requires
            old(self).wf(),
        ensures
            final(self).wf(),
            (final(self)@, final(incoming_order)@) == old(self)@.matched(old(incoming_order)@),
    {
        match incoming_order.order_side() {
            OrderSide::Buy => match_side(&mut self.sell_orders, incoming_order),
            OrderSide::Sell => match_side(&mut self.buy_orders, incoming_order),
        }
        incoming_order.refresh_order_status();
    }

    /// Resting: puts a copy of `incoming_order` at the back of the queue at
    /// its price on its own side, where it is an order that rests.
    fn set_order(&mut self, incoming_order: &OrderRecord)
        requires
            old(self).wf(),
        ensures
            final(self).wf(),
            final(self)@ == old(self)@.rested(incoming_order@),
    {
        if let OrderType::MarketOrder = incoming_order.order_type() {
            return;
        }
        match incoming_order.order_status() {
            OrderStatus::Filled
            | OrderStatus::Canceled
            | OrderStatus::Rejected
            | OrderStatus::Expired => {
                return;
            },
            _ => {},
        }
        if let OrderLifeTime::ImmidiateOrCancel = incoming_order.order_life_time() {
            if let OrderStatus::PartiallyFilled = incoming_order.order_status() {
                return;
            }
        }
        match incoming_order.order_side() {
            OrderSide::Buy => rest_side(&mut self.buy_orders, incoming_order.clone()),
            OrderSide::Sell => rest_side(&mut self.sell_orders, incoming_order.clone()),
        }
    }

    /// Cancels the resting order that `incoming_order` names by side, price
    /// and identifier. Where there is none, nothing changes.
    pub fn cancel_order(&mut self, incoming_order: &mut OrderRecord)
        requires
            old(self).wf(),
        ensures
            final(self).wf(),
            (final(self)@, final(incoming_order)@) == old(self)@.canceled(old(incoming_order)@),
    {
        let side = incoming_order.order_side();
        let price: u64 = incoming_order.price();
        let found = match side {
            OrderSide::Buy => cancel_side(
                &mut self.buy_orders,
                side,
                price,
                incoming_order.order_id(),
            ),
            OrderSide::Sell => cancel_side(
                &mut self.sell_orders,
                side,
                price,
                incoming_order.order_id(),
            ),
        };
        if found {
            incoming_order.set_status(OrderStatus::Canceled);
        }
    }

    /// Submits `incoming_order`: admission, then matching, then resting. The
    /// order comes back with its final status and remaining quantity.
    pub fn create_order(&mut self, incoming_order: &mut OrderRecord)
        requires
            old(self).wf(),
        ensures
            final(self).wf(),
            (final(self)@, final(incoming_order)@) == old(self)@.submitted(
                old(incoming_order)@,
            ),
    {
        match incoming_order.order_status() {
            OrderStatus::Filled
            | OrderStatus::Canceled
            | OrderStatus::Rejected
            | OrderStatus::Expired => {
                return;
            },
            _ => {},
        }
        if !self.validate_incoming_order(incoming_order) {
            incoming_order.set_status(OrderStatus::Rejected);
            return;
        }
        self.match_order(incoming_order);
        self.set_order(incoming_order);
    }
}

} // verus!
