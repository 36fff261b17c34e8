//! Price levels: the orders resting at one price, first come first served,
//! together with the sum of what remains of them.

use crate::order::{OrderRecord, OrderView};
use std::collections::VecDeque;
use vstd::prelude::*;

verus! {

/// The sum of the remaining quantities of the orders in a queue.
pub open spec fn queue_quantity(queue: Seq<OrderView>) -> nat
    decreases queue.len(),
{
    if queue.len() == 0 {
        0
    } else {
        queue[0].remaining + queue_quantity(queue.skip(1))
    }
}

/// The quantity that changes hands when an incoming order that still wants
/// `incoming` meets a resting order that still offers `resting`.
pub open spec fn trade_quantity(incoming: nat, resting: nat) -> nat {
    if incoming <= resting {
        incoming
    } else {
        resting
    }
}

/// One match step: what the incoming order still wants and what the resting
/// order has become after the two have traded.
pub open spec fn match_step(incoming: nat, resting: OrderView) -> (nat, OrderView) {
    let traded = trade_quantity(incoming, resting.remaining);
    ((incoming - traded) as nat, resting.filled_by(traded))
}

/// Matching at one price: the queue and the quantity still wanted after an
/// incoming order wanting `incoming` has been served from the front of
/// `queue`. A resting order leaves the queue when nothing remains of it, and
/// the next one is touched only then.
pub open spec fn drain_queue(queue: Seq<OrderView>, incoming: nat) -> (Seq<OrderView>, nat)
    decreases queue.len(),
{
    if queue.len() == 0 || incoming == 0 {
        (queue, incoming)
    } else {
        let (left, front) = match_step(incoming, queue[0]);
        if front.remaining == 0 {
            drain_queue(queue.skip(1), left)
        } else {
            (queue.update(0, front), left)
        }
    }
}

/// The position of the first order in `queue` with identifier `id`, or the
/// length of the queue where there is none.
pub open spec fn index_of_id(queue: Seq<OrderView>, id: Seq<char>) -> nat
    decreases queue.len(),
{
    if queue.len() == 0 {
        0
    } else if queue[0].id == id {
        0
    } else {
        1 + index_of_id(queue.skip(1), id)
    }
}

/// The views of a sequence of orders, one for one.
pub open spec fn orders_view(orders: Seq<OrderRecord>) -> Seq<OrderView> {
    Seq::new(orders.len(), |i: int| orders[i]@)
}

/// The mathematical value of a price level.
pub struct LevelView {
    pub price: nat,
    pub queue: Seq<OrderView>,
    pub total: nat,
}

impl LevelView {
    /// The level's total is the sum of what remains of its orders.
    pub open spec fn consistent(self) -> bool {
        self.total == queue_quantity(self.queue)
    }

    /// The level after an incoming order wanting `incoming` has been matched
    /// against it: the queue is served from the front and the total drops by
    /// what was traded.
    pub open spec fn drained_by(self, incoming: nat) -> LevelView {
        let (queue, left) = drain_queue(self.queue, incoming);
        LevelView { price: self.price, queue, total: (self.total - (incoming - left)) as nat }
    }

    /// The level after `order` has joined the back of its queue.
    pub open spec fn with_order(self, order: OrderView) -> LevelView {
        LevelView {
            price: self.price,
            queue: self.queue.push(order),
            total: self.total + order.remaining,
        }
    }

    /// The level after the order at position `i` has left its queue.
    pub open spec fn without(self, i: int) -> LevelView
        recommends
            0 <= i < self.queue.len(),
    {
        LevelView {
            price: self.price,
            queue: self.queue.remove(i),
            total: (self.total - self.queue[i].remaining) as nat,
        }
    }
}

/// Putting an order at the front of a queue adds what remains of it.
pub proof fn lemma_quantity_front(front: OrderView, rest: Seq<OrderView>)
    ensures
        queue_quantity(seq![front] + rest) == front.remaining + queue_quantity(rest),
{
    let queue = seq![front] + rest;
    assert(queue.skip(1) =~= rest);
}

/// Putting an order at the back of a queue adds what remains of it.
pub proof fn lemma_quantity_push(queue: Seq<OrderView>, order: OrderView)
    ensures
        queue_quantity(queue.push(order)) == queue_quantity(queue) + order.remaining,
    decreases queue.len(),
{
    let pushed = queue.push(order);
    if queue.len() == 0 {
        assert(pushed.skip(1) =~= Seq::<OrderView>::empty());
        assert(queue_quantity(pushed.skip(1)) == 0);
    } else {
        lemma_quantity_push(queue.skip(1), order);
        assert(pushed.skip(1) =~= queue.skip(1).push(order));
        assert(pushed[0] == queue[0]);
    }
}

/// Taking an order out of a queue takes away what remains of it.
pub proof fn lemma_quantity_remove(queue: Seq<OrderView>, i: int)
    requires
        0 <= i < queue.len(),
    ensures
        queue_quantity(queue.remove(i)) + queue[i].remaining == queue_quantity(queue),
    decreases queue.len(),
{
    if i == 0 {
        assert(queue.remove(0) =~= queue.skip(1));
    } else {
        lemma_quantity_remove(queue.skip(1), i - 1);
        assert(queue.remove(i).skip(1) =~= queue.skip(1).remove(i - 1));
    }
}

/// A queue whose orders each hold at most `bound` holds at most `bound` per
/// order in all.
pub proof fn lemma_quantity_bound(queue: Seq<OrderView>, bound: nat)
    requires
        forall|i: int| 0 <= i < queue.len() ==> (#[trigger] queue[i]).remaining <= bound,
    ensures
        queue_quantity(queue) <= queue.len() * bound,
    decreases queue.len(),
{
    if queue.len() > 0 {
        let rest = queue.skip(1);
        assert forall|i: int| 0 <= i < rest.len() implies (#[trigger] rest[i]).remaining
            <= bound by {
            assert(rest[i] == queue[i + 1]);
        }
        lemma_quantity_bound(rest, bound);
        assert(queue.len() * bound == rest.len() * bound + bound) by (nonlinear_arith)
            requires
                queue.len() == rest.len() + 1,
        ;
    }
}

/// A match step moves quantity and neither makes nor loses any: what the
/// incoming order wants less afterwards is what the resting order offers less.
pub proof fn lemma_match_step_conserves(incoming: nat, resting: OrderView)
    ensures
        match_step(incoming, resting).0 <= incoming,
        match_step(incoming, resting).1.remaining <= resting.remaining,
        incoming - match_step(incoming, resting).0 == resting.remaining - match_step(
            incoming,
            resting,
        ).1.remaining,
        match_step(incoming, resting).0 == 0 || match_step(incoming, resting).1.remaining == 0,
{
}

/// Matching at one price moves quantity and neither makes nor loses any: what
/// the incoming order wants less afterwards is what the queue holds less.
pub proof fn lemma_drain_conserves(queue: Seq<OrderView>, incoming: nat)
    ensures
        drain_queue(queue, incoming).1 <= incoming,
        queue_quantity(drain_queue(queue, incoming).0) + (incoming - drain_queue(
            queue,
            incoming,
        ).1) == queue_quantity(queue),
    decreases queue.len(),
{
    if queue.len() > 0 && incoming > 0 {
        let (left, front) = match_step(incoming, queue[0]);
        if front.remaining == 0 {
            lemma_drain_conserves(queue.skip(1), left);
        } else {
            assert(queue.update(0, front).skip(1) =~= queue.skip(1));
        }
    }
}

/// Within one price, orders are served strictly in arrival order. After
/// matching, some number of orders from the front have left the queue, each
/// of them filled whole. What was traded beyond them, if anything, came off
/// the order that stood next, which now heads the queue. Every order behind
/// it is as it was.
pub proof fn lemma_drain_first_come_first_served(queue: Seq<OrderView>, incoming: nat)
    ensures
        ({
            let (after, left) = drain_queue(queue, incoming);
            let served = queue.len() - after.len();
            let part = (incoming - left) - queue_quantity(queue.take(served));
            &&& 0 <= served <= queue.len()
            &&& 0 <= part
            &&& part == 0 ==> after == queue.skip(served)
            &&& part != 0 ==> {
                &&& served < queue.len()
                &&& part < queue[served].remaining
                &&& after == queue.skip(served).update(0, queue[served].filled_by(part as nat))
            }
        }),
    decreases queue.len(),
{
    let (after, left) = drain_queue(queue, incoming);
    if queue.len() == 0 || incoming == 0 {
        assert(queue.take(0) =~= Seq::<OrderView>::empty());
        assert(queue.skip(0) =~= queue);
    } else {
        let (wanted, front) = match_step(incoming, queue[0]);
        let rest = queue.skip(1);
        if front.remaining == 0 {
            lemma_drain_first_come_first_served(rest, wanted);
            let served = queue.len() - after.len();
            assert(queue.take(served).skip(1) =~= rest.take(served - 1));
            assert(queue.take(served)[0] == queue[0]);
            assert(rest.skip(served - 1) =~= queue.skip(served));
            if served < queue.len() {
                assert(rest[served - 1] == queue[served]);
            }
        } else {
            assert(queue.take(0) =~= Seq::<OrderView>::empty());
            assert(queue.skip(0) =~= queue);
        }
    }
}

/// A level whose total is the sum of its queue keeps that property through
/// matching.
pub proof fn lemma_drained_consistent(level: LevelView, incoming: nat)
    requires
        level.consistent(),
    ensures
        level.drained_by(incoming).consistent(),
        level.drained_by(incoming).price == level.price,
        drain_queue(level.queue, incoming).1 <= incoming,
        level.drained_by(incoming).total + (incoming - drain_queue(level.queue, incoming).1)
            == level.total,
{
    lemma_drain_conserves(level.queue, incoming);
}

/// Matching at one price ends with nothing wanted any more or with the queue
/// used up.
pub proof fn lemma_drain_ends(queue: Seq<OrderView>, incoming: nat)
    ensures
        drain_queue(queue, incoming).0.len() == 0 || drain_queue(queue, incoming).1 == 0,
    decreases queue.len(),
{
    if queue.len() > 0 && incoming > 0 {
        let (left, front) = match_step(incoming, queue[0]);
        if front.remaining == 0 {
            lemma_drain_ends(queue.skip(1), left);
        }
    }
}

/// Where the first `i` orders of a queue bear other identifiers, the first
/// order with identifier `id` is the one at `i` if that one bears it, and there
/// is none if `i` is the length of the queue.
pub proof fn lemma_index_of_id(queue: Seq<OrderView>, id: Seq<char>, i: int)
    requires
        0 <= i <= queue.len(),
        forall|j: int| 0 <= j < i ==> (#[trigger] queue[j]).id != id,
        i < queue.len() ==> queue[i].id == id,
    ensures
        index_of_id(queue, id) == i,
    decreases i,
{
    if i > 0 {
        let rest = queue.skip(1);
        assert forall|j: int| 0 <= j < i - 1 implies (#[trigger] rest[j]).id != id by {
            assert(rest[j] == queue[j + 1]);
        }
        assert(queue[0].id != id);
        lemma_index_of_id(rest, id, i - 1);
    }
}

/// All the orders resting at one price, in arrival order, and the sum of what
/// remains of them. The queue and the sum change together only.
#[derive(Debug)]
pub struct OrderEntry {
    price: u64,
    queue: VecDeque<OrderRecord>,
    total_quantity: u128,
}

impl View for OrderEntry {
    type V = LevelView;

    closed spec fn view(&self) -> LevelView {
        LevelView {
            price: self.price as nat,
            queue: orders_view(self.queue@),
            total: self.total_quantity as nat,
        }
    }
}

impl Clone for OrderEntry {
    /// A level at the same price with a copy of every order, in the same
    /// order, and the same total.
    fn clone(&self) -> (copy: Self)
        ensures
            copy@ == self@,
    {
        let mut queue: VecDeque<OrderRecord> = VecDeque::new();
        let mut i: usize = 0;
        while i < self.queue.len()
            invariant
                0 <= i <= self.queue@.len(),
                queue@.len() == i,
                forall|k: int| 0 <= k < i ==> (#[trigger] queue@[k])@ == self.queue@[k]@,
            decreases self.queue@.len() - i,
        {
            queue.push_back(self.queue[i].clone());
            i = i + 1;
        }
        let copy = OrderEntry { price: self.price, queue, total_quantity: self.total_quantity };
        assert(copy@.queue =~= self@.queue);
        copy
    }
}

impl Default for OrderEntry {
    /// An empty level at price 0.
    fn default() -> (level: Self)
        ensures
            level@ == (LevelView { price: 0, queue: Seq::empty(), total: 0 }),
            level.wf(),
    {
        OrderEntry::new(0)
    }
}

impl OrderEntry {
    /// The invariant of a price level: its total is the sum of what remains of
    /// its orders.
    pub open spec fn wf(&self) -> bool {
        self@.consistent()
    }

    /// The price, the number of orders and the total of a level fit in the
    /// machine's integers.
    pub proof fn lemma_view_bounded(&self)
        ensures
            self@.price <= u64::MAX,
            self@.queue.len() <= usize::MAX,
            self@.total <= u128::MAX,
            forall|i: int|
                0 <= i < self@.queue.len() ==> (#[trigger] self@.queue[i]).remaining <= u64::MAX,
    {
        let queue = self@.queue;
        assert forall|i: int| 0 <= i < queue.len() implies (#[trigger] queue[i]).remaining
            <= u64::MAX by {
            self.queue@[i].lemma_view_bounded();
        }
        assert(self.queue.len() == self.queue@.len());
    }

    /// An empty level at `price`.
    pub fn new(price: u64) -> (level: Self)
        ensures
            level@ == (LevelView { price: price as nat, queue: Seq::empty(), total: 0 }),
            level.wf(),
    {
        let level = OrderEntry { price, queue: VecDeque::new(), total_quantity: 0 };
        assert(level@.queue =~= Seq::empty());
        level
    }

    /// The price of the level.
    pub fn price(&self) -> (price: u64)
        ensures
            price == self@.price,
    {
        self.price
    }

    /// The sum of what remains of the orders of the level.
    pub fn total_quantity(&self) -> (total: u128)
        ensures
            total == self@.total,
    {
        self.total_quantity
    }

    /// The number of orders resting at the level.
    pub fn len(&self) -> (count: usize)
        ensures
            count == self@.queue.len(),
    {
        self.queue.len()
    }

    /// Whether no order rests at the level.
    pub fn is_empty(&self) -> (empty: bool)
        ensures
            empty == (self@.queue.len() == 0),
    {
        self.queue.len() == 0
    }

    /// The order at position `i` of the queue, the front being position 0.
    pub fn order(&self, i: usize) -> (order: Option<&OrderRecord>)
        ensures
            i < self@.queue.len() ==> order.is_some() && order.unwrap()@ == self@.queue[i as int],
            i >= self@.queue.len() ==> order.is_none(),
    {
        if i < self.queue.len() {
            Some(&self.queue[i])
        } else {
            None
        }
    }

    /// Matches `incoming` against the level: resting orders are served from
    /// the front, each trade lowers both orders and the total by the same
    /// amount, and an order of which nothing remains leaves the queue.
    pub(crate) fn match_incoming(&mut self, incoming: &mut OrderRecord)
        requires
            old(self).wf(),
        ensures
            final(self).wf(),
            final(self)@ == old(self)@.drained_by(old(incoming)@.remaining),
            final(incoming)@ == old(incoming)@.with_remaining(
                drain_queue(old(self)@.queue, old(incoming)@.remaining).1,
            ),
            final(incoming)@.remaining <= old(incoming)@.remaining,
    {
        while incoming.remaining_quantity() > 0 && self.queue.len() > 0
            invariant
                self@.price == old(self)@.price,
                self@.consistent(),
                incoming@.remaining <= old(incoming)@.remaining,
                incoming@ == old(incoming)@.with_remaining(incoming@.remaining),
                self@.total == old(self)@.total - (old(incoming)@.remaining
                    - incoming@.remaining),
                drain_queue(self@.queue, incoming@.remaining) == drain_queue(
                    old(self)@.queue,
                    old(incoming)@.remaining,
                ),
            decreases self@.queue.len() + (if incoming@.remaining > 0 { 1nat } else { 0nat }),
        {
            let ghost queue = self@.queue;
            let ghost wanted = incoming@.remaining;
            let mut resting = self.queue.pop_front().unwrap();
            assert(resting@ == queue[0]);
            assert(self@.queue =~= queue.skip(1));
            let offered: u64 = resting.remaining_quantity();
            let wanted_now: u64 = incoming.remaining_quantity();
            let traded: u64 = if wanted_now <= offered { wanted_now } else { offered };
            incoming.reduce(traded);
            resting.fill(traded);
            self.total_quantity = self.total_quantity - (traded as u128);
            if resting.remaining_quantity() > 0 {
                let ghost front = resting@;
                self.queue.push_front(resting);
                proof {
                    assert(self@.queue =~= seq![front] + queue.skip(1));
                    assert(self@.queue =~= queue.update(0, front));
                    lemma_quantity_front(front, queue.skip(1));
                }
            }
        }
    }

    /// Puts `order` at the back of the queue and adds what remains of it to
    /// the total.
    pub(crate) fn push_back(&mut self, order: OrderRecord)
        requires
            old(self).wf(),
        ensures
            final(self).wf(),
            final(self)@ == old(self)@.with_order(order@),
    {
        proof {
            self.lemma_view_bounded();
            order.lemma_view_bounded();
            lemma_quantity_bound(self@.queue, u64::MAX as nat);
            lemma_quantity_push(self@.queue, order@);
            assert(self@.queue.len() * (u64::MAX as nat) <= (u64::MAX as nat) * (u64::MAX as nat))
                by (nonlinear_arith)
                requires
                    self@.queue.len() <= u64::MAX,
            ;
        }
        let ghost queue = self@.queue;
        self.total_quantity = self.total_quantity + (order.remaining_quantity() as u128);
        self.queue.push_back(order);
        assert(self@.queue =~= queue.push(order@));
    }

    /// The position of the first order with identifier `id`, if there is one.
    pub fn position(&self, id: &String) -> (found: Option<usize>)
        ensures
            match found {
                Some(i) => i < self@.queue.len() && i == index_of_id(self@.queue, id@),
                None => index_of_id(self@.queue, id@) == self@.queue.len(),
            },
    {
        let mut i: usize = 0;
        while i < self.queue.len()
            invariant
                0 <= i <= self@.queue.len(),
                forall|j: int| 0 <= j < i ==> (#[trigger] self@.queue[j]).id != id@,
            decreases self@.queue.len() - i,
        {
            if self.queue[i].has_id(id) {
                proof {
                    lemma_index_of_id(self@.queue, id@, i as int);
                }
                return Some(i);
            }
            i = i + 1;
        }
        proof {
            lemma_index_of_id(self@.queue, id@, i as int);
        }
        None
    }

    /// Takes the order at position `i` out of the queue and its remaining
    /// quantity off the total.
    pub(crate) fn remove(&mut self, i: usize) -> (order: OrderRecord)
        requires
            old(self).wf(),
            i < old(self)@.queue.len(),
        ensures
            final(self).wf(),
            final(self)@ == old(self)@.without(i as int),
            order@ == old(self)@.queue[i as int],
    {
        let ghost queue = self@.queue;
        proof {
            lemma_quantity_remove(queue, i as int);
        }
        let order = self.queue.remove(i).unwrap();
        self.total_quantity = self.total_quantity - (order.remaining_quantity() as u128);
        assert(self@.queue =~= queue.remove(i as int));
        order
    }
}

} // verus!
