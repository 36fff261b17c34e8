//! What holds of every book and every order: the invariants that each
//! operation keeps, and the rules of matching stated as theorems about the
//! model.

use crate::book::{rests, BookView};
use crate::level::{
    drain_queue, index_of_id, lemma_drain_ends, lemma_drain_first_come_first_served,
    lemma_drained_consistent, LevelView,
};
use crate::matching::{
    available, better, cancel_levels, crosses, has_level, holds_order, lemma_cancel_keeps_wf,
    lemma_match_keeps_wf, lemma_rank_splits, lemma_rest_keeps_wf, lemma_wf_skip, levels_quantity,
    levels_wf, match_levels, opposite, rank, rest_levels,
};
use crate::order::{OrderLifeTime, OrderSide, OrderStatus, OrderType, OrderView};
use vstd::prelude::*;

verus! {

/// Submitting an order keeps the book well formed: afterwards, as before, no
/// level is empty, no price occurs twice on a side, and every level's total
/// is the sum of what remains of its orders.
pub proof fn lemma_submitted_wf(book: BookView, order: OrderView)
    requires
        book.wf(),
    ensures
        book.submitted(order).0.wf(),
{
    if !order.is_terminal() && book.admits(order) {
        let (matched, done) = book.matched(order);
        lemma_match_keeps_wf(
            book.side(opposite(order.side)),
            opposite(order.side),
            order.side,
            order.price,
            order.remaining,
        );
        if rests(done) {
            lemma_rest_keeps_wf(matched.side(done.side), done);
        }
    }
}

/// Canceling an order keeps the book well formed.
pub proof fn lemma_canceled_wf(book: BookView, reference: OrderView)
    requires
        book.wf(),
    ensures
        book.canceled(reference).0.wf(),
{
    lemma_cancel_keeps_wf(
        book.side(reference.side),
        reference.side,
        reference.price,
        reference.id,
    );
}

/// Matching moves quantity and neither makes nor loses any: what the incoming
/// order wants less afterwards is what the side holds less.
pub proof fn lemma_match_conserves(
    levels: Seq<LevelView>,
    side: OrderSide,
    limit: nat,
    incoming: nat,
)
    requires
        levels_wf(levels, opposite(side)),
    ensures
        match_levels(levels, side, limit, incoming).1 <= incoming,
        levels_quantity(match_levels(levels, side, limit, incoming).0) + (incoming - match_levels(
            levels,
            side,
            limit,
            incoming,
        ).1) == levels_quantity(levels),
    decreases levels.len(),
{
    if !(levels.len() == 0 || incoming == 0 || !crosses(side, limit, levels[0].price)) {
        let best = levels[0].drained_by(incoming);
        let left = drain_queue(levels[0].queue, incoming).1;
        lemma_drained_consistent(levels[0], incoming);
        if best.queue.len() == 0 {
            lemma_wf_skip(levels, opposite(side));
            lemma_match_conserves(levels.skip(1), side, limit, left);
        } else {
            assert(levels.update(0, best).skip(1) =~= levels.skip(1));
        }
    }
}

/// Where the best level of a side is out of an order's reach, so is the
/// whole side.
pub proof fn lemma_out_of_reach(levels: Seq<LevelView>, side: OrderSide, limit: nat)
    requires
        levels_wf(levels, opposite(side)),
        levels.len() > 0 ==> !crosses(side, limit, levels[0].price),
    ensures
        available(levels, side, limit) == 0,
    decreases levels.len(),
{
    if levels.len() > 0 {
        let rest = levels.skip(1);
        lemma_wf_skip(levels, opposite(side));
        if rest.len() > 0 {
            assert(rest[0] == levels[1]);
            assert(better(opposite(side), levels[0].price, levels[1].price));
        }
        lemma_out_of_reach(rest, side, limit);
    }
}

/// Matching fills as much of an order as the other side offers within its
/// limit, and no more than the order wants.
pub proof fn lemma_match_fills_available(
    levels: Seq<LevelView>,
    side: OrderSide,
    limit: nat,
    incoming: nat,
)
    requires
        levels_wf(levels, opposite(side)),
    ensures
        incoming - match_levels(levels, side, limit, incoming).1 == (if incoming <= available(
            levels,
            side,
            limit,
        ) {
            incoming
        } else {
            available(levels, side, limit)
        }),
    decreases levels.len(),
{
    if levels.len() == 0 || incoming == 0 {
    } else if !crosses(side, limit, levels[0].price) {
        lemma_out_of_reach(levels, side, limit);
    } else {
        let best = levels[0].drained_by(incoming);
        let left = drain_queue(levels[0].queue, incoming).1;
        lemma_drained_consistent(levels[0], incoming);
        lemma_drain_ends(levels[0].queue, incoming);
        if best.queue.len() == 0 {
            lemma_wf_skip(levels, opposite(side));
            lemma_match_fills_available(levels.skip(1), side, limit, left);
        }
    }
}

/// Price priority. Matching empties some number of levels from the best
/// price on, each of them within the order's limit. What was traded beyond
/// them, if anything, came off the level that stood next, which is within the
/// limit too and now heads the side. Every level behind it is as it was. And
/// where the order still wants something, the level that heads the side is
/// out of its reach.
pub proof fn lemma_match_best_price_first(
    levels: Seq<LevelView>,
    side: OrderSide,
    limit: nat,
    incoming: nat,
)
    requires
        levels_wf(levels, opposite(side)),
    ensures
        ({
            let (after, left) = match_levels(levels, side, limit, incoming);
            let emptied = levels.len() - after.len();
            let part = (incoming - left) - levels_quantity(levels.take(emptied));
            &&& 0 <= emptied <= levels.len()
            &&& forall|j: int|
                0 <= j < emptied ==> crosses(side, limit, (#[trigger] levels[j]).price)
            &&& 0 <= part
            &&& part == 0 ==> after == levels.skip(emptied)
            &&& part != 0 ==> {
                &&& left == 0
                &&& emptied < levels.len()
                &&& crosses(side, limit, levels[emptied].price)
                &&& after == levels.skip(emptied).update(
                    0,
                    levels[emptied].drained_by(part as nat),
                )
            }
            &&& left > 0 && after.len() > 0 ==> !crosses(side, limit, after[0].price)
        }),
    decreases levels.len(),
{
    let (after, left) = match_levels(levels, side, limit, incoming);
    if levels.len() == 0 || incoming == 0 || !crosses(side, limit, levels[0].price) {
        assert(levels.take(0) =~= Seq::<LevelView>::empty());
        assert(levels.skip(0) =~= levels);
    } else {
        let best = levels[0].drained_by(incoming);
        let wanted = drain_queue(levels[0].queue, incoming).1;
        let rest = levels.skip(1);
        lemma_drained_consistent(levels[0], incoming);
        lemma_drain_ends(levels[0].queue, incoming);
        if best.queue.len() == 0 {
            lemma_wf_skip(levels, opposite(side));
            lemma_match_best_price_first(rest, side, limit, wanted);
            let emptied = levels.len() - after.len();
            assert(levels.take(emptied).skip(1) =~= rest.take(emptied - 1));
            assert(levels.take(emptied)[0] == levels[0]);
            assert(rest.skip(emptied - 1) =~= levels.skip(emptied));
            if emptied < levels.len() {
                assert(rest[emptied - 1] == levels[emptied]);
            }
            assert forall|j: int| 0 <= j < emptied implies crosses(
                side,
                limit,
                (#[trigger] levels[j]).price,
            ) by {
                if j > 0 {
                    assert(levels[j] == rest[j - 1]);
                }
            }
        } else {
            assert(levels.take(0) =~= Seq::<LevelView>::empty());
            assert(levels.skip(0) =~= levels);
        }
    }
}

/// An order that must be filled whole and cannot be is not executed at all:
/// the book stays as it is, the order keeps its remaining quantity, and it is
/// marked rejected.
pub proof fn lemma_fill_or_kill_nothing(book: BookView, order: OrderView)
    requires
        order.lifetime == OrderLifeTime::FillOrKill,
        book.available_for(order) < order.remaining,
    ensures
        book.submitted(order).0 == book,
        book.submitted(order).1.remaining == order.remaining,
        !order.is_terminal() ==> book.submitted(order).1 == order.with_status(
            OrderStatus::Rejected,
        ),
{
}

/// An order that must be filled whole and can be is filled whole.
pub proof fn lemma_fill_or_kill_whole(book: BookView, order: OrderView)
    requires
        book.wf(),
        order.lifetime == OrderLifeTime::FillOrKill,
        !order.is_terminal(),
        book.available_for(order) >= order.remaining,
    ensures
        book.submitted(order).1.remaining == 0,
{
    lemma_match_fills_available(
        book.side(opposite(order.side)),
        order.side,
        order.price,
        order.remaining,
    );
}

/// An order for immediate execution of which some part has been executed,
/// now or before, leaves nothing resting: its own side of the book stays as
/// it is. The same holds of one that is a market order or in a terminal
/// state.
pub proof fn lemma_immediate_or_cancel_never_rests(book: BookView, order: OrderView)
    requires
        order.lifetime == OrderLifeTime::ImmidiateOrCancel,
        order.is_terminal() || order.kind == OrderType::MarketOrder || book.matched(
            order,
        ).1.remaining != order.initial,
    ensures
        book.submitted(order).0.side(order.side) == book.side(order.side),
        !order.is_terminal() ==> book.submitted(order).0 == book.matched(order).0,
{
}

/// The resting step discards the remainder of an order for immediate
/// execution that has been executed in part: the book stays as it is.
pub proof fn lemma_partly_filled_immediate_or_cancel_is_not_rested(
    book: BookView,
    order: OrderView,
)
    requires
        order.lifetime == OrderLifeTime::ImmidiateOrCancel,
        order.status == OrderStatus::PartiallyFilled,
    ensures
        !rests(order),
        book.rested(order) == book,
{
}

/// The resting step never queues an order in a terminal state: one that is
/// filled, canceled, rejected or expired leaves the book as it is.
pub proof fn lemma_terminal_order_is_not_rested(book: BookView, order: OrderView)
    requires
        order.is_terminal(),
    ensures
        !rests(order),
        book.rested(order) == book,
{
}

/// A market order never rests: its own side of the book stays as it is.
pub proof fn lemma_market_order_never_rests(book: BookView, order: OrderView)
    requires
        order.kind == OrderType::MarketOrder,
    ensures
        book.submitted(order).0.side(order.side) == book.side(order.side),
{
}

/// Submitting an order executes of it what the other side offers within its
/// limit and no more, whatever its kind, unless it is turned away before
/// matching.
pub proof fn lemma_submitted_fills_available(book: BookView, order: OrderView)
    requires
        book.wf(),
        !order.is_terminal(),
        book.admits(order),
    ensures
        order.remaining - book.submitted(order).1.remaining == (if order.remaining
            <= book.available_for(order) {
            order.remaining
        } else {
            book.available_for(order)
        }),
{
    lemma_match_fills_available(
        book.side(opposite(order.side)),
        order.side,
        order.price,
        order.remaining,
    );
}

/// Whether something remains of every order in a queue.
pub open spec fn queue_live(queue: Seq<OrderView>) -> bool {
    forall|k: int| 0 <= k < queue.len() ==> (#[trigger] queue[k]).remaining > 0
}

/// Whether something remains of every order resting on a side.
pub open spec fn levels_live(levels: Seq<LevelView>) -> bool {
    forall|i: int| 0 <= i < levels.len() ==> queue_live((#[trigger] levels[i]).queue)
}

/// Whether something remains of every order resting in a book.
pub open spec fn book_live(book: BookView) -> bool {
    levels_live(book.bids) && levels_live(book.asks)
}

/// Matching at one price leaves no order in the queue of which nothing
/// remains, where there was none before.
pub proof fn lemma_drain_keeps_live(queue: Seq<OrderView>, incoming: nat)
    requires
        queue_live(queue),
    ensures
        queue_live(drain_queue(queue, incoming).0),
{
    let after = drain_queue(queue, incoming).0;
    let served = queue.len() - after.len();
    lemma_drain_first_come_first_served(queue, incoming);
    assert forall|k: int| 0 <= k < after.len() implies (#[trigger] after[k]).remaining > 0 by {
        assert(queue.skip(served)[k] == queue[served + k]);
    }
}

/// Matching leaves no order on the side of which nothing remains, where there
/// was none before.
pub proof fn lemma_match_keeps_live(
    levels: Seq<LevelView>,
    side: OrderSide,
    limit: nat,
    incoming: nat,
)
    requires
        levels_wf(levels, opposite(side)),
        levels_live(levels),
    ensures
        levels_live(match_levels(levels, side, limit, incoming).0),
{
    let (after, left) = match_levels(levels, side, limit, incoming);
    let emptied = levels.len() - after.len();
    let part = (incoming - left) - levels_quantity(levels.take(emptied));
    lemma_match_best_price_first(levels, side, limit, incoming);
    assert forall|i: int| 0 <= i < after.len() implies queue_live((#[trigger] after[i]).queue) by {
        assert(levels.skip(emptied)[i] == levels[emptied + i]);
        if i == 0 && part != 0 {
            lemma_drain_keeps_live(levels[emptied].queue, part as nat);
        }
    }
}

/// An order of which something remains leaves no order on its side of which
/// nothing remains when it comes to rest, where there was none before.
pub proof fn lemma_rest_keeps_live(levels: Seq<LevelView>, order: OrderView)
    requires
        levels_live(levels),
        order.remaining > 0,
    ensures
        levels_live(rest_levels(levels, order)),
{
    let i = rank(levels, order.side, order.price) as int;
    let after = rest_levels(levels, order);
    lemma_rank_splits(levels, order.side, order.price);
    assert forall|a: int| 0 <= a < after.len() implies queue_live((#[trigger] after[a]).queue) by {
        if has_level(levels, order.side, order.price) {
            if a != i {
                assert(after[a] == levels[a]);
            } else {
                assert forall|k: int| 0 <= k < after[a].queue.len() implies (
                #[trigger] after[a].queue[k]).remaining > 0 by {
                    if k < levels[i].queue.len() {
                        assert(after[a].queue[k] == levels[i].queue[k]);
                    }
                }
            }
        } else {
            if a < i {
                assert(after[a] == levels[a]);
            } else if a > i {
                assert(after[a] == levels[a - 1]);
            }
        }
    }
}

/// Taking an order back leaves no order on the side of which nothing
/// remains, where there was none before.
pub proof fn lemma_cancel_keeps_live(
    levels: Seq<LevelView>,
    side: OrderSide,
    price: nat,
    id: Seq<char>,
)
    requires
        levels_live(levels),
    ensures
        levels_live(cancel_levels(levels, side, price, id)),
{
    let i = rank(levels, side, price) as int;
    let after = cancel_levels(levels, side, price, id);
    if holds_order(levels, side, price, id) {
        let k = index_of_id(levels[i].queue, id) as int;
        let level = levels[i].without(k);
        assert forall|a: int| 0 <= a < after.len() implies queue_live(
            (#[trigger] after[a]).queue,
        ) by {
            if level.queue.len() == 0 {
                assert(after[a] == levels[if a < i { a } else { a + 1 }]);
            } else if a != i {
                assert(after[a] == levels[a]);
            } else {
                assert forall|j: int| 0 <= j < level.queue.len() implies (
                #[trigger] level.queue[j]).remaining > 0 by {
                    assert(level.queue[j] == levels[i].queue[if j < k { j } else { j + 1 }]);
                }
            }
        }
    }
}

/// In a book fed with orders that ask for something, something remains of
/// every resting order: submitting such an order keeps that so.
pub proof fn lemma_submitted_live(book: BookView, order: OrderView)
    requires
        book.wf(),
        book_live(book),
        order.initial > 0,
    ensures
        book_live(book.submitted(order).0),
{
    if !order.is_terminal() && book.admits(order) {
        let (matched, done) = book.matched(order);
        lemma_match_keeps_live(
            book.side(opposite(order.side)),
            order.side,
            order.price,
            order.remaining,
        );
        if rests(done) {
            lemma_rest_keeps_live(matched.side(done.side), done);
        }
    }
}

/// Canceling an order keeps something remaining of every resting order.
pub proof fn lemma_canceled_live(book: BookView, reference: OrderView)
    requires
        book_live(book),
    ensures
        book_live(book.canceled(reference).0),
{
    lemma_cancel_keeps_live(
        book.side(reference.side),
        reference.side,
        reference.price,
        reference.id,
    );
}

/// Where something remains of every resting order, a level stands for
/// resting quantity: the total of every level of a well-formed side is more
/// than nothing.
pub proof fn lemma_level_holds_quantity(levels: Seq<LevelView>, side: OrderSide, i: int)
    requires
        levels_wf(levels, side),
        levels_live(levels),
        0 <= i < levels.len(),
    ensures
        levels[i].total > 0,
{
    assert(levels[i].queue[0].remaining > 0);
}

} // verus!
