//! One side of a book: its price levels, best price first, and the three
//! things done to it: matching an incoming order against it, resting an order
//! on it, and taking a resting order back.

use crate::level::{
    drain_queue, index_of_id, lemma_drain_ends, lemma_drained_consistent, lemma_quantity_push,
    lemma_quantity_remove, queue_quantity, LevelView, OrderEntry,
};
use crate::order::{OrderRecord, OrderSide, OrderView};
use std::collections::VecDeque;
use vstd::prelude::*;

verus! {

/// The side that an order of `side` trades against.
pub open spec fn opposite(side: OrderSide) -> OrderSide {
    match side {
        OrderSide::Buy => OrderSide::Sell,
        OrderSide::Sell => OrderSide::Buy,
    }
}

/// Whether an order of `side` limited at `limit` may trade at `price`: a buy
/// at its limit or below, a sell at its limit or above.
pub open spec fn crosses(side: OrderSide, limit: nat, price: nat) -> bool {
    match side {
        OrderSide::Buy => price <= limit,
        OrderSide::Sell => price >= limit,
    }
}

/// Whether, among orders of `side`, price `a` goes before price `b`: the
/// higher bid and the lower ask are the better ones.
pub open spec fn better(side: OrderSide, a: nat, b: nat) -> bool {
    match side {
        OrderSide::Buy => a > b,
        OrderSide::Sell => a < b,
    }
}

/// The invariant of one side of a book, holding orders of `side`: no level is
/// empty, every level's total is the sum of what remains of its orders, and
/// the prices run strictly from the best to the worst, so that no price
/// occurs twice.
pub open spec fn levels_wf(levels: Seq<LevelView>, side: OrderSide) -> bool {
    &&& forall|i: int|
        0 <= i < levels.len() ==> (#[trigger] levels[i]).queue.len() > 0 && levels[i].consistent()
    &&& forall|i: int, j: int|
        #![trigger levels[i], levels[j]]
        0 <= i < j < levels.len() ==> better(side, levels[i].price, levels[j].price)
}

/// The number of levels, from the front of a side holding orders of `side`,
/// whose price is better than `price`. On a well-formed side this is where a
/// level at `price` stands if there is one, and where it belongs if not.
pub open spec fn rank(levels: Seq<LevelView>, side: OrderSide, price: nat) -> nat
    decreases levels.len(),
{
    if levels.len() == 0 || !better(side, levels[0].price, price) {
        0
    } else {
        1 + rank(levels.skip(1), side, price)
    }
}

/// Whether a side holding orders of `side` has a level at `price`.
pub open spec fn has_level(levels: Seq<LevelView>, side: OrderSide, price: nat) -> bool {
    let i = rank(levels, side, price) as int;
    i < levels.len() && levels[i].price == price
}

/// The quantity resting on `levels` at prices at which an incoming order of
/// `side` limited at `limit` may trade.
pub open spec fn available(levels: Seq<LevelView>, side: OrderSide, limit: nat) -> nat
    decreases levels.len(),
{
    if levels.len() == 0 {
        0
    } else {
        let here = if crosses(side, limit, levels[0].price) {
            levels[0].total
        } else {
            0
        };
        here + available(levels.skip(1), side, limit)
    }
}

/// The quantity resting on `levels` at any price.
pub open spec fn levels_quantity(levels: Seq<LevelView>) -> nat
    decreases levels.len(),
{
    if levels.len() == 0 {
        0
    } else {
        levels[0].total + levels_quantity(levels.skip(1))
    }
}

/// Matching by price and time: the levels and the quantity still wanted
/// after an incoming order of `side`, limited at `limit` and wanting
/// `incoming`, has walked `levels` from the best price on. The walk ends when
/// nothing is wanted any more, when the levels are used up, or at the first
/// level whose price the order may not trade at. A level that has been
/// emptied leaves the side.
pub open spec fn match_levels(
    levels: Seq<LevelView>,
    side: OrderSide,
    limit: nat,
    incoming: nat,
) -> (Seq<LevelView>, nat)
    decreases levels.len(),
{
    if levels.len() == 0 || incoming == 0 || !crosses(side, limit, levels[0].price) {
        (levels, incoming)
    } else {
        let best = levels[0].drained_by(incoming);
        let left = drain_queue(levels[0].queue, incoming).1;
        if best.queue.len() == 0 {
            match_levels(levels.skip(1), side, limit, left)
        } else {
            (levels.update(0, best), left)
        }
    }
}

/// The side after `order` has come to rest on it: at the back of the queue of
/// the level at its price, or alone in a new level where the side had none at
/// that price.
pub open spec fn rest_levels(levels: Seq<LevelView>, order: OrderView) -> Seq<LevelView> {
    let i = rank(levels, order.side, order.price) as int;
    if has_level(levels, order.side, order.price) {
        levels.update(i, levels[i].with_order(order))
    } else {
        levels.insert(
            i,
            LevelView { price: order.price, queue: seq![order], total: order.remaining },
        )
    }
}

/// Whether an order with identifier `id` rests at `price` on a side holding
/// orders of `side`.
pub open spec fn holds_order(
    levels: Seq<LevelView>,
    side: OrderSide,
    price: nat,
    id: Seq<char>,
) -> bool {
    let i = rank(levels, side, price) as int;
    has_level(levels, side, price) && index_of_id(levels[i].queue, id) < levels[i].queue.len()
}

/// The side after the first order with identifier `id` resting at `price` has
/// been taken back: the order leaves its queue, the level's total drops by
/// what remained of the order, and the level leaves the side if that was its
/// last order. Where no such order rests, the side stays as it is.
pub open spec fn cancel_levels(
    levels: Seq<LevelView>,
    side: OrderSide,
    price: nat,
    id: Seq<char>,
) -> Seq<LevelView> {
    let i = rank(levels, side, price) as int;
    if holds_order(levels, side, price, id) {
        let level = levels[i].without(index_of_id(levels[i].queue, id) as int);
        if level.queue.len() == 0 {
            levels.remove(i)
        } else {
            levels.update(i, level)
        }
    } else {
        levels
    }
}

/// The views of a sequence of levels, one for one.
pub open spec fn levels_view(levels: Seq<OrderEntry>) -> Seq<LevelView> {
    Seq::new(levels.len(), |i: int| levels[i]@)
}

/// Where the first `i` levels are better than `price` and the one at `i`, if
/// there is one, is not, the rank of `price` is `i`.
pub proof fn lemma_rank_is(levels: Seq<LevelView>, side: OrderSide, price: nat, i: int)
    requires
        0 <= i <= levels.len(),
        forall|j: int| 0 <= j < i ==> better(side, (#[trigger] levels[j]).price, price),
        i < levels.len() ==> !better(side, levels[i].price, price),
    ensures
        rank(levels, side, price) == i,
    decreases i,
{
    if i > 0 {
        let rest = levels.skip(1);
        assert forall|j: int| 0 <= j < i - 1 implies better(
            side,
            (#[trigger] rest[j]).price,
            price,
        ) by {
            assert(rest[j] == levels[j + 1]);
        }
        assert(better(side, levels[0].price, price));
        lemma_rank_is(rest, side, price, i - 1);
    }
}

/// The levels before the rank of `price` are better than `price`, and the
/// level at its rank, if there is one, is not.
pub proof fn lemma_rank_splits(levels: Seq<LevelView>, side: OrderSide, price: nat)
    ensures
        rank(levels, side, price) <= levels.len(),
        forall|j: int|
            0 <= j < rank(levels, side, price) ==> better(
                side,
                (#[trigger] levels[j]).price,
                price,
            ),
        rank(levels, side, price) < levels.len() ==> !better(
            side,
            levels[rank(levels, side, price) as int].price,
            price,
        ),
    decreases levels.len(),
{
    if levels.len() > 0 && better(side, levels[0].price, price) {
        let rest = levels.skip(1);
        lemma_rank_splits(rest, side, price);
        let first = rank(levels, side, price);
        assert forall|j: int| 0 <= j < first implies better(
            side,
            (#[trigger] levels[j]).price,
            price,
        ) by {
            if j > 0 {
                assert(levels[j] == rest[j - 1]);
            }
        }
        if first < levels.len() {
            assert(levels[first as int] == rest[first - 1]);
        }
    }
}

/// On a well-formed side every level stands at the rank of its price, so
/// that a side has a level at a price exactly where one of its levels bears
/// that price.
pub proof fn lemma_rank_finds_level(levels: Seq<LevelView>, side: OrderSide, i: int)
    requires
        levels_wf(levels, side),
        0 <= i < levels.len(),
    ensures
        rank(levels, side, levels[i].price) == i,
        has_level(levels, side, levels[i].price),
{
    assert forall|j: int| 0 <= j < i implies better(
        side,
        (#[trigger] levels[j]).price,
        levels[i].price,
    ) by {
        assert(better(side, levels[j].price, levels[i].price));
    }
    lemma_rank_is(levels, side, levels[i].price, i);
}

/// A well-formed side without its best level is well formed.
pub proof fn lemma_wf_skip(levels: Seq<LevelView>, book_side: OrderSide)
    requires
        levels_wf(levels, book_side),
        levels.len() > 0,
    ensures
        levels_wf(levels.skip(1), book_side),
{
    let rest = levels.skip(1);
    assert forall|i: int| 0 <= i < rest.len() implies (#[trigger] rest[i]).queue.len() > 0
        && rest[i].consistent() by {
        assert(rest[i] == levels[i + 1]);
    }
    assert forall|i: int, j: int|
        #![trigger rest[i], rest[j]]
        0 <= i < j < rest.len() implies better(book_side, rest[i].price, rest[j].price) by {
        assert(rest[i] == levels[i + 1]);
        assert(rest[j] == levels[j + 1]);
    }
}

/// Matching keeps one side of a book well formed: no level is left empty, and
/// every level's total is still the sum of what remains of its orders.
pub proof fn lemma_match_keeps_wf(
    levels: Seq<LevelView>,
    book_side: OrderSide,
    side: OrderSide,
    limit: nat,
    incoming: nat,
)
    requires
        levels_wf(levels, book_side),
    ensures
        levels_wf(match_levels(levels, side, limit, incoming).0, book_side),
    decreases levels.len(),
{
    if !(levels.len() == 0 || incoming == 0 || !crosses(side, limit, levels[0].price)) {
        let best = levels[0].drained_by(incoming);
        let left = drain_queue(levels[0].queue, incoming).1;
        let rest = levels.skip(1);
        lemma_drained_consistent(levels[0], incoming);
        if best.queue.len() == 0 {
            lemma_wf_skip(levels, book_side);
            lemma_match_keeps_wf(rest, book_side, side, limit, left);
        } else {
            let after = levels.update(0, best);
            assert forall|i: int| 0 <= i < after.len() implies (#[trigger] after[i]).queue.len() > 0
                && after[i].consistent() by {
                if i > 0 {
                    assert(after[i] == levels[i]);
                }
            }
            assert forall|i: int, j: int|
                #![trigger after[i], after[j]]
                0 <= i < j < after.len() implies better(
                book_side,
                after[i].price,
                after[j].price,
            ) by {
                assert(after[i].price == levels[i].price);
                assert(after[j] == levels[j]);
            }
        }
    }
}

/// Resting an order keeps its side of the book well formed.
pub proof fn lemma_rest_keeps_wf(levels: Seq<LevelView>, order: OrderView)
    requires
        levels_wf(levels, order.side),
    ensures
        levels_wf(rest_levels(levels, order), order.side),
{
    let side = order.side;
    let i = rank(levels, side, order.price) as int;
    let after = rest_levels(levels, order);
    lemma_rank_splits(levels, side, order.price);
    if has_level(levels, side, order.price) {
        lemma_quantity_push(levels[i].queue, order);
        assert forall|a: int| 0 <= a < after.len() implies (#[trigger] after[a]).queue.len() > 0
            && after[a].consistent() by {
            if a != i {
                assert(after[a] == levels[a]);
            }
        }
        assert forall|a: int, b: int|
            #![trigger after[a], after[b]]
            0 <= a < b < after.len() implies better(side, after[a].price, after[b].price) by {
            assert(after[a].price == levels[a].price);
            assert(after[b].price == levels[b].price);
        }
    } else {
        let fresh = LevelView { price: order.price, queue: seq![order], total: order.remaining };
        assert(fresh.queue.skip(1) =~= Seq::<OrderView>::empty());
        assert(queue_quantity(fresh.queue.skip(1)) == 0);
        assert(fresh.consistent());
        assert forall|a: int| 0 <= a < after.len() implies (#[trigger] after[a]).queue.len() > 0
            && after[a].consistent() by {
            if a < i {
                assert(after[a] == levels[a]);
            } else if a > i {
                assert(after[a] == levels[a - 1]);
            }
        }
        assert forall|a: int, b: int|
            #![trigger after[a], after[b]]
            0 <= a < b < after.len() implies better(side, after[a].price, after[b].price) by {
            if b < i {
                assert(after[a] == levels[a] && after[b] == levels[b]);
            } else if b == i {
                assert(after[a] == levels[a]);
            } else if a < i {
                assert(after[a] == levels[a] && after[b] == levels[b - 1]);
                assert(i < b - 1 ==> better(side, levels[i].price, levels[b - 1].price));
            } else if a == i {
                assert(after[b] == levels[b - 1]);
                assert(i < b - 1 ==> better(side, levels[i].price, levels[b - 1].price));
            } else {
                assert(after[a] == levels[a - 1] && after[b] == levels[b - 1]);
            }
        }
    }
}

/// Taking an order back keeps its side of the book well formed.
pub proof fn lemma_cancel_keeps_wf(
    levels: Seq<LevelView>,
    side: OrderSide,
    price: nat,
    id: Seq<char>,
)
    requires
        levels_wf(levels, side),
    ensures
        levels_wf(cancel_levels(levels, side, price, id), side),
{
    let i = rank(levels, side, price) as int;
    let after = cancel_levels(levels, side, price, id);
    if holds_order(levels, side, price, id) {
        let k = index_of_id(levels[i].queue, id) as int;
        let level = levels[i].without(k);
        lemma_quantity_remove(levels[i].queue, k);
        assert forall|a: int| 0 <= a < after.len() implies (#[trigger] after[a]).queue.len() > 0
            && after[a].consistent() by {
            if level.queue.len() == 0 {
                assert(after[a] == levels[if a < i { a } else { a + 1 }]);
            } else if a != i {
                assert(after[a] == levels[a]);
            }
        }
        assert forall|a: int, b: int|
            #![trigger after[a], after[b]]
            0 <= a < b < after.len() implies better(side, after[a].price, after[b].price) by {
            if level.queue.len() == 0 {
                assert(after[a] == levels[if a < i { a } else { a + 1 }]);
                assert(after[b] == levels[if b < i { b } else { b + 1 }]);
            } else {
                assert(after[a].price == levels[a].price);
                assert(after[b].price == levels[b].price);
            }
        }
    }
}

/// Whether an order of `side` limited at `limit` may trade at `price`.
pub(crate) fn crosses_at(side: OrderSide, limit: u64, price: u64) -> (may: bool)
    ensures
        may == crosses(side, limit as nat, price as nat),
{
    match side {
        OrderSide::Buy => price <= limit,
        OrderSide::Sell => price >= limit,
    }
}

/// Whether, among orders of `side`, price `a` goes before price `b`.
pub(crate) fn better_than(side: OrderSide, a: u64, b: u64) -> (before: bool)
    ensures
        before == better(side, a as nat, b as nat),
{
    match side {
        OrderSide::Buy => a > b,
        OrderSide::Sell => a < b,
    }
}

/// The number of levels at the front of `levels` whose price is better than
/// `price`.
pub(crate) fn locate(levels: &VecDeque<OrderEntry>, side: OrderSide, price: u64) -> (i: usize)
    ensures
        i == rank(levels_view(levels@), side, price as nat),
        i <= levels@.len(),
{
    let mut i: usize = 0;
    while i < levels.len() && better_than(side, levels[i].price(), price)
        invariant
            0 <= i <= levels@.len(),
            forall|j: int|
                0 <= j < i ==> better(
                    side,
                    (#[trigger] levels_view(levels@)[j]).price,
                    price as nat,
                ),
        decreases levels@.len() - i,
    {
        i = i + 1;
    }
    proof {
        lemma_rank_is(levels_view(levels@), side, price as nat, i as int);
    }
    i
}

/// The quantity resting on `levels` at prices at which an incoming order of
/// `side` limited at `limit` may trade, or the largest number that fits where
/// the sum does not.
pub(crate) fn available_on(levels: &VecDeque<OrderEntry>, side: OrderSide, limit: u64) -> (sum:
    u128)
    ensures
        sum == if available(levels_view(levels@), side, limit as nat) <= u128::MAX {
            available(levels_view(levels@), side, limit as nat)
        } else {
            u128::MAX as nat
        },
{
    let ghost all = levels_view(levels@);
    let ghost whole = available(all, side, limit as nat);
    let mut sum: u128 = 0;
    let mut i: usize = 0;
    assert(all.skip(0) =~= all);
    while i < levels.len()
        invariant
            0 <= i <= levels@.len(),
            all == levels_view(levels@),
            whole == available(all, side, limit as nat),
            available(all.skip(i as int), side, limit as nat) <= whole,
            sum == if whole - available(all.skip(i as int), side, limit as nat) <= u128::MAX {
                whole - available(all.skip(i as int), side, limit as nat)
            } else {
                u128::MAX as int
            },
        decreases levels@.len() - i,
    {
        proof {
            assert(all.skip(i as int).skip(1) =~= all.skip(i as int + 1));
            assert(all.skip(i as int)[0] == all[i as int]);
        }
        if crosses_at(side, limit, levels[i].price()) {
            let here: u128 = levels[i].total_quantity();
            sum = if here > u128::MAX - sum {
                u128::MAX
            } else {
                sum + here
            };
        }
        i = i + 1;
    }
    assert(all.skip(i as int) =~= Seq::<LevelView>::empty());
    sum
}

/// Matches `incoming` against `levels`, the side it trades against, best
/// price first.
pub(crate) fn match_side(levels: &mut VecDeque<OrderEntry>, incoming: &mut OrderRecord)
    requires
        levels_wf(levels_view(old(levels)@), opposite(old(incoming)@.side)),
    ensures
        levels_wf(levels_view(final(levels)@), opposite(old(incoming)@.side)),
        (levels_view(final(levels)@), final(incoming)@.remaining) == match_levels(
            levels_view(old(levels)@),
            old(incoming)@.side,
            old(incoming)@.price,
            old(incoming)@.remaining,
        ),
        final(incoming)@ == old(incoming)@.with_remaining(final(incoming)@.remaining),
{
    let side = incoming.order_side();
    let limit: u64 = incoming.price();
    while incoming.remaining_quantity() > 0 && levels.len() > 0 && crosses_at(
        side,
        limit,
        levels[0].price(),
    )
        invariant
            side == old(incoming)@.side,
            limit == old(incoming)@.price,
            levels_wf(levels_view(levels@), opposite(side)),
            incoming@ == old(incoming)@.with_remaining(incoming@.remaining),
            match_levels(levels_view(levels@), side, limit as nat, incoming@.remaining)
                == match_levels(
                levels_view(old(levels)@),
                side,
                limit as nat,
                old(incoming)@.remaining,
            ),
        decreases levels@.len() + (if incoming@.remaining > 0 { 1nat } else { 0nat }),
    {
        let ghost before = levels_view(levels@);
        let ghost wanted = incoming@.remaining;
        let mut level = levels.pop_front().unwrap();
        assert(level@ == before[0]);
        assert(levels_view(levels@) =~= before.skip(1));
        level.match_incoming(incoming);
        proof {
            lemma_drain_ends(before[0].queue, wanted);
        }
        if !level.is_empty() {
            let ghost best = level@;
            levels.push_front(level);
            assert(levels_view(levels@) =~= before.update(0, best));
        }
    }
}

/// Rests `order` on `levels`, the side that holds the orders of its own side.
pub(crate) fn rest_side(levels: &mut VecDeque<OrderEntry>, order: OrderRecord)
    requires
        levels_wf(levels_view(old(levels)@), order@.side),
    ensures
        levels_wf(levels_view(final(levels)@), order@.side),
        levels_view(final(levels)@) == rest_levels(levels_view(old(levels)@), order@),
{
    let ghost before = levels_view(levels@);
    let ghost resting = order@;
    let side = order.order_side();
    let price: u64 = order.price();
    let i: usize = locate(levels, side, price);
    if i < levels.len() && levels[i].price() == price {
        let mut level = levels.remove(i).unwrap();
        assert(level@ == before[i as int]);
        level.push_back(order);
        let ghost grown = level@;
        levels.insert(i, level);
        assert(levels_view(levels@) =~= before.update(i as int, grown));
    } else {
        let mut level = OrderEntry::new(price);
        level.push_back(order);
        let ghost fresh = level@;
        levels.insert(i, level);
        proof {
            assert(fresh.queue =~= seq![resting]);
            assert(levels_view(levels@) =~= before.insert(i as int, fresh));
        }
    }
    proof {
        lemma_rest_keeps_wf(before, resting);
    }
}

/// Takes the first order with identifier `id` resting at `price` back from
/// `levels`, a side holding orders of `side`, and says whether there was one.
pub(crate) fn cancel_side(
    levels: &mut VecDeque<OrderEntry>,
    side: OrderSide,
    price: u64,
    id: &String,
) -> (found: bool)
    requires
        levels_wf(levels_view(old(levels)@), side),
    ensures
        levels_wf(levels_view(final(levels)@), side),
        found == holds_order(levels_view(old(levels)@), side, price as nat, id@),
        levels_view(final(levels)@) == cancel_levels(
            levels_view(old(levels)@),
            side,
            price as nat,
            id@,
        ),
{
    let ghost before = levels_view(levels@);
    let i: usize = locate(levels, side, price);
    if i < levels.len() && levels[i].price() == price {
        match levels[i].position(id) {
            Some(k) => {
                let mut level = levels.remove(i).unwrap();
                assert(level@ == before[i as int]);
                assert(levels_view(levels@) =~= before.remove(i as int));
                let _ = level.remove(k);
                if !level.is_empty() {
                    let ghost shrunk = level@;
                    levels.insert(i, level);
                    assert(levels_view(levels@) =~= before.update(i as int, shrunk));
                }
                proof {
                    lemma_cancel_keeps_wf(before, side, price as nat, id@);
                }
                true
            },
            None => false,
        }
    } else {
        false
    }
}

} // verus!
