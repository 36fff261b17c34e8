//! The matching engine: one order book per instrument, made when the
//! instrument is first named.

use crate::book::{BookView, OrderBook};
use crate::order::OrderRecord;
use vstd::prelude::*;

verus! {

/// The book that `books` holds for `ticker`, or the empty book where it holds
/// none: an instrument without a book is one in which nothing rests.
pub open spec fn book_of(books: Map<Seq<char>, BookView>, ticker: Seq<char>) -> BookView {
    if books.contains_key(ticker) {
        books[ticker]
    } else {
        BookView::empty()
    }
}

/// The book of one instrument.
#[derive(Debug)]
struct TickerBook {
    ticker: String,
    book: OrderBook,
}

/// The position of the first book for `ticker`, or the number of books where
/// there is none.
spec fn slot_index(slots: Seq<TickerBook>, ticker: Seq<char>) -> nat
    decreases slots.len(),
{
    if slots.len() == 0 {
        0
    } else if slots[0].ticker@ == ticker {
        0
    } else {
        1 + slot_index(slots.skip(1), ticker)
    }
}

/// The books by instrument.
spec fn books_view(slots: Seq<TickerBook>) -> Map<Seq<char>, BookView> {
    Map::new(
        |ticker: Seq<char>| slot_index(slots, ticker) < slots.len(),
        |ticker: Seq<char>| slots[slot_index(slots, ticker) as int].book@,
    )
}

/// Where the first `i` books are for other instruments and the one at `i`, if
/// there is one, is for `ticker`, the first book for `ticker` is at `i`.
proof fn lemma_slot_index_is(slots: Seq<TickerBook>, ticker: Seq<char>, i: int)
    requires
        0 <= i <= slots.len(),
        forall|j: int| 0 <= j < i ==> (#[trigger] slots[j]).ticker@ != ticker,
        i < slots.len() ==> slots[i].ticker@ == ticker,
    ensures
        slot_index(slots, ticker) == i,
    decreases i,
{
    if i > 0 {
        let rest = slots.skip(1);
        assert forall|j: int| 0 <= j < i - 1 implies (#[trigger] rest[j]).ticker@ != ticker by {
            assert(rest[j] == slots[j + 1]);
        }
        assert(slots[0].ticker@ != ticker);
        lemma_slot_index_is(rest, ticker, i - 1);
    }
}

/// The books before the first one for `ticker` are for other instruments, and
/// the one at that place, if there is one, is for `ticker`.
proof fn lemma_slot_index_splits(slots: Seq<TickerBook>, ticker: Seq<char>)
    ensures
        slot_index(slots, ticker) <= slots.len(),
        forall|j: int|
            0 <= j < slot_index(slots, ticker) ==> (#[trigger] slots[j]).ticker@ != ticker,
        slot_index(slots, ticker) < slots.len() ==> slots[slot_index(slots, ticker) as int].ticker@
            == ticker,
    decreases slots.len(),
{
    if slots.len() > 0 && slots[0].ticker@ != ticker {
        let rest = slots.skip(1);
        lemma_slot_index_splits(rest, ticker);
        let first = slot_index(slots, ticker);
        assert forall|j: int| 0 <= j < first implies (#[trigger] slots[j]).ticker@ != ticker by {
            if j > 0 {
                assert(slots[j] == rest[j - 1]);
            }
        }
        if first < slots.len() {
            assert(slots[first as int] == rest[first - 1]);
        }
    }
}

/// A new book at the back, for an instrument that had none, adds that book
/// and changes no other.
proof fn lemma_books_push(slots: Seq<TickerBook>, slot: TickerBook)
    requires
        slot_index(slots, slot.ticker@) == slots.len(),
    ensures
        books_view(slots.push(slot)) == books_view(slots).insert(slot.ticker@, slot.book@),
        slot_index(slots.push(slot), slot.ticker@) == slots.len(),
{
    let grown = slots.push(slot);
    assert forall|ticker: Seq<char>|
        slot_index(grown, ticker) == (if ticker == slot.ticker@ || slot_index(slots, ticker)
            < slots.len() {
            slot_index(slots, ticker)
        } else {
            slots.len() + 1
        }) by {
        lemma_slot_index_splits(slots, ticker);
        let i = slot_index(slots, ticker) as int;
        assert forall|j: int| 0 <= j < i implies (#[trigger] grown[j]).ticker@ != ticker by {
            assert(grown[j] == slots[j]);
        }
        if i < slots.len() {
            assert(grown[i] == slots[i]);
            lemma_slot_index_is(grown, ticker, i);
        } else if ticker == slot.ticker@ {
            lemma_slot_index_is(grown, ticker, i);
        } else {
            assert(grown[i].ticker@ != ticker);
            lemma_slot_index_is(grown, ticker, i + 1);
        }
    }
    assert(books_view(grown) =~= books_view(slots).insert(slot.ticker@, slot.book@));
}

/// Another book in the place of the first one for its instrument changes that
/// book and no other.
proof fn lemma_books_update(slots: Seq<TickerBook>, i: int, slot: TickerBook)
    requires
        0 <= i < slots.len(),
        slot_index(slots, slot.ticker@) == i,
    ensures
        books_view(slots.update(i, slot)) == books_view(slots).insert(slot.ticker@, slot.book@),
        slot_index(slots.update(i, slot), slot.ticker@) == i,
{
    let changed = slots.update(i, slot);
    lemma_slot_index_splits(slots, slot.ticker@);
    assert forall|ticker: Seq<char>| slot_index(changed, ticker) == slot_index(slots, ticker) by {
        lemma_slot_index_splits(slots, ticker);
        let k = slot_index(slots, ticker) as int;
        assert forall|j: int| 0 <= j < k implies (#[trigger] changed[j]).ticker@ != ticker by {
            assert(slots[j].ticker@ != ticker);
            assert(changed[j].ticker@ == slots[j].ticker@);
        }
        if k < slots.len() {
            assert(changed[k].ticker@ == slots[k].ticker@);
        }
        lemma_slot_index_is(changed, ticker, k);
    }
    assert forall|ticker: Seq<char>| #[trigger]
        books_view(changed).contains_key(ticker) implies books_view(changed)[ticker]
        == books_view(slots).insert(slot.ticker@, slot.book@)[ticker] by {
        lemma_slot_index_splits(slots, ticker);
        let k = slot_index(slots, ticker) as int;
        if k != i {
            assert(changed[k] == slots[k]);
        }
    }
    assert(books_view(changed) =~= books_view(slots).insert(slot.ticker@, slot.book@));
}

/// The books of all instruments.
#[derive(Debug)]
pub struct MatchingEngine {
    ticker_orderbook: Vec<TickerBook>,
}

impl View for MatchingEngine {
    type V = Map<Seq<char>, BookView>;

    closed spec fn view(&self) -> Map<Seq<char>, BookView> {
        books_view(self.ticker_orderbook@)
    }
}

impl MatchingEngine {
    /// The invariant of the engine: each of its books is well formed.
    pub closed spec fn wf(&self) -> bool {
        let slots = self.ticker_orderbook@;
        forall|i: int| 0 <= i < slots.len() ==> (#[trigger] slots[i]).book.wf()
    }

    /// Every book that a well-formed engine holds is well formed.
    pub proof fn lemma_books_wf(&self)
        requires
            self.wf(),
        ensures
            forall|ticker: Seq<char>|
                self@.contains_key(ticker) ==> (#[trigger] self@[ticker]).wf(),
    {
    }

    /// An engine without any book.
    pub fn new() -> (engine: Self)
        ensures
            engine@ == Map::<Seq<char>, BookView>::empty(),
            engine.wf(),
    {
        let engine = MatchingEngine { ticker_orderbook: Vec::new() };
        assert(engine@ =~= Map::<Seq<char>, BookView>::empty());
        engine
    }

    /// The place of the book of `ticker`, if the engine has one.
    fn find(&self, ticker: &String) -> (found: Option<usize>)
        ensures
            match found {
                Some(i) => i < self.ticker_orderbook@.len() && i == slot_index(
                    self.ticker_orderbook@,
                    ticker@,
                ) && self.ticker_orderbook@[i as int].ticker@ == ticker@,
                None => slot_index(self.ticker_orderbook@, ticker@)
                    == self.ticker_orderbook@.len(),
            },
    {
        let ghost slots = self.ticker_orderbook@;
        let mut i: usize = 0;
        while i < self.ticker_orderbook.len()
            invariant
                slots == self.ticker_orderbook@,
                0 <= i <= slots.len(),
                forall|j: int| 0 <= j < i ==> (#[trigger] slots[j]).ticker@ != ticker@,
            decreases slots.len() - i,
        {
            if self.ticker_orderbook[i].ticker == *ticker {
                proof {
                    lemma_slot_index_is(slots, ticker@, i as int);
                }
                return Some(i);
            }
            i = i + 1;
        }
        proof {
            lemma_slot_index_is(slots, ticker@, i as int);
        }
        None
    }

    /// The book of `ticker`, if the engine has one.
    pub fn orderbook(&self, ticker: &String) -> (book: Option<&OrderBook>)
        ensures
            book.is_some() == self@.contains_key(ticker@),
            book.is_some() ==> book.unwrap()@ == self@[ticker@],
            book.is_some() && self.wf() ==> book.unwrap().wf(),
    {
        match self.find(ticker) {
            Some(i) => Some(&self.ticker_orderbook[i].book),
            None => None,
        }
    }

    /// The place of the book of `ticker`, which is made first where the
    /// engine has none.
    fn init_entry(&mut self, ticker: &String) -> (i: usize)
        requires
            old(self).wf(),
        ensures
            final(self).wf(),
            final(self)@ == old(self)@.insert(ticker@, book_of(old(self)@, ticker@)),
            i < final(self).ticker_orderbook@.len(),
            slot_index(final(self).ticker_orderbook@, ticker@) == i,
            final(self).ticker_orderbook@[i as int].ticker@ == ticker@,
            final(self).ticker_orderbook@[i as int].book@ == book_of(old(self)@, ticker@),
    {
        match self.find(ticker) {
            Some(i) => {
                assert(self@ =~= old(self)@.insert(ticker@, book_of(old(self)@, ticker@)));
                i
            },
            None => {
                let i: usize = self.ticker_orderbook.len();
                let slot = TickerBook { ticker: ticker.clone(), book: OrderBook::new() };
                proof {
                    lemma_books_push(self.ticker_orderbook@, slot);
                }
                self.ticker_orderbook.push(slot);
                i
            },
        }
    }

    /// Submits `incoming_order` to the book of its instrument.
    pub fn create_order(&mut self, incoming_order: &mut OrderRecord)
        requires
            old(self).wf(),
        ensures
            final(self).wf(),
            final(self)@ == old(self)@.insert(
                old(incoming_order)@.ticker,
                book_of(old(self)@, old(incoming_order)@.ticker).submitted(
                    old(incoming_order)@,
                ).0,
            ),
            final(incoming_order)@ == book_of(old(self)@, old(incoming_order)@.ticker).submitted(
                old(incoming_order)@,
            ).1,
    {
        let i: usize = self.init_entry(incoming_order.ticker());
        let ghost slots = self.ticker_orderbook@;
        self.ticker_orderbook[i].book.create_order(incoming_order);
        proof {
            let slot = self.ticker_orderbook@[i as int];
            assert(self.ticker_orderbook@ =~= slots.update(i as int, slot));
            lemma_books_update(slots, i as int, slot);
            assert(self@ =~= old(self)@.insert(old(incoming_order)@.ticker, slot.book@));
        }
    }

    /// Cancels the resting order that `incoming_order` names in the book of
    /// its instrument.
    pub fn cancel_order(&mut self, incoming_order: &mut OrderRecord)
        requires
            old(self).wf(),
        ensures
            final(self).wf(),
            final(self)@ == old(self)@.insert(
                old(incoming_order)@.ticker,
                book_of(old(self)@, old(incoming_order)@.ticker).canceled(old(incoming_order)@).0,
            ),
            final(incoming_order)@ == book_of(old(self)@, old(incoming_order)@.ticker).canceled(
                old(incoming_order)@,
            ).1,
    {
        let i: usize = self.init_entry(incoming_order.ticker());
        let ghost slots = self.ticker_orderbook@;
        self.ticker_orderbook[i].book.cancel_order(incoming_order);
        proof {
            let slot = self.ticker_orderbook@[i as int];
            assert(self.ticker_orderbook@ =~= slots.update(i as int, slot));
            lemma_books_update(slots, i as int, slot);
            assert(self@ =~= old(self)@.insert(old(incoming_order)@.ticker, slot.book@));
        }
    }
}

} // verus!
