//! The functional model of the engine.
//!
//! A book side is modelled as a sequence of price levels in strictly
//! ascending price order; each level is a FIFO queue of `(id, quantity)`
//! pairs. `cross` is the crossing protocol, `book_insert` the resting of a
//! remainder, and `submit_model` one whole order submission. The executable
//! engine is proved to implement these functions exactly.

use vstd::prelude::*;

use crate::order::LogEvent;
use crate::order::OrderType;

verus! {

/// A resting order as the model sees it: `(id, remaining quantity)`.
pub type OrderV = (u64, u32);

/// A price level: the price and the FIFO queue of resting orders.
pub type LevelV = (u64, Seq<OrderV>);

/// One side of the book: price levels in strictly ascending price order.
pub type BookV = Seq<LevelV>;

/// An order intent as delivered to the engine: `(is_buy, quantity, price)`.
pub type IntentV = (bool, u32, u64);

/// Levels are strictly sorted by price, ascending.
pub open spec fn book_sorted(b: BookV) -> bool {
    forall|i: int, j: int| 0 <= i < j < b.len() ==> b[i].0 < b[j].0
}

/// Every level holds at least one order and every resting quantity is positive.
pub open spec fn book_queues_wf(b: BookV) -> bool {
    forall|i: int| 0 <= i < b.len() ==> (#[trigger] b[i]).1.len() > 0
        && (forall|k: int| 0 <= k < b[i].1.len() ==> (#[trigger] b[i].1[k]).1 > 0)
}

/// The side tag of an incoming order.
pub open spec fn side_of(incoming_buy: bool) -> OrderType {
    if incoming_buy { OrderType::Buy } else { OrderType::Sell }
}

/// Position of the best opposite level: an incoming buy consumes the sell
/// side from its lowest price, an incoming sell consumes the buy side from
/// its highest price.
pub open spec fn best_pos(opp: BookV, incoming_buy: bool) -> int {
    if incoming_buy { 0 } else { opp.len() - 1 }
}

/// Whether the best opposite level may trade with an incoming order limited
/// at `limit`: a buy matches sell levels priced at or below its limit, a
/// sell matches buy levels priced at or above its limit.
pub open spec fn has_eligible(opp: BookV, incoming_buy: bool, limit: u64) -> bool {
    opp.len() > 0 && if incoming_buy {
        opp[best_pos(opp, incoming_buy)].0 <= limit
    } else {
        opp[best_pos(opp, incoming_buy)].0 >= limit
    }
}

/// Queue length of the best opposite level (0 on an empty book); part of the
/// termination measure of `cross`.
pub open spec fn best_queue_len(opp: BookV, incoming_buy: bool) -> nat {
    if opp.len() == 0 { 0 } else { opp[best_pos(opp, incoming_buy)].1.len() }
}

/// Result of one crossing pass: the opposite book after matching, the
/// execution events emitted in order, and the incoming order's remaining
/// quantity.
pub struct CrossResult {
    pub book: BookV,
    pub events: Seq<LogEvent>,
    pub remaining: u32,
}

/// The crossing protocol. While the incoming order has remaining quantity
/// and the opposite side has an eligible level, the head order of the best
/// eligible level trades `min(remaining, head quantity)`; a fully consumed
/// head leaves its queue, an emptied level leaves the book, and one
/// `OrderExecuted` event is emitted per consumption step, carrying the level
/// price and the incoming order's side.
pub open spec fn cross(opp: BookV, incoming_buy: bool, limit: u64, remaining: u32) -> CrossResult
    decreases opp.len(), best_queue_len(opp, incoming_buy),
    via cross_decreases
{
    if remaining == 0 || !has_eligible(opp, incoming_buy, limit) {
        CrossResult { book: opp, events: Seq::empty(), remaining }
    } else {
        let b = best_pos(opp, incoming_buy);
        let lv = opp[b];
        let head = lv.1[0];
        if head.1 <= remaining {
            // The head is fully consumed.
            let ev = LogEvent::OrderExecuted {
                price: lv.0,
                qty: head.1,
                order_type: side_of(incoming_buy),
            };
            let rem2 = (remaining - head.1) as u32;
            let opp2 = if lv.1.len() <= 1 {
                opp.remove(b)
            } else {
                opp.update(b, (lv.0, lv.1.drop_first()))
            };
            let r = cross(opp2, incoming_buy, limit, rem2);
            CrossResult { book: r.book, events: seq![ev] + r.events, remaining: r.remaining }
        } else {
            // The incoming order is fully filled; the head keeps a positive rest.
            let ev = LogEvent::OrderExecuted {
                price: lv.0,
                qty: remaining,
                order_type: side_of(incoming_buy),
            };
            let newhead = (head.0, (head.1 - remaining) as u32);
            let opp2 = opp.update(b, (lv.0, lv.1.update(0, newhead)));
            CrossResult { book: opp2, events: seq![ev], remaining: 0 }
        }
    }
}

#[via_fn]
proof fn cross_decreases(opp: BookV, incoming_buy: bool, limit: u64, remaining: u32) {
    if remaining != 0 && has_eligible(opp, incoming_buy, limit) {
        let b = best_pos(opp, incoming_buy);
        let lv = opp[b];
        if lv.1[0].1 <= remaining && lv.1.len() > 1 {
            let opp2 = opp.update(b, (lv.0, lv.1.drop_first()));
            assert(opp2.len() == opp.len());
            assert(best_pos(opp2, incoming_buy) == b);
            assert(opp2[b].1.len() == lv.1.len() - 1);
        }
    }
}

/// Rest an order in its own side's book: appended at the tail of the queue
/// of its price if that level exists, else a new level is created at the
/// sorted position.
pub open spec fn book_insert(own: BookV, price: u64, ord: OrderV) -> BookV
    decreases own.len(),
{
    if own.len() == 0 {
        seq![(price, seq![ord])]
    } else if own.first().0 < price {
        seq![own.first()] + book_insert(own.drop_first(), price, ord)
    } else if own.first().0 == price {
        seq![(price, own.first().1.push(ord))] + own.drop_first()
    } else {
        seq![(price, seq![ord])] + own
    }
}

/// The whole engine as the contracts see it: both book sides, the per-side
/// identity counters, and the full sequence of events emitted so far.
pub struct EngineModel {
    pub buys: BookV,
    pub sells: BookV,
    pub buy_count: nat,
    pub sell_count: nat,
    pub events: Seq<LogEvent>,
}

/// A freshly constructed engine: empty books, zeroed counters, no events.
pub open spec fn init_model() -> EngineModel {
    EngineModel {
        buys: Seq::empty(),
        sells: Seq::empty(),
        buy_count: 0,
        sell_count: 0,
        events: Seq::empty(),
    }
}

/// One order submission. A zero-quantity intent is a no-op. Otherwise the
/// per-side counter assigns the identity, the intent crosses the opposite
/// book, and a positive remainder rests on its own side with an
/// `OrderPlaced` event after the execution events.
pub open spec fn submit_model(m: EngineModel, is_buy: bool, quantity: u32, price: u64) -> EngineModel {
    if quantity == 0 {
        m
    } else if is_buy {
        let id = (m.buy_count + 1) as u64;
        let c = cross(m.sells, true, price, quantity);
        if c.remaining > 0 {
            let ev = LogEvent::OrderPlaced {
                id,
                quantity: c.remaining,
                price,
                order_type: OrderType::Buy,
            };
            EngineModel {
                buys: book_insert(m.buys, price, (id, c.remaining)),
                sells: c.book,
                buy_count: m.buy_count + 1,
                sell_count: m.sell_count,
                events: m.events + c.events + seq![ev],
            }
        } else {
            EngineModel {
                buys: m.buys,
                sells: c.book,
                buy_count: m.buy_count + 1,
                sell_count: m.sell_count,
                events: m.events + c.events,
            }
        }
    } else {
        let id = (m.sell_count + 1) as u64;
        let c = cross(m.buys, false, price, quantity);
        if c.remaining > 0 {
            let ev = LogEvent::OrderPlaced {
                id,
                quantity: c.remaining,
                price,
                order_type: OrderType::Sell,
            };
            EngineModel {
                buys: c.book,
                sells: book_insert(m.sells, price, (id, c.remaining)),
                buy_count: m.buy_count,
                sell_count: m.sell_count + 1,
                events: m.events + c.events + seq![ev],
            }
        } else {
            EngineModel {
                buys: c.book,
                sells: m.sells,
                buy_count: m.buy_count,
                sell_count: m.sell_count + 1,
                events: m.events + c.events,
            }
        }
    }
}

/// Fold of `submit_model` over a sequence of intents, in order.
pub open spec fn apply_intents(m: EngineModel, intents: Seq<IntentV>) -> EngineModel
    decreases intents.len(),
{
    if intents.len() == 0 {
        m
    } else {
        apply_intents(
            submit_model(m, intents.first().0, intents.first().1, intents.first().2),
            intents.drop_first(),
        )
    }
}

} // verus!
