//! The engine's laws, stated over the functional model and proved:
//! conservation of quantity, price priority, FIFO order within a price
//! level, the zero-quantity no-op, and determinism of replay. The engine's
//! methods are proved to implement the model exactly, so these laws carry
//! over to every execution.

use vstd::prelude::*;

use crate::model::apply_intents;
use crate::model::best_pos;
use crate::model::best_queue_len;
use crate::model::book_insert;
use crate::model::book_queues_wf;
use crate::model::book_sorted;
use crate::model::cross;
use crate::model::has_eligible;
use crate::model::init_model;
use crate::model::side_of;
use crate::model::submit_model;
use crate::model::BookV;
use crate::model::EngineModel;
use crate::model::IntentV;
use crate::model::OrderV;
use crate::order::LogEvent;

verus! {

/// Total quantity resting in one FIFO queue.
pub open spec fn queue_qty(q: Seq<OrderV>) -> int
    decreases q.len(),
{
    if q.len() == 0 {
        0
    } else {
        q.first().1 + queue_qty(q.drop_first())
    }
}

/// Total quantity resting on one side of the book.
pub open spec fn book_qty(b: BookV) -> int
    decreases b.len(),
{
    if b.len() == 0 {
        0
    } else {
        queue_qty(b.first().1) + book_qty(b.drop_first())
    }
}

/// Total quantity the execution events among `evs` report.
pub open spec fn executed_qty(evs: Seq<LogEvent>) -> int
    decreases evs.len(),
{
    if evs.len() == 0 {
        0
    } else {
        (match evs.first() {
            LogEvent::OrderExecuted { qty, .. } => qty as int,
            LogEvent::OrderPlaced { .. } => 0,
        }) + executed_qty(evs.drop_first())
    }
}

/// Total quantity a sequence of intents submits.
pub open spec fn submitted_qty(intents: Seq<IntentV>) -> int
    decreases intents.len(),
{
    if intents.len() == 0 {
        0
    } else {
        intents.first().1 + submitted_qty(intents.drop_first())
    }
}

proof fn lemma_queue_qty_push(q: Seq<OrderV>, x: OrderV)
    ensures
        queue_qty(q.push(x)) == queue_qty(q) + x.1,
    decreases q.len(),
{
    if q.len() == 0 {
        assert(q.push(x).drop_first() =~= Seq::<OrderV>::empty());
        assert(queue_qty(Seq::<OrderV>::empty()) == 0);
        assert(q.push(x).first() == x);
    } else {
        assert(q.push(x).drop_first() =~= q.drop_first().push(x));
        lemma_queue_qty_push(q.drop_first(), x);
    }
}

proof fn lemma_book_qty_cons(lv: (u64, Seq<OrderV>), b: BookV)
    ensures
        book_qty(seq![lv] + b) == queue_qty(lv.1) + book_qty(b),
{
    assert((seq![lv] + b).first() == lv);
    assert((seq![lv] + b).drop_first() =~= b);
}

proof fn lemma_book_qty_update(b: BookV, i: int, lv: (u64, Seq<OrderV>))
    requires
        0 <= i < b.len(),
    ensures
        book_qty(b.update(i, lv)) == book_qty(b) - queue_qty(b[i].1) + queue_qty(lv.1),
    decreases i,
{
    if i == 0 {
        assert(b.update(0, lv).drop_first() =~= b.drop_first());
    } else {
        assert(b.update(i, lv).first() == b.first());
        assert(b.update(i, lv).drop_first() =~= b.drop_first().update(i - 1, lv));
        lemma_book_qty_update(b.drop_first(), i - 1, lv);
    }
}

proof fn lemma_book_qty_remove(b: BookV, i: int)
    requires
        0 <= i < b.len(),
    ensures
        book_qty(b.remove(i)) == book_qty(b) - queue_qty(b[i].1),
    decreases i,
{
    if i == 0 {
        assert(b.remove(0) =~= b.drop_first());
    } else {
        assert(b.remove(i).first() == b.first());
        assert(b.remove(i).drop_first() =~= b.drop_first().remove(i - 1));
        lemma_book_qty_remove(b.drop_first(), i - 1);
    }
}

proof fn lemma_book_insert_qty(own: BookV, price: u64, ord: OrderV)
    ensures
        book_qty(book_insert(own, price, ord)) == book_qty(own) + ord.1,
        book_queues_wf(own) && ord.1 > 0 ==> book_queues_wf(book_insert(own, price, ord)),
    decreases own.len(),
{
    let r = book_insert(own, price, ord);
    if own.len() == 0 {
        assert(r == seq![(price, seq![ord])]);
        assert(r.drop_first() =~= Seq::<(u64, Seq<OrderV>)>::empty());
        assert(seq![ord].drop_first() =~= Seq::<OrderV>::empty());
        assert(book_qty(Seq::<(u64, Seq<OrderV>)>::empty()) == 0);
        assert(queue_qty(Seq::<OrderV>::empty()) == 0);
        assert(queue_qty(seq![ord]) == ord.1);
        if ord.1 > 0 {
            assert forall|i: int| 0 <= i < r.len() implies (#[trigger] r[i]).1.len() > 0 && (
            forall|k: int| 0 <= k < r[i].1.len() ==> (#[trigger] r[i].1[k]).1 > 0) by {
                assert(r[i].1 == seq![ord]);
                assert(r[i].1[0] == ord);
            }
        }
    } else if own.first().0 < price {
        lemma_book_insert_qty(own.drop_first(), price, ord);
        lemma_book_qty_cons(own.first(), book_insert(own.drop_first(), price, ord));
        if book_queues_wf(own) && ord.1 > 0 {
            assert forall|i: int| 0 <= i < own.drop_first().len() implies (#[trigger] own
                .drop_first()[i]).1.len() > 0 && (forall|k: int|
                0 <= k < own.drop_first()[i].1.len() ==> (#[trigger] own.drop_first()[i].1[k]).1
                    > 0) by {
                assert(own.drop_first()[i] == own[i + 1]);
            }
            let rr = book_insert(own.drop_first(), price, ord);
            assert forall|i: int| 0 <= i < r.len() implies (#[trigger] r[i]).1.len() > 0 && (
            forall|k: int| 0 <= k < r[i].1.len() ==> (#[trigger] r[i].1[k]).1 > 0) by {
                if i == 0 {
                    assert(r[i] == own.first());
                } else {
                    assert(r[i] == rr[i - 1]);
                }
            }
        }
    } else if own.first().0 == price {
        lemma_queue_qty_push(own.first().1, ord);
        lemma_book_qty_cons((price, own.first().1.push(ord)), own.drop_first());
        if book_queues_wf(own) && ord.1 > 0 {
            assert forall|i: int| 0 <= i < r.len() implies (#[trigger] r[i]).1.len() > 0 && (
            forall|k: int| 0 <= k < r[i].1.len() ==> (#[trigger] r[i].1[k]).1 > 0) by {
                if i == 0 {
                    assert(r[i].1 == own.first().1.push(ord));
                    assert forall|k: int| 0 <= k < r[i].1.len() implies (#[trigger] r[i].1[k]).1
                        > 0 by {
                        if k < own.first().1.len() {
                            assert(r[i].1[k] == own[0].1[k]);
                        }
                    }
                } else {
                    assert(r[i] == own[i]);
                }
            }
        }
    } else {
        lemma_book_qty_cons((price, seq![ord]), own);
        assert(seq![ord].drop_first() =~= Seq::<OrderV>::empty());
        assert(queue_qty(Seq::<OrderV>::empty()) == 0);
        assert(queue_qty(seq![ord]) == ord.1);
        if book_queues_wf(own) && ord.1 > 0 {
            assert forall|i: int| 0 <= i < r.len() implies (#[trigger] r[i]).1.len() > 0 && (
            forall|k: int| 0 <= k < r[i].1.len() ==> (#[trigger] r[i].1[k]).1 > 0) by {
                if i == 0 {
                    assert(r[i].1 == seq![ord]);
                    assert(r[i].1[0] == ord);
                } else {
                    assert(r[i] == own[i - 1]);
                }
            }
        }
    }
}

proof fn lemma_executed_qty_concat(a: Seq<LogEvent>, b: Seq<LogEvent>)
    ensures
        executed_qty(a + b) == executed_qty(a) + executed_qty(b),
    decreases a.len(),
{
    if a.len() == 0 {
        assert(a + b =~= b);
    } else {
        assert((a + b).first() == a.first());
        assert((a + b).drop_first() =~= a.drop_first() + b);
        lemma_executed_qty_concat(a.drop_first(), b);
    }
}

/// One crossing pass settles exactly the difference between the incoming
/// quantity and what remains of it: the opposite book loses that much, the
/// execution events report that much, and all queues stay non-empty with
/// positive quantities.
pub proof fn lemma_cross_conservation(opp: BookV, incoming_buy: bool, limit: u64, remaining: u32)
    requires
        book_queues_wf(opp),
    ensures
        ({
            let c = cross(opp, incoming_buy, limit, remaining);
            &&& c.remaining <= remaining
            &&& book_qty(c.book) == book_qty(opp) - (remaining - c.remaining)
            &&& executed_qty(c.events) == remaining - c.remaining
            &&& book_queues_wf(c.book)
        }),
    decreases opp.len(), best_queue_len(opp, incoming_buy),
{
    let c = cross(opp, incoming_buy, limit, remaining);
    if remaining == 0 || !has_eligible(opp, incoming_buy, limit) {
    } else {
        let b = best_pos(opp, incoming_buy);
        let lv = opp[b];
        let head = lv.1[0];
        assert(head.1 > 0);
        if head.1 <= remaining {
            let rem2 = (remaining - head.1) as u32;
            let opp2 = if lv.1.len() <= 1 {
                opp.remove(b)
            } else {
                opp.update(b, (lv.0, lv.1.drop_first()))
            };
            if lv.1.len() <= 1 {
                lemma_book_qty_remove(opp, b);
                assert(lv.1.drop_first() =~= Seq::<OrderV>::empty());
                assert(queue_qty(Seq::<OrderV>::empty()) == 0);
                assert(queue_qty(lv.1) == head.1);
                assert forall|i: int| 0 <= i < opp2.len() implies (#[trigger] opp2[i]).1.len() > 0
                    && (forall|k: int| 0 <= k < opp2[i].1.len() ==> (#[trigger] opp2[i].1[k]).1
                    > 0) by {
                    if i < b {
                        assert(opp2[i] == opp[i]);
                    } else {
                        assert(opp2[i] == opp[i + 1]);
                    }
                }
            } else {
                lemma_book_qty_update(opp, b, (lv.0, lv.1.drop_first()));
                assert(queue_qty(lv.1.drop_first()) == queue_qty(lv.1) - head.1);
                assert forall|i: int| 0 <= i < opp2.len() implies (#[trigger] opp2[i]).1.len() > 0
                    && (forall|k: int| 0 <= k < opp2[i].1.len() ==> (#[trigger] opp2[i].1[k]).1
                    > 0) by {
                    if i == b {
                        assert forall|k: int| 0 <= k < opp2[i].1.len() implies (
                        #[trigger] opp2[i].1[k]).1 > 0 by {
                            assert(opp2[i].1[k] == opp[b].1[k + 1]);
                        }
                    } else {
                        assert(opp2[i] == opp[i]);
                    }
                }
            }
            lemma_cross_conservation(opp2, incoming_buy, limit, rem2);
            let r = cross(opp2, incoming_buy, limit, rem2);
            assert((seq![c.events[0]] + r.events).first() == c.events[0]);
            assert((seq![c.events[0]] + r.events).drop_first() =~= r.events);
        } else {
            let newhead = (head.0, (head.1 - remaining) as u32);
            let q2 = lv.1.update(0, newhead);
            assert(q2.drop_first() =~= lv.1.drop_first());
            assert(queue_qty(q2) == queue_qty(lv.1) - remaining);
            lemma_book_qty_update(opp, b, (lv.0, q2));
            assert(c.events.drop_first() =~= Seq::<LogEvent>::empty());
            assert(executed_qty(Seq::<LogEvent>::empty()) == 0);
            assert forall|i: int| 0 <= i < c.book.len() implies (#[trigger] c.book[i]).1.len() > 0
                && (forall|k: int| 0 <= k < c.book[i].1.len() ==> (#[trigger] c.book[i].1[k]).1
                > 0) by {
                if i == b {
                    assert forall|k: int| 0 <= k < c.book[i].1.len() implies (
                    #[trigger] c.book[i].1[k]).1 > 0 by {
                        if k != 0 {
                            assert(c.book[i].1[k] == opp[b].1[k]);
                        }
                    }
                } else {
                    assert(c.book[i] == opp[i]);
                }
            }
        }
    }
}

/// One submission preserves the quantity balance: the books gain the
/// submitted quantity less twice what was executed (each execution event
/// settles quantity from the incoming order *and* from a resting order).
pub proof fn lemma_submit_conservation(m: EngineModel, is_buy: bool, quantity: u32, price: u64)
    requires
        book_queues_wf(m.buys),
        book_queues_wf(m.sells),
    ensures
        ({
            let m1 = submit_model(m, is_buy, quantity, price);
            &&& book_qty(m1.buys) + book_qty(m1.sells) + 2 * executed_qty(m1.events) == book_qty(
                m.buys,
            ) + book_qty(m.sells) + 2 * executed_qty(m.events) + quantity
            &&& book_queues_wf(m1.buys)
            &&& book_queues_wf(m1.sells)
        }),
{
    if quantity == 0 {
    } else if is_buy {
        lemma_cross_conservation(m.sells, true, price, quantity);
        let c = cross(m.sells, true, price, quantity);
        lemma_executed_qty_concat(m.events, c.events);
        if c.remaining > 0 {
            let id = (m.buy_count + 1) as u64;
            let ev = LogEvent::OrderPlaced {
                id,
                quantity: c.remaining,
                price,
                order_type: crate::order::OrderType::Buy,
            };
            lemma_book_insert_qty(m.buys, price, (id, c.remaining));
            lemma_executed_qty_concat(m.events + c.events, seq![ev]);
            assert(seq![ev].drop_first() =~= Seq::<LogEvent>::empty());
            assert(executed_qty(Seq::<LogEvent>::empty()) == 0);
            assert(executed_qty(seq![ev]) == 0);
        }
    } else {
        lemma_cross_conservation(m.buys, false, price, quantity);
        let c = cross(m.buys, false, price, quantity);
        lemma_executed_qty_concat(m.events, c.events);
        if c.remaining > 0 {
            let id = (m.sell_count + 1) as u64;
            let ev = LogEvent::OrderPlaced {
                id,
                quantity: c.remaining,
                price,
                order_type: crate::order::OrderType::Sell,
            };
            lemma_book_insert_qty(m.sells, price, (id, c.remaining));
            lemma_executed_qty_concat(m.events + c.events, seq![ev]);
            assert(seq![ev].drop_first() =~= Seq::<LogEvent>::empty());
            assert(executed_qty(Seq::<LogEvent>::empty()) == 0);
            assert(executed_qty(seq![ev]) == 0);
        }
    }
}

proof fn lemma_replay_conservation(m: EngineModel, intents: Seq<IntentV>)
    requires
        book_queues_wf(m.buys),
        book_queues_wf(m.sells),
    ensures
        ({
            let m1 = apply_intents(m, intents);
            &&& book_qty(m1.buys) + book_qty(m1.sells) + 2 * executed_qty(m1.events) == book_qty(
                m.buys,
            ) + book_qty(m.sells) + 2 * executed_qty(m.events) + submitted_qty(intents)
            &&& book_queues_wf(m1.buys)
            &&& book_queues_wf(m1.sells)
        }),
    decreases intents.len(),
{
    if intents.len() == 0 {
    } else {
        let it = intents.first();
        lemma_submit_conservation(m, it.0, it.1, it.2);
        lemma_replay_conservation(submit_model(m, it.0, it.1, it.2), intents.drop_first());
    }
}

/// Conservation of quantity. For every sequence of intents replayed against
/// a fresh engine, the quantity resting in both books plus twice the
/// quantity reported executed equals the quantity submitted: each execution
/// event settles its quantity from the incoming order and from a resting
/// order at once.
pub proof fn lemma_conservation(intents: Seq<IntentV>)
    ensures
        ({
            let m = apply_intents(init_model(), intents);
            book_qty(m.buys) + book_qty(m.sells) + 2 * executed_qty(m.events) == submitted_qty(
                intents,
            )
        }),
{
    lemma_replay_conservation(init_model(), intents);
}

/// An execution event acceptable to an incoming order limited at `limit`:
/// it reports the incoming side, and a price no worse than the limit.
pub open spec fn exec_event_ok(ev: LogEvent, incoming_buy: bool, limit: u64) -> bool {
    ev matches LogEvent::OrderExecuted { price, qty, order_type } && order_type == side_of(
        incoming_buy,
    ) && if incoming_buy {
        price <= limit
    } else {
        price >= limit
    }
}

/// Price priority over one crossing pass: a buy never executes against a
/// level priced above its limit, a sell never against one priced below its
/// limit, and every event of the pass is an execution on the incoming side.
pub proof fn lemma_cross_price_priority(opp: BookV, incoming_buy: bool, limit: u64, remaining: u32)
    ensures
        ({
            let c = cross(opp, incoming_buy, limit, remaining);
            forall|t: int| 0 <= t < c.events.len() ==> exec_event_ok(
                #[trigger] c.events[t],
                incoming_buy,
                limit,
            )
        }),
    decreases opp.len(), best_queue_len(opp, incoming_buy),
{
    let c = cross(opp, incoming_buy, limit, remaining);
    if remaining == 0 || !has_eligible(opp, incoming_buy, limit) {
    } else {
        let b = best_pos(opp, incoming_buy);
        let lv = opp[b];
        let head = lv.1[0];
        if head.1 <= remaining {
            let rem2 = (remaining - head.1) as u32;
            let opp2 = if lv.1.len() <= 1 {
                opp.remove(b)
            } else {
                opp.update(b, (lv.0, lv.1.drop_first()))
            };
            lemma_cross_price_priority(opp2, incoming_buy, limit, rem2);
            let r = cross(opp2, incoming_buy, limit, rem2);
            assert forall|t: int| 0 <= t < c.events.len() implies exec_event_ok(
                #[trigger] c.events[t],
                incoming_buy,
                limit,
            ) by {
                if t > 0 {
                    assert(c.events[t] == r.events[t - 1]);
                }
            }
        }
    }
}

/// Price priority over one whole submission: every event the submission
/// appends, other than the final placement of a remainder, is an execution
/// acceptable to the incoming order's limit.
pub proof fn lemma_price_priority(m: EngineModel, is_buy: bool, quantity: u32, price: u64)
    ensures
        ({
            let m1 = submit_model(m, is_buy, quantity, price);
            forall|t: int|
                m.events.len() <= t < m1.events.len() && (#[trigger] m1.events[t]) is OrderExecuted
                    ==> exec_event_ok(m1.events[t], is_buy, price)
        }),
{
    if quantity == 0 {
    } else {
        let opp = if is_buy {
            m.sells
        } else {
            m.buys
        };
        lemma_cross_price_priority(opp, is_buy, price, quantity);
        let c = cross(opp, is_buy, price, quantity);
        let m1 = submit_model(m, is_buy, quantity, price);
        assert forall|t: int|
            m.events.len() <= t < m1.events.len() && (#[trigger] m1.events[t]) is OrderExecuted
                implies exec_event_ok(m1.events[t], is_buy, price) by {
            if t < m.events.len() + c.events.len() {
                assert(m1.events[t] == c.events[t - m.events.len()]);
            }
        }
    }
}

/// A zero-quantity intent is a no-op: no matching, no placement, no event.
pub proof fn lemma_zero_quantity_no_op(m: EngineModel, is_buy: bool, price: u64)
    ensures
        submit_model(m, is_buy, 0, price) == m,
{
}

/// Replay is deterministic: one ordered sequence of intents, applied to a
/// fresh engine, determines one final state — books, counters and event
/// sequence alike. Together with the engine methods' contracts, two engines
/// fed the same intents in the same order end identical.
pub proof fn lemma_replay_deterministic(intents: Seq<IntentV>, a: EngineModel, b: EngineModel)
    requires
        a == apply_intents(init_model(), intents),
        b == apply_intents(init_model(), intents),
    ensures
        a == b,
        a.events == b.events,
        a.buys == b.buys,
        a.sells == b.sells,
{
}

/// The ids of a queue, head first.
pub open spec fn queue_ids(q: Seq<OrderV>) -> Seq<u64> {
    q.map_values(|o: OrderV| o.0)
}

/// The ids resting at price `p`, head first; empty if no level has that
/// price.
pub open spec fn level_ids_at(b: BookV, p: u64) -> Seq<u64>
    decreases b.len(),
{
    if b.len() == 0 {
        Seq::empty()
    } else if b.first().0 == p {
        queue_ids(b.first().1)
    } else {
        level_ids_at(b.drop_first(), p)
    }
}

proof fn lemma_ids_at_absent(b: BookV, p: u64)
    requires
        forall|i: int| 0 <= i < b.len() ==> (#[trigger] b[i]).0 != p,
    ensures
        level_ids_at(b, p) == Seq::<u64>::empty(),
    decreases b.len(),
{
    if b.len() == 0 {
    } else {
        assert(b[0].0 != p);
        assert forall|i: int| 0 <= i < b.drop_first().len() implies (
        #[trigger] b.drop_first()[i]).0 != p by {
            assert(b.drop_first()[i] == b[i + 1]);
        }
        lemma_ids_at_absent(b.drop_first(), p);
    }
}

proof fn lemma_ids_at_found(b: BookV, i: int, p: u64)
    requires
        book_sorted(b),
        0 <= i < b.len(),
        b[i].0 == p,
    ensures
        level_ids_at(b, p) == queue_ids(b[i].1),
    decreases i,
{
    if i == 0 {
    } else {
        assert(b[0].0 < b[i].0);
        assert forall|s: int, t: int|
            0 <= s < t < b.drop_first().len() implies (#[trigger] b.drop_first()[s]).0 < (
        #[trigger] b.drop_first()[t]).0 by {
            assert(b.drop_first()[s] == b[s + 1] && b.drop_first()[t] == b[t + 1]);
        }
        assert(b.drop_first()[i - 1] == b[i]);
        lemma_ids_at_found(b.drop_first(), i - 1, p);
    }
}

proof fn lemma_ids_at_remove_other(b: BookV, i: int, p: u64)
    requires
        0 <= i < b.len(),
        b[i].0 != p,
    ensures
        level_ids_at(b.remove(i), p) == level_ids_at(b, p),
    decreases i,
{
    if i == 0 {
        assert(b.remove(0) =~= b.drop_first());
    } else {
        assert(b.remove(i).first() == b.first());
        assert(b.remove(i).drop_first() =~= b.drop_first().remove(i - 1));
        assert(b.drop_first()[i - 1] == b[i]);
        lemma_ids_at_remove_other(b.drop_first(), i - 1, p);
    }
}

proof fn lemma_ids_at_update_other(b: BookV, i: int, lv: (u64, Seq<OrderV>), p: u64)
    requires
        0 <= i < b.len(),
        b[i].0 != p,
        lv.0 == b[i].0,
    ensures
        level_ids_at(b.update(i, lv), p) == level_ids_at(b, p),
    decreases i,
{
    if i == 0 {
        assert(b.update(0, lv).drop_first() =~= b.drop_first());
    } else {
        assert(b.update(i, lv).first() == b.first());
        assert(b.update(i, lv).drop_first() =~= b.drop_first().update(i - 1, lv));
        assert(b.drop_first()[i - 1] == b[i]);
        lemma_ids_at_update_other(b.drop_first(), i - 1, lv, p);
    }
}

/// FIFO within a price level. Over one crossing pass, the ids resting at
/// any price are always a suffix of what rested there before: orders leave
/// a level strictly in the order they were appended, and a partial fill
/// touches only the head without reordering anything. Price order of the
/// book is preserved as well.
pub proof fn lemma_cross_fifo(opp: BookV, incoming_buy: bool, limit: u64, remaining: u32, p: u64)
    requires
        book_sorted(opp),
        book_queues_wf(opp),
    ensures
        ({
            let c = cross(opp, incoming_buy, limit, remaining);
            &&& book_sorted(c.book)
            &&& exists|k: int|
                0 <= k <= level_ids_at(opp, p).len() && level_ids_at(c.book, p) == level_ids_at(
                    opp,
                    p,
                ).skip(k)
        }),
    decreases opp.len(), best_queue_len(opp, incoming_buy),
{
    let c = cross(opp, incoming_buy, limit, remaining);
    let ids0 = level_ids_at(opp, p);
    if remaining == 0 || !has_eligible(opp, incoming_buy, limit) {
        assert(ids0.skip(0) =~= ids0);
        assert(0 <= 0 <= ids0.len() && level_ids_at(c.book, p) == ids0.skip(0));
    } else {
        let b = best_pos(opp, incoming_buy);
        let lv = opp[b];
        let head = lv.1[0];
        if head.1 <= remaining {
            let rem2 = (remaining - head.1) as u32;
            let opp2 = if lv.1.len() <= 1 {
                opp.remove(b)
            } else {
                opp.update(b, (lv.0, lv.1.drop_first()))
            };
            // price order is preserved by both shapes of the step
            assert(book_sorted(opp2)) by {
                if lv.1.len() <= 1 {
                    assert forall|s: int, t: int|
                        0 <= s < t < opp2.len() implies (#[trigger] opp2[s]).0 < (
                    #[trigger] opp2[t]).0 by {
                        let os: int = if s < b { s } else { s + 1 };
                        let ot: int = if t < b { t } else { t + 1 };
                        assert(opp2[s] == opp[os] && opp2[t] == opp[ot]);
                    }
                }
            }
            // the level's ids after the step are a suffix of those before
            let ids1 = level_ids_at(opp2, p);
            assert(exists|k1: int| 0 <= k1 <= ids0.len() && ids1 == ids0.skip(k1)) by {
                if lv.0 == p {
                    lemma_ids_at_found(opp, b, p);
                    if lv.1.len() <= 1 {
                        assert forall|i: int| 0 <= i < opp2.len() implies (#[trigger] opp2[i]).0
                            != p by {
                            let oi: int = if i < b { i } else { i + 1 };
                            assert(opp2[i] == opp[oi]);
                            if oi < b {
                                assert(opp[oi].0 < opp[b].0);
                            } else if oi > b {
                                assert(opp[b].0 < opp[oi].0);
                            }
                        }
                        lemma_ids_at_absent(opp2, p);
                        assert(level_ids_at(opp2, p) =~= ids0.skip(ids0.len() as int));
                        assert(ids1 == ids0.skip(ids0.len() as int));
                    } else {
                        lemma_ids_at_found(opp2, b, p);
                        assert(queue_ids(lv.1.drop_first()) =~= queue_ids(lv.1).skip(1));
                        assert(ids1 == ids0.skip(1));
                    }
                } else {
                    if lv.1.len() <= 1 {
                        lemma_ids_at_remove_other(opp, b, p);
                    } else {
                        lemma_ids_at_update_other(opp, b, (lv.0, lv.1.drop_first()), p);
                    }
                    assert(ids0.skip(0) =~= ids0);
                    assert(ids1 == ids0.skip(0));
                }
            }
            let k1 = choose|k1: int| 0 <= k1 <= ids0.len() && ids1 == ids0.skip(k1);
            // queues stay non-empty with positive quantities for the recursion
            assert(book_queues_wf(opp2)) by {
                assert forall|i: int| 0 <= i < opp2.len() implies (#[trigger] opp2[i]).1.len() > 0
                    && (forall|k: int| 0 <= k < opp2[i].1.len() ==> (#[trigger] opp2[i].1[k]).1
                    > 0) by {
                    if lv.1.len() <= 1 {
                        let oi: int = if i < b { i } else { i + 1 };
                        assert(opp2[i] == opp[oi]);
                    } else {
                        if i == b {
                            assert forall|k: int| 0 <= k < opp2[i].1.len() implies (
                            #[trigger] opp2[i].1[k]).1 > 0 by {
                                assert(opp2[i].1[k] == opp[b].1[k + 1]);
                            }
                        } else {
                            assert(opp2[i] == opp[i]);
                        }
                    }
                }
            }
            lemma_cross_fifo(opp2, incoming_buy, limit, rem2, p);
            let r = cross(opp2, incoming_buy, limit, rem2);
            let k2 = choose|k2: int|
                0 <= k2 <= ids1.len() && level_ids_at(r.book, p) == ids1.skip(k2);
            assert(ids0.skip(k1).skip(k2) =~= ids0.skip(k1 + k2));
            assert(level_ids_at(c.book, p) == ids0.skip(k1 + k2));
            assert(0 <= k1 + k2 <= ids0.len());
        } else {
            let newhead = (head.0, (head.1 - remaining) as u32);
            let q2 = lv.1.update(0, newhead);
            assert(book_sorted(c.book));
            if lv.0 == p {
                lemma_ids_at_found(opp, b, p);
                assert(book_sorted(opp.update(b, (lv.0, q2)))) by {
                    assert forall|s: int, t: int|
                        0 <= s < t < c.book.len() implies (#[trigger] c.book[s]).0 < (
                    #[trigger] c.book[t]).0 by {
                        assert(c.book[s].0 == opp[s].0 && c.book[t].0 == opp[t].0);
                    }
                }
                lemma_ids_at_found(c.book, b, p);
                assert(queue_ids(q2) =~= queue_ids(lv.1));
                assert(ids0.skip(0) =~= ids0);
                assert(level_ids_at(c.book, p) == ids0.skip(0));
            } else {
                lemma_ids_at_update_other(opp, b, (lv.0, q2), p);
                assert(ids0.skip(0) =~= ids0);
                assert(level_ids_at(c.book, p) == ids0.skip(0));
            }
        }
    }
}

/// The laws' validity premises hold of every reachable engine state: a
/// well-formed engine's model has strictly sorted books whose queues are
/// non-empty and hold positive quantities only.
pub proof fn lemma_engine_model_valid(e: crate::engine::MatchingEngine)
    requires
        e.wf(),
    ensures
        book_sorted(e.model().buys),
        book_queues_wf(e.model().buys),
        book_sorted(e.model().sells),
        book_queues_wf(e.model().sells),
{
    crate::book::lemma_book_wf_view(e.arena.slots@, e.buy_order_book);
    crate::book::lemma_book_wf_view(e.arena.slots@, e.sell_order_book);
}

/// Resting an order appends it at the tail of its price level and touches
/// no other level: together with `lemma_cross_fifo` this is FIFO order
/// within a level over a whole submission — orders leave head-first, and
/// arrive tail-last.
pub proof fn lemma_insert_appends(own: BookV, price: u64, ord: OrderV, p: u64)
    requires
        book_sorted(own),
    ensures
        level_ids_at(book_insert(own, price, ord), p) == if p == price {
            level_ids_at(own, p).push(ord.0)
        } else {
            level_ids_at(own, p)
        },
    decreases own.len(),
{
    let r = book_insert(own, price, ord);
    if own.len() == 0 {
        assert(own =~= Seq::<(u64, Seq<OrderV>)>::empty());
        assert(r.first() == (price, seq![ord]));
        assert(r.drop_first() =~= own);
        assert(level_ids_at(own, p) == Seq::<u64>::empty());
        if p == price {
            assert(queue_ids(seq![ord]) =~= Seq::<u64>::empty().push(ord.0));
        }
    } else if own.first().0 < price {
        assert forall|s: int, t: int|
            0 <= s < t < own.drop_first().len() implies (#[trigger] own.drop_first()[s]).0 < (
        #[trigger] own.drop_first()[t]).0 by {
            assert(own.drop_first()[s] == own[s + 1] && own.drop_first()[t] == own[t + 1]);
        }
        lemma_insert_appends(own.drop_first(), price, ord, p);
        let rr = book_insert(own.drop_first(), price, ord);
        assert(r.first() == own.first());
        assert(r.drop_first() =~= rr);
    } else if own.first().0 == price {
        assert(r.first() == (price, own.first().1.push(ord)));
        assert(r.drop_first() =~= own.drop_first());
        if p == price {
            assert(queue_ids(own.first().1.push(ord)) =~= queue_ids(own.first().1).push(ord.0));
        }
    } else {
        assert(r.first() == (price, seq![ord]));
        assert(r.drop_first() =~= own);
        if p == price {
            assert forall|i: int| 0 <= i < own.len() implies (#[trigger] own[i]).0 != p by {
                if i > 0 {
                    assert(own[0].0 < own[i].0);
                }
            }
            lemma_ids_at_absent(own, p);
            assert(queue_ids(seq![ord]) =~= Seq::<u64>::empty().push(ord.0));
        }
    }
}

/// The side an incoming order rests on.
pub open spec fn own_side(m: EngineModel, is_buy: bool) -> BookV {
    if is_buy { m.buys } else { m.sells }
}

/// The side an incoming order crosses against.
pub open spec fn opp_side(m: EngineModel, is_buy: bool) -> BookV {
    if is_buy { m.sells } else { m.buys }
}

/// The identity the next order of this side will receive.
pub open spec fn next_id(m: EngineModel, is_buy: bool) -> u64 {
    if is_buy { (m.buy_count + 1) as u64 } else { (m.sell_count + 1) as u64 }
}

/// One submission keeps FIFO order at price `p`: on the crossed side the
/// resting ids end as a suffix of what they were (orders leave strictly
/// head-first), and on the incoming order's own side they are unchanged
/// unless a remainder rested, which appends exactly the new id at the tail
/// of its own price level.
pub open spec fn submit_preserves_fifo(
    m: EngineModel,
    is_buy: bool,
    quantity: u32,
    price: u64,
    p: u64,
) -> bool {
    &&& exists|k: int|
        0 <= k <= level_ids_at(opp_side(m, is_buy), p).len() && level_ids_at(
            opp_side(submit_model(m, is_buy, quantity, price), is_buy),
            p,
        ) == level_ids_at(opp_side(m, is_buy), p).skip(k)
    &&& level_ids_at(own_side(submit_model(m, is_buy, quantity, price), is_buy), p)
        == if quantity > 0 && cross(opp_side(m, is_buy), is_buy, price, quantity).remaining > 0
            && p == price {
        level_ids_at(own_side(m, is_buy), p).push(next_id(m, is_buy))
    } else {
        level_ids_at(own_side(m, is_buy), p)
    }
}

/// FIFO over one whole submission: see `submit_preserves_fifo`.
pub proof fn lemma_submit_fifo(m: EngineModel, is_buy: bool, quantity: u32, price: u64, p: u64)
    requires
        book_sorted(m.buys),
        book_queues_wf(m.buys),
        book_sorted(m.sells),
        book_queues_wf(m.sells),
    ensures
        submit_preserves_fifo(m, is_buy, quantity, price, p),
{
    let own0 = own_side(m, is_buy);
    let opp0 = opp_side(m, is_buy);
    let m1 = submit_model(m, is_buy, quantity, price);
    let ids0 = level_ids_at(opp0, p);
    if quantity == 0 {
        assert(ids0.skip(0) =~= ids0);
        assert(level_ids_at(opp_side(m1, is_buy), p) == ids0.skip(0));
    } else {
        lemma_cross_fifo(opp0, is_buy, price, quantity, p);
        let c = cross(opp0, is_buy, price, quantity);
        assert(opp_side(m1, is_buy) == c.book);
        let k = choose|k: int| 0 <= k <= ids0.len() && level_ids_at(c.book, p) == ids0.skip(k);
        assert(level_ids_at(opp_side(m1, is_buy), p) == ids0.skip(k));
        if c.remaining > 0 {
            lemma_insert_appends(own0, price, (next_id(m, is_buy), c.remaining), p);
            assert(own_side(m1, is_buy) == book_insert(
                own0,
                price,
                (next_id(m, is_buy), c.remaining),
            ));
        } else {
            assert(own_side(m1, is_buy) == own0);
        }
    }
}

/// The whole queue resting at price `p`, head first; empty if no level has
/// that price.
pub open spec fn level_queue_at(b: BookV, p: u64) -> Seq<OrderV>
    decreases b.len(),
{
    if b.len() == 0 {
        Seq::empty()
    } else if b.first().0 == p {
        b.first().1
    } else {
        level_queue_at(b.drop_first(), p)
    }
}

proof fn lemma_queue_at_remove_other(b: BookV, i: int, p: u64)
    requires
        0 <= i < b.len(),
        b[i].0 != p,
    ensures
        level_queue_at(b.remove(i), p) == level_queue_at(b, p),
    decreases i,
{
    if i == 0 {
        assert(b.remove(0) =~= b.drop_first());
    } else {
        assert(b.remove(i).first() == b.first());
        assert(b.remove(i).drop_first() =~= b.drop_first().remove(i - 1));
        assert(b.drop_first()[i - 1] == b[i]);
        lemma_queue_at_remove_other(b.drop_first(), i - 1, p);
    }
}

proof fn lemma_queue_at_update_other(b: BookV, i: int, lv: (u64, Seq<OrderV>), p: u64)
    requires
        0 <= i < b.len(),
        b[i].0 != p,
        lv.0 == b[i].0,
    ensures
        level_queue_at(b.update(i, lv), p) == level_queue_at(b, p),
    decreases i,
{
    if i == 0 {
        assert(b.update(0, lv).drop_first() =~= b.drop_first());
    } else {
        assert(b.update(i, lv).first() == b.first());
        assert(b.update(i, lv).drop_first() =~= b.drop_first().update(i - 1, lv));
        assert(b.drop_first()[i - 1] == b[i]);
        lemma_queue_at_update_other(b.drop_first(), i - 1, lv, p);
    }
}

/// The other half of price priority: a crossing pass leaves every
/// ineligible level untouched. A buy consumes nothing from a sell level
/// priced above its limit, a sell nothing from a buy level priced below
/// its limit — the queue resting there afterwards is identical, order and
/// quantities alike.
pub proof fn lemma_cross_ineligible_untouched(
    opp: BookV,
    incoming_buy: bool,
    limit: u64,
    remaining: u32,
    p: u64,
)
    requires
        if incoming_buy { p > limit } else { p < limit },
    ensures
        level_queue_at(cross(opp, incoming_buy, limit, remaining).book, p) == level_queue_at(
            opp,
            p,
        ),
    decreases opp.len(), best_queue_len(opp, incoming_buy),
{
    let c = cross(opp, incoming_buy, limit, remaining);
    if remaining == 0 || !has_eligible(opp, incoming_buy, limit) {
    } else {
        let b = best_pos(opp, incoming_buy);
        let lv = opp[b];
        let head = lv.1[0];
        // the step only touches the best level, whose price is within the
        // limit, so never the probed price
        assert(lv.0 != p);
        if head.1 <= remaining {
            let rem2 = (remaining - head.1) as u32;
            let opp2 = if lv.1.len() <= 1 {
                opp.remove(b)
            } else {
                opp.update(b, (lv.0, lv.1.drop_first()))
            };
            if lv.1.len() <= 1 {
                lemma_queue_at_remove_other(opp, b, p);
            } else {
                lemma_queue_at_update_other(opp, b, (lv.0, lv.1.drop_first()), p);
            }
            lemma_cross_ineligible_untouched(opp2, incoming_buy, limit, rem2, p);
        } else {
            let newhead = (head.0, (head.1 - remaining) as u32);
            lemma_queue_at_update_other(opp, b, (lv.0, lv.1.update(0, newhead)), p);
        }
    }
}

/// Price priority over one whole submission, book side: for an incoming
/// buy, every sell level priced above the limit keeps an identical queue;
/// for an incoming sell, every buy level priced below the limit does.
/// Together with `lemma_price_priority` (no execution event beyond the
/// limit) this is the price-priority property in full.
pub proof fn lemma_submit_ineligible_untouched(
    m: EngineModel,
    is_buy: bool,
    quantity: u32,
    price: u64,
    p: u64,
)
    requires
        if is_buy { p > price } else { p < price },
    ensures
        level_queue_at(opp_side(submit_model(m, is_buy, quantity, price), is_buy), p)
            == level_queue_at(opp_side(m, is_buy), p),
{
    if quantity == 0 {
    } else {
        lemma_cross_ineligible_untouched(opp_side(m, is_buy), is_buy, price, quantity, p);
    }
}

} // verus!
