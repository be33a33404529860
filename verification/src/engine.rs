//! The matching engine: the single serialized owner of the arena and of
//! both book sides. It drains order intents, applies the crossing protocol
//! per intent, and emits trade/placement events over the log channel.
//!
//! Every public mutating method is proved to implement `submit_model`: the
//! whole observable behaviour — both books, the identity counters and the
//! emitted event sequence — is a function of the intents applied so far.

use vstd::prelude::*;

use crate::arena::free_wf;
use crate::arena::OrderArena;
use crate::book::book_contains_idx;
use crate::book::book_v;
use crate::book::book_wf;
use crate::book::book_append;
use crate::book::books_disjoint;
use crate::book::free_book_disjoint;
use crate::book::lemma_book_agree;
use crate::book::level_v;
use crate::book::level_wf;
use crate::book::BookSide;
use crate::channel::try_send_event;
use crate::model::apply_intents;
use crate::model::cross;
use crate::model::has_eligible;
use crate::model::init_model;
use crate::model::submit_model;
use crate::model::EngineModel;
use crate::order::LogEvent;
use crate::order::Order;
use crate::order::OrderType;

verus! {

/// The engine. `buy_order_book` and `sell_order_book` index the arena by
/// price; the per-side counters assign order identities; `events` is the
/// ghost history of every event emitted so far; `dropped_events` counts
/// events the log channel refused (degraded observability, never an error).
pub struct MatchingEngine {
    pub buy_order_book: BookSide,
    pub sell_order_book: BookSide,
    pub buy_orders_count: u64,
    pub sell_orders_count: u64,
    pub log_sender: crossbeam_channel::Sender<LogEvent>,
    pub arena: OrderArena,
    pub dropped_events: u64,
    pub events: Ghost<Seq<LogEvent>>,
}

impl MatchingEngine {
    /// Both books are well formed, no arena slot is referenced twice — not
    /// by two queue positions, not by a queue and the free list.
    pub open spec fn wf(self) -> bool {
        &&& book_wf(self.arena.slots@, self.buy_order_book)
        &&& book_wf(self.arena.slots@, self.sell_order_book)
        &&& books_disjoint(self.buy_order_book, self.sell_order_book)
        &&& free_wf(self.arena)
        &&& free_book_disjoint(self.arena.free@, self.buy_order_book)
        &&& free_book_disjoint(self.arena.free@, self.sell_order_book)
    }

    /// The engine as the model sees it.
    pub open spec fn model(self) -> EngineModel {
        EngineModel {
            buys: book_v(self.arena.slots@, self.buy_order_book),
            sells: book_v(self.arena.slots@, self.sell_order_book),
            buy_count: self.buy_orders_count as nat,
            sell_count: self.sell_orders_count as nat,
            events: self.events@,
        }
    }

    /// A fresh engine: empty books, an empty arena, zeroed counters, the
    /// given log sender, and no events sent or dropped. The arena is
    /// pre-sized so steady-state matching does not reallocate.
    pub fn new(log_sender: crossbeam_channel::Sender<LogEvent>) -> (e: MatchingEngine)
        ensures
            e.wf(),
            e.model() == init_model(),
            e.arena.slots@ == Seq::<Order>::empty(),
            e.arena.free@ == Seq::<usize>::empty(),
            e.log_sender == log_sender,
            e.dropped_events == 0,
    {
        let ghost no_events: Seq<LogEvent> = Seq::empty();
        let e = MatchingEngine {
            buy_order_book: BookSide { levels: Vec::new() },
            sell_order_book: BookSide { levels: Vec::new() },
            buy_orders_count: 0,
            sell_orders_count: 0,
            log_sender,
            arena: OrderArena::with_capacity(100000),
            dropped_events: 0,
            events: Ghost(no_events),
        };
        proof {
            assert(book_v(e.arena.slots@, e.buy_order_book) =~= Seq::<crate::model::LevelV>::empty());
            assert(book_v(e.arena.slots@, e.sell_order_book) =~= Seq::<crate::model::LevelV>::empty());
        }
        e
    }

    /// Send each event over the log channel without blocking, appending it
    /// to the ghost event history; a refused send only bumps
    /// `dropped_events`, by at most one per event handed in. Nothing else
    /// of the engine changes.
    #[verifier::loop_isolation(false)]
    fn emit(&mut self, evs: &Vec<LogEvent>)
        ensures
            final(self).events@ == old(self).events@ + evs@,
            old(self).dropped_events <= final(self).dropped_events,
            final(self).dropped_events <= old(self).dropped_events + evs@.len(),
            final(self).buy_order_book == old(self).buy_order_book,
            final(self).sell_order_book == old(self).sell_order_book,
            final(self).arena == old(self).arena,
            final(self).buy_orders_count == old(self).buy_orders_count,
            final(self).sell_orders_count == old(self).sell_orders_count,
            final(self).log_sender == old(self).log_sender,
    {
        let mut k: usize = 0;
        while k < evs.len()
            invariant
                k <= evs@.len(),
                self.events@ == old(self).events@ + evs@.take(k as int),
                old(self).dropped_events <= self.dropped_events,
                self.dropped_events <= old(self).dropped_events + k,
                self.buy_order_book == old(self).buy_order_book,
                self.sell_order_book == old(self).sell_order_book,
                self.arena == old(self).arena,
                self.buy_orders_count == old(self).buy_orders_count,
                self.sell_orders_count == old(self).sell_orders_count,
                self.log_sender == old(self).log_sender,
            decreases evs@.len() - k,
        {
            let ev = evs[k];
            let ok = try_send_event(&self.log_sender, ev);
            if !ok {
                if self.dropped_events < u64::MAX {
                    self.dropped_events = self.dropped_events + 1;
                }
            }
            self.events = Ghost(self.events@.push(ev));
            k = k + 1;
            proof {
                assert(self.events@ =~= old(self).events@ + evs@.take(k as int));
            }
        }
        proof {
            assert(evs@.take(evs@.len() as int) =~= evs@);
        }
    }

    /// Submit one order intent. A zero quantity is a no-op; otherwise the
    /// intent crosses the opposite book under price-time priority and a
    /// positive remainder rests on its own side. Implements `submit_model`
    /// exactly: books, counters and emitted events after the call are those
    /// of the model.
    pub fn submit_order(&mut self, is_buy: bool, quantity: u32, price: u64)
        requires
            old(self).wf(),
            is_buy ==> old(self).buy_orders_count < u64::MAX,
            !is_buy ==> old(self).sell_orders_count < u64::MAX,
            old(self).arena.slots@.len() < usize::MAX,
        ensures
            final(self).wf(),
            final(self).model() == submit_model(old(self).model(), is_buy, quantity, price),
            final(self).buy_orders_count <= old(self).buy_orders_count + 1,
            final(self).sell_orders_count <= old(self).sell_orders_count + 1,
            final(self).arena.slots@.len() <= old(self).arena.slots@.len() + 1,
            final(self).log_sender == old(self).log_sender,
            old(self).dropped_events <= final(self).dropped_events,
            final(self).dropped_events <= old(self).dropped_events + (final(self).events@.len()
                - old(self).events@.len()),
    {
        if quantity == 0 {
            return ;
        }
        let ghost m0 = old(self).model();
        let id: u64;
        if is_buy {
            self.buy_orders_count = self.buy_orders_count + 1;
            id = self.buy_orders_count;
        } else {
            self.sell_orders_count = self.sell_orders_count + 1;
            id = self.sell_orders_count;
        }
        let ghost s0 = self.arena.slots@;
        let cr = if is_buy {
            cross_exec(&mut self.sell_order_book, &mut self.arena, true, price, quantity)
        } else {
            cross_exec(&mut self.buy_order_book, &mut self.arena, false, price, quantity)
        };
        let remaining = cr.0;
        let evs = cr.1;
        let ghost own0 = if is_buy {
            self.buy_order_book
        } else {
            self.sell_order_book
        };
        let ghost opp0 = if is_buy {
            old(self).sell_order_book
        } else {
            old(self).buy_order_book
        };
        let ghost s1 = self.arena.slots@;
        proof {
            // The own side was untouched by the crossing: its members are
            // disjoint from the opposite side's, which is all the crossing
            // frame can have changed.
            assert forall|j: usize| #[trigger] book_contains_idx(own0, j) implies (j as int)
                < s1.len() && s1[j as int] == s0[j as int] by {
                let (i, k) = choose|i: int, k: int|
                    0 <= i < own0.levels@.len() && 0 <= k < own0.levels@[i].idxs@.len()
                        && own0.levels@[i].idxs@[k] == j;
                assert(level_wf(s0, own0.levels@[i]));
                assert(!book_contains_idx(opp0, j));
            }
            lemma_book_agree(s0, s1, own0);
        }
        self.emit(&evs);
        let ghost opp1 = if is_buy {
            self.sell_order_book
        } else {
            self.buy_order_book
        };
        let ghost free1 = self.arena.free@;
        proof {
            // The free list after crossing is disjoint from the own side
            // too: its entries were free before (and the free list was
            // disjoint from both books) or were recycled out of the
            // opposite side (and the sides are disjoint).
            assert forall|k: int| 0 <= k < free1.len() implies !book_contains_idx(
                own0,
                #[trigger] free1[k],
            ) by {
                if old(self).arena.free@.contains(free1[k]) {
                    let fk = free1[k];
                    let l = choose|l: int|
                        0 <= l < old(self).arena.free@.len() && old(self).arena.free@[l] == fk;
                    assert(!book_contains_idx(own0, old(self).arena.free@[l]));
                } else {
                    assert(book_contains_idx(opp0, free1[k]));
                }
            }
            assert(free_book_disjoint(free1, own0));
        }
        if remaining > 0 {
            let o = Order { id, quantity: remaining, price, next: None };
            let idx = self.arena.allocate(o);
            let ghost s2 = self.arena.slots@;
            proof {
                // The fresh slot is in neither book: it came off the free
                // list (disjoint from both books) or is brand new.
                assert(!book_contains_idx(own0, idx) && !book_contains_idx(opp1, idx)) by {
                    if free1.len() > 0 {
                        assert(free1[free1.len() - 1] == idx);
                        assert(!book_contains_idx(own0, idx));
                        assert(!book_contains_idx(opp1, idx));
                    } else {
                        assert(idx == s1.len());
                        if book_contains_idx(own0, idx) {
                            let (i, k) = choose|i: int, k: int|
                                0 <= i < own0.levels@.len() && 0 <= k < own0.levels@[i].idxs@.len()
                                    && own0.levels@[i].idxs@[k] == idx;
                            assert(level_wf(s1, own0.levels@[i]));
                        }
                        if book_contains_idx(opp1, idx) {
                            let (i, k) = choose|i: int, k: int|
                                0 <= i < opp1.levels@.len() && 0 <= k < opp1.levels@[i].idxs@.len()
                                    && opp1.levels@[i].idxs@[k] == idx;
                            assert(level_wf(s1, opp1.levels@[i]));
                        }
                    }
                }
                // Both books are untouched by the allocation.
                assert forall|j: usize| #[trigger] book_contains_idx(own0, j) implies (j as int)
                    < s2.len() && s2[j as int] == s1[j as int] by {
                    let (i, k) = choose|i: int, k: int|
                        0 <= i < own0.levels@.len() && 0 <= k < own0.levels@[i].idxs@.len()
                            && own0.levels@[i].idxs@[k] == j;
                    assert(level_wf(s1, own0.levels@[i]));
                }
                lemma_book_agree(s1, s2, own0);
                assert forall|j: usize| #[trigger] book_contains_idx(opp1, j) implies (j as int)
                    < s2.len() && s2[j as int] == s1[j as int] by {
                    let (i, k) = choose|i: int, k: int|
                        0 <= i < opp1.levels@.len() && 0 <= k < opp1.levels@[i].idxs@.len()
                            && opp1.levels@[i].idxs@[k] == j;
                    assert(level_wf(s1, opp1.levels@[i]));
                }
                lemma_book_agree(s1, s2, opp1);
            }
            if is_buy {
                book_append(&mut self.buy_order_book, &mut self.arena, price, idx);
            } else {
                book_append(&mut self.sell_order_book, &mut self.arena, price, idx);
            }
            let ghost s3 = self.arena.slots@;
            let ghost own2 = if is_buy {
                self.buy_order_book
            } else {
                self.sell_order_book
            };
            proof {
                // The opposite book was untouched by the append.
                assert forall|j: usize| #[trigger] book_contains_idx(opp1, j) implies (j as int)
                    < s3.len() && s3[j as int] == s2[j as int] by {
                    let (i, k) = choose|i: int, k: int|
                        0 <= i < opp1.levels@.len() && 0 <= k < opp1.levels@[i].idxs@.len()
                            && opp1.levels@[i].idxs@[k] == j;
                    assert(level_wf(s2, opp1.levels@[i]));
                    assert(!book_contains_idx(own0, j));
                    assert(j != idx);
                }
                lemma_book_agree(s2, s3, opp1);
                // The fresh slot is not on the free list, so the free list
                // stays disjoint from the grown own side.
                assert(!self.arena.free@.contains(idx)) by {
                    if self.arena.free@.contains(idx) {
                        let k = choose|k: int|
                            0 <= k < self.arena.free@.len() && self.arena.free@[k] == idx;
                        if free1.len() > 0 {
                            // the popped entry was the last one and the free
                            // list held no duplicates
                            assert(self.arena.free@ == free1.drop_last());
                            assert(free1[k] == free1[free1.len() - 1]);
                        } else {
                            assert(free1[k] < s1.len());
                        }
                    }
                }
                assert(free_book_disjoint(self.arena.free@, own2)) by {
                    assert forall|k: int| 0 <= k < self.arena.free@.len() implies
                        !book_contains_idx(own2, #[trigger] self.arena.free@[k]) by {
                        if book_contains_idx(own2, self.arena.free@[k]) {
                            assert(book_contains_idx(own0, self.arena.free@[k])
                                || self.arena.free@[k] == idx);
                        }
                    }
                }
                assert(books_disjoint(self.buy_order_book, self.sell_order_book)) by {
                    assert forall|j: usize| #[trigger] book_contains_idx(own2, j) implies
                        !book_contains_idx(opp1, j) by {
                        if j != idx {
                            assert(book_contains_idx(own0, j));
                        }
                    }
                }
            }
            let side = if is_buy {
                OrderType::Buy
            } else {
                OrderType::Sell
            };
            let mut pv: Vec<LogEvent> = Vec::new();
            pv.push(LogEvent::OrderPlaced { id, quantity: remaining, price, order_type: side });
            self.emit(&pv);
            proof {
                let m1 = submit_model(m0, is_buy, quantity, price);
                assert(self.events@ =~= m1.events);
                assert(self.model() == m1);
            }
        } else {
            proof {
                let m1 = submit_model(m0, is_buy, quantity, price);
                assert(self.events@ =~= m1.events);
                assert(self.model() == m1);
            }
        }
    }

    /// Submit a buy intent: match against the sell book from the lowest
    /// eligible price, rest any remainder at `price` on the buy book.
    pub fn buy_order(&mut self, quantity: u32, price: u64)
        requires
            old(self).wf(),
            old(self).buy_orders_count < u64::MAX,
            old(self).arena.slots@.len() < usize::MAX,
        ensures
            final(self).wf(),
            final(self).model() == submit_model(old(self).model(), true, quantity, price),
            final(self).arena.slots@.len() <= old(self).arena.slots@.len() + 1,
            final(self).log_sender == old(self).log_sender,
            old(self).dropped_events <= final(self).dropped_events,
            final(self).dropped_events <= old(self).dropped_events + (final(self).events@.len()
                - old(self).events@.len()),
    {
        self.submit_order(true, quantity, price)
    }

    /// Submit a sell intent: match against the buy book from the highest
    /// eligible price, rest any remainder at `price` on the sell book.
    pub fn sell_order(&mut self, quantity: u32, price: u64)
        requires
            old(self).wf(),
            old(self).sell_orders_count < u64::MAX,
            old(self).arena.slots@.len() < usize::MAX,
        ensures
            final(self).wf(),
            final(self).model() == submit_model(old(self).model(), false, quantity, price),
            final(self).arena.slots@.len() <= old(self).arena.slots@.len() + 1,
            final(self).log_sender == old(self).log_sender,
            old(self).dropped_events <= final(self).dropped_events,
            final(self).dropped_events <= old(self).dropped_events + (final(self).events@.len()
                - old(self).events@.len()),
    {
        self.submit_order(false, quantity, price)
    }

    /// Apply a batch of intents in order, as the engine thread does per
    /// message from the inbound channel.
    #[verifier::loop_isolation(false)]
    pub fn apply_batch(&mut self, batch: &Vec<(bool, u32, u64)>)
        requires
            old(self).wf(),
            old(self).buy_orders_count + batch@.len() <= u64::MAX,
            old(self).sell_orders_count + batch@.len() <= u64::MAX,
            old(self).arena.slots@.len() + batch@.len() <= usize::MAX,
        ensures
            final(self).wf(),
            final(self).model() == apply_intents(old(self).model(), batch@),
            final(self).log_sender == old(self).log_sender,
            old(self).dropped_events <= final(self).dropped_events,
            final(self).dropped_events <= old(self).dropped_events + (final(self).events@.len()
                - old(self).events@.len()),
    {
        proof {
            assert(batch@.skip(0) =~= batch@);
        }
        let mut i: usize = 0;
        while i < batch.len()
            invariant
                i <= batch@.len(),
                self.wf(),
                self.buy_orders_count <= old(self).buy_orders_count + i,
                self.sell_orders_count <= old(self).sell_orders_count + i,
                self.arena.slots@.len() <= old(self).arena.slots@.len() + i,
                self.log_sender == old(self).log_sender,
                old(self).dropped_events <= self.dropped_events,
                old(self).events@.len() <= self.events@.len(),
                self.dropped_events <= old(self).dropped_events
                    + (self.events@.len() - old(self).events@.len()),
                apply_intents(old(self).model(), batch@) == apply_intents(
                    self.model(),
                    batch@.skip(i as int),
                ),
            decreases batch@.len() - i,
        {
            let intent = batch[i];
            let ghost m_pre = self.model();
            self.submit_order(intent.0, intent.1, intent.2);
            proof {
                assert(batch@.skip(i as int).first() == batch@[i as int]);
                assert(batch@.skip(i as int).drop_first() =~= batch@.skip(i as int + 1));
            }
            i = i + 1;
        }
        proof {
            assert(batch@.skip(batch@.len() as int) =~= Seq::<(bool, u32, u64)>::empty());
        }
    }

    /// A plain-data snapshot of one side: `(price, queue)` per level, best
    /// to worst price ascending, each queue `(id, quantity)` in FIFO order.
    #[verifier::loop_isolation(false)]
    pub fn side_snapshot(&self, is_buy: bool) -> (r: Vec<(u64, Vec<(u64, u32)>)>)
        requires
            self.wf(),
        ensures
            ({
                let bv = if is_buy {
                    self.model().buys
                } else {
                    self.model().sells
                };
                &&& r@.len() == bv.len()
                &&& forall|i: int|
                    0 <= i < bv.len() ==> (#[trigger] r@[i]).0 == bv[i].0 && r@[i].1@ == bv[i].1
            }),
    {
        let bk = if is_buy {
            &self.buy_order_book
        } else {
            &self.sell_order_book
        };
        let ghost slots = self.arena.slots@;
        let ghost bv = book_v(slots, *bk);
        let mut out: Vec<(u64, Vec<(u64, u32)>)> = Vec::new();
        let mut i: usize = 0;
        while i < bk.levels.len()
            invariant
                i <= bk.levels@.len(),
                out@.len() == i,
                forall|t: int|
                    0 <= t < i ==> (#[trigger] out@[t]).0 == bv[t].0 && out@[t].1@ == bv[t].1,
            decreases bk.levels@.len() - i,
        {
            let lv = bk.levels[i];
            proof {
                assert(level_wf(slots, lv));
            }
            let mut q: Vec<(u64, u32)> = Vec::new();
            let mut cur = Some(lv.head);
            while cur.is_some()
                invariant
                    q@.len() <= lv.idxs@.len(),
                    q@ == level_v(slots, lv).take(q@.len() as int),
                    if q@.len() < lv.idxs@.len() {
                        cur == Some(lv.idxs@[q@.len() as int])
                    } else {
                        cur is None
                    },
                decreases lv.idxs@.len() - q@.len(),
            {
                let c = cur.unwrap();
                let o = self.arena.slots[c];
                q.push((o.id, o.quantity));
                cur = o.next;
                proof {
                    let len = q@.len();
                    assert(q@ =~= level_v(slots, lv).take(len as int));
                    if len < lv.idxs@.len() {
                        assert(slots[lv.idxs@[len - 1] as int].next == Some(
                            lv.idxs@[len as int],
                        ));
                    } else {
                        assert(lv.idxs@[len - 1] == lv.tail);
                    }
                }
            }
            proof {
                assert(q@.len() == lv.idxs@.len());
                assert(level_v(slots, lv).take(q@.len() as int) =~= level_v(slots, lv));
            }
            out.push((lv.price, q));
            i = i + 1;
        }
        out
    }

    /// Number of slots the arena has grown to (resting and recycled alike).
    pub fn arena_slots(&self) -> (n: usize)
        ensures
            n == self.arena.slots@.len(),
    {
        self.arena.slot_count()
    }

    /// Number of arena slots currently awaiting reuse on the free list.
    pub fn arena_free(&self) -> (n: usize)
        ensures
            n == self.arena.free@.len(),
    {
        self.arena.free_count()
    }
}

/// One crossing pass of an incoming order against the opposite book.
/// Consumes eligible resting liquidity head-first in price priority,
/// recycling every fully consumed slot, and returns the incoming order's
/// remaining quantity together with the execution events, exactly as
/// `cross` states. The pass only removes from the opposite side and never
/// adds to it, so always taking the current best eligible level visits
/// precisely the levels that existed when the pass began, in priority
/// order — the same levels a snapshot taken at call start would list.
#[verifier::rlimit(100)]
fn cross_exec(
    opp: &mut BookSide,
    arena: &mut OrderArena,
    incoming_buy: bool,
    limit: u64,
    quantity: u32,
) -> (r: (u32, Vec<LogEvent>))
    requires
        book_wf(old(arena).slots@, *old(opp)),
        free_wf(*old(arena)),
        free_book_disjoint(old(arena).free@, *old(opp)),
    ensures
        book_wf(final(arena).slots@, *final(opp)),
        free_wf(*final(arena)),
        free_book_disjoint(final(arena).free@, *final(opp)),
        final(arena).slots@.len() == old(arena).slots@.len(),
        forall|j: int|
            0 <= j < final(arena).slots@.len() && !book_contains_idx(*old(opp), j as usize)
                ==> final(arena).slots@[j] == old(arena).slots@[j],
        forall|j: usize|
            #[trigger] book_contains_idx(*final(opp), j) ==> book_contains_idx(*old(opp), j),
        forall|k: int|
            0 <= k < final(arena).free@.len() ==> old(arena).free@.contains(
                #[trigger] final(arena).free@[k],
            ) || book_contains_idx(*old(opp), final(arena).free@[k]),
        ({
            let c = cross(book_v(old(arena).slots@, *old(opp)), incoming_buy, limit, quantity);
            &&& book_v(final(arena).slots@, *final(opp)) == c.book
            &&& r.1@ == c.events
            &&& r.0 == c.remaining
        }),
{
    let mut remaining = quantity;
    let mut events: Vec<LogEvent> = Vec::new();
    let ghost c0 = cross(book_v(old(arena).slots@, *old(opp)), incoming_buy, limit, quantity);
    loop
        invariant
            book_wf(arena.slots@, *opp),
            free_wf(*arena),
            free_book_disjoint(arena.free@, *opp),
            arena.slots@.len() == old(arena).slots@.len(),
            forall|j: int|
                0 <= j < arena.slots@.len() && !book_contains_idx(*old(opp), j as usize)
                    ==> arena.slots@[j] == old(arena).slots@[j],
            forall|j: usize|
                #[trigger] book_contains_idx(*opp, j) ==> book_contains_idx(*old(opp), j),
            forall|k: int|
                0 <= k < arena.free@.len() ==> old(arena).free@.contains(
                    #[trigger] arena.free@[k],
                ) || book_contains_idx(*old(opp), arena.free@[k]),
            ({
                let c = cross(book_v(arena.slots@, *opp), incoming_buy, limit, remaining);
                &&& c.book == c0.book
                &&& events@ + c.events == c0.events
                &&& c.remaining == c0.remaining
            }),
        ensures
            remaining == 0 || !has_eligible(book_v(arena.slots@, *opp), incoming_buy, limit),
        decreases remaining,
    {
        if remaining == 0 {
            break ;
        }
        let n = opp.levels.len();
        if n == 0 {
            break ;
        }
        let bpos: usize = if incoming_buy {
            0
        } else {
            n - 1
        };
        let lv = opp.levels[bpos];
        proof {
            assert(book_v(arena.slots@, *opp)[bpos as int].0 == lv.price);
        }
        if incoming_buy && lv.price > limit {
            break ;
        }
        if !incoming_buy && lv.price < limit {
            break ;
        }
        let ghost s_pre = arena.slots@;
        let ghost opp_pre = *opp;
        let ghost bv_pre = book_v(s_pre, opp_pre);
        let ghost rem_pre = remaining;
        let ghost events_pre = events@;
        let ghost ix = lv.idxs@;
        proof {
            assert(level_wf(s_pre, lv));
            assert(has_eligible(bv_pre, incoming_buy, limit));
            assert(crate::model::best_pos(bv_pre, incoming_buy) == bpos as int);
            assert(bv_pre[bpos as int].1 == level_v(s_pre, lv));
            assert(level_v(s_pre, lv)[0] == (s_pre[ix[0] as int].id, s_pre[ix[0] as int].quantity));
        }
        let h = lv.head;
        let o = arena.slots[h];
        let hq = o.quantity;
        let trade = if remaining < hq {
            remaining
        } else {
            hq
        };
        remaining = remaining - trade;
        let side = if incoming_buy {
            OrderType::Buy
        } else {
            OrderType::Sell
        };
        events.push(LogEvent::OrderExecuted { price: lv.price, qty: trade, order_type: side });
        let ghost ev = LogEvent::OrderExecuted { price: lv.price, qty: trade, order_type: side };
        if trade == hq {
            // The head is fully consumed: unlink it, drop the level if it
            // was the last order there, and recycle the slot — one
            // indivisible update as far as any caller can see.
            proof {
                assert(book_contains_idx(opp_pre, h));
                assert(!arena.free@.contains(h)) by {
                    if arena.free@.contains(h) {
                        let k = choose|k: int|
                            0 <= k < arena.free@.len() && arena.free@[k] == h;
                        assert(!book_contains_idx(opp_pre, arena.free@[k]));
                    }
                }
            }
            match o.next {
                Some(nh) => {
                    proof {
                        // A `next` link means the queue has at least two
                        // entries, and the link names the second.
                        assert(ix.len() >= 2) by {
                            if ix.len() < 2 {
                                assert(lv.tail == ix[0] && ix[0] == h);
                            }
                        }
                        assert(s_pre[ix[0] as int].next == Some(ix[1]));
                        assert(nh == ix[1]);
                    }
                    let mut lvl2 = lv;
                    lvl2.head = nh;
                    lvl2.idxs = Ghost(ix.drop_first());
                    opp.levels.set(bpos, lvl2);
                    proof {
                        let ix2 = lvl2.idxs@;
                        assert forall|k: int, l: int|
                            0 <= k < ix2.len() && 0 <= l < ix2.len() && k != l implies ix2[k]
                            != ix2[l] by {
                            assert(ix2[k] == ix[k + 1] && ix2[l] == ix[l + 1]);
                        }
                        assert(ix2.no_duplicates());
                        assert(level_wf(s_pre, lvl2));
                        assert(level_v(s_pre, lvl2) =~= level_v(s_pre, lv).drop_first());
                        assert(book_v(s_pre, *opp) =~= bv_pre.update(
                            bpos as int,
                            (lv.price, bv_pre[bpos as int].1.drop_first()),
                        ));
                        assert forall|j: usize| #[trigger] book_contains_idx(*opp, j) implies
                            book_contains_idx(opp_pre, j) by {
                            let (i, k) = choose|i: int, k: int|
                                0 <= i < opp.levels@.len() && 0 <= k < opp.levels@[i].idxs@.len()
                                    && opp.levels@[i].idxs@[k] == j;
                            if i == bpos {
                                assert(opp_pre.levels@[i].idxs@[k + 1] == j);
                            } else {
                                assert(opp_pre.levels@[i].idxs@[k] == j);
                            }
                        }
                        assert(book_wf(s_pre, *opp));
                        assert(free_book_disjoint(arena.free@, *opp));
                    }
                },
                None => {
                    proof {
                        // No `next` link: this was the last order at the
                        // level, which now leaves the book entirely.
                        assert(ix.len() == 1) by {
                            if ix.len() >= 2 {
                                assert(s_pre[ix[0] as int].next == Some(ix[1]));
                            }
                        }
                    }
                    opp.levels.remove(bpos);
                    proof {
                        assert(book_v(s_pre, *opp) =~= bv_pre.remove(bpos as int));
                        assert forall|j: usize| #[trigger] book_contains_idx(*opp, j) implies
                            book_contains_idx(opp_pre, j) by {
                            let (i, k) = choose|i: int, k: int|
                                0 <= i < opp.levels@.len() && 0 <= k < opp.levels@[i].idxs@.len()
                                    && opp.levels@[i].idxs@[k] == j;
                            if i < bpos {
                                assert(opp_pre.levels@[i].idxs@[k] == j);
                            } else {
                                assert(opp_pre.levels@[i + 1].idxs@[k] == j);
                            }
                        }
                        assert(book_wf(s_pre, *opp));
                        assert(free_book_disjoint(arena.free@, *opp));
                    }
                },
            }
            arena.recycle(h);
            proof {
                // The recycled slot is in no queue any more.
                assert(!book_contains_idx(*opp, h)) by {
                    if book_contains_idx(*opp, h) {
                        let (i, k) = choose|i: int, k: int|
                            0 <= i < opp.levels@.len() && 0 <= k < opp.levels@[i].idxs@.len()
                                && opp.levels@[i].idxs@[k] == h;
                        if o.next is Some && i == bpos {
                            assert(ix[k + 1] == h && ix[0] == h);
                        } else {
                            let oi: int = if o.next is Some {
                                i
                            } else {
                                if i < bpos {
                                    i
                                } else {
                                    i + 1
                                }
                            };
                            assert(opp_pre.levels@[oi].idxs@[k] == h);
                            assert(opp_pre.levels@[bpos as int].idxs@[0] == h);
                        }
                    }
                }
                assert(free_book_disjoint(arena.free@, *opp)) by {
                    assert forall|k: int| 0 <= k < arena.free@.len() implies !book_contains_idx(
                        *opp,
                        #[trigger] arena.free@[k],
                    ) by {
                        if k < arena.free@.len() - 1 {
                        } else {
                            assert(arena.free@[k] == h);
                        }
                    }
                }
                // One unfolding of the model's crossing step.
                let bv_now = book_v(arena.slots@, *opp);
                let c_next = cross(bv_now, incoming_buy, limit, remaining);
                let c_pre = cross(bv_pre, incoming_buy, limit, rem_pre);
                assert(c_pre.book == c_next.book && c_pre.events =~= seq![ev] + c_next.events
                    && c_pre.remaining == c_next.remaining);
                assert(events@ =~= events_pre + seq![ev]);
                assert(events@ + c_next.events =~= events_pre + c_pre.events);
            }
        } else {
            // The incoming order is exhausted: the head keeps the rest.
            proof {
                assert(book_contains_idx(opp_pre, h));
                assert(book_contains_idx(*old(opp), h));
            }
            let mut o2 = o;
            o2.quantity = hq - trade;
            arena.slots.set(h, o2);
            proof {
                let s_now = arena.slots@;
                assert forall|i: int|
                    0 <= i < opp.levels@.len() && i != bpos implies level_wf(
                    s_now,
                    #[trigger] opp.levels@[i],
                ) && level_v(s_now, opp.levels@[i]) == level_v(s_pre, opp.levels@[i]) by {
                    let lvi = opp.levels@[i];
                    assert forall|k: int| 0 <= k < lvi.idxs@.len() implies (#[trigger] lvi.idxs@[k])
                        < s_now.len()
                        && s_now[lvi.idxs@[k] as int] == s_pre[lvi.idxs@[k] as int] by {
                        assert(lvi.idxs@[k] != ix[0]);
                    }
                    crate::book::lemma_level_agree(s_pre, s_now, lvi);
                }
                assert(level_wf(s_now, lv)) by {
                    assert forall|k: int| 0 <= k < ix.len() - 1 implies crate::book::slots_next(
                        s_now,
                        #[trigger] ix[k],
                    ) == Some(ix[k + 1]) by {
                        if ix[k] == h {
                            assert(k == 0);
                        }
                    }
                }
                assert(level_v(s_now, lv) =~= level_v(s_pre, lv).update(
                    0,
                    (o.id, (hq - trade) as u32),
                ));
                assert(book_v(s_now, *opp) =~= bv_pre.update(
                    bpos as int,
                    (lv.price, bv_pre[bpos as int].1.update(0, (o.id, (hq - trade) as u32))),
                ));
                assert(book_wf(s_now, *opp));
                assert(free_book_disjoint(arena.free@, *opp));
                assert(arena.slots@[h as int] == o2);
                // One unfolding of the model's crossing step: the incoming
                // order is filled, matching stops.
                let bv_now = book_v(arena.slots@, *opp);
                let c_next = cross(bv_now, incoming_buy, limit, remaining);
                let c_pre = cross(bv_pre, incoming_buy, limit, rem_pre);
                assert(remaining == 0);
                assert(c_pre.book == bv_now);
                assert(c_pre.events =~= seq![ev]);
                assert(events@ =~= events_pre + seq![ev]);
                assert(events@ + c_next.events =~= events_pre + c_pre.events);
            }
        }
    }
    proof {
        let c_end = cross(book_v(arena.slots@, *opp), incoming_buy, limit, remaining);
        assert(c_end.book == book_v(arena.slots@, *opp));
        assert(events@ + c_end.events =~= events@);
    }
    (remaining, events)
}

} // verus!
