//! The order book index for one side: an ordered sequence of price levels,
//! each holding the head and tail arena indices of a singly linked FIFO
//! queue of resting orders.
//!
//! A level also carries, as ghost state, the exact sequence of arena
//! indices of its queue; the well-formedness predicates tie that sequence
//! to the `next` links in the arena, and the view functions read it to give
//! every level a mathematical FIFO queue.

use vstd::prelude::*;

use crate::arena::OrderArena;
use crate::model::BookV;
use crate::model::OrderV;

verus! {

/// One price level: all resting orders of one price, in FIFO order.
/// `head` and `tail` are non-owning arena indices; `idxs` is the ghost
/// sequence of all arena indices of the queue, head first.
#[derive(Clone, Copy)]
pub struct PriceLevel {
    pub price: u64,
    pub head: usize,
    pub tail: usize,
    pub idxs: Ghost<Seq<usize>>,
}

/// One side of the book: price levels in strictly ascending price order.
pub struct BookSide {
    pub levels: Vec<PriceLevel>,
}

/// The queue of a level as the model sees it: `(id, quantity)` per order,
/// head first.
pub open spec fn level_v(slots: Seq<crate::order::Order>, lv: PriceLevel) -> Seq<OrderV> {
    lv.idxs@.map_values(|i: usize| (slots[i as int].id, slots[i as int].quantity))
}

/// The whole side as the model sees it.
pub open spec fn book_v(slots: Seq<crate::order::Order>, bk: BookSide) -> BookV {
    bk.levels@.map_values(|lv: PriceLevel| (lv.price, level_v(slots, lv)))
}

/// A level is well formed: its ghost index sequence is non-empty and
/// duplicate-free, starts at `head`, ends at `tail`, addresses existing
/// arena slots whose `next` links chain them in exactly that order, and
/// every member rests at this level's price with a positive quantity.
pub open spec fn level_wf(slots: Seq<crate::order::Order>, lv: PriceLevel) -> bool {
    let ix = lv.idxs@;
    &&& ix.len() > 0
    &&& ix.no_duplicates()
    &&& lv.head == ix[0]
    &&& lv.tail == ix[ix.len() - 1]
    &&& forall|k: int| 0 <= k < ix.len() ==> (#[trigger] ix[k]) < slots.len()
    &&& forall|k: int|
        0 <= k < ix.len() - 1 ==> slots[#[trigger] ix[k] as int].next == Some(ix[k + 1])
    &&& slots[lv.tail as int].next is None
    &&& forall|k: int| 0 <= k < ix.len() ==> slots[#[trigger] ix[k] as int].quantity > 0
    &&& forall|k: int| 0 <= k < ix.len() ==> slots[#[trigger] ix[k] as int].price == lv.price
}

/// Index `j` rests somewhere in this side of the book.
pub open spec fn book_contains_idx(bk: BookSide, j: usize) -> bool {
    exists|i: int, k: int|
        0 <= i < bk.levels@.len() && 0 <= k < bk.levels@[i].idxs@.len()
            && (#[trigger] bk.levels@[i].idxs@[k]) == j
}

/// One side of the book is well formed: every level is, prices ascend
/// strictly, and no arena slot appears in two levels.
pub open spec fn book_wf(slots: Seq<crate::order::Order>, bk: BookSide) -> bool {
    &&& forall|i: int| 0 <= i < bk.levels@.len() ==> level_wf(slots, #[trigger] bk.levels@[i])
    &&& forall|i: int, j: int|
        0 <= i < j < bk.levels@.len() ==> (#[trigger] bk.levels@[i]).price < (
        #[trigger] bk.levels@[j]).price
    &&& forall|i: int, j: int, k: int, l: int|
        0 <= i < bk.levels@.len() && 0 <= j < bk.levels@.len() && i != j
            && 0 <= k < bk.levels@[i].idxs@.len() && 0 <= l < bk.levels@[j].idxs@.len()
            ==> (#[trigger] bk.levels@[i].idxs@[k]) != (#[trigger] bk.levels@[j].idxs@[l])
}

/// No free-list entry rests in this side of the book.
pub open spec fn free_book_disjoint(free: Seq<usize>, bk: BookSide) -> bool {
    forall|k: int| 0 <= k < free.len() ==> !book_contains_idx(bk, #[trigger] free[k])
}

/// No arena slot rests in both sides at once.
pub open spec fn books_disjoint(b1: BookSide, b2: BookSide) -> bool {
    forall|j: usize| #[trigger] book_contains_idx(b1, j) ==> !book_contains_idx(b2, j)
}

/// Two arenas agree on every slot a level references: the level stays well
/// formed and its view is unchanged.
pub proof fn lemma_level_agree(
    s1: Seq<crate::order::Order>,
    s2: Seq<crate::order::Order>,
    lv: PriceLevel,
)
    requires
        level_wf(s1, lv),
        forall|k: int|
            0 <= k < lv.idxs@.len() ==> (#[trigger] lv.idxs@[k]) < s2.len()
                && s2[lv.idxs@[k] as int] == s1[lv.idxs@[k] as int],
    ensures
        level_wf(s2, lv),
        level_v(s2, lv) == level_v(s1, lv),
{
    assert(level_v(s2, lv) =~= level_v(s1, lv));
}

/// Two arenas agree on every slot a whole side references: the side stays
/// well formed and its view is unchanged.
pub proof fn lemma_book_agree(
    s1: Seq<crate::order::Order>,
    s2: Seq<crate::order::Order>,
    bk: BookSide,
)
    requires
        book_wf(s1, bk),
        forall|j: usize|
            #[trigger] book_contains_idx(bk, j) ==> (j as int) < s2.len()
                && s2[j as int] == s1[j as int],
    ensures
        book_wf(s2, bk),
        book_v(s2, bk) == book_v(s1, bk),
{
    assert forall|i: int| 0 <= i < bk.levels@.len() implies level_wf(s2, #[trigger] bk.levels@[i])
        && level_v(s2, bk.levels@[i]) == level_v(s1, bk.levels@[i]) by {
        let lv = bk.levels@[i];
        assert forall|k: int| 0 <= k < lv.idxs@.len() implies (#[trigger] lv.idxs@[k]) < s2.len()
            && s2[lv.idxs@[k] as int] == s1[lv.idxs@[k] as int] by {
            assert(book_contains_idx(bk, lv.idxs@[k]));
        }
        lemma_level_agree(s1, s2, lv);
    }
    assert(book_v(s2, bk) =~= book_v(s1, bk));
}

/// `book_insert` at a price already present appends at that level's tail.
pub proof fn lemma_book_insert_found(bv: BookV, price: u64, ord: OrderV, pos: int)
    requires
        0 <= pos < bv.len(),
        bv[pos].0 == price,
        forall|i: int| 0 <= i < pos ==> (#[trigger] bv[i]).0 < price,
    ensures
        crate::model::book_insert(bv, price, ord) == bv.update(pos, (price, bv[pos].1.push(ord))),
    decreases pos,
{
    if pos == 0 {
        assert(crate::model::book_insert(bv, price, ord) =~= bv.update(
            0,
            (price, bv[0].1.push(ord)),
        ));
    } else {
        assert(bv[0].0 < price);
        let tail = bv.drop_first();
        assert forall|i: int| 0 <= i < pos - 1 implies (#[trigger] tail[i]).0 < price by {
            assert(tail[i] == bv[i + 1]);
        }
        lemma_book_insert_found(tail, price, ord, pos - 1);
        assert(seq![bv.first()] + tail.update(pos - 1, (price, bv[pos].1.push(ord))) =~= bv.update(
            pos,
            (price, bv[pos].1.push(ord)),
        ));
    }
}

/// `book_insert` at an absent price opens a new level at the sorted position.
pub proof fn lemma_book_insert_absent(bv: BookV, price: u64, ord: OrderV, pos: int)
    requires
        0 <= pos <= bv.len(),
        forall|i: int| 0 <= i < pos ==> (#[trigger] bv[i]).0 < price,
        pos < bv.len() ==> bv[pos].0 > price,
    ensures
        crate::model::book_insert(bv, price, ord) == bv.insert(pos, (price, seq![ord])),
    decreases pos,
{
    if pos == 0 {
        if bv.len() == 0 {
            assert(crate::model::book_insert(bv, price, ord) =~= bv.insert(0, (price, seq![ord])));
        } else {
            assert(bv[0].0 > price);
            assert(seq![(price, seq![ord])] + bv =~= bv.insert(0, (price, seq![ord])));
        }
    } else {
        assert(bv[0].0 < price);
        let tail = bv.drop_first();
        assert forall|i: int| 0 <= i < pos - 1 implies (#[trigger] tail[i]).0 < price by {
            assert(tail[i] == bv[i + 1]);
        }
        lemma_book_insert_absent(tail, price, ord, pos - 1);
        assert(seq![bv.first()] + tail.insert(pos - 1, (price, seq![ord])) =~= bv.insert(
            pos,
            (price, seq![ord]),
        ));
    }
}

/// Append the order in arena slot `idx` at the tail of the queue of `price`,
/// creating the level at its sorted position if absent. The slot must
/// already hold the resting order, unlinked (`next` is `None`), with a
/// positive quantity and the level's price.
#[verifier::loop_isolation(false)]
#[verifier::rlimit(60)]
pub fn book_append(bk: &mut BookSide, arena: &mut OrderArena, price: u64, idx: usize)
    requires
        book_wf(old(arena).slots@, *old(bk)),
        idx < old(arena).slots@.len(),
        !book_contains_idx(*old(bk), idx),
        old(arena).slots@[idx as int].next is None,
        old(arena).slots@[idx as int].quantity > 0,
        old(arena).slots@[idx as int].price == price,
    ensures
        book_wf(final(arena).slots@, *final(bk)),
        final(arena).free@ == old(arena).free@,
        final(arena).slots@.len() == old(arena).slots@.len(),
        forall|j: int|
            0 <= j < final(arena).slots@.len() && !book_contains_idx(*old(bk), j as usize)
                ==> final(arena).slots@[j] == old(arena).slots@[j],
        forall|j: usize|
            #[trigger] book_contains_idx(*final(bk), j) ==> book_contains_idx(*old(bk), j) || j
                == idx,
        book_v(final(arena).slots@, *final(bk)) == crate::model::book_insert(
            book_v(old(arena).slots@, *old(bk)),
            price,
            (old(arena).slots@[idx as int].id, old(arena).slots@[idx as int].quantity),
        ),
{
    let ghost s0 = arena.slots@;
    let ghost bk0 = *bk;
    let ghost bv0 = book_v(s0, *bk);
    let ghost ord: OrderV = (s0[idx as int].id, s0[idx as int].quantity);
    let mut pos: usize = 0;
    while pos < bk.levels.len() && bk.levels[pos].price < price
        invariant
            pos <= bk.levels@.len(),
            forall|i: int| 0 <= i < pos ==> (#[trigger] bk.levels@[i]).price < price,
        decreases bk.levels@.len() - pos,
    {
        pos += 1;
    }
    if pos < bk.levels.len() && bk.levels[pos].price == price {
        // The level exists: link the old tail to `idx` and extend the level.
        let lv = bk.levels[pos];
        let t = lv.tail;
        proof {
            assert(level_wf(s0, lv));
            assert(lv.idxs@[lv.idxs@.len() - 1] == t);
            assert(book_contains_idx(bk0, t));
            assert(t != idx);
            assert forall|k: int| 0 <= k < lv.idxs@.len() implies (#[trigger] lv.idxs@[k])
                != idx by {
                assert(book_contains_idx(bk0, lv.idxs@[k]));
            }
        }
        let mut o = arena.slots[t];
        o.next = Some(idx);
        arena.slots.set(t, o);
        let mut lvl2 = lv;
        lvl2.tail = idx;
        lvl2.idxs = Ghost(lv.idxs@.push(idx));
        bk.levels.set(pos, lvl2);
        proof {
            let s1 = arena.slots@;
            let ix = lv.idxs@;
            let ix2 = lvl2.idxs@;
            assert forall|k: int, l: int|
                0 <= k < ix2.len() && 0 <= l < ix2.len() && k != l implies ix2[k] != ix2[l] by {
                if k < ix.len() && l < ix.len() {
                    assert(ix[k] != ix[l]);
                }
            }
            assert(ix2.no_duplicates());
            assert forall|k: int| 0 <= k < ix2.len() - 1 implies slots_next(s1, ix2[k]) == Some(
                ix2[k + 1],
            ) by {
                if k < ix.len() - 1 {
                    assert(ix2[k] == ix[k] && ix2[k] != t);
                    assert(s1[ix2[k] as int] == s0[ix2[k] as int]);
                } else {
                    assert(ix2[k] == t);
                }
            }
            assert(level_wf(s1, lvl2));
            // every other level is untouched
            assert forall|i: int|
                0 <= i < bk.levels@.len() && i != pos implies level_wf(
                s1,
                #[trigger] bk.levels@[i],
            ) && level_v(s1, bk.levels@[i]) == level_v(s0, bk.levels@[i]) by {
                let lvi = bk0.levels@[i];
                assert(bk.levels@[i] == lvi);
                assert forall|k: int| 0 <= k < lvi.idxs@.len() implies (#[trigger] lvi.idxs@[k])
                    < s1.len() && s1[lvi.idxs@[k] as int] == s0[lvi.idxs@[k] as int] by {
                    assert(lvi.idxs@[k] != t);
                }
                lemma_level_agree(s0, s1, lvi);
            }
            assert(book_wf(s1, *bk));
            // the view grew by one order at the tail of level `pos`
            assert(level_v(s1, lvl2) =~= level_v(s0, lv).push(ord));
            assert(book_v(s1, *bk) =~= bv0.update(pos as int, (price, bv0[pos as int].1.push(ord))));
            lemma_book_insert_found(bv0, price, ord, pos as int);
            assert forall|j: usize| #[trigger] book_contains_idx(*bk, j) implies book_contains_idx(
                bk0,
                j,
            ) || j == idx by {
                let (i, k) = choose|i: int, k: int|
                    0 <= i < bk.levels@.len() && 0 <= k < bk.levels@[i].idxs@.len()
                        && bk.levels@[i].idxs@[k] == j;
                if i == pos && k == ix.len() {
                } else if i == pos {
                    assert(bk0.levels@[i].idxs@[k] == j);
                } else {
                    assert(bk0.levels@[i].idxs@[k] == j);
                }
            }
        }
    } else {
        // No such level yet: open one at the sorted position.
        let ghost gix: Seq<usize> = seq![idx];
        let lvl = PriceLevel { price, head: idx, tail: idx, idxs: Ghost(gix) };
        bk.levels.insert(pos, lvl);
        proof {
            let s1 = arena.slots@;
            assert(s1 == s0);
            assert(level_wf(s1, lvl));
            assert forall|i: int, j: int|
                0 <= i < j < bk.levels@.len() implies (#[trigger] bk.levels@[i]).price < (
            #[trigger] bk.levels@[j]).price by {
                if i < pos && j == pos {
                } else if i == pos && j > pos {
                    assert(bk0.levels@[j - 1].price >= price);
                    assert(bk0.levels@[j - 1].price != price || j - 1 < pos);
                } else if j < pos || i > pos {
                    assert(bk0.levels@[if i < pos { i } else { i - 1 }].price < bk0.levels@[if j
                        < pos {
                        j
                    } else {
                        j - 1
                    }].price);
                } else {
                    assert(bk0.levels@[i].price < bk0.levels@[j - 1].price);
                }
            }
            assert forall|j: usize| #[trigger] book_contains_idx(*bk, j) implies book_contains_idx(
                bk0,
                j,
            ) || j == idx by {
                let (i, k) = choose|i: int, k: int|
                    0 <= i < bk.levels@.len() && 0 <= k < bk.levels@[i].idxs@.len()
                        && bk.levels@[i].idxs@[k] == j;
                if i < pos {
                    assert(bk0.levels@[i].idxs@[k] == j);
                } else if i > pos {
                    assert(bk0.levels@[i - 1].idxs@[k] == j);
                }
            }
            assert forall|i: int, j: int, k: int, l: int|
                0 <= i < bk.levels@.len() && 0 <= j < bk.levels@.len() && i != j && 0 <= k
                    < bk.levels@[i].idxs@.len() && 0 <= l < bk.levels@[j].idxs@.len() implies (
            #[trigger] bk.levels@[i].idxs@[k]) != (#[trigger] bk.levels@[j].idxs@[l]) by {
                let oi = if i < pos { i } else { i - 1 };
                let oj = if j < pos { j } else { j - 1 };
                if i == pos {
                    assert(book_contains_idx(bk0, bk.levels@[j].idxs@[l]));
                } else if j == pos {
                    assert(book_contains_idx(bk0, bk.levels@[i].idxs@[k]));
                } else {
                    assert(bk0.levels@[oi].idxs@[k] != bk0.levels@[oj].idxs@[l]);
                }
            }
            assert(book_wf(s1, *bk));
            assert(level_v(s1, lvl) =~= seq![ord]);
            assert(book_v(s1, *bk) =~= bv0.insert(pos as int, (price, seq![ord])));
            assert(pos < bv0.len() ==> bv0[pos as int].0 > price);
            lemma_book_insert_absent(bv0, price, ord, pos as int);
        }
    }
}

/// The `next` link of slot `j`, read through the view; a helper for stating
/// link facts about one slot at a time.
pub open spec fn slots_next(slots: Seq<crate::order::Order>, j: usize) -> Option<usize> {
    slots[j as int].next
}

/// A well-formed side reads back, through its view, as a sorted book of
/// non-empty queues of positive quantities: the validity premises of the
/// laws hold of every reachable engine state.
pub proof fn lemma_book_wf_view(slots: Seq<crate::order::Order>, bk: BookSide)
    requires
        book_wf(slots, bk),
    ensures
        crate::model::book_sorted(book_v(slots, bk)),
        crate::model::book_queues_wf(book_v(slots, bk)),
{
    let bv = book_v(slots, bk);
    assert forall|i: int, j: int| 0 <= i < j < bv.len() implies bv[i].0 < bv[j].0 by {
        assert(bv[i].0 == bk.levels@[i].price && bv[j].0 == bk.levels@[j].price);
    }
    assert forall|i: int| 0 <= i < bv.len() implies (#[trigger] bv[i]).1.len() > 0 && (forall|
        k: int,
    | 0 <= k < bv[i].1.len() ==> (#[trigger] bv[i].1[k]).1 > 0) by {
        let lv = bk.levels@[i];
        assert(level_wf(slots, lv));
        assert(bv[i].1 == level_v(slots, lv));
        assert forall|k: int| 0 <= k < bv[i].1.len() implies (#[trigger] bv[i].1[k]).1 > 0 by {
            assert(bv[i].1[k] == (slots[lv.idxs@[k] as int].id, slots[lv.idxs@[k] as int].quantity));
        }
    }
}

} // verus!
