use matching_engine::LogEvent;
use matching_engine::MatchingEngine;
use matching_engine::OrderType;

fn drain(rx: &crossbeam_channel::Receiver<LogEvent>) -> Vec<LogEvent> {
    let mut out = Vec::new();
    while let Ok(ev) = rx.try_recv() {
        out.push(ev);
    }
    out
}

#[test]
fn fresh_engine_is_empty() {
    let (tx, rx) = crossbeam_channel::bounded::<LogEvent>(4);
    let engine = MatchingEngine::new(tx);
    assert!(engine.side_snapshot(true).is_empty());
    assert!(engine.side_snapshot(false).is_empty());
    assert_eq!(engine.arena_slots(), 0);
    assert_eq!(engine.arena_free(), 0);
    assert_eq!(engine.dropped_events, 0);
    assert_eq!(engine.buy_orders_count, 0);
    assert_eq!(engine.sell_orders_count, 0);
    // construction sends no event
    assert!(rx.try_recv().is_err());
}

#[test]
fn scenario_full_match_empties_books() {
    let (tx, rx) = crossbeam_channel::bounded::<LogEvent>(64);
    let mut engine = MatchingEngine::new(tx);

    engine.buy_order(10, 100);
    let after_buy = drain(&rx);
    assert_eq!(
        after_buy,
        vec![LogEvent::OrderPlaced { id: 1, quantity: 10, price: 100, order_type: OrderType::Buy }]
    );

    engine.sell_order(10, 100);
    let after_sell = drain(&rx);
    // The sell is fully matched immediately: exactly one execution report
    // and no placement for it.
    assert_eq!(
        after_sell,
        vec![LogEvent::OrderExecuted { price: 100, qty: 10, order_type: OrderType::Sell }]
    );

    assert!(engine.side_snapshot(true).is_empty());
    assert!(engine.side_snapshot(false).is_empty());
}

#[test]
fn scenario_partial_match_rests_remainder() {
    let (tx, rx) = crossbeam_channel::bounded::<LogEvent>(64);
    let mut engine = MatchingEngine::new(tx);

    engine.sell_order(5, 99);
    engine.sell_order(5, 101);
    drain(&rx);

    engine.buy_order(12, 101);
    let events = drain(&rx);
    assert_eq!(
        events,
        vec![
            LogEvent::OrderExecuted { price: 99, qty: 5, order_type: OrderType::Buy },
            LogEvent::OrderExecuted { price: 101, qty: 5, order_type: OrderType::Buy },
            LogEvent::OrderPlaced { id: 1, quantity: 2, price: 101, order_type: OrderType::Buy },
        ]
    );

    let buys = engine.side_snapshot(true);
    assert_eq!(buys.len(), 1);
    assert_eq!(buys[0].0, 101);
    assert_eq!(buys[0].1, vec![(1, 2)]);
    assert!(engine.side_snapshot(false).is_empty());
}

#[test]
fn scenario_recycled_slot_leaves_other_orders_intact() {
    let (tx, rx) = crossbeam_channel::bounded::<LogEvent>(64);
    let mut engine = MatchingEngine::new(tx);

    engine.sell_order(5, 10);
    engine.sell_order(7, 20);
    assert_eq!(engine.arena_slots(), 2);
    assert_eq!(engine.arena_free(), 0);

    // Fully fill the first resting order: its slot goes to the free list.
    engine.buy_order(5, 10);
    assert_eq!(engine.arena_slots(), 2);
    assert_eq!(engine.arena_free(), 1);

    // A new resting order reuses the recycled slot without growing the
    // arena, and the still-resting order is untouched.
    engine.sell_order(3, 30);
    assert_eq!(engine.arena_slots(), 2);
    assert_eq!(engine.arena_free(), 0);

    let sells = engine.side_snapshot(false);
    assert_eq!(sells.len(), 2);
    assert_eq!(sells[0], (20, vec![(2, 7)]));
    assert_eq!(sells[1], (30, vec![(3, 3)]));
    drain(&rx);
}

#[test]
fn zero_quantity_is_a_no_op() {
    let (tx, rx) = crossbeam_channel::bounded::<LogEvent>(64);
    let mut engine = MatchingEngine::new(tx);

    engine.buy_order(0, 100);
    engine.sell_order(0, 50);

    assert!(drain(&rx).is_empty());
    assert!(engine.side_snapshot(true).is_empty());
    assert!(engine.side_snapshot(false).is_empty());
    assert_eq!(engine.buy_orders_count, 0);
    assert_eq!(engine.sell_orders_count, 0);

    // A zero-quantity intent neither matches nor rests even when liquidity
    // is available on the other side.
    engine.sell_order(4, 100);
    drain(&rx);
    engine.buy_order(0, 100);
    assert!(drain(&rx).is_empty());
    assert_eq!(engine.side_snapshot(false), vec![(100, vec![(1, 4)])]);
}

#[test]
fn fifo_within_price_level() {
    let (tx, rx) = crossbeam_channel::bounded::<LogEvent>(64);
    let mut engine = MatchingEngine::new(tx);

    // Three same-price orders with distinct identities (and quantities as
    // markers): they must fill in the order they were appended.
    engine.sell_order(1, 50);
    engine.sell_order(2, 50);
    engine.sell_order(3, 50);
    drain(&rx);

    engine.buy_order(1, 50);
    assert_eq!(
        drain(&rx),
        vec![LogEvent::OrderExecuted { price: 50, qty: 1, order_type: OrderType::Buy }]
    );
    // The first order left; the second and third rest in order.
    assert_eq!(engine.side_snapshot(false), vec![(50, vec![(2, 2), (3, 3)])]);

    engine.buy_order(2, 50);
    assert_eq!(
        drain(&rx),
        vec![LogEvent::OrderExecuted { price: 50, qty: 2, order_type: OrderType::Buy }]
    );
    assert_eq!(engine.side_snapshot(false), vec![(50, vec![(3, 3)])]);

    engine.buy_order(3, 50);
    assert_eq!(
        drain(&rx),
        vec![LogEvent::OrderExecuted { price: 50, qty: 3, order_type: OrderType::Buy }]
    );
    assert!(engine.side_snapshot(false).is_empty());
}

#[test]
fn price_priority_no_match_above_buy_limit() {
    let (tx, rx) = crossbeam_channel::bounded::<LogEvent>(64);
    let mut engine = MatchingEngine::new(tx);

    engine.sell_order(5, 105);
    drain(&rx);

    // The only sell level is above the buy's limit: no execution, the buy
    // rests in full.
    engine.buy_order(10, 100);
    let events = drain(&rx);
    assert_eq!(
        events,
        vec![LogEvent::OrderPlaced { id: 1, quantity: 10, price: 100, order_type: OrderType::Buy }]
    );
    assert_eq!(engine.side_snapshot(true), vec![(100, vec![(1, 10)])]);
    assert_eq!(engine.side_snapshot(false), vec![(105, vec![(1, 5)])]);

    // A sell above all buy limits rests as well.
    engine.sell_order(3, 102);
    let events = drain(&rx);
    assert_eq!(
        events,
        vec![LogEvent::OrderPlaced { id: 2, quantity: 3, price: 102, order_type: OrderType::Sell }]
    );
}

#[test]
fn buy_matches_at_its_own_limit_price() {
    let (tx, rx) = crossbeam_channel::bounded::<LogEvent>(64);
    let mut engine = MatchingEngine::new(tx);

    engine.sell_order(5, 100);
    drain(&rx);
    // Boundary: an order may match at exactly its limit price.
    engine.buy_order(5, 100);
    assert_eq!(
        drain(&rx),
        vec![LogEvent::OrderExecuted { price: 100, qty: 5, order_type: OrderType::Buy }]
    );
    assert!(engine.side_snapshot(true).is_empty());
    assert!(engine.side_snapshot(false).is_empty());
}

#[test]
fn conservation_of_quantity_concrete() {
    let (tx, rx) = crossbeam_channel::bounded::<LogEvent>(256);
    let mut engine = MatchingEngine::new(tx);

    let intents: Vec<(bool, u32, u64)> = vec![
        (true, 10, 100),
        (false, 4, 90),
        (false, 8, 100),
        (true, 3, 95),
        (false, 0, 80),
        (true, 7, 101),
    ];
    let submitted: u64 = intents.iter().map(|i| i.1 as u64).sum();
    engine.apply_batch(&intents);

    let events = drain(&rx);
    let executed: u64 = events
        .iter()
        .map(|ev| match ev {
            LogEvent::OrderExecuted { qty, .. } => *qty as u64,
            LogEvent::OrderPlaced { .. } => 0,
        })
        .sum();
    let resting: u64 = [true, false]
        .iter()
        .map(|side| {
            engine
                .side_snapshot(*side)
                .iter()
                .map(|lv| lv.1.iter().map(|o| o.1 as u64).sum::<u64>())
                .sum::<u64>()
        })
        .sum();
    // Each execution event settles quantity from the incoming order and
    // from a resting order at once.
    assert_eq!(resting + 2 * executed, submitted);
}

#[test]
fn replay_is_deterministic() {
    let intents: Vec<(bool, u32, u64)> = vec![
        (false, 5, 99),
        (false, 5, 101),
        (true, 12, 101),
        (true, 4, 98),
        (false, 9, 97),
        (true, 1, 97),
    ];

    let (tx1, rx1) = crossbeam_channel::bounded::<LogEvent>(256);
    let mut e1 = MatchingEngine::new(tx1);
    e1.apply_batch(&intents);

    let (tx2, rx2) = crossbeam_channel::bounded::<LogEvent>(256);
    let mut e2 = MatchingEngine::new(tx2);
    for it in intents.iter() {
        e2.submit_order(it.0, it.1, it.2);
    }

    assert_eq!(e1.side_snapshot(true), e2.side_snapshot(true));
    assert_eq!(e1.side_snapshot(false), e2.side_snapshot(false));
    assert_eq!(drain(&rx1), drain(&rx2));
    assert_eq!(e1.buy_orders_count, e2.buy_orders_count);
    assert_eq!(e1.sell_orders_count, e2.sell_orders_count);
}

#[test]
fn full_event_channel_never_stalls_matching() {
    // Capacity 1 and no consumer: most sends are refused; matching must
    // still complete correctly, counting the dropped events.
    let (tx, rx) = crossbeam_channel::bounded::<LogEvent>(1);
    let mut engine = MatchingEngine::new(tx);

    engine.buy_order(10, 100);
    engine.sell_order(4, 100);
    engine.sell_order(6, 100);

    assert!(engine.side_snapshot(true).is_empty());
    assert!(engine.side_snapshot(false).is_empty());
    assert_eq!(engine.dropped_events, 2);
    assert_eq!(
        drain(&rx),
        vec![LogEvent::OrderPlaced { id: 1, quantity: 10, price: 100, order_type: OrderType::Buy }]
    );
}
