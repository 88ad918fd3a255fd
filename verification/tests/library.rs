use omnibook::audit::Audit;
use omnibook::book::{FastBook, MAX_TICKS};
use omnibook::reference::Reference;
use omnibook::types::{
    rests, CancelReason, Command, Config, Engine, Envelope, Event, OrderId, OrderKind, Price, Qty,
    RejectReason, Side, Tif,
};
use omnibook::legacy::{process_order, Order as LegacyOrder, OrderBook, Side as LSide};
use omnibook::workload::{Op, Rng, Workload};

fn cfg() -> Config {
    Config {
        max_order_qty: Qty(100),
        ..Config::binary_cents(8)
    }
}

fn env(req: u64, account: u32, cmd: Command) -> Envelope {
    Envelope {
        req,
        ts: 1000 + req,
        account,
        cmd,
    }
}

fn gtc(side: Side, price: u16, qty: u32) -> Command {
    Command::New {
        side,
        qty: Qty(qty),
        kind: OrderKind::Limit {
            price: Price(price),
            tif: Tif::Gtc,
        },
    }
}

fn run<E: Engine>(engine: &mut E, e: &Envelope) -> Vec<Event> {
    let mut out = Vec::new();
    engine.process(e, &mut out);
    out
}

#[test]
fn order_id_packs_generation_high_and_slot_low() {
    let id = OrderId::new(5, 3);
    assert_eq!(id.0, (3u64 << 32) | 5);
    assert_eq!(id.slot(), 5);
    assert_eq!(id.generation(), 3);
    let top = OrderId::new(u32::MAX, u32::MAX);
    assert_eq!(top.0, u64::MAX);
    assert_eq!(top.slot(), u32::MAX);
    assert_eq!(top.generation(), u32::MAX);
}

#[test]
fn sides_and_crossing() {
    assert_eq!(Side::Buy.opposite(), Side::Sell);
    assert_eq!(Side::Sell.opposite(), Side::Buy);
    assert!(Side::Buy.crosses(Price(50), Price(50)));
    assert!(Side::Buy.crosses(Price(50), Price(49)));
    assert!(!Side::Buy.crosses(Price(50), Price(51)));
    assert!(Side::Sell.crosses(Price(50), Price(50)));
    assert!(Side::Sell.crosses(Price(50), Price(51)));
    assert!(!Side::Sell.crosses(Price(50), Price(49)));
}

#[test]
fn binary_cents_configuration() {
    let c = Config::binary_cents(16);
    assert_eq!(c.min_tick, Price(1));
    assert_eq!(c.max_tick, Price(99));
    assert_eq!(c.max_order_qty, Qty(1_000_000));
    assert_eq!(c.capacity, 16);
    assert_eq!(c.generation_limit, u32::MAX);
    assert_eq!(c.validate(), Ok(()));
}

#[test]
fn validate_names_the_first_broken_rule() {
    let good = Config::binary_cents(4);
    let c = Config { min_tick: Price(0), ..good };
    assert_eq!(c.validate(), Err("min_tick must be >= 1"));
    let c = Config { min_tick: Price(60), max_tick: Price(50), ..good };
    assert_eq!(c.validate(), Err("min_tick must be <= max_tick"));
    let c = Config { max_order_qty: Qty(0), ..good };
    assert_eq!(c.validate(), Err("max_order_qty must be >= 1"));
    let c = Config { capacity: 0, ..good };
    assert_eq!(
        c.validate(),
        Err("capacity must be in 1..u32::MAX (u32::MAX is the NIL index)")
    );
    let c = Config { capacity: u32::MAX, ..good };
    assert_eq!(
        c.validate(),
        Err("capacity must be in 1..u32::MAX (u32::MAX is the NIL index)")
    );
    let c = Config { generation_limit: 0, ..good };
    assert_eq!(c.validate(), Err("generation_limit must be >= 1"));
    let c = Config { min_tick: Price(0), max_order_qty: Qty(0), ..good };
    assert_eq!(c.validate(), Err("min_tick must be >= 1"));
}

#[test]
fn price_qty_and_limit_rules() {
    let c = Config::binary_cents(4);
    assert!(!c.price_ok(Price(0)));
    assert!(c.price_ok(Price(1)));
    assert!(c.price_ok(Price(99)));
    assert!(!c.price_ok(Price(100)));
    assert!(!c.qty_ok(Qty(0)));
    assert!(c.qty_ok(Qty(1_000_000)));
    assert!(!c.qty_ok(Qty(1_000_001)));
    let market = OrderKind::Market { protection: None };
    assert_eq!(c.limit_of(Side::Buy, market), Price(99));
    assert_eq!(c.limit_of(Side::Sell, market), Price(1));
    let guarded = OrderKind::Market { protection: Some(Price(60)) };
    assert_eq!(c.limit_of(Side::Buy, guarded), Price(60));
    let post = OrderKind::PostOnly { price: Price(42) };
    assert_eq!(c.limit_of(Side::Sell, post), Price(42));
    assert!(rests(OrderKind::Limit { price: Price(5), tif: Tif::Gtc }));
    assert!(!rests(OrderKind::Limit { price: Price(5), tif: Tif::Ioc }));
    assert!(rests(post));
    assert!(!rests(market));
}

#[test]
fn rng_is_xorshift64_star() {
    let mut r = Rng::new(1);
    assert_eq!(r.next_u64(), 0x47e4_ce4b_896c_dd1d);
    assert_eq!(r.next_u64(), 0xabcf_a6a8_e079_651d);
    let mut zero = Rng::new(0);
    let mut one = Rng::new(1);
    assert_eq!(zero.next_u64(), one.next_u64());
    let mut r = Rng::new(1);
    assert_eq!(r.below(100), 65);
    assert_eq!(r.range(10, 19), 17);
    let mut r = Rng::new(42);
    assert_eq!(r.below(7), 5);
}

#[test]
fn rng_helpers_stay_in_range() {
    let mut r = Rng::new(7);
    for _ in 0..10_000 {
        assert!(r.below(3) < 3);
        let x = r.range(5, 9);
        assert!((5..=9).contains(&x));
        assert!(r.geometric(8) <= 8);
    }
    let mut r = Rng::new(1);
    assert_eq!(r.geometric(8), 0);
}

#[test]
fn classify_names_each_operation() {
    let new_env = |kind| env(1, 1, Command::New { side: Side::Buy, qty: Qty(5), kind });
    let gtc_kind = OrderKind::Limit { price: Price(50), tif: Tif::Gtc };
    let rested = [Event::Rested { req: 1, id: OrderId(1), qty: Qty(5) }];
    let rejected = [Event::Rejected { req: 1, reason: RejectReason::BookFull }];
    let traded = [
        Event::Trade {
            taker_req: 1,
            taker_side: Side::Buy,
            maker_id: OrderId(2),
            price: Price(50),
            qty: Qty(5),
            maker_remaining: Qty(0),
            ts: 1001,
        },
        Event::MakerFilled { id: OrderId(2) },
        Event::Filled { req: 1 },
    ];
    assert_eq!(Op::classify(&new_env(gtc_kind), &rested), Op::GtcRest);
    assert_eq!(Op::classify(&new_env(gtc_kind), &traded), Op::GtcMatch);
    assert_eq!(Op::classify(&new_env(gtc_kind), &rejected), Op::OtherReject);
    let ioc_kind = OrderKind::Limit { price: Price(50), tif: Tif::Ioc };
    assert_eq!(Op::classify(&new_env(ioc_kind), &traded), Op::Ioc);
    let market = OrderKind::Market { protection: None };
    assert_eq!(Op::classify(&new_env(market), &traded), Op::Market);
    assert_eq!(Op::classify(&new_env(market), &rejected), Op::OtherReject);
    let post = OrderKind::PostOnly { price: Price(50) };
    assert_eq!(Op::classify(&new_env(post), &rested), Op::PostOnlyRest);
    assert_eq!(Op::classify(&new_env(post), &rejected), Op::PostOnlyReject);
    let cancel = env(2, 1, Command::Cancel { id: OrderId(1) });
    assert_eq!(Op::classify(&cancel, &rejected), Op::Cancel);
    let reduce = env(2, 1, Command::Reduce { id: OrderId(1), total_qty: Qty(1) });
    assert_eq!(Op::classify(&reduce, &rejected), Op::Reduce);
    let replace = env(
        2,
        1,
        Command::Replace { id: OrderId(1), price: Price(50), total_qty: Qty(1), post_only: false },
    );
    assert_eq!(Op::classify(&replace, &rejected), Op::Replace);
    assert_eq!(Op::ALL.len(), 10);
    assert_eq!(Op::ALL[0], Op::GtcRest);
    assert_eq!(Op::ALL[9], Op::OtherReject);
}

#[test]
fn workload_numbers_requests_and_tracks_what_rests() {
    let mut flow = Workload::new(3, 10);
    assert_eq!(flow.live_orders(), 0);
    assert_eq!(flow.accounts, 64);
    assert_eq!(flow.target_live, 10);
    let first = flow.next(None, None);
    assert_eq!(first.req, 1);
    assert_eq!(first.ts, 10);
    assert!(matches!(first.cmd, Command::New { .. }));
    let second = flow.next(None, None);
    assert_eq!(second.req, 2);
    assert_eq!(second.ts, 20);
    let new = env(3, 7, gtc(Side::Buy, 40, 5));
    flow.observe(&new, &[Event::Rested { req: 3, id: OrderId(11), qty: Qty(5) }]);
    assert_eq!(flow.live_orders(), 1);
    flow.observe(&new, &[Event::Rested { req: 3, id: OrderId(12), qty: Qty(5) }]);
    assert_eq!(flow.live_orders(), 2);
    let cancel = env(4, 7, Command::Cancel { id: OrderId(11) });
    flow.observe(
        &cancel,
        &[Event::Cancelled {
            req: 4,
            id: Some(OrderId(11)),
            qty: Qty(5),
            reason: CancelReason::User,
        }],
    );
    assert_eq!(flow.live_orders(), 1);
    flow.observe(&new, &[Event::MakerFilled { id: OrderId(12) }]);
    assert_eq!(flow.live_orders(), 0);
    flow.observe(&new, &[Event::MakerFilled { id: OrderId(99) }]);
    assert_eq!(flow.live_orders(), 0);
}

#[test]
fn workload_only_touches_orders_it_saw_rest() {
    let mut flow = Workload::new(9, 2);
    let mut engine = FastBook::new(Config {
        max_order_qty: Qty(1_000),
        ..Config::binary_cents(64)
    });
    let mut rested = std::collections::HashSet::new();
    for _ in 0..2_000 {
        let e = flow.next(engine.best_bid(), engine.best_ask());
        match e.cmd {
            Command::Cancel { id } | Command::Reduce { id, .. } | Command::Replace { id, .. } => {
                assert!(rested.contains(&id.0))
            }
            Command::New { qty, kind, .. } => {
                assert!((1..=40).contains(&qty.0));
                assert!(e.account < 64);
                match kind {
                    OrderKind::Limit { price, .. } | OrderKind::PostOnly { price } => {
                        assert!((1..=99).contains(&price.0))
                    }
                    OrderKind::Market { protection } => {
                        if let Some(p) = protection {
                            assert!((1..=99).contains(&p.0))
                        }
                    }
                }
            }
        }
        let out = run(&mut engine, &e);
        for ev in &out {
            if let Event::Rested { id, .. } = ev {
                rested.insert(id.0);
            }
        }
        flow.observe(&e, &out);
        assert_eq!(flow.live_orders(), engine.live_orders());
    }
}

#[test]
fn both_engines_agree_and_check_clean_on_a_generated_stream() {
    let c = Config {
        max_order_qty: Qty(1_000),
        generation_limit: 9,
        ..Config::binary_cents(32)
    };
    let mut reference = Reference::new(c);
    let mut fast = FastBook::new(c);
    let mut audit = Audit::new(c);
    let mut flow = Workload::new(5, 20);
    for _ in 0..5_000 {
        let e = flow.next(fast.best_bid(), fast.best_ask());
        let expected = run(&mut reference, &e);
        let actual = run(&mut fast, &e);
        assert_eq!(expected, actual);
        audit.check(&e, &actual).unwrap();
        reference.check_state().unwrap();
        fast.check_invariants().unwrap();
        assert_eq!(reference.live_orders(), fast.live_orders());
        assert_eq!(audit.live_orders(), fast.live_orders());
        assert_eq!(reference.retired_slots(), fast.retired_slots());
        flow.observe(&e, &actual);
    }
}

#[test]
fn fresh_engines_pass_their_checks() {
    let reference = Reference::new(cfg());
    assert_eq!(reference.check_state(), Ok(()));
    assert_eq!(reference.live_orders(), 0);
    assert_eq!(reference.free_slots(), 8);
    assert_eq!(reference.retired_slots(), 0);
    let fast = FastBook::new(cfg());
    assert_eq!(fast.check_invariants(), Ok(()));
    assert_eq!(fast.best_bid(), None);
    assert_eq!(fast.best_ask(), None);
    assert_eq!(fast.live_orders(), 0);
    assert_eq!(fast.retired_slots(), 0);
    assert_eq!(MAX_TICKS, 128);
}

#[test]
fn best_prices_follow_the_book() {
    let mut fast = FastBook::new(cfg());
    run(&mut fast, &env(1, 1, gtc(Side::Buy, 40, 5)));
    run(&mut fast, &env(2, 1, gtc(Side::Buy, 45, 5)));
    run(&mut fast, &env(3, 2, gtc(Side::Sell, 60, 5)));
    run(&mut fast, &env(4, 2, gtc(Side::Sell, 55, 5)));
    assert_eq!(fast.best_bid(), Some(Price(45)));
    assert_eq!(fast.best_ask(), Some(Price(55)));
    assert_eq!(fast.live_orders(), 4);
}

#[test]
fn quantity_is_conserved_by_a_new_order() {
    let mut b = Reference::new(cfg());
    run(&mut b, &env(1, 1, gtc(Side::Sell, 50, 3)));
    run(&mut b, &env(2, 1, gtc(Side::Sell, 51, 3)));
    let out = run(&mut b, &env(3, 2, gtc(Side::Buy, 51, 10)));
    let traded: u32 = out
        .iter()
        .map(|e| match e {
            Event::Trade { qty, .. } => qty.0,
            _ => 0,
        })
        .sum();
    let rested: u32 = out
        .iter()
        .map(|e| match e {
            Event::Rested { qty, .. } => qty.0,
            _ => 0,
        })
        .sum();
    assert_eq!(traded + rested, 10);
    assert_eq!(traded, 6);
    let trades = out.iter().filter(|e| matches!(e, Event::Trade { .. })).count();
    assert_eq!(trades, 2);
    assert!(trades <= 10);
}

#[test]
fn ioc_and_market_never_rest_and_trade_within_limit() {
    let mut b = FastBook::new(cfg());
    run(&mut b, &env(1, 1, gtc(Side::Sell, 50, 3)));
    run(&mut b, &env(2, 1, gtc(Side::Sell, 52, 3)));
    let ioc = Command::New {
        side: Side::Buy,
        qty: Qty(10),
        kind: OrderKind::Limit { price: Price(51), tif: Tif::Ioc },
    };
    let out = run(&mut b, &env(3, 2, ioc));
    assert!(out.iter().all(|e| !matches!(e, Event::Rested { .. })));
    assert!(out.iter().all(|e| match e {
        Event::Trade { price, .. } => price.0 <= 51,
        _ => true,
    }));
    assert_eq!(
        out.last(),
        Some(&Event::Cancelled { req: 3, id: None, qty: Qty(7), reason: CancelReason::Unfilled })
    );
    let market = Command::New {
        side: Side::Buy,
        qty: Qty(10),
        kind: OrderKind::Market { protection: None },
    };
    let out = run(&mut b, &env(4, 2, market));
    assert!(out.iter().all(|e| !matches!(e, Event::Rested { .. })));
    assert_eq!(b.best_ask(), None);
}

#[test]
fn post_only_never_trades() {
    let mut b = FastBook::new(cfg());
    run(&mut b, &env(1, 1, gtc(Side::Sell, 50, 3)));
    let post = Command::New {
        side: Side::Buy,
        qty: Qty(3),
        kind: OrderKind::PostOnly { price: Price(55) },
    };
    let out = run(&mut b, &env(2, 2, post));
    assert_eq!(
        out,
        [Event::Rejected { req: 2, reason: RejectReason::PostOnlyWouldCross }]
    );
    assert_eq!(b.live_orders(), 1);
}

#[test]
fn rejections_leave_the_reference_book_unchanged() {
    let mut b = Reference::new(cfg());
    run(&mut b, &env(1, 1, gtc(Side::Sell, 50, 3)));
    let before = b.clone();
    let out = run(&mut b, &env(2, 1, gtc(Side::Buy, 0, 3)));
    assert_eq!(out, [Event::Rejected { req: 2, reason: RejectReason::InvalidPrice }]);
    assert_eq!(before, b);
    let out = run(&mut b, &env(3, 9, Command::Cancel { id: OrderId(0) }));
    assert_eq!(out, [Event::Rejected { req: 3, reason: RejectReason::UnknownOrStaleId }]);
    assert_eq!(before, b);
    let big = Command::Reduce { id: OrderId::new(0, 1), total_qty: Qty(4) };
    let out = run(&mut b, &env(4, 1, big));
    assert_eq!(out, [Event::Rejected { req: 4, reason: RejectReason::InvalidChange }]);
    assert_eq!(before, b);
}

#[test]
fn audit_refuses_a_post_only_that_traded() {
    let c = cfg();
    let mut audit = Audit::new(c);
    let rest = env(1, 1, gtc(Side::Sell, 50, 3));
    let id = OrderId::new(0, 1);
    audit.check(&rest, &[Event::Rested { req: 1, id, qty: Qty(3) }]).unwrap();
    assert_eq!(audit.live_orders(), 1);
    let post = env(
        2,
        2,
        Command::New { side: Side::Buy, qty: Qty(3), kind: OrderKind::PostOnly { price: Price(50) } },
    );
    let fake = [
        Event::Trade {
            taker_req: 2,
            taker_side: Side::Buy,
            maker_id: id,
            price: Price(50),
            qty: Qty(3),
            maker_remaining: Qty(0),
            ts: 1002,
        },
        Event::MakerFilled { id },
        Event::Filled { req: 2 },
    ];
    let err = audit.check(&post, &fake).unwrap_err();
    assert!(err.starts_with("M4: post-only traded on arrival"), "{err}");
    assert!(err.contains("\n  command: "), "{err}");
    assert!(err.contains("\n  events:  "), "{err}");
}

#[test]
fn audit_refuses_wrong_request_numbers_and_missed_rejections() {
    let mut audit = Audit::new(cfg());
    let e = env(1, 1, gtc(Side::Buy, 40, 5));
    let err = audit.check(&e, &[Event::Filled { req: 7 }]).unwrap_err();
    assert!(err.starts_with("event carries req 7, command req is 1"), "{err}");
    let bad = env(2, 1, gtc(Side::Buy, 0, 5));
    let err = audit.check(&bad, &[Event::Rested { req: 2, id: OrderId::new(0, 1), qty: Qty(5) }]).unwrap_err();
    assert!(err.starts_with("invalid order was not rejected"), "{err}");
    let wrong = env(3, 1, gtc(Side::Buy, 0, 5));
    let err = audit
        .check(&wrong, &[Event::Rejected { req: 3, reason: RejectReason::InvalidQty }])
        .unwrap_err();
    assert!(err.starts_with("expected InvalidPrice, got InvalidQty"), "{err}");
    assert_eq!(audit.live_orders(), 0);
}

#[test]
fn audit_refuses_trades_out_of_priority_and_crossed_books() {
    let mut audit = Audit::new(cfg());
    let a = OrderId::new(0, 1);
    let b = OrderId::new(1, 1);
    audit.check(&env(1, 1, gtc(Side::Sell, 50, 3)), &[Event::Rested { req: 1, id: a, qty: Qty(3) }]).unwrap();
    audit.check(&env(2, 1, gtc(Side::Sell, 49, 3)), &[Event::Rested { req: 2, id: b, qty: Qty(3) }]).unwrap();
    let taker = env(3, 2, gtc(Side::Buy, 55, 3));
    let out_of_order = [
        Event::Trade {
            taker_req: 3,
            taker_side: Side::Buy,
            maker_id: a,
            price: Price(50),
            qty: Qty(3),
            maker_remaining: Qty(0),
            ts: 1003,
        },
        Event::MakerFilled { id: a },
        Event::Filled { req: 3 },
    ];
    let err = audit.check(&taker, &out_of_order).unwrap_err();
    assert!(
        err.starts_with(&format!("M3: traded with OrderId({}), best/oldest was OrderId({})", a.0, b.0)),
        "{err}"
    );
    let mut audit = Audit::new(cfg());
    audit.check(&env(1, 1, gtc(Side::Sell, 50, 3)), &[Event::Rested { req: 1, id: a, qty: Qty(3) }]).unwrap();
    let crossing = env(2, 2, gtc(Side::Buy, 55, 3));
    let err = audit
        .check(&crossing, &[Event::Rested { req: 2, id: b, qty: Qty(3) }])
        .unwrap_err();
    assert!(err.starts_with("rested while crossing liquidity remained"), "{err}");
}

#[test]
fn audit_accepts_what_the_engine_does_for_every_command() {
    let c = cfg();
    let mut engine = Reference::new(c);
    let mut audit = Audit::new(c);
    let cmds = [
        (1, gtc(Side::Sell, 50, 5)),
        (2, gtc(Side::Buy, 50, 2)),
        (1, Command::Reduce { id: OrderId::new(0, 1), total_qty: Qty(4) }),
        (1, Command::Replace { id: OrderId::new(0, 1), price: Price(52), total_qty: Qty(6), post_only: false }),
        (2, Command::New { side: Side::Buy, qty: Qty(9), kind: OrderKind::Market { protection: Some(Price(60)) } }),
        (3, gtc(Side::Buy, 45, 2)),
        (3, Command::Cancel { id: OrderId::new(0, 3) }),
    ];
    for (i, (account, cmd)) in cmds.into_iter().enumerate() {
        let e = env(i as u64 + 1, account, cmd);
        let out = run(&mut engine, &e);
        audit.check(&e, &out).unwrap();
        assert_eq!(engine.live_orders(), audit.live_orders());
    }
}

fn legacy_order(id: u64, side: LSide, price: u64, qty: u64) -> LegacyOrder {
    LegacyOrder {
        id,
        symbol: "BTC/USD".to_string(),
        side,
        price,
        qty,
        remaining_qty: qty,
        timestamp: id,
    }
}

#[test]
fn legacy_book_matches_best_price_first_at_the_resting_price() {
    let mut book = OrderBook::new("BTC/USD".to_string());
    book.add_order(legacy_order(1, LSide::Sell, 51, 5));
    book.add_order(legacy_order(2, LSide::Sell, 50, 5));
    book.add_order(legacy_order(3, LSide::Sell, 50, 4));
    book.add_order(legacy_order(4, LSide::Sell, 53, 5));
    let mut taker = legacy_order(5, LSide::Buy, 51, 12);
    let fills = book.match_order(&mut taker);
    let got: Vec<(u64, u64, u64, u64)> = fills
        .iter()
        .map(|f| (f.maker_order_id, f.taker_order_id, f.price, f.qty))
        .collect();
    assert_eq!(got, [(2, 5, 50, 5), (3, 5, 50, 4), (1, 5, 51, 3)]);
    assert!(fills.iter().all(|f| f.symbol == "BTC/USD"));
    assert!(fills.iter().all(|f| f.timestamp == fills[0].timestamp));
    assert_eq!(taker.remaining_qty, 0);
    assert!(!book.asks.contains_key(&50));
    assert_eq!(book.asks[&51].len(), 1);
    assert_eq!(book.asks[&51][0].remaining_qty, 2);
    assert_eq!(book.asks[&53][0].remaining_qty, 5);
    assert!(book.bids.is_empty());
}

#[test]
fn legacy_sell_takes_highest_bids_and_stops_at_its_limit() {
    let mut book = OrderBook::new("X".to_string());
    book.add_order(legacy_order(1, LSide::Buy, 48, 2));
    book.add_order(legacy_order(2, LSide::Buy, 49, 2));
    book.add_order(legacy_order(3, LSide::Buy, 47, 2));
    let mut taker = legacy_order(4, LSide::Sell, 48, 10);
    let fills = book.match_order(&mut taker);
    let got: Vec<(u64, u64, u64)> = fills.iter().map(|f| (f.maker_order_id, f.price, f.qty)).collect();
    assert_eq!(got, [(2, 49, 2), (1, 48, 2)]);
    assert_eq!(taker.remaining_qty, 6);
    assert_eq!(book.bids.len(), 1);
    assert_eq!(book.bids[&47][0].id, 3);
}

#[test]
fn legacy_process_order_keeps_one_book_per_symbol_and_rests_the_rest() {
    let mut books = Vec::new();
    let (out, fills) = process_order(&mut books, legacy_order(1, LSide::Sell, 50, 5));
    assert!(fills.is_empty());
    assert_eq!(out.remaining_qty, 5);
    assert_eq!(books.len(), 1);
    let mut other = legacy_order(2, LSide::Buy, 50, 3);
    other.symbol = "ETH/USD".to_string();
    let (_, fills) = process_order(&mut books, other);
    assert!(fills.is_empty());
    assert_eq!(books.len(), 2);
    let (out, fills) = process_order(&mut books, legacy_order(3, LSide::Buy, 50, 8));
    assert_eq!(fills.len(), 1);
    assert_eq!(fills[0].qty, 5);
    assert_eq!(out.remaining_qty, 3);
    assert_eq!(books.len(), 2);
    let btc = books.iter().find(|b| b.symbol == "BTC/USD").unwrap();
    assert!(btc.asks.is_empty());
    assert_eq!(btc.bids[&50][0].id, 3);
    assert_eq!(btc.bids[&50][0].remaining_qty, 3);
    let eth = books.iter().find(|b| b.symbol == "ETH/USD").unwrap();
    assert_eq!(eth.bids[&50][0].id, 2);
}

#[test]
fn audit_names_an_invalid_terminal_event() {
    let mut audit = Audit::new(cfg());
    let e = env(1, 1, gtc(Side::Buy, 40, 5));
    let bogus = Event::Reduced { req: 1, id: OrderId(5), filled: Qty(0), remaining: Qty(1) };
    let err = audit.check(&e, &[bogus]).unwrap_err();
    assert!(
        err.starts_with(
            "invalid terminal event Reduced { req: 1, id: OrderId(5), filled: Qty(0), remaining: Qty(1) }"
        ),
        "{err}"
    );
    assert!(err.contains("command: Envelope { req: 1"), "{err}");
}

#[test]
fn legacy_fills_carry_the_wall_clock_time() {
    let mut book = OrderBook::new("T".to_string());
    book.add_order(legacy_order(1, LSide::Buy, 50, 1));
    let mut taker = legacy_order(2, LSide::Sell, 50, 1);
    let fills = book.match_order(&mut taker);
    assert_eq!(fills.len(), 1);
    assert!(fills[0].timestamp > 1_600_000_000_000);
}

#[test]
fn gtc_flow_overlaps_around_fifty() {
    let flow = omnibook::bench::gtc_flow(1_000, 7);
    assert_eq!(flow.len(), 1_000);
    for &(side, price, qty) in &flow {
        match side {
            Side::Buy => assert!((38..=52).contains(&price)),
            Side::Sell => assert!((48..=62).contains(&price)),
        }
        assert!((1..=20).contains(&qty));
    }
    let mut r = Rng::new(7);
    let side = if r.below(2) == 0 { Side::Buy } else { Side::Sell };
    let price = match side {
        Side::Buy => r.range(38, 52) as u16,
        Side::Sell => r.range(48, 62) as u16,
    };
    let qty = r.range(1, 20) as u32;
    assert_eq!(flow[0], (side, price, qty));
    assert_eq!(omnibook::bench::gtc_flow(1_000, 7), flow);
}

#[test]
fn recorded_stream_labels_what_the_engine_did() {
    let c = Config {
        max_order_qty: Qty(1_000),
        ..Config::binary_cents(64)
    };
    let stream = omnibook::bench::record(c, 3_000, 1, 50);
    assert_eq!(stream.len(), 3_000);
    let mut engine = FastBook::new(c);
    for (i, (e, op)) in stream.iter().enumerate() {
        assert_eq!(e.req, i as u64 + 1);
        assert_eq!(e.ts, (i as u64 + 1) * 10);
        let out = run(&mut engine, e);
        assert_eq!(Op::classify(e, &out), *op);
    }
    assert!(stream.iter().any(|(_, op)| *op == Op::GtcMatch));
    assert!(stream.iter().any(|(_, op)| *op == Op::Cancel));
}

#[test]
fn audit_keeps_its_book_after_a_refused_cancel_and_goes_on() {
    let mut audit = Audit::new(cfg());
    let a = OrderId::new(0, 1);
    audit.check(&env(1, 1, gtc(Side::Sell, 50, 3)), &[Event::Rested { req: 1, id: a, qty: Qty(3) }]).unwrap();
    let wrong_owner = env(2, 2, Command::Cancel { id: a });
    let refused = [Event::Cancelled { req: 2, id: Some(a), qty: Qty(3), reason: CancelReason::User }];
    let err = audit.check(&wrong_owner, &refused).unwrap_err();
    assert!(err.starts_with("O1: cancelled an order not owned by the sender"), "{err}");
    assert_eq!(audit.live_orders(), 1);
    let own = env(3, 1, Command::Cancel { id: a });
    audit
        .check(&own, &[Event::Cancelled { req: 3, id: Some(a), qty: Qty(3), reason: CancelReason::User }])
        .unwrap();
    assert_eq!(audit.live_orders(), 0);
}

#[test]
fn audit_keeps_its_book_after_a_refused_reduce_and_replace() {
    let mut audit = Audit::new(cfg());
    let a = OrderId::new(0, 1);
    audit.check(&env(1, 1, gtc(Side::Sell, 50, 3)), &[Event::Rested { req: 1, id: a, qty: Qty(3) }]).unwrap();
    let reduce = env(2, 1, Command::Reduce { id: a, total_qty: Qty(2) });
    let err = audit
        .check(&reduce, &[Event::Rejected { req: 2, reason: RejectReason::InvalidChange }])
        .unwrap_err();
    assert!(err.starts_with("valid reduce rejected"), "{err}");
    audit
        .check(&reduce, &[Event::Reduced { req: 2, id: a, filled: Qty(0), remaining: Qty(2) }])
        .unwrap();
    let replace = env(3, 1, Command::Replace { id: a, price: Price(52), total_qty: Qty(4), post_only: false });
    let err = audit.check(&replace, &[Event::Filled { req: 3 }]).unwrap_err();
    assert!(err.starts_with("replace must start with Cancelled{Replaced}"), "{err}");
    assert_eq!(audit.live_orders(), 1);
    audit
        .check(&replace, &[Event::Cancelled { req: 3, id: Some(a), qty: Qty(2), reason: CancelReason::Replaced }, Event::Rested { req: 3, id: OrderId::new(0, 3), qty: Qty(4) }])
        .unwrap();
    assert_eq!(audit.live_orders(), 1);
}

#[test]
fn retired_slots_never_come_back() {
    let c = Config {
        capacity: 1,
        generation_limit: 1,
        ..Config::binary_cents(1)
    };
    let mut engine = Reference::new(c);
    let _ = run(&mut engine, &env(1, 1, gtc(Side::Sell, 50, 2)));
    let _ = run(&mut engine, &env(2, 2, gtc(Side::Buy, 50, 2)));
    assert_eq!(engine.retired_slots(), 1);
    for req in 3..20 {
        let _ = run(&mut engine, &env(req, 1 + (req % 2) as u32, gtc(Side::Buy, 40, 1)));
        assert_eq!(engine.retired_slots(), 1);
    }
}

#[test]
fn rng_never_gives_zero() {
    for seed in [0u64, 1, 2, 42, u64::MAX] {
        let mut r = Rng::new(seed);
        for _ in 0..100_000 {
            assert_ne!(r.next_u64(), 0);
        }
    }
}

#[test]
fn audit_refusal_names_the_rule_then_the_command_and_events() {
    let mut audit = Audit::new(cfg());
    let e = env(1, 1, Command::Cancel { id: OrderId::new(0, 1) });
    let events = [Event::Cancelled { req: 1, id: Some(OrderId::new(0, 1)), qty: Qty(3), reason: CancelReason::User }];
    let err = audit.check(&e, &events).unwrap_err();
    assert_eq!(
        err,
        format!("O1: cancelled an order not owned by the sender\n  command: {:?}\n  events:  {:?}", e, &events[..])
    );
}

#[test]
fn audit_keeps_the_trades_it_took_in_before_a_refused_terminal_event() {
    let mut audit = Audit::new(cfg());
    let a = OrderId::new(0, 1);
    let b = OrderId::new(1, 1);
    audit.check(&env(1, 1, gtc(Side::Sell, 50, 3)), &[Event::Rested { req: 1, id: a, qty: Qty(3) }]).unwrap();
    audit.check(&env(2, 1, gtc(Side::Sell, 52, 3)), &[Event::Rested { req: 2, id: b, qty: Qty(3) }]).unwrap();
    let taker = env(3, 2, gtc(Side::Buy, 50, 5));
    let events = [
        Event::Trade {
            taker_req: 3,
            taker_side: Side::Buy,
            maker_id: a,
            price: Price(50),
            qty: Qty(3),
            maker_remaining: Qty(0),
            ts: 1003,
        },
        Event::MakerFilled { id: a },
        Event::Filled { req: 3 },
    ];
    let err = audit.check(&taker, &events).unwrap_err();
    assert!(err.starts_with("E1: Filled with 2 remaining\n  command: "), "{err}");
    assert_eq!(audit.live_orders(), 1);
}

#[test]
fn an_emptied_maker_is_filled_right_after_its_trade() {
    let mut engine = Reference::new(cfg());
    let a = OrderId::new(0, 1);
    let _ = run(&mut engine, &env(1, 1, gtc(Side::Sell, 50, 2)));
    let _ = run(&mut engine, &env(2, 1, gtc(Side::Sell, 51, 4)));
    let out = run(&mut engine, &env(3, 2, gtc(Side::Buy, 51, 3)));
    assert_eq!(out.len(), 4);
    assert!(matches!(out[0], Event::Trade { maker_id, maker_remaining: Qty(0), .. } if maker_id == a));
    assert_eq!(out[1], Event::MakerFilled { id: a });
    assert!(matches!(out[2], Event::Trade { maker_remaining: Qty(3), .. }));
    assert_eq!(out[3], Event::Filled { req: 3 });
}

#[test]
fn latency_text_hides_readings_below_one_tick() {
    assert_eq!(omnibook::bench::ns(0), "<42");
    assert_eq!(omnibook::bench::ns(1), "<42");
    assert_eq!(omnibook::bench::ns(2), "2");
    assert_eq!(omnibook::bench::ns(1234567), "1234567");
}

#[test]
fn recorded_stream_is_fixed_by_its_seed() {
    let c = Config {
        max_order_qty: Qty(1_000),
        ..Config::binary_cents(64)
    };
    let a = omnibook::bench::record(c, 2_000, 7, 50);
    let b = omnibook::bench::record(c, 2_000, 7, 50);
    assert_eq!(a.len(), 2_000);
    assert!(a.iter().zip(b.iter()).all(|(x, y)| x.0 == y.0 && x.1 == y.1));
    let other = omnibook::bench::record(c, 2_000, 6, 50);
    assert!(a.iter().zip(other.iter()).any(|(x, y)| x.0 != y.0));
}

#[test]
fn generators_with_one_seed_draw_the_same_numbers() {
    let mut a = Rng::new(99);
    let mut b = Rng::new(99);
    for _ in 0..10_000 {
        assert_eq!(a.next_u64(), b.next_u64());
    }
}

#[test]
fn a_replacement_rests_under_a_new_id() {
    let mut engine = Reference::new(cfg());
    let a = OrderId::new(0, 1);
    let _ = run(&mut engine, &env(1, 1, gtc(Side::Sell, 50, 3)));
    let out = run(&mut engine, &env(2, 1, Command::Replace { id: a, price: Price(52), total_qty: Qty(4), post_only: false }));
    assert_eq!(out[0], Event::Cancelled { req: 2, id: Some(a), qty: Qty(3), reason: CancelReason::Replaced });
    match out[1] {
        Event::Rested { id, qty, .. } => {
            assert_ne!(id, a);
            assert_eq!(qty, Qty(4));
        }
        other => panic!("expected the replacement to rest, got {other:?}"),
    }
}
