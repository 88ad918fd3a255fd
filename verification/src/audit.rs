//! An independent checker that rebuilds the book from the event stream alone and refuses
//! any stream an engine following the rules could not have produced.
use vstd::prelude::*;

use std::collections::BTreeMap;
use std::collections::HashSet;
use vstd::std_specs::btree::spec_btree_map_iter;
use vstd::std_specs::iter::IteratorSpec;

use crate::model::{ahead, best, is_best, lemma_best_is, min_u32, named_price, OrderView};
use crate::types::{
    crosses_at, gen_of, limit_for, opposite_of, price_in_range, qty_in_range, rests, rests_spec,
    AccountId, CancelReason, Command, Config, Envelope, Event, OrderId, OrderKind, Price, Qty,
    RejectReason, Side, Tif,
};

verus! {

broadcast use vstd::std_specs::btree::group_btree_axioms;

/// A live order as the checker knows it.
#[derive(Clone, Copy, Debug)]
struct Live {
    account: AccountId,
    side: Side,
    price: Price,
    remaining: u32,
    filled: u32,
    seq: u64,
}

spec fn lview(l: Live) -> OrderView {
    OrderView {
        account: l.account,
        side: l.side,
        price: l.price.0,
        remaining: l.remaining,
        filled: l.filled,
        seq: l.seq as nat,
    }
}

/// What the checker knows: the live orders by identifier, every identifier ever issued,
/// and the next arrival number.
pub struct AuditView {
    pub live: Map<u64, OrderView>,
    pub ever: Set<u64>,
    pub next_seq: nat,
}

/// The checker's own consistency: finitely many live orders with distinct arrival numbers
/// below the next one, each with a total that fits a lot count.
pub open spec fn audit_inv(a: AuditView) -> bool {
    &&& a.live.dom().finite()
    &&& forall|k: u64| #[trigger]
        a.live.contains_key(k) ==> a.live[k].seq < a.next_seq && a.live[k].filled
            + a.live[k].remaining <= u32::MAX
    &&& forall|k: u64, j: u64|
        #![trigger a.live.contains_key(k), a.live.contains_key(j)]
        a.live.contains_key(k) && a.live.contains_key(j) && k != j ==> a.live[k].seq != a.live[j].seq
}

/// The request an event answers (a maker fill answers the command that caused it).
pub open spec fn event_req(e: Event, env: Envelope) -> u64 {
    match e {
        Event::Rejected { req, .. } => req,
        Event::Rested { req, .. } => req,
        Event::Filled { req } => req,
        Event::Cancelled { req, .. } => req,
        Event::Reduced { req, .. } => req,
        Event::Trade { taker_req, .. } => taker_req,
        Event::MakerFilled { .. } => env.req,
    }
}

/// The rejection a new order gets before the book is consulted, if any.
pub open spec fn static_reject(cfg: Config, qty: Qty, kind: OrderKind) -> Option<RejectReason> {
    if named_price(kind) matches Some(p) && !price_in_range(cfg, p.0) {
        Some(RejectReason::InvalidPrice)
    } else if !qty_in_range(cfg, qty.0) {
        Some(RejectReason::InvalidQty)
    } else {
        None
    }
}

/// The best maker against an order on `side` with `limit`, if it crosses.
pub open spec fn crossing(live: Map<u64, OrderView>, side: Side, limit: u16) -> Option<u64> {
    match best(live, opposite_of(side)) {
        Some(k) => if crosses_at(side, limit, live[k].price) {
            Some(k)
        } else {
            None
        },
        None => None,
    }
}

/// The live order `id`, if `account` owns it.
pub open spec fn owned(live: Map<u64, OrderView>, id: OrderId, account: AccountId) -> Option<OrderView> {
    if live.contains_key(id.0) && live[id.0].account == account {
        Some(live[id.0])
    } else {
        None
    }
}

/// A lone rejection of a new order names the reason the rules give.
pub open spec fn new_rejection_ok(
    cfg: Config,
    live: Map<u64, OrderView>,
    side: Side,
    qty: Qty,
    kind: OrderKind,
    reason: RejectReason,
) -> bool {
    match static_reject(cfg, qty, kind) {
        Some(expected) => reason == expected,
        None => match kind {
            OrderKind::PostOnly { price } => reason == (if crossing(live, side, price.0) is Some {
                RejectReason::PostOnlyWouldCross
            } else {
                RejectReason::BookFull
            }),
            OrderKind::Limit { price, tif: Tif::Gtc } => reason == RejectReason::BookFull && crossing(
                live,
                side,
                price.0,
            ) is None,
            _ => false,
        },
    }
}

/// The trades from position `i` on: each against the best maker, within the limit, at the
/// maker's price, never with the taker's own account, for min(taker, maker) lots, with a
/// maker fill right after a maker's last trade. Gives the live orders after them, the
/// taker's open lots and the position after the last trade.
pub open spec fn trades_ok(
    live: Map<u64, OrderView>,
    env: Envelope,
    side: Side,
    limit: u16,
    kind: OrderKind,
    remaining: u32,
    events: Seq<Event>,
    i: int,
) -> Option<(Map<u64, OrderView>, u32, int)>
    decreases events.len() - i,
{
    if 0 <= i < events.len() && events[i] is Trade {
        let e = events[i];
        let maker_id = e->Trade_maker_id;
        let q = e->Trade_qty.0;
        let maker_remaining = e->Trade_maker_remaining.0;
        if kind is PostOnly {
            None
        } else if !(e->Trade_taker_side == side && e->Trade_ts == env.ts) {
            None
        } else if remaining == 0 {
            None
        } else {
            match best(live, opposite_of(side)) {
                None => None,
                Some(best_id) => {
                    let maker = live[best_id];
                    let fill = min_u32(remaining, maker.remaining);
                    if maker_id.0 != best_id {
                        None
                    } else if !crosses_at(side, limit, maker.price) {
                        None
                    } else if e->Trade_price.0 != maker.price {
                        None
                    } else if maker.account == env.account {
                        None
                    } else if q != fill {
                        None
                    } else if maker_remaining != maker.remaining - fill {
                        None
                    } else if maker_remaining == 0 {
                        if !(i + 1 < events.len() && events[i + 1] == Event::MakerFilled { id: maker_id }) {
                            None
                        } else {
                            trades_ok(
                                live.remove(best_id),
                                env,
                                side,
                                limit,
                                kind,
                                (remaining - fill) as u32,
                                events,
                                i + 2,
                            )
                        }
                    } else {
                        trades_ok(
                            live.insert(
                                best_id,
                                OrderView {
                                    remaining: (maker.remaining - fill) as u32,
                                    filled: (maker.filled + fill) as u32,
                                    ..maker
                                },
                            ),
                            env,
                            side,
                            limit,
                            kind,
                            (remaining - fill) as u32,
                            events,
                            i + 1,
                        )
                    }
                },
            }
        }
    } else {
        Some((live, remaining, i))
    }
}

/// A new order's flow from position `start`: the trades, then exactly one terminal event
/// that agrees with what is left and with the book (E1, E2, M5, C2, S4).
pub open spec fn flow_ok(
    cfg: Config,
    a: AuditView,
    env: Envelope,
    side: Side,
    qty: u32,
    kind: OrderKind,
    events: Seq<Event>,
    start: int,
) -> Option<AuditView> {
    let limit = limit_for(cfg, side, kind);
    match trades_ok(a.live, env, side, limit, kind, qty, events, start) {
        None => None,
        Some((live, remaining, i)) => {
            if !(i < events.len() && i + 1 == events.len()) {
                None
            } else {
                let next = crossing(live, side, limit);
                match events[i] {
                    Event::Filled { .. } => if remaining == 0 {
                        Some(AuditView { live, ..a })
                    } else {
                        None
                    },
                    Event::Rested { id, qty: q, .. } => {
                        if rests_spec(kind) && remaining > 0 && q.0 == remaining && next is None
                            && gen_of(id) % 2 == 1 && !a.ever.contains(id.0) {
                            Some(
                                AuditView {
                                    live: live.insert(
                                        id.0,
                                        OrderView {
                                            account: env.account,
                                            side,
                                            price: limit,
                                            remaining,
                                            filled: 0,
                                            seq: a.next_seq,
                                        },
                                    ),
                                    ever: a.ever.insert(id.0),
                                    next_seq: a.next_seq + 1,
                                },
                            )
                        } else {
                            None
                        }
                    },
                    Event::Cancelled { id: None, qty: q, reason, .. } => {
                        if !(remaining > 0 && q.0 == remaining) {
                            None
                        } else {
                            let ok = match reason {
                                CancelReason::Unfilled => !rests_spec(kind) && next is None,
                                CancelReason::SelfTrade => next matches Some(k) && live[k].account
                                    == env.account,
                                CancelReason::CapacityExhausted => (kind matches OrderKind::Limit {
                                    tif: Tif::Gtc,
                                    ..
                                }) && next is None,
                                _ => false,
                            };
                            if ok {
                                Some(AuditView { live, ..a })
                            } else {
                                None
                            }
                        }
                    },
                    _ => None,
                }
            }
        },
    }
}

/// A reduce's single event agrees with the order it names (O1, O2).
pub open spec fn reduce_ok(a: AuditView, env: Envelope, id: OrderId, total: u32, events: Seq<Event>) -> Option<AuditView> {
    let o = owned(a.live, id, env.account);
    if events.len() != 1 {
        None
    } else {
        match events[0] {
            Event::Rejected { reason: RejectReason::UnknownOrStaleId, .. } => if o is None {
                Some(a)
            } else {
                None
            },
            Event::Rejected { reason: RejectReason::InvalidChange, .. } => match o {
                Some(o) => if total > o.filled + o.remaining {
                    Some(a)
                } else {
                    None
                },
                None => None,
            },
            Event::Cancelled { id: Some(got), qty, reason: CancelReason::ReduceToZero, .. } => match o {
                Some(o) => if got == id && total <= o.filled && qty.0 == o.remaining {
                    Some(AuditView { live: a.live.remove(id.0), ..a })
                } else {
                    None
                },
                None => None,
            },
            Event::Reduced { id: got, filled, remaining, .. } => match o {
                Some(o) => if got == id && filled.0 == o.filled && total > o.filled && total <= o.filled
                    + o.remaining && remaining.0 == total - o.filled {
                    Some(
                        AuditView {
                            live: a.live.insert(id.0, OrderView { remaining: remaining.0, ..o }),
                            ..a
                        },
                    )
                } else {
                    None
                },
                None => None,
            },
            _ => None,
        }
    }
}

/// The replace rules (decision 007): refusals in their order of precedence with nothing
/// changed; otherwise the old order is cancelled first and the replacement's flow follows.
pub open spec fn replace_ok(
    cfg: Config,
    a: AuditView,
    env: Envelope,
    id: OrderId,
    price: Price,
    total: Qty,
    post_only: bool,
    events: Seq<Event>,
) -> Option<AuditView> {
    let static_reject = if !price_in_range(cfg, price.0) {
        Some(RejectReason::InvalidPrice)
    } else if total.0 > cfg.max_order_qty.0 {
        Some(RejectReason::InvalidQty)
    } else {
        None
    };
    let o = owned(a.live, id, env.account);
    if events.len() == 1 && events[0] is Rejected {
        let reason = events[0]->Rejected_reason;
        match static_reject {
            Some(expected) => if reason == expected {
                Some(a)
            } else {
                None
            },
            None => match o {
                None => if reason == RejectReason::UnknownOrStaleId {
                    Some(a)
                } else {
                    None
                },
                Some(o) => {
                    let expected = if post_only && crossing(a.live, o.side, price.0) is Some {
                        RejectReason::PostOnlyWouldCross
                    } else {
                        RejectReason::BookFull
                    };
                    if total.0 > o.filled && reason == expected {
                        Some(a)
                    } else {
                        None
                    }
                },
            },
        }
    } else if static_reject is Some {
        None
    } else {
        match o {
            None => None,
            Some(o) => {
                if !(events.len() >= 1 && events[0] == Event::Cancelled {
                    req: env.req,
                    id: Some(id),
                    qty: Qty(o.remaining),
                    reason: CancelReason::Replaced,
                }) {
                    None
                } else {
                    let a1 = AuditView { live: a.live.remove(id.0), ..a };
                    if total.0 <= o.filled {
                        if events.len() == 1 {
                            Some(a1)
                        } else {
                            None
                        }
                    } else {
                        let kind = if post_only {
                            OrderKind::PostOnly { price }
                        } else {
                            OrderKind::Limit { price, tif: Tif::Gtc }
                        };
                        flow_ok(cfg, a1, env, o.side, (total.0 - o.filled) as u32, kind, events, 1)
                    }
                }
            },
        }
    }
}

/// The events a command caused are ones the rules allow; gives the checker's next state.
pub open spec fn command_ok(cfg: Config, a: AuditView, env: Envelope, events: Seq<Event>) -> Option<AuditView> {
    if exists|i: int| 0 <= i < events.len() && event_req(#[trigger] events[i], env) != env.req {
        None
    } else {
        match env.cmd {
            Command::New { side, qty, kind } => {
                if events.len() == 1 && events[0] is Rejected {
                    if new_rejection_ok(cfg, a.live, side, qty, kind, events[0]->Rejected_reason) {
                        Some(a)
                    } else {
                        None
                    }
                } else if static_reject(cfg, qty, kind) is Some {
                    None
                } else {
                    flow_ok(cfg, a, env, side, qty.0, kind, events, 0)
                }
            },
            Command::Cancel { id } => {
                if events.len() != 1 {
                    None
                } else {
                    match events[0] {
                        Event::Rejected { reason: RejectReason::UnknownOrStaleId, .. } => if owned(
                            a.live,
                            id,
                            env.account,
                        ) is None {
                            Some(a)
                        } else {
                            None
                        },
                        Event::Cancelled { id: Some(got), qty, reason: CancelReason::User, .. } => match owned(
                            a.live,
                            id,
                            env.account,
                        ) {
                            Some(o) => if got == id && qty.0 == o.remaining {
                                Some(AuditView { live: a.live.remove(id.0), ..a })
                            } else {
                                None
                            },
                            None => None,
                        },
                        _ => None,
                    }
                }
            },
            Command::Reduce { id, total_qty } => reduce_ok(a, env, id, total_qty.0, events),
            Command::Replace { id, price, total_qty, post_only } => replace_ok(
                cfg,
                a,
                env,
                id,
                price,
                total_qty,
                post_only,
                events,
            ),
        }
    }
}

/// The best bid is below the best ask whenever both exist (L6).
pub open spec fn not_crossed(live: Map<u64, OrderView>) -> bool {
    match (best(live, Side::Buy), best(live, Side::Sell)) {
        (Some(b), Some(s)) => live[b].price < live[s].price,
        _ => true,
    }
}

/// The whole check: the command's events are allowed and leave the book uncrossed.
pub open spec fn audit_check(cfg: Config, a: AuditView, env: Envelope, events: Seq<Event>) -> Option<AuditView> {
    match command_ok(cfg, a, env, events) {
        Some(a2) => if not_crossed(a2.live) {
            Some(a2)
        } else {
            None
        },
        None => None,
    }
}

/// An order identifier as a refusal writes it (its `Debug` form).
pub open spec fn id_words(x: u64) -> Seq<char> {
    "OrderId("@ + decimal(x as nat) + ")"@
}

/// A price as a refusal writes it (its `Debug` form).
pub open spec fn price_words(p: u16) -> Seq<char> {
    "Price("@ + decimal(p as nat) + ")"@
}

/// Where the trades from position `i` on break a rule, when `trades_ok` refuses them: the
/// live orders as the trades before it left them, and the rule broken.
pub open spec fn trades_refusal(
    live: Map<u64, OrderView>,
    env: Envelope,
    side: Side,
    limit: u16,
    kind: OrderKind,
    remaining: u32,
    events: Seq<Event>,
    i: int,
) -> (Map<u64, OrderView>, Seq<char>)
    decreases events.len() - i,
{
    if 0 <= i < events.len() && events[i] is Trade {
        let e = events[i];
        let maker_id = e->Trade_maker_id;
        let q = e->Trade_qty.0;
        let maker_remaining = e->Trade_maker_remaining.0;
        if kind is PostOnly {
            (live, "M4: post-only traded on arrival"@)
        } else if !(e->Trade_taker_side == side && e->Trade_ts == env.ts) {
            (live, "trade has wrong taker side or ts"@)
        } else if remaining == 0 {
            (live, "trade after the taker was filled"@)
        } else {
            match best(live, opposite_of(side)) {
                None => (live, "trade against an empty side"@),
                Some(best_id) => {
                    let maker = live[best_id];
                    let fill = min_u32(remaining, maker.remaining);
                    if maker_id.0 != best_id {
                        (
                            live,
                            "M3: traded with "@ + id_words(maker_id.0) + ", best/oldest was "@
                                + id_words(best_id),
                        )
                    } else if !crosses_at(side, limit, maker.price) {
                        (live, "M2: trade beyond the taker's limit"@)
                    } else if e->Trade_price.0 != maker.price {
                        (live, "M1: trade price is not the maker's price"@)
                    } else if maker.account == env.account {
                        (live, "M6: self-trade"@)
                    } else if q != fill {
                        (
                            live,
                            "fill qty "@ + decimal(q as nat) + " != min(taker, maker) "@ + decimal(
                                fill as nat,
                            ),
                        )
                    } else if maker_remaining != maker.remaining - fill {
                        (live, "wrong maker_remaining"@)
                    } else if maker_remaining == 0 {
                        if !(i + 1 < events.len() && events[i + 1] == Event::MakerFilled { id: maker_id }) {
                            (live, "E3: MakerFilled must immediately follow the maker's last trade"@)
                        } else {
                            trades_refusal(
                                live.remove(best_id),
                                env,
                                side,
                                limit,
                                kind,
                                (remaining - fill) as u32,
                                events,
                                i + 2,
                            )
                        }
                    } else {
                        trades_refusal(
                            live.insert(
                                best_id,
                                OrderView {
                                    remaining: (maker.remaining - fill) as u32,
                                    filled: (maker.filled + fill) as u32,
                                    ..maker
                                },
                            ),
                            env,
                            side,
                            limit,
                            kind,
                            (remaining - fill) as u32,
                            events,
                            i + 1,
                        )
                    }
                },
            }
        }
    } else {
        (live, Seq::empty())
    }
}

/// The rule the terminal event at position `i` breaks, when `flow_ok` refuses it after
/// trades that left `live` and `remaining`.
pub open spec fn terminal_refusal(
    a: AuditView,
    live: Map<u64, OrderView>,
    env: Envelope,
    side: Side,
    limit: u16,
    kind: OrderKind,
    remaining: u32,
    events: Seq<Event>,
    i: int,
) -> Seq<char> {
    if !(i < events.len() && i + 1 == events.len()) {
        "E2: expected exactly one terminal event after the trades"@
    } else {
        let next = crossing(live, side, limit);
        match events[i] {
            Event::Filled { .. } => "E1: Filled with "@ + decimal(remaining as nat) + " remaining"@,
            Event::Rested { id, qty: q, .. } => if !rests_spec(kind) {
                "M5: IOC/market order rested"@
            } else if !(remaining > 0 && q.0 == remaining) {
                "E1: rested qty "@ + decimal(q.0 as nat) + " != remaining "@ + decimal(remaining as nat)
            } else if next is Some {
                "rested while crossing liquidity remained"@
            } else if gen_of(id) % 2 != 1 {
                "S2: live ID with even generation"@
            } else {
                "S4: ID "@ + id_words(id.0) + " was issued twice"@
            },
            Event::Cancelled { id: None, qty: q, reason, .. } => if !(remaining > 0 && q.0
                == remaining) {
                "E1: cancelled qty "@ + decimal(q.0 as nat) + " != remaining "@ + decimal(
                    remaining as nat,
                )
            } else {
                match reason {
                    CancelReason::Unfilled => if rests_spec(kind) {
                        "GTC/post-only cancelled as Unfilled"@
                    } else {
                        "IOC stopped while crossing liquidity remained"@
                    },
                    CancelReason::SelfTrade => "SelfTrade cancel but the next maker is not the sender's"@,
                    CancelReason::CapacityExhausted => if !(kind matches OrderKind::Limit {
                        tif: Tif::Gtc,
                        ..
                    }) {
                        "C2: CapacityExhausted on a non-GTC order"@
                    } else {
                        "CapacityExhausted before matching finished"@
                    },
                    other => "invalid taker cancel reason "@ + cancel_text(other),
                }
            },
            other => "invalid terminal event "@ + event_debug(other),
        }
    }
}

/// Where a new order's flow from position `start` breaks a rule, when `flow_ok` refuses
/// it: the live orders the checker holds then, and the rule broken.
pub open spec fn flow_refusal(
    cfg: Config,
    a: AuditView,
    env: Envelope,
    side: Side,
    qty: u32,
    kind: OrderKind,
    events: Seq<Event>,
    start: int,
) -> (Map<u64, OrderView>, Seq<char>) {
    let limit = limit_for(cfg, side, kind);
    match trades_ok(a.live, env, side, limit, kind, qty, events, start) {
        None => trades_refusal(a.live, env, side, limit, kind, qty, events, start),
        Some((live, remaining, i)) => (
            live,
            terminal_refusal(a, live, env, side, limit, kind, remaining, events, i),
        ),
    }
}

/// The rule a lone rejection of a new order breaks, when `new_rejection_ok` refuses it.
pub open spec fn new_rejection_refusal(
    cfg: Config,
    live: Map<u64, OrderView>,
    side: Side,
    qty: Qty,
    kind: OrderKind,
    reason: RejectReason,
) -> Seq<char> {
    match static_reject(cfg, qty, kind) {
        Some(expected) => "expected "@ + reject_text(expected) + ", got "@ + reject_text(reason),
        None => match kind {
            OrderKind::PostOnly { price } => {
                let expected = if crossing(live, side, price.0) is Some {
                    RejectReason::PostOnlyWouldCross
                } else {
                    RejectReason::BookFull
                };
                "post-only: expected "@ + reject_text(expected) + ", got "@ + reject_text(reason)
            },
            OrderKind::Limit { tif: Tif::Gtc, .. } => if reason != RejectReason::BookFull {
                "GTC rejected with "@ + reject_text(reason)
            } else {
                "marketable GTC rejected as BookFull (011)"@
            },
            _ => "valid IOC/market order rejected with "@ + reject_text(reason) + " (004)"@,
        },
    }
}

/// The rule a reduce's events break, when `reduce_ok` refuses them.
pub open spec fn reduce_refusal(a: AuditView, env: Envelope, id: OrderId, total: u32, events: Seq<Event>) -> Seq<char> {
    let o = owned(a.live, id, env.account);
    if events.len() != 1 {
        "reduce produced an invalid event sequence"@
    } else {
        match events[0] {
            Event::Rejected { reason: RejectReason::UnknownOrStaleId, .. } => "reduce of a live owned order rejected as unknown"@,
            Event::Rejected { reason: RejectReason::InvalidChange, .. } => if o is None {
                "InvalidChange for an unknown order"@
            } else {
                "valid reduce rejected"@
            },
            Event::Cancelled { id: Some(_), reason: CancelReason::ReduceToZero, .. } => if o is None {
                "O1: reduced an order not owned by the sender"@
            } else {
                "bad ReduceToZero"@
            },
            Event::Reduced { id: got, filled, .. } => match o {
                None => "O1: reduced an order not owned by the sender"@,
                Some(o) => if !(got == id && filled.0 == o.filled) {
                    "Reduced reports wrong id or filled"@
                } else if !(total > o.filled && total <= o.filled + o.remaining) {
                    "O2: reduce outside the allowed range"@
                } else {
                    "Reduced remaining != total - filled"@
                },
            },
            _ => "reduce produced an invalid event sequence"@,
        }
    }
}

/// Where a replace's events break a rule, when `replace_ok` refuses them: the live orders
/// the checker holds then (without the old order once its cancel was taken in), and the
/// rule broken.
pub open spec fn replace_refusal(
    cfg: Config,
    a: AuditView,
    env: Envelope,
    id: OrderId,
    price: Price,
    total: Qty,
    post_only: bool,
    events: Seq<Event>,
) -> (Map<u64, OrderView>, Seq<char>) {
    let static_reject = if !price_in_range(cfg, price.0) {
        Some(RejectReason::InvalidPrice)
    } else if total.0 > cfg.max_order_qty.0 {
        Some(RejectReason::InvalidQty)
    } else {
        None
    };
    let o = owned(a.live, id, env.account);
    if events.len() == 1 && events[0] is Rejected {
        let reason = events[0]->Rejected_reason;
        (
            a.live,
            match static_reject {
                Some(expected) => "replace: expected "@ + reject_text(expected) + ", got "@
                    + reject_text(reason),
                None => match o {
                    None => "replace: expected UnknownOrStaleId"@,
                    Some(o) => if !(total.0 > o.filled) {
                        "replace to total <= filled must cancel, not reject"@
                    } else {
                        let expected = if post_only && crossing(a.live, o.side, price.0) is Some {
                            RejectReason::PostOnlyWouldCross
                        } else {
                            RejectReason::BookFull
                        };
                        "replace: expected "@ + reject_text(expected) + ", got "@ + reject_text(reason)
                    },
                },
            },
        )
    } else if static_reject is Some {
        (a.live, "invalid replace was not rejected"@)
    } else {
        match o {
            None => (a.live, "O1: replaced an order not owned by the sender"@),
            Some(o) => if !(events.len() >= 1 && events[0] == Event::Cancelled {
                req: env.req,
                id: Some(id),
                qty: Qty(o.remaining),
                reason: CancelReason::Replaced,
            }) {
                (a.live, "replace must start with Cancelled{Replaced} for the old order"@)
            } else if total.0 <= o.filled {
                (a.live.remove(id.0), "replace to total <= filled must only cancel"@)
            } else {
                let kind = if post_only {
                    OrderKind::PostOnly { price }
                } else {
                    OrderKind::Limit { price, tif: Tif::Gtc }
                };
                flow_refusal(
                    cfg,
                    AuditView { live: a.live.remove(id.0), ..a },
                    env,
                    o.side,
                    (total.0 - o.filled) as u32,
                    kind,
                    events,
                    1,
                )
            },
        }
    }
}

/// The first event from position `j` on that answers another request, if any.
pub open spec fn wrong_req_from(events: Seq<Event>, env: Envelope, j: int) -> Option<int>
    decreases events.len() - j,
{
    if j < 0 || j >= events.len() {
        None
    } else if event_req(events[j], env) != env.req {
        Some(j)
    } else {
        wrong_req_from(events, env, j + 1)
    }
}

/// Where a command's events break a rule, when `command_ok` refuses them: the state the
/// checker is left in, and the rule broken.
pub open spec fn command_refusal(cfg: Config, a: AuditView, env: Envelope, events: Seq<Event>) -> (AuditView, Seq<char>) {
    match wrong_req_from(events, env, 0) {
        Some(j) => (
            a,
            "event carries req "@ + decimal(event_req(events[j], env) as nat) + ", command req is "@
                + decimal(env.req as nat),
        ),
        None => match env.cmd {
            Command::New { side, qty, kind } => if events.len() == 1 && events[0] is Rejected {
                (a, new_rejection_refusal(cfg, a.live, side, qty, kind, events[0]->Rejected_reason))
            } else if static_reject(cfg, qty, kind) is Some {
                (a, "invalid order was not rejected"@)
            } else {
                let r = flow_refusal(cfg, a, env, side, qty.0, kind, events, 0);
                (AuditView { live: r.0, ..a }, r.1)
            },
            Command::Cancel { id } => (
                a,
                if events.len() != 1 {
                    "cancel produced an invalid event sequence"@
                } else {
                    match events[0] {
                        Event::Rejected { reason: RejectReason::UnknownOrStaleId, .. } => "cancel of a live owned order was rejected"@,
                        Event::Cancelled { id: Some(_), reason: CancelReason::User, .. } => if owned(
                            a.live,
                            id,
                            env.account,
                        ) is None {
                            "O1: cancelled an order not owned by the sender"@
                        } else {
                            "cancel reported wrong id or qty"@
                        },
                        _ => "cancel produced an invalid event sequence"@,
                    }
                },
            ),
            Command::Reduce { id, total_qty } => (a, reduce_refusal(a, env, id, total_qty.0, events)),
            Command::Replace { id, price, total_qty, post_only } => {
                let r = replace_refusal(cfg, a, env, id, price, total_qty, post_only, events);
                (AuditView { live: r.0, ..a }, r.1)
            },
        },
    }
}

/// The rule a crossed book breaks: its best bid and best ask.
pub open spec fn crossed_refusal(live: Map<u64, OrderView>) -> Seq<char> {
    match (best(live, Side::Buy), best(live, Side::Sell)) {
        (Some(b), Some(s)) => "L6: book crossed: bid "@ + price_words(live[b].price) + " >= ask "@
            + price_words(live[s].price),
        _ => Seq::empty(),
    }
}

/// The state `check` leaves behind when it refuses a command's events: what the events led
/// to when only the crossed-book test failed, else what it had taken in when it found the
/// broken rule.
pub open spec fn refused_state(cfg: Config, a: AuditView, env: Envelope, events: Seq<Event>) -> AuditView {
    match command_ok(cfg, a, env, events) {
        Some(a2) => a2,
        None => command_refusal(cfg, a, env, events).0,
    }
}

/// The refusal `check` gives: the broken rule, then the command and its events.
pub open spec fn refusal_text(cfg: Config, a: AuditView, env: Envelope, events: Seq<Event>) -> Seq<char> {
    let rule = match command_ok(cfg, a, env, events) {
        Some(a2) => crossed_refusal(a2.live),
        None => command_refusal(cfg, a, env, events).1,
    };
    in_context(rule, env, events)
}

/// Walking trades never gives a maker a new price or a maker the book did not hold: while
/// every live order keeps the price it had in `live0`, every trade `trades_ok` accepts is at
/// that price for a maker of `live0`, and the orders left still keep their prices.
proof fn lemma_trades_at_resting_price(
    live0: Map<u64, OrderView>,
    live: Map<u64, OrderView>,
    env: Envelope,
    side: Side,
    limit: u16,
    kind: OrderKind,
    remaining: u32,
    events: Seq<Event>,
    i: int,
)
    requires
        0 <= i,
        forall|k: u64| #[trigger]
            live.contains_key(k) ==> live0.contains_key(k) && live[k].price == live0[k].price
                && live[k].account == live0[k].account,
    ensures
        trades_ok(live, env, side, limit, kind, remaining, events, i) matches Some(t) ==> {
            &&& i <= t.2
            &&& forall|k: u64| #[trigger]
                t.0.contains_key(k) ==> live0.contains_key(k) && t.0[k].price == live0[k].price
                    && t.0[k].account == live0[k].account
            &&& forall|j: int|
                #![trigger events[j]]
                i <= j < t.2 && events[j] is Trade ==> live0.contains_key(
                    events[j]->Trade_maker_id.0,
                ) && events[j]->Trade_price.0 == live0[events[j]->Trade_maker_id.0].price
                    && live0[events[j]->Trade_maker_id.0].account != env.account && crosses_at(
                    side,
                    limit,
                    events[j]->Trade_price.0,
                )
        },
    decreases events.len() - i,
{
    if 0 <= i < events.len() && events[i] is Trade {
        let e = events[i];
        let maker_id = e->Trade_maker_id;
        if !(kind is PostOnly) && e->Trade_taker_side == side && e->Trade_ts == env.ts && remaining
            != 0 {
            if let Some(best_id) = best(live, opposite_of(side)) {
                let c = choose|x: u64| is_best(live, opposite_of(side), x);
                assert(is_best(live, opposite_of(side), c));
                let maker = live[best_id];
                let fill = min_u32(remaining, maker.remaining);
                let left = (maker.remaining - fill) as u32;
                if left == 0 && i + 1 < events.len() {
                    let l2 = live.remove(best_id);
                    lemma_trades_at_resting_price(
                        live0,
                        l2,
                        env,
                        side,
                        limit,
                        kind,
                        (remaining - fill) as u32,
                        events,
                        i + 2,
                    );
                } else if left != 0 {
                    let l2 = live.insert(
                        best_id,
                        OrderView {
                            remaining: (maker.remaining - fill) as u32,
                            filled: (maker.filled + fill) as u32,
                            ..maker
                        },
                    );
                    lemma_trades_at_resting_price(
                        live0,
                        l2,
                        env,
                        side,
                        limit,
                        kind,
                        (remaining - fill) as u32,
                        events,
                        i + 1,
                    );
                }
            }
        }
    }
}

/// Trades happen at the maker's resting price (M1) and never with the sender (M6):
/// whenever the checker accepts a command's events, every trade among them names a maker
/// that was resting in the checker's book before the command, is at exactly the price that
/// maker rested at, and that maker belongs to another account. A stream with a trade at any
/// other price, or against the sender's own order, is refused. For a new order the trade
/// price is also within the order's limit (M2).
pub proof fn law_accepted_trades_are_at_resting_prices(
    cfg: Config,
    a: AuditView,
    env: Envelope,
    events: Seq<Event>,
)
    ensures
        audit_check(cfg, a, env, events) is Some ==> forall|j: int|
            #![trigger events[j]]
            0 <= j < events.len() && events[j] is Trade ==> a.live.contains_key(
                events[j]->Trade_maker_id.0,
            ) && events[j]->Trade_price.0 == a.live[events[j]->Trade_maker_id.0].price
                && a.live[events[j]->Trade_maker_id.0].account != env.account,
        audit_check(cfg, a, env, events) is Some && env.cmd is New ==> forall|j: int|
            #![trigger events[j]]
            0 <= j < events.len() && events[j] is Trade ==> crosses_at(
                env.cmd->New_side,
                limit_for(cfg, env.cmd->New_side, env.cmd->New_kind),
                events[j]->Trade_price.0,
            ),
{
    if command_ok(cfg, a, env, events) is Some {
        match env.cmd {
            Command::New { side, qty, kind } => {
                if !(events.len() == 1 && events[0] is Rejected) {
                    let limit = limit_for(cfg, side, kind);
                    lemma_trades_at_resting_price(a.live, a.live, env, side, limit, kind, qty.0, events, 0);
                }
            },
            Command::Replace { id, price, total_qty, post_only } => {
                if !(events.len() == 1 && events[0] is Rejected) {
                    let o = owned(a.live, id, env.account)->0;
                    if total_qty.0 > o.filled {
                        let kind = if post_only {
                            OrderKind::PostOnly { price }
                        } else {
                            OrderKind::Limit { price, tif: Tif::Gtc }
                        };
                        let limit = limit_for(cfg, o.side, kind);
                        lemma_trades_at_resting_price(
                            a.live,
                            a.live.remove(id.0),
                            env,
                            o.side,
                            limit,
                            kind,
                            (total_qty.0 - o.filled) as u32,
                            events,
                            1,
                        );
                    }
                }
            },
            _ => {},
        }
    }
}

/// A checker that has seen a stream of commands and their events.
pub struct Audit {
    cfg: Config,
    live: BTreeMap<u64, Live>,
    ever: HashSet<u64>,
    next_seq: u64,
}

impl View for Audit {
    type V = AuditView;

    closed spec fn view(&self) -> AuditView {
        AuditView {
            live: self.live@.map_values(|l: Live| lview(l)),
            ever: self.ever@,
            next_seq: self.next_seq as nat,
        }
    }
}

proof fn lemma_view_insert(m: Map<u64, Live>, k: u64, l: Live)
    ensures
        m.insert(k, l).map_values(|l: Live| lview(l)) == m.map_values(|l: Live| lview(l)).insert(
            k,
            lview(l),
        ),
{
    assert(m.insert(k, l).map_values(|l: Live| lview(l)) =~= m.map_values(|l: Live| lview(l)).insert(
        k,
        lview(l),
    ));
}

proof fn lemma_view_remove(m: Map<u64, Live>, k: u64)
    ensures
        m.remove(k).map_values(|l: Live| lview(l)) == m.map_values(|l: Live| lview(l)).remove(k),
{
    assert(m.remove(k).map_values(|l: Live| lview(l)) =~= m.map_values(|l: Live| lview(l)).remove(
        k,
    ));
}

impl Audit {
    /// The configuration the checker judges by.
    pub closed spec fn config(&self) -> Config {
        self.cfg
    }

    /// The checker's invariant.
    pub closed spec fn wf(&self) -> bool {
        &&& audit_inv(self@)
        &&& self.live@.dom() == self@.live.dom()
        &&& forall|k: u64| #[trigger] self.live@.contains_key(k) ==> self.live@[k].seq == self@.live[k].seq
    }

    /// One more order can be given an arrival number.
    pub open spec fn ready(&self) -> bool {
        self@.next_seq < u64::MAX
    }

    /// A checker that has seen nothing yet, judging by `cfg`.
    pub fn new(cfg: Config) -> (r: Audit)
        ensures
            r.wf(),
            r.config() == cfg,
            r@.live == Map::<u64, OrderView>::empty(),
            r@.ever == Set::<u64>::empty(),
            r@.next_seq == 0,
    {
        let r = Audit { cfg, live: BTreeMap::new(), ever: HashSet::new(), next_seq: 0 };
        assert(r@.live =~= Map::<u64, OrderView>::empty());
        r
    }

    /// The number of live orders.
    pub fn live_orders(&self) -> (r: usize)
        requires
            self.wf(),
        ensures
            r == self@.live.len(),
    {
        assert(self.live@.dom() =~= self@.live.dom());
        self.live.len()
    }

    /// The best maker on `maker_side` with its identifier.
    fn best(&self, maker_side: Side) -> (r: Option<(u64, Live)>)
        requires
            self.wf(),
        ensures
            r is None <==> best(self@.live, maker_side) is None,
            r matches Some((k, l)) ==> best(self@.live, maker_side) == Some(k) && self@.live[k]
                == lview(l) && self.live@.contains_key(k),
    {
        let ghost m = self@.live;
        let ghost v = spec_btree_map_iter(&self.live).remaining();
        let ghost mut n: int = 0;
        let mut cand: Option<(u64, Live)> = None;
        for kv in it: self.live.iter()
            invariant
                self.wf(),
                m == self@.live,
                v == spec_btree_map_iter(&self.live).remaining(),
                it.seq() == v,
                n == it.index(),
                cand matches Some((k, l)) ==> {
                    &&& m.contains_key(k)
                    &&& m[k] == lview(l)
                    &&& l.side == maker_side
                    &&& forall|j: int|
                        0 <= j < n && #[trigger] v[j].1.side == maker_side && *v[j].0 != k
                            ==> ahead(maker_side, m[k], m[*v[j].0])
                },
                cand is None ==> forall|j: int| 0 <= j < n ==> #[trigger] v[j].1.side != maker_side,
        {
            let (k, o) = kv;
            if o.side == maker_side {
                let better_one = match cand {
                    None => true,
                    Some((_, c)) => match maker_side {
                        Side::Buy => o.price.0 > c.price.0 || (o.price.0 == c.price.0 && o.seq
                            < c.seq),
                        Side::Sell => o.price.0 < c.price.0 || (o.price.0 == c.price.0 && o.seq
                            < c.seq),
                    },
                };
                if better_one {
                    cand = Some((*k, *o));
                }
            }
            proof {
                n = n + 1;
            }
        }
        proof {
            assert(n == v.len());
            match cand {
                Some((k, l)) => {
                    assert forall|t: u64|
                        m.contains_key(t) && m[t].side == maker_side && t != k implies ahead(
                            maker_side,
                            m[k],
                            m[t],
                        ) by {
                        assert(v.contains((&t, &self.live@[t])));
                        let j = choose|j: int| 0 <= j < v.len() && v[j] == (&t, &self.live@[t]);
                        assert(v[j].1.side == maker_side);
                    }
                    lemma_best_is(m, maker_side, k);
                },
                None => {
                    if exists|s: u64| is_best(m, maker_side, s) {
                        let s = choose|s: u64| is_best(m, maker_side, s);
                        assert(v.contains((&s, &self.live@[s])));
                        let j = choose|j: int| 0 <= j < v.len() && v[j] == (&s, &self.live@[s]);
                        assert(v[j].1.side != maker_side);
                    }
                },
            }
        }
        cand
    }

    /// The best maker against an order on `side` with `limit`, if it crosses.
    fn crossing(&self, side: Side, limit: Price) -> (r: Option<(u64, Live)>)
        requires
            self.wf(),
        ensures
            r is None <==> crossing(self@.live, side, limit.0) is None,
            r matches Some((k, l)) ==> crossing(self@.live, side, limit.0) == Some(k)
                && self@.live[k] == lview(l),
    {
        match self.best(side.opposite()) {
            Some((k, o)) => if side.crosses(limit, o.price) {
                Some((k, o))
            } else {
                None
            },
            None => None,
        }
    }

    /// The live order `id` if `account` owns it.
    fn owned(&self, id: OrderId, account: AccountId) -> (r: Option<Live>)
        requires
            self.wf(),
        ensures
            match r {
                Some(l) => owned(self@.live, id, account) == Some(lview(l)),
                None => owned(self@.live, id, account) is None,
            },
    {
        match self.live.get(&id.0) {
            Some(o) => if o.account == account {
                Some(*o)
            } else {
                None
            },
            None => None,
        }
    }

    /// The best bid is below the best ask (L6).
    fn check_not_crossed(&self) -> (r: Result<(), String>)
        requires
            self.wf(),
        ensures
            r is Ok <==> not_crossed(self@.live),
            r matches Err(m) ==> m@ == crossed_refusal(self@.live),
    {
        let bid = self.best(Side::Buy);
        let ask = self.best(Side::Sell);
        if let (Some((_, b)), Some((_, a))) = (bid, ask) {
            if !(b.price.0 < a.price.0) {
                return Err(
                    text4("L6: book crossed: bid ", price_text(b.price).as_str(), " >= ask ", price_text(a.price).as_str()),
                );
            }
        }
        Ok(())
    }

    /// The rejection a new order must get before the book is consulted.
    fn expected_static_reject(&self, qty: Qty, kind: OrderKind) -> (r: Option<RejectReason>)
        ensures
            r == static_reject(self.cfg, qty, kind),
    {
        let price = match kind {
            OrderKind::Limit { price, .. } => Some(price),
            OrderKind::PostOnly { price } => Some(price),
            OrderKind::Market { protection } => protection,
        };
        let bad_price = match price {
            Some(p) => !self.cfg.price_ok(p),
            None => false,
        };
        if bad_price {
            Some(RejectReason::InvalidPrice)
        } else if !self.cfg.qty_ok(qty) {
            Some(RejectReason::InvalidQty)
        } else {
            None
        }
    }

    /// A lone rejection of a new order names the reason the rules give.
    fn check_new_rejection(&self, side: Side, qty: Qty, kind: OrderKind, reason: RejectReason) -> (r:
        Result<(), String>)
        requires
            self.wf(),
        ensures
            r is Ok <==> new_rejection_ok(self.cfg, self@.live, side, qty, kind, reason),
            r matches Err(m) ==> m@ == new_rejection_refusal(self.cfg, self@.live, side, qty, kind, reason),
    {
        if let Some(expected) = self.expected_static_reject(qty, kind) {
            if reason != expected {
                return Err(
                    text4("expected ", reject_name(expected), ", got ", reject_name(reason)),
                );
            }
            return Ok(());
        }
        match kind {
            OrderKind::PostOnly { price } => {
                let expected = if self.crossing(side, price).is_some() {
                    RejectReason::PostOnlyWouldCross
                } else {
                    RejectReason::BookFull
                };
                if reason != expected {
                    return Err(
                        text4("post-only: expected ", reject_name(expected), ", got ", reject_name(reason)),
                    );
                }
            },
            OrderKind::Limit { price, tif: Tif::Gtc } => {
                if reason != RejectReason::BookFull {
                    return Err(text2("GTC rejected with ", reject_name(reason)));
                }
                if self.crossing(side, price).is_some() {
                    return Err("marketable GTC rejected as BookFull (011)".to_string());
                }
            },
            _ => {
                return Err(
                    text3("valid IOC/market order rejected with ", reject_name(reason), " (004)"),
                );
            },
        }
        Ok(())
    }

    /// The flow of a new order from position `start`: its trades, then exactly one
    /// terminal event (E1, E2, M1 to M6, C2, S2, S4).
    #[verifier::rlimit(40)]
    fn check_flow(
        &mut self,
        env: &Envelope,
        side: Side,
        qty: u32,
        kind: OrderKind,
        events: &[Event],
        start: usize,
    ) -> (r: Result<(), String>)
        requires
            old(self).wf(),
            old(self).ready(),
            start <= events.len(),
        ensures
            final(self).wf(),
            final(self).config() == old(self).config(),
            r is Ok <==> flow_ok(
                old(self).config(),
                old(self)@,
                *env,
                side,
                qty,
                kind,
                events@,
                start as int,
            ) is Some,
            r is Ok ==> final(self)@ == flow_ok(
                old(self).config(),
                old(self)@,
                *env,
                side,
                qty,
                kind,
                events@,
                start as int,
            )->0,
            r matches Err(m) ==> final(self)@ == (AuditView {
                live: flow_refusal(old(self).config(), old(self)@, *env, side, qty, kind, events@, start as int).0,
                ..old(self)@
            }) && m@ == flow_refusal(old(self).config(), old(self)@, *env, side, qty, kind, events@, start as int).1,
    {
        let ghost a0 = self@;
        let limit = self.cfg.limit_of(side, kind);
        let mut remaining = qty;
        let mut i = start;
        loop
            invariant
                self.wf(),
                self.cfg == old(self).cfg,
                self@.ever == a0.ever,
                self@.next_seq == a0.next_seq,
                a0 == old(self)@,
                limit.0 == limit_for(self.cfg, side, kind),
                start <= i <= events.len(),
                trades_ok(a0.live, *env, side, limit.0, kind, qty, events@, start as int)
                    == trades_ok(self@.live, *env, side, limit.0, kind, remaining, events@, i as int),
                trades_refusal(a0.live, *env, side, limit.0, kind, qty, events@, start as int)
                    == trades_refusal(self@.live, *env, side, limit.0, kind, remaining, events@, i as int),
            ensures
                self.wf(),
                self.cfg == old(self).cfg,
                self@.ever == a0.ever,
                self@.next_seq == a0.next_seq,
                start <= i <= events.len(),
                trades_ok(a0.live, *env, side, limit.0, kind, qty, events@, start as int) == Some(
                    (self@.live, remaining, i as int),
                ),
            decreases events.len() - i,
        {
            if i >= events.len() {
                break;
            }
            let e = events[i];
            let (taker_side, maker_id, price, q, maker_remaining, ts) = match e {
                Event::Trade { taker_side, maker_id, price, qty, maker_remaining, ts, .. } => (
                    taker_side,
                    maker_id,
                    price,
                    qty,
                    maker_remaining,
                    ts,
                ),
                _ => {
                    break;
                },
            };
            if let OrderKind::PostOnly { .. } = kind {
                return Err("M4: post-only traded on arrival".to_string());
            }
            if !(taker_side == side && ts == env.ts) {
                return Err("trade has wrong taker side or ts".to_string());
            }
            if remaining == 0 {
                return Err("trade after the taker was filled".to_string());
            }
            let (best_id, maker) = match self.best(side.opposite()) {
                Some(b) => b,
                None => {
                    return Err("trade against an empty side".to_string());
                },
            };
            if maker_id.0 != best_id {
                return Err(
                    text4("M3: traded with ", id_text(maker_id.0).as_str(), ", best/oldest was ", id_text(best_id).as_str()),
                );
            }
            if !side.crosses(limit, maker.price) {
                return Err("M2: trade beyond the taker's limit".to_string());
            }
            if price.0 != maker.price.0 {
                return Err("M1: trade price is not the maker's price".to_string());
            }
            if maker.account == env.account {
                return Err("M6: self-trade".to_string());
            }
            let fill = if remaining <= maker.remaining {
                remaining
            } else {
                maker.remaining
            };
            if q.0 != fill {
                return Err(
                    text4("fill qty ", decimal_text(q.0 as u64).as_str(), " != min(taker, maker) ", decimal_text(fill as u64).as_str()),
                );
            }
            if maker_remaining.0 != maker.remaining - fill {
                return Err("wrong maker_remaining".to_string());
            }
            remaining = remaining - fill;
            i = i + 1;
            if maker_remaining.0 == 0 {
                if !(i < events.len() && events[i] == Event::MakerFilled { id: maker_id }) {
                    return Err(
                        "E3: MakerFilled must immediately follow the maker's last trade".to_string(),
                    );
                }
                proof {
                    lemma_view_remove(self.live@, best_id);
                }
                self.live.remove(&best_id);
                i = i + 1;
            } else {
                let updated = Live {
                    remaining: maker.remaining - fill,
                    filled: maker.filled + fill,
                    ..maker
                };
                proof {
                    lemma_view_insert(self.live@, best_id, updated);
                }
                self.live.insert(best_id, updated);
            }
        }
        if !(i < events.len() && i + 1 == events.len()) {
            return Err("E2: expected exactly one terminal event after the trades".to_string());
        }
        let next = self.crossing(side, limit);
        match events[i] {
            Event::Filled { .. } => {
                if remaining != 0 {
                    return Err(
                        text3("E1: Filled with ", decimal_text(remaining as u64).as_str(), " remaining"),
                    );
                }
            },
            Event::Rested { id, qty: q, .. } => {
                if !rests(kind) {
                    return Err("M5: IOC/market order rested".to_string());
                }
                if !(remaining > 0 && q.0 == remaining) {
                    return Err(
                        text4("E1: rested qty ", decimal_text(q.0 as u64).as_str(), " != remaining ", decimal_text(remaining as u64).as_str()),
                    );
                }
                if next.is_some() {
                    return Err("rested while crossing liquidity remained".to_string());
                }
                if id.generation() % 2 != 1 {
                    return Err("S2: live ID with even generation".to_string());
                }
                if !self.ever.insert(id.0) {
                    proof {
                        assert(self@.ever =~= a0.ever);
                    }
                    return Err(text3("S4: ID ", id_text(id.0).as_str(), " was issued twice"));
                }
                let seq = self.next_seq;
                self.next_seq = self.next_seq + 1;
                let l = Live { account: env.account, side, price: limit, remaining, filled: 0, seq };
                proof {
                    lemma_view_insert(self.live@, id.0, l);
                }
                self.live.insert(id.0, l);
            },
            Event::Cancelled { id: None, qty: q, reason, .. } => {
                if !(remaining > 0 && q.0 == remaining) {
                    return Err(
                        text4("E1: cancelled qty ", decimal_text(q.0 as u64).as_str(), " != remaining ", decimal_text(remaining as u64).as_str()),
                    );
                }
                match reason {
                    CancelReason::Unfilled => {
                        if rests(kind) {
                            return Err("GTC/post-only cancelled as Unfilled".to_string());
                        }
                        if next.is_some() {
                            return Err("IOC stopped while crossing liquidity remained".to_string());
                        }
                    },
                    CancelReason::SelfTrade => {
                        let own = match next {
                            Some((_, o)) => o.account == env.account,
                            None => false,
                        };
                        if !own {
                            return Err(
                                "SelfTrade cancel but the next maker is not the sender's".to_string(),
                            );
                        }
                    },
                    CancelReason::CapacityExhausted => {
                        let gtc = match kind {
                            OrderKind::Limit { tif: Tif::Gtc, .. } => true,
                            _ => false,
                        };
                        if !gtc {
                            return Err("C2: CapacityExhausted on a non-GTC order".to_string());
                        }
                        if next.is_some() {
                            return Err("CapacityExhausted before matching finished".to_string());
                        }
                    },
                    other => {
                        return Err(text2("invalid taker cancel reason ", cancel_name(other)));
                    },
                }
            },
            other => {
                return Err(text2("invalid terminal event ", event_text(&other).as_str()));
            },
        }
        Ok(())
    }

    /// A reduce's single event agrees with the order it names (O1, O2).
    fn check_reduce(&mut self, env: &Envelope, id: OrderId, total: u32, events: &[Event]) -> (r:
        Result<(), String>)
        requires
            old(self).wf(),
        ensures
            final(self).wf(),
            final(self).config() == old(self).config(),
            r is Ok <==> reduce_ok(old(self)@, *env, id, total, events@) is Some,
            r is Ok ==> final(self)@ == reduce_ok(old(self)@, *env, id, total, events@)->0,
            r is Err ==> final(self)@ == old(self)@,
            r matches Err(m) ==> m@ == reduce_refusal(old(self)@, *env, id, total, events@),
    {
        let owned = self.owned(id, env.account);
        if events.len() != 1 {
            return Err("reduce produced an invalid event sequence".to_string());
        }
        match events[0] {
            Event::Rejected { reason: RejectReason::UnknownOrStaleId, .. } => {
                if owned.is_some() {
                    return Err("reduce of a live owned order rejected as unknown".to_string());
                }
            },
            Event::Rejected { reason: RejectReason::InvalidChange, .. } => {
                let o = match owned {
                    Some(o) => o,
                    None => {
                        return Err("InvalidChange for an unknown order".to_string());
                    },
                };
                if !(total as u64 > o.filled as u64 + o.remaining as u64) {
                    return Err("valid reduce rejected".to_string());
                }
            },
            Event::Cancelled { id: Some(got), qty, reason: CancelReason::ReduceToZero, .. } => {
                let o = match owned {
                    Some(o) => o,
                    None => {
                        return Err("O1: reduced an order not owned by the sender".to_string());
                    },
                };
                if !(got == id && total <= o.filled && qty.0 == o.remaining) {
                    return Err("bad ReduceToZero".to_string());
                }
                proof {
                    lemma_view_remove(self.live@, id.0);
                }
                self.live.remove(&id.0);
            },
            Event::Reduced { id: got, filled, remaining, .. } => {
                let o = match owned {
                    Some(o) => o,
                    None => {
                        return Err("O1: reduced an order not owned by the sender".to_string());
                    },
                };
                if !(got == id && filled.0 == o.filled) {
                    return Err("Reduced reports wrong id or filled".to_string());
                }
                if !(total > o.filled && total as u64 <= o.filled as u64 + o.remaining as u64) {
                    return Err("O2: reduce outside the allowed range".to_string());
                }
                if remaining.0 != total - o.filled {
                    return Err("Reduced remaining != total - filled".to_string());
                }
                let updated = Live { remaining: remaining.0, ..o };
                proof {
                    lemma_view_insert(self.live@, id.0, updated);
                }
                self.live.insert(id.0, updated);
            },
            _ => {
                return Err("reduce produced an invalid event sequence".to_string());
            },
        }
        Ok(())
    }

    /// The replace rules (decision 007): refusals in their order of precedence, else the
    /// old order is cancelled first and the replacement's flow follows.
    fn check_replace(
        &mut self,
        env: &Envelope,
        id: OrderId,
        price: Price,
        total_qty: Qty,
        post_only: bool,
        events: &[Event],
    ) -> (r: Result<(), String>)
        requires
            old(self).wf(),
            old(self).ready(),
        ensures
            final(self).wf(),
            final(self).config() == old(self).config(),
            r is Ok <==> replace_ok(
                old(self).config(),
                old(self)@,
                *env,
                id,
                price,
                total_qty,
                post_only,
                events@,
            ) is Some,
            r is Ok ==> final(self)@ == replace_ok(
                old(self).config(),
                old(self)@,
                *env,
                id,
                price,
                total_qty,
                post_only,
                events@,
            )->0,
            r matches Err(m) ==> final(self)@ == (AuditView {
                live: replace_refusal(old(self).config(), old(self)@, *env, id, price, total_qty, post_only, events@).0,
                ..old(self)@
            }) && m@ == replace_refusal(old(self).config(), old(self)@, *env, id, price, total_qty, post_only, events@).1,
    {
        let static_reject = if !self.cfg.price_ok(price) {
            Some(RejectReason::InvalidPrice)
        } else if total_qty.0 > self.cfg.max_order_qty.0 {
            Some(RejectReason::InvalidQty)
        } else {
            None
        };
        let owned = self.owned(id, env.account);
        if events.len() == 1 {
            if let Event::Rejected { reason, .. } = events[0] {
                if let Some(expected) = static_reject {
                    if reason != expected {
                        return Err(
                            text4("replace: expected ", reject_name(expected), ", got ", reject_name(reason)),
                        );
                    }
                    return Ok(());
                }
                let o = match owned {
                    Some(o) => o,
                    None => {
                        if reason != RejectReason::UnknownOrStaleId {
                            return Err("replace: expected UnknownOrStaleId".to_string());
                        }
                        return Ok(());
                    },
                };
                if !(total_qty.0 > o.filled) {
                    return Err("replace to total <= filled must cancel, not reject".to_string());
                }
                let expected = if post_only && self.crossing(o.side, price).is_some() {
                    RejectReason::PostOnlyWouldCross
                } else {
                    RejectReason::BookFull
                };
                if reason != expected {
                    return Err(
                        text4("replace: expected ", reject_name(expected), ", got ", reject_name(reason)),
                    );
                }
                return Ok(());
            }
        }
        if static_reject.is_some() {
            return Err("invalid replace was not rejected".to_string());
        }
        let o = match owned {
            Some(o) => o,
            None => {
                return Err("O1: replaced an order not owned by the sender".to_string());
            },
        };
        let first = Event::Cancelled {
            req: env.req,
            id: Some(id),
            qty: Qty(o.remaining),
            reason: CancelReason::Replaced,
        };
        if !(events.len() >= 1 && events[0] == first) {
            return Err(
                "replace must start with Cancelled{Replaced} for the old order".to_string(),
            );
        }
        proof {
            lemma_view_remove(self.live@, id.0);
        }
        self.live.remove(&id.0);
        let new_remaining = if total_qty.0 > o.filled {
            total_qty.0 - o.filled
        } else {
            0
        };
        if new_remaining == 0 {
            if events.len() != 1 {
                return Err("replace to total <= filled must only cancel".to_string());
            }
            return Ok(());
        }
        let kind = if post_only {
            OrderKind::PostOnly { price }
        } else {
            OrderKind::Limit { price, tif: Tif::Gtc }
        };
        self.check_flow(env, o.side, new_remaining, kind, events, 1)
    }

    /// The events a command caused are ones the rules allow.
    fn check_command(&mut self, env: &Envelope, events: &[Event]) -> (r: Result<(), String>)
        requires
            old(self).wf(),
            old(self).ready(),
        ensures
            final(self).wf(),
            final(self).config() == old(self).config(),
            r is Ok <==> command_ok(old(self).config(), old(self)@, *env, events@) is Some,
            r is Ok ==> final(self)@ == command_ok(old(self).config(), old(self)@, *env, events@)->0,
            r matches Err(m) ==> final(self)@ == command_refusal(old(self).config(), old(self)@, *env, events@).0
                && m@ == command_refusal(old(self).config(), old(self)@, *env, events@).1,
    {
        let mut j: usize = 0;
        while j < events.len()
            invariant
                *self == *old(self),
                old(self).wf(),
                j <= events.len(),
                forall|k: int| 0 <= k < j ==> event_req(#[trigger] events@[k], *env) == env.req,
                wrong_req_from(events@, *env, 0) == wrong_req_from(events@, *env, j as int),
            decreases events.len() - j,
        {
            let req = event_req_of(&events[j], env);
            if req != env.req {
                return Err(
                    text4("event carries req ", decimal_text(req).as_str(), ", command req is ", decimal_text(env.req).as_str()),
                );
            }
            j = j + 1;
        }
        match env.cmd {
            Command::New { side, qty, kind } => {
                if events.len() == 1 {
                    if let Event::Rejected { reason, .. } = events[0] {
                        return self.check_new_rejection(side, qty, kind, reason);
                    }
                }
                if self.expected_static_reject(qty, kind).is_some() {
                    return Err("invalid order was not rejected".to_string());
                }
                self.check_flow(env, side, qty.0, kind, events, 0)
            },
            Command::Cancel { id } => {
                if events.len() != 1 {
                    return Err("cancel produced an invalid event sequence".to_string());
                }
                match events[0] {
                    Event::Rejected { reason: RejectReason::UnknownOrStaleId, .. } => {
                        if self.owned(id, env.account).is_some() {
                            return Err("cancel of a live owned order was rejected".to_string());
                        }
                        Ok(())
                    },
                    Event::Cancelled { id: Some(got), qty, reason: CancelReason::User, .. } => {
                        let o = match self.owned(id, env.account) {
                            Some(o) => o,
                            None => {
                                return Err(
                                    "O1: cancelled an order not owned by the sender".to_string(),
                                );
                            },
                        };
                        if !(got == id && qty.0 == o.remaining) {
                            return Err("cancel reported wrong id or qty".to_string());
                        }
                        proof {
                            lemma_view_remove(self.live@, id.0);
                        }
                        self.live.remove(&id.0);
                        Ok(())
                    },
                    _ => Err("cancel produced an invalid event sequence".to_string()),
                }
            },
            Command::Reduce { id, total_qty } => self.check_reduce(env, id, total_qty.0, events),
            Command::Replace { id, price, total_qty, post_only } => self.check_replace(
                env,
                id,
                price,
                total_qty,
                post_only,
                events,
            ),
        }
    }

    /// Checks the events one command caused against the rules and the book the checker has
    /// rebuilt, and takes them in. A refusal names the broken rule and shows the command
    /// and its events.
    pub fn check(&mut self, env: &Envelope, events: &[Event]) -> (r: Result<(), String>)
        requires
            old(self).wf(),
            old(self).ready(),
        ensures
            final(self).wf(),
            final(self).config() == old(self).config(),
            r is Ok <==> audit_check(old(self).config(), old(self)@, *env, events@) is Some,
            r is Ok ==> final(self)@ == audit_check(old(self).config(), old(self)@, *env, events@)->0,
            r matches Err(m) ==> final(self)@ == refused_state(old(self).config(), old(self)@, *env, events@)
                && m@ == refusal_text(old(self).config(), old(self)@, *env, events@),
    {
        let res = match self.check_command(env, events) {
            Ok(()) => self.check_not_crossed(),
            Err(e) => Err(e),
        };
        match res {
            Ok(()) => Ok(()),
            Err(e) => Err(with_context(e, env, events)),
        }
    }
}

/// The request an event answers (a maker fill answers the command that caused it).
fn event_req_of(e: &Event, env: &Envelope) -> (r: u64)
    ensures
        r == event_req(*e, *env),
{
    match *e {
        Event::Rejected { req, .. } => req,
        Event::Rested { req, .. } => req,
        Event::Filled { req } => req,
        Event::Cancelled { req, .. } => req,
        Event::Reduced { req, .. } => req,
        Event::Trade { taker_req, .. } => taker_req,
        Event::MakerFilled { .. } => env.req,
    }
}

/// What `text` writes: the pieces one after the other.
pub open spec fn joined(parts: Seq<&str>) -> Seq<char>
    decreases parts.len(),
{
    if parts.len() == 0 {
        Seq::empty()
    } else {
        joined(parts.drop_last()) + parts.last()@
    }
}

/// The pieces written one after the other.
fn text(parts: &[&str]) -> (r: String)
    ensures
        r@ == joined(parts@),
{
    let mut s = String::new();
    let mut i: usize = 0;
    while i < parts.len()
        invariant
            i <= parts.len(),
            s@ == joined(parts@.take(i as int)),
        decreases parts.len() - i,
    {
        assert(parts@.take(i + 1).drop_last() =~= parts@.take(i as int));
        s.append(parts[i]);
        i = i + 1;
    }
    assert(parts@.take(i as int) =~= parts@);
    s
}

/// Two pieces written one after the other.
fn text2(a: &str, b: &str) -> (r: String)
    ensures
        r@ == a@ + b@,
{
    let r = text(&[a, b]);
    proof {
        reveal_with_fuel(joined, 3);
    }
    r
}

/// Three pieces written one after the other.
fn text3(a: &str, b: &str, c: &str) -> (r: String)
    ensures
        r@ == a@ + b@ + c@,
{
    let r = text(&[a, b, c]);
    proof {
        reveal_with_fuel(joined, 4);
    }
    r
}

/// Four pieces written one after the other.
fn text4(a: &str, b: &str, c: &str, d: &str) -> (r: String)
    ensures
        r@ == a@ + b@ + c@ + d@,
{
    let r = text(&[a, b, c, d]);
    proof {
        reveal_with_fuel(joined, 5);
    }
    r
}

/// Five pieces written one after the other.
fn text5(a: &str, b: &str, c: &str, d: &str, e: &str) -> (r: String)
    ensures
        r@ == a@ + b@ + c@ + d@ + e@,
{
    let r = text(&[a, b, c, d, e]);
    proof {
        reveal_with_fuel(joined, 6);
    }
    r
}

/// The character of a decimal digit.
pub open spec fn digit_char(d: nat) -> char {
    if d == 0 {
        '0'
    } else if d == 1 {
        '1'
    } else if d == 2 {
        '2'
    } else if d == 3 {
        '3'
    } else if d == 4 {
        '4'
    } else if d == 5 {
        '5'
    } else if d == 6 {
        '6'
    } else if d == 7 {
        '7'
    } else if d == 8 {
        '8'
    } else {
        '9'
    }
}

/// A number in decimal, most significant digit first, without leading zeros.
pub open spec fn decimal(n: nat) -> Seq<char>
    decreases n,
{
    if n < 10 {
        seq![digit_char(n)]
    } else {
        decimal(n / 10).push(digit_char(n % 10))
    }
}

/// The digit as a one-character string.
fn digit_str(d: u64) -> (r: &'static str)
    requires
        d < 10,
    ensures
        r@ == seq![digit_char(d as nat)],
{
    proof {
        reveal_strlit("0");
        reveal_strlit("1");
        reveal_strlit("2");
        reveal_strlit("3");
        reveal_strlit("4");
        reveal_strlit("5");
        reveal_strlit("6");
        reveal_strlit("7");
        reveal_strlit("8");
        reveal_strlit("9");
    }
    if d == 0 {
        "0"
    } else if d == 1 {
        "1"
    } else if d == 2 {
        "2"
    } else if d == 3 {
        "3"
    } else if d == 4 {
        "4"
    } else if d == 5 {
        "5"
    } else if d == 6 {
        "6"
    } else if d == 7 {
        "7"
    } else if d == 8 {
        "8"
    } else {
        "9"
    }
}

/// The number in decimal, as `Display` and `Debug` write an unsigned integer.
pub(crate) fn decimal_text(n: u64) -> (r: String)
    ensures
        r@ == decimal(n as nat),
    decreases n,
{
    if n < 10 {
        let mut s = String::new();
        s.append(digit_str(n));
        s
    } else {
        let mut s = decimal_text(n / 10);
        s.append(digit_str(n % 10));
        s
    }
}

/// A price as `Debug` writes it.
fn price_text(p: Price) -> (r: String)
    ensures
        r@ == "Price("@ + decimal(p.0 as nat) + ")"@,
{
    let d = decimal_text(p.0 as u64);
    let r = text(&["Price(", d.as_str(), ")"]);
    proof {
        reveal_with_fuel(joined, 4);
    }
    r
}

/// An order id as `Debug` writes it.
fn id_text(id: u64) -> (r: String)
    ensures
        r@ == "OrderId("@ + decimal(id as nat) + ")"@,
{
    let d = decimal_text(id);
    let r = text(&["OrderId(", d.as_str(), ")"]);
    proof {
        reveal_with_fuel(joined, 4);
    }
    r
}

/// The name of a rejection reason, as written in a refusal.
pub open spec fn reject_text(r: RejectReason) -> Seq<char> {
    match r {
        RejectReason::InvalidPrice => "InvalidPrice"@,
        RejectReason::InvalidQty => "InvalidQty"@,
        RejectReason::PostOnlyWouldCross => "PostOnlyWouldCross"@,
        RejectReason::BookFull => "BookFull"@,
        RejectReason::UnknownOrStaleId => "UnknownOrStaleId"@,
        RejectReason::InvalidChange => "InvalidChange"@,
    }
}

/// The name of a cancel reason, as written in a refusal.
pub open spec fn cancel_text(r: CancelReason) -> Seq<char> {
    match r {
        CancelReason::User => "User"@,
        CancelReason::Unfilled => "Unfilled"@,
        CancelReason::SelfTrade => "SelfTrade"@,
        CancelReason::ReduceToZero => "ReduceToZero"@,
        CancelReason::Replaced => "Replaced"@,
        CancelReason::CapacityExhausted => "CapacityExhausted"@,
    }
}

/// The name of the rejection reason.
fn reject_name(r: RejectReason) -> (s: &'static str)
    ensures
        s@ == reject_text(r),
{
    match r {
        RejectReason::InvalidPrice => "InvalidPrice",
        RejectReason::InvalidQty => "InvalidQty",
        RejectReason::PostOnlyWouldCross => "PostOnlyWouldCross",
        RejectReason::BookFull => "BookFull",
        RejectReason::UnknownOrStaleId => "UnknownOrStaleId",
        RejectReason::InvalidChange => "InvalidChange",
    }
}

/// The name of the cancel reason.
fn cancel_name(r: CancelReason) -> (s: &'static str)
    ensures
        s@ == cancel_text(r),
{
    match r {
        CancelReason::User => "User",
        CancelReason::Unfilled => "Unfilled",
        CancelReason::SelfTrade => "SelfTrade",
        CancelReason::ReduceToZero => "ReduceToZero",
        CancelReason::Replaced => "Replaced",
        CancelReason::CapacityExhausted => "CapacityExhausted",
    }
}

/// What the derived `Debug` writes for an event.
pub uninterp spec fn event_debug(e: Event) -> Seq<char>;

/// What the derived `Debug` writes for a command.
pub uninterp spec fn envelope_debug(env: Envelope) -> Seq<char>;

/// What the derived `Debug` writes for a slice of events.
pub uninterp spec fn events_debug(events: Seq<Event>) -> Seq<char>;

/// The event as `Debug` writes it, through std's `format!` and the derived `Debug`: the
/// text depends on the event alone.
#[verifier::external_body]
fn event_text(e: &Event) -> (r: String)
    ensures
        r@ == event_debug(*e),
{
    format!("{e:?}")
}

/// The command as `Debug` writes it, through std's `format!` and the derived `Debug`: the
/// text depends on the command alone.
#[verifier::external_body]
fn envelope_text(env: &Envelope) -> (r: String)
    ensures
        r@ == envelope_debug(*env),
{
    format!("{env:?}")
}

/// The events as `Debug` writes a slice of them, through std's `format!` and the derived
/// `Debug`: the text depends on the events alone.
#[verifier::external_body]
fn events_text(events: &[Event]) -> (r: String)
    ensures
        r@ == events_debug(events@),
{
    format!("{events:?}")
}

/// A refusal followed by the command and the events it was about.
pub open spec fn in_context(rule: Seq<char>, env: Envelope, events: Seq<Event>) -> Seq<char> {
    rule + "\n  command: "@ + envelope_debug(env) + "\n  events:  "@ + events_debug(events)
}

/// A refusal followed by the command and the events it was about.
fn with_context(msg: String, env: &Envelope, events: &[Event]) -> (r: String)
    ensures
        r@ == in_context(msg@, *env, events@),
{
    let c = envelope_text(env);
    let e = events_text(events);
    text5(msg.as_str(), "\n  command: ", c.as_str(), "\n  events:  ", e.as_str())
}

} // verus!
