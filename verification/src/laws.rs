//! Properties of the book model that every engine following it inherits.
use vstd::prelude::*;

use crate::model::{
    ahead, best, best_price, book_inv, is_best, lemma_best_exists, lemma_step_inv, lookup, marketable,
    match_loop, remove_order, step, submit, will_retire, BookView, MatchOutcome, OrderView,
};
use crate::types::{
    crosses_at, gen_of, limit_for, opposite_of, rests_spec, slot_of, CancelReason, Command,
    Config, Envelope, Event, OrderId, OrderKind, Price, Qty, RejectReason, Side, Tif,
    price_in_range,
};

verus! {

/// The lots a trade event moves (zero for other events).
pub open spec fn trade_qty(e: Event) -> int {
    match e {
        Event::Trade { qty, .. } => qty.0 as int,
        _ => 0,
    }
}

/// The lots traded by all trade events of `evs`.
pub open spec fn traded(evs: Seq<Event>) -> int
    decreases evs.len(),
{
    if evs.len() == 0 {
        0
    } else {
        traded(evs.drop_last()) + trade_qty(evs.last())
    }
}

/// The lots a taker's terminal event accounts for: what rested or what was cancelled;
/// nothing for `Filled`.
pub open spec fn terminal_qty(e: Event) -> int {
    match e {
        Event::Rested { qty, .. } => qty.0 as int,
        Event::Cancelled { qty, .. } => qty.0 as int,
        _ => 0,
    }
}

/// The events are exactly one rejection.
pub open spec fn is_rejection(evs: Seq<Event>) -> bool {
    evs.len() == 1 && evs[0] is Rejected
}

proof fn lemma_traded_push(evs: Seq<Event>, e: Event)
    ensures
        traded(evs.push(e)) == traded(evs) + trade_qty(e),
{
    assert(evs.push(e).drop_last() =~= evs);
}

/// What matching appends: only trades (each within the taker's limit, each naming the
/// taker's side) and maker fills, and the traded lots are what the taker lost.
proof fn lemma_match_events(
    cfg: Config,
    st: BookView,
    env: Envelope,
    side: Side,
    limit: u16,
    remaining: u32,
    events: Seq<Event>,
)
    ensures
        ({
            let m = match_loop(cfg, st, env, side, limit, remaining, events);
            &&& m.events.len() >= events.len()
            &&& m.events.subrange(0, events.len() as int) == events
            &&& traded(m.events) == traded(events) + remaining - m.remaining
            &&& m.remaining <= remaining
            &&& forall|i: int|
                #![trigger m.events[i]]
                events.len() <= i < m.events.len() ==> (m.events[i] is Trade || m.events[i] is MakerFilled)
            &&& forall|i: int|
                #![trigger m.events[i]]
                events.len() <= i < m.events.len() && m.events[i] is Trade ==> crosses_at(
                    side,
                    limit,
                    m.events[i]->Trade_price.0,
                ) && m.events[i]->Trade_taker_side == side && m.events[i]->Trade_qty.0 >= 1
        }),
    decreases remaining,
{
    let opp = opposite_of(side);
    if remaining == 0 {
        assert(events.subrange(0, events.len() as int) =~= events);
    } else {
        match best(st.orders, opp) {
            None => {
                assert(events.subrange(0, events.len() as int) =~= events);
            },
            Some(s) => {
                let m = st.orders[s];
                if !crosses_at(side, limit, m.price) || m.account == env.account || m.remaining == 0 {
                    assert(events.subrange(0, events.len() as int) =~= events);
                } else {
                    let fill = crate::model::min_u32(remaining, m.remaining);
                    let left = (m.remaining - fill) as u32;
                    let maker_id = crate::model::id_in(st, s);
                    let trade = Event::Trade {
                        taker_req: env.req,
                        taker_side: side,
                        maker_id,
                        price: crate::types::Price(m.price),
                        qty: crate::types::Qty(fill),
                        maker_remaining: crate::types::Qty(left),
                        ts: env.ts,
                    };
                    let ev1 = if left == 0 {
                        events.push(trade).push(Event::MakerFilled { id: maker_id })
                    } else {
                        events.push(trade)
                    };
                    let st1 = if left == 0 {
                        crate::model::remove_order(cfg, st, s)
                    } else {
                        BookView {
                            orders: st.orders.insert(
                                s,
                                crate::model::OrderView { remaining: left, filled: (m.filled + fill) as u32, ..m },
                            ),
                            ..st
                        }
                    };
                    lemma_match_events(cfg, st1, env, side, limit, (remaining - fill) as u32, ev1);
                    lemma_traded_push(events, trade);
                    if left == 0 {
                        lemma_traded_push(events.push(trade), Event::MakerFilled { id: maker_id });
                    }
                    let r = match_loop(cfg, st1, env, side, limit, (remaining - fill) as u32, ev1);
                    assert(r.events.subrange(0, events.len() as int) =~= r.events.subrange(0, ev1.len() as int).subrange(0, events.len() as int));
                    assert forall|i: int| #![trigger r.events[i]] events.len() <= i < r.events.len() implies (r.events[i] is Trade || r.events[i] is MakerFilled) by {
                        if i < ev1.len() {
                            assert(r.events[i] == r.events.subrange(0, ev1.len() as int)[i]);
                        }
                    }
                    assert forall|i: int| #![trigger r.events[i]] events.len() <= i < r.events.len() && r.events[i] is Trade implies crosses_at(
                        side,
                        limit,
                        r.events[i]->Trade_price.0,
                    ) && r.events[i]->Trade_taker_side == side && r.events[i]->Trade_qty.0 >= 1 by {
                        if i < ev1.len() {
                            assert(r.events[i] == r.events.subrange(0, ev1.len() as int)[i]);
                        }
                    }
                }
            },
        }
    }
}

/// Each trade with nothing left of its maker is followed at once by that maker's fill, and
/// each maker fill comes right after the trade that emptied its maker.
pub open spec fn fills_paired(evs: Seq<Event>) -> bool {
    &&& forall|i: int|
        #![trigger evs[i]]
        0 <= i < evs.len() && evs[i] is Trade ==> (evs[i]->Trade_maker_remaining.0 == 0 <==> (i + 1
            < evs.len() && evs[i + 1] == Event::MakerFilled { id: evs[i]->Trade_maker_id }))
    &&& forall|i: int|
        #![trigger evs[i]]
        0 <= i < evs.len() && evs[i] is MakerFilled ==> 0 < i && evs[i - 1] is Trade && evs[i
            - 1]->Trade_maker_remaining.0 == 0 && evs[i - 1]->Trade_maker_id == evs[i]->MakerFilled_id
}

/// From position `n` on: a trade comes first; a trade that empties its maker is followed
/// by the maker's fill, any other by another trade or by nothing; a maker fill follows the
/// trade that emptied its maker.
spec fn pairs_from(evs: Seq<Event>, n: int) -> bool {
    &&& evs.len() > n ==> evs[n] is Trade
    &&& forall|i: int|
        #![trigger evs[i]]
        n <= i < evs.len() && evs[i] is Trade ==> if evs[i]->Trade_maker_remaining.0 == 0 {
            i + 1 < evs.len() && evs[i + 1] == Event::MakerFilled { id: evs[i]->Trade_maker_id }
        } else {
            i + 1 == evs.len() || evs[i + 1] is Trade
        }
    &&& forall|i: int|
        #![trigger evs[i]]
        n <= i < evs.len() && evs[i] is MakerFilled ==> n < i && evs[i - 1] is Trade && evs[i
            - 1]->Trade_maker_remaining.0 == 0 && evs[i - 1]->Trade_maker_id == evs[i]->MakerFilled_id
}

/// One more trade (and its maker fill, if it emptied the maker) in front keeps the order.
proof fn lemma_pairs_extend(evs: Seq<Event>, n: int, emptied: bool)
    requires
        0 <= n < evs.len(),
        evs[n] is Trade,
        (evs[n]->Trade_maker_remaining.0 == 0) == emptied,
        emptied ==> n + 1 < evs.len() && evs[n + 1] == (Event::MakerFilled {
            id: evs[n]->Trade_maker_id,
        }),
        pairs_from(evs, (if emptied { n + 2 } else { n + 1 })),
    ensures
        pairs_from(evs, n),
{
    let n1 = if emptied {
        n + 2
    } else {
        n + 1
    };
    assert forall|i: int|
        #![trigger evs[i]]
        n <= i < evs.len() && evs[i] is Trade implies if evs[i]->Trade_maker_remaining.0 == 0 {
            i + 1 < evs.len() && evs[i + 1] == Event::MakerFilled { id: evs[i]->Trade_maker_id }
        } else {
            i + 1 == evs.len() || evs[i + 1] is Trade
        } by {
        if i == n && !emptied && i + 1 < evs.len() {
            assert(evs[n1] is Trade);
        }
    }
}

/// What matching appends keeps that order (see `pairs_from`).
proof fn lemma_match_pairs(
    cfg: Config,
    st: BookView,
    env: Envelope,
    side: Side,
    limit: u16,
    remaining: u32,
    events: Seq<Event>,
)
    ensures
        ({
            let m = match_loop(cfg, st, env, side, limit, remaining, events);
            &&& m.events.len() >= events.len()
            &&& m.events.subrange(0, events.len() as int) == events
            &&& pairs_from(m.events, events.len() as int)
        }),
    decreases remaining,
{
    let opp = opposite_of(side);
    let n = events.len() as int;
    if remaining == 0 {
        assert(events.subrange(0, n) =~= events);
    } else {
        match best(st.orders, opp) {
            None => {
                assert(events.subrange(0, n) =~= events);
            },
            Some(s) => {
                let m = st.orders[s];
                if !crosses_at(side, limit, m.price) || m.account == env.account || m.remaining == 0 {
                    assert(events.subrange(0, n) =~= events);
                } else {
                    let fill = crate::model::min_u32(remaining, m.remaining);
                    let left = (m.remaining - fill) as u32;
                    let maker_id = crate::model::id_in(st, s);
                    let trade = Event::Trade {
                        taker_req: env.req,
                        taker_side: side,
                        maker_id,
                        price: crate::types::Price(m.price),
                        qty: crate::types::Qty(fill),
                        maker_remaining: crate::types::Qty(left),
                        ts: env.ts,
                    };
                    let ev1 = if left == 0 {
                        events.push(trade).push(Event::MakerFilled { id: maker_id })
                    } else {
                        events.push(trade)
                    };
                    let st1 = if left == 0 {
                        crate::model::remove_order(cfg, st, s)
                    } else {
                        BookView {
                            orders: st.orders.insert(
                                s,
                                crate::model::OrderView { remaining: left, filled: (m.filled + fill) as u32, ..m },
                            ),
                            ..st
                        }
                    };
                    lemma_match_pairs(cfg, st1, env, side, limit, (remaining - fill) as u32, ev1);
                    let r = match_loop(cfg, st1, env, side, limit, (remaining - fill) as u32, ev1);
                    let n1 = ev1.len() as int;
                    assert(r.events[n] == r.events.subrange(0, n1)[n]);
                    if left == 0 {
                        assert(r.events[n + 1] == r.events.subrange(0, n1)[n + 1]);
                    }
                    assert(r.events.subrange(0, n) =~= r.events.subrange(0, n1).subrange(0, n));
                    lemma_pairs_extend(r.events, n, left == 0);
                }
            },
        }
    }
}

/// The shape of a new order's events (decision 008): either one rejection (a price or size
/// out of range, a crossing post-only order, or a full book), or trades, each emptied maker's
/// fill right after its trade, and then exactly one final event for the order: filled,
/// rested, or cancelled with what was left.
pub proof fn law_new_order_event_shape(cfg: Config, st: BookView, env: Envelope)
    requires
        env.cmd is New,
    ensures
        ({
            let evs = step(cfg, st, env).1;
            &&& is_rejection(evs) ==> evs[0]->Rejected_req == env.req && {
                let reason = evs[0]->Rejected_reason;
                ||| reason == RejectReason::InvalidPrice
                ||| reason == RejectReason::InvalidQty
                ||| reason == RejectReason::PostOnlyWouldCross
                ||| reason == RejectReason::BookFull
            }
            &&& !is_rejection(evs) ==> {
                &&& evs.len() >= 1
                &&& forall|i: int|
                    #![trigger evs[i]]
                    0 <= i < evs.len() - 1 ==> evs[i] is Trade || evs[i] is MakerFilled
                &&& fills_paired(evs)
                &&& match evs.last() {
                    Event::Filled { req } => req == env.req,
                    Event::Rested { req, .. } => req == env.req,
                    Event::Cancelled { req, id: None, .. } => req == env.req,
                    _ => false,
                }
            }
        }),
{
    let evs = step(cfg, st, env).1;
    if let Command::New { side, qty, kind } = env.cmd {
        if !is_rejection(evs) {
            let limit = limit_for(cfg, side, kind);
            lemma_match_events(cfg, st, env, side, limit, qty.0, Seq::empty());
            lemma_match_pairs(cfg, st, env, side, limit, qty.0, Seq::empty());
            let m = match_loop(cfg, st, env, side, limit, qty.0, Seq::empty());
            assert(pairs_from(m.events, 0));
            assert(evs.drop_last() =~= m.events);
            assert forall|i: int| 0 <= i < evs.len() - 1 implies #[trigger] evs[i] == m.events[i] by {
                assert(evs.drop_last()[i] == evs[i]);
            }
            assert(!(evs.last() is MakerFilled) && !(evs.last() is Trade));
            assert forall|i: int|
                #![trigger evs[i]]
                0 <= i < evs.len() && evs[i] is Trade implies (evs[i]->Trade_maker_remaining.0 == 0
                <==> (i + 1 < evs.len() && evs[i + 1] == Event::MakerFilled {
                id: evs[i]->Trade_maker_id,
            })) by {
                assert(i < evs.len() - 1);
                assert(m.events[i] is Trade);
                if i + 1 < m.events.len() {
                    assert(evs[i + 1] == m.events[i + 1]);
                }
            }
            assert forall|i: int|
                #![trigger evs[i]]
                0 <= i < evs.len() && evs[i] is MakerFilled implies 0 < i && evs[i - 1] is Trade
                && evs[i - 1]->Trade_maker_remaining.0 == 0 && evs[i - 1]->Trade_maker_id
                == evs[i]->MakerFilled_id by {
                assert(i < evs.len() - 1);
                assert(m.events[i] is MakerFilled);
                assert(evs[i - 1] == m.events[i - 1]);
            }
        }
    }
}

/// Conservation (every accepted new order): the lots traded plus the lots in the final
/// event (rested or cancelled) are the order's quantity.
pub proof fn law_new_order_conserves_quantity(cfg: Config, st: BookView, env: Envelope)
    requires
        env.cmd is New,
        !is_rejection(step(cfg, st, env).1),
    ensures
        ({
            let evs = step(cfg, st, env).1;
            &&& evs.len() >= 1
            &&& traded(evs) + terminal_qty(evs.last()) == env.cmd->New_qty.0
        }),
{
    let evs = step(cfg, st, env).1;
    if let Command::New { side, qty, kind } = env.cmd {
        let limit = limit_for(cfg, side, kind);
        lemma_match_events(cfg, st, env, side, limit, qty.0, Seq::empty());
        let m = match_loop(cfg, st, env, side, limit, qty.0, Seq::empty());
        assert(evs.drop_last() == m.events) by {
            assert(evs.drop_last() =~= m.events);
        }
        assert(traded(evs) == traded(m.events) + trade_qty(evs.last()));
    }
}

/// Matching that starts against a book the order does not cross appends nothing.
proof fn lemma_no_cross_no_trade(
    cfg: Config,
    st: BookView,
    env: Envelope,
    side: Side,
    limit: u16,
    remaining: u32,
)
    requires
        !marketable(st.orders, side, limit),
    ensures
        match_loop(cfg, st, env, side, limit, remaining, Seq::empty()) == (MatchOutcome {
            st,
            events: Seq::empty(),
            remaining,
            self_trade: false,
        }),
{
}

/// Post-only (decision 003): a new post-only order never trades on arrival; it rests or
/// is rejected.
pub proof fn law_post_only_never_trades(cfg: Config, st: BookView, env: Envelope)
    requires
        env.cmd matches Command::New { kind: OrderKind::PostOnly { .. }, .. },
    ensures
        forall|i: int|
            #![trigger step(cfg, st, env).1[i]]
            0 <= i < step(cfg, st, env).1.len() ==> !(step(cfg, st, env).1[i] is Trade),
{
    if let Command::New { side, qty, kind } = env.cmd {
        let limit = limit_for(cfg, side, kind);
        if !marketable(st.orders, side, limit) {
            lemma_no_cross_no_trade(cfg, st, env, side, limit, qty.0);
        }
    }
}

/// IOC and market orders never rest (decision 004).
pub proof fn law_ioc_and_market_never_rest(cfg: Config, st: BookView, env: Envelope)
    requires
        env.cmd is New,
        !rests_spec(env.cmd->New_kind),
    ensures
        forall|i: int|
            #![trigger step(cfg, st, env).1[i]]
            0 <= i < step(cfg, st, env).1.len() ==> !(step(cfg, st, env).1[i] is Rested),
{
    if let Command::New { side, qty, kind } = env.cmd {
        let limit = limit_for(cfg, side, kind);
        lemma_match_events(cfg, st, env, side, limit, qty.0, Seq::empty());
        let m = match_loop(cfg, st, env, side, limit, qty.0, Seq::empty());
        let evs = step(cfg, st, env).1;
        assert forall|i: int| 0 <= i < evs.len() implies !(#[trigger] evs[i] is Rested) by {
            if evs.len() > 1 || !(evs[0] is Rejected) {
                if i < m.events.len() {
                    assert(evs[i] == m.events[i]);
                }
            }
        }
    }
}

/// The taker's limit is respected (M2): every trade of a new order is at a price its
/// limit crosses, on the taker's side, for at least one lot.
pub proof fn law_trades_within_limit(cfg: Config, st: BookView, env: Envelope)
    requires
        env.cmd is New,
    ensures
        forall|i: int|
            #![trigger step(cfg, st, env).1[i]]
            0 <= i < step(cfg, st, env).1.len() && step(cfg, st, env).1[i] is Trade ==> {
                let e = step(cfg, st, env).1[i];
                &&& crosses_at(
                    env.cmd->New_side,
                    limit_for(cfg, env.cmd->New_side, env.cmd->New_kind),
                    e->Trade_price.0,
                )
                &&& e->Trade_taker_side == env.cmd->New_side
                &&& e->Trade_qty.0 >= 1
            },
{
    if let Command::New { side, qty, kind } = env.cmd {
        let limit = limit_for(cfg, side, kind);
        lemma_match_events(cfg, st, env, side, limit, qty.0, Seq::empty());
        let m = match_loop(cfg, st, env, side, limit, qty.0, Seq::empty());
        let evs = step(cfg, st, env).1;
        assert forall|i: int| #![trigger evs[i]] 0 <= i < evs.len() && evs[i] is Trade implies crosses_at(side, limit, evs[i]->Trade_price.0)
            && evs[i]->Trade_taker_side == side && evs[i]->Trade_qty.0 >= 1 by {
            if i < m.events.len() {
                assert(evs[i] == m.events[i]);
            }
        }
    }
}

/// A rejection changes nothing (E5): whenever a command's only event is `Rejected`, the
/// book is exactly as before.
pub proof fn law_rejection_changes_nothing(cfg: Config, st: BookView, env: Envelope)
    requires
        is_rejection(step(cfg, st, env).1),
    ensures
        step(cfg, st, env).0 == st,
{
    match env.cmd {
        Command::New { side, qty, kind } => {
            let limit = limit_for(cfg, side, kind);
            lemma_match_events(cfg, st, env, side, limit, qty.0, Seq::empty());
        },
        Command::Replace { id, price, total_qty, post_only } => {
            let r = step(cfg, st, env);
            if r.1.len() == 1 && r.1[0] is Rejected {
                if r.1[0] is Rejected {
                }
            }
        },
        _ => {},
    }
}

/// The number of trade events in `evs`.
pub open spec fn trade_count(evs: Seq<Event>) -> int
    decreases evs.len(),
{
    if evs.len() == 0 {
        0
    } else {
        trade_count(evs.drop_last()) + if evs.last() is Trade {
            1int
        } else {
            0int
        }
    }
}

/// Events whose trades each move at least one lot have no more trades than lots traded.
proof fn lemma_count_below_traded(evs: Seq<Event>)
    requires
        forall|i: int| 0 <= i < evs.len() && #[trigger] evs[i] is Trade ==> evs[i]->Trade_qty.0 >= 1,
    ensures
        0 <= trade_count(evs) <= traded(evs),
    decreases evs.len(),
{
    if evs.len() > 0 {
        let w = evs.drop_last();
        assert forall|i: int| 0 <= i < w.len() && #[trigger] w[i] is Trade implies w[i]->Trade_qty.0 >= 1 by {
            assert(w[i] == evs[i]);
        }
        lemma_count_below_traded(w);
        assert(evs.last() == evs[evs.len() - 1]);
    }
}

/// Makers touched (M7): a new order of `qty` lots trades with at most `qty` makers, since
/// every trade moves at least one lot (matching stops at the first maker it may not trade
/// with).
pub proof fn law_trades_at_most_qty(cfg: Config, st: BookView, env: Envelope)
    requires
        env.cmd is New,
    ensures
        trade_count(step(cfg, st, env).1) <= env.cmd->New_qty.0,
{
    let evs = step(cfg, st, env).1;
    if let Command::New { side, qty, kind } = env.cmd {
        let limit = limit_for(cfg, side, kind);
        lemma_match_events(cfg, st, env, side, limit, qty.0, Seq::empty());
        let m = match_loop(cfg, st, env, side, limit, qty.0, Seq::empty());
        assert(traded(Seq::<Event>::empty()) == 0);
        assert(!(evs.last() is Trade));
        if evs.len() == 1 && evs[0] is Rejected {
            assert(evs.drop_last() =~= Seq::<Event>::empty());
            assert(trade_count(Seq::<Event>::empty()) == 0);
        } else {
            assert(evs.drop_last() =~= m.events);
            assert forall|i: int| 0 <= i < m.events.len() && #[trigger] m.events[i] is Trade implies m.events[i]->Trade_qty.0 >= 1 by {
                assert(m.events.subrange(0, 0) == Seq::<Event>::empty());
            }
            lemma_count_below_traded(m.events);
        }
    }
}

/// Retirement is for good: no command lowers the number of retired slots, so a slot that
/// reached its generation limit never comes back into use.
pub proof fn law_retired_never_decreases(cfg: Config, st: BookView, env: Envelope)
    requires
        book_inv(cfg, st),
    ensures
        step(cfg, st, env).0.retired >= st.retired,
{
    lemma_step_inv(cfg, st, env);
}

/// Price-time priority (M3): on a book that keeps the invariants, there is a first maker
/// on a side exactly when some order rests there, and it is on that side with no other
/// order of the side at a better price, or at the same price and arrived earlier.
pub proof fn law_best_is_first_in_price_time(cfg: Config, st: BookView, side: Side)
    requires
        book_inv(cfg, st),
    ensures
        best(st.orders, side) is None <==> !exists|s: u32| #[trigger]
            st.orders.contains_key(s) && st.orders[s].side == side,
        best(st.orders, side) matches Some(b) ==> {
            &&& st.orders.contains_key(b)
            &&& st.orders[b].side == side
            &&& forall|t: u32| #[trigger]
                st.orders.contains_key(t) && st.orders[t].side == side && t != b ==> ahead(
                    side,
                    st.orders[b],
                    st.orders[t],
                )
        },
{
    if exists|s: u32| #[trigger] st.orders.contains_key(s) && st.orders[s].side == side {
        let s0 = choose|s: u32| #[trigger] st.orders.contains_key(s) && st.orders[s].side == side;
        lemma_best_exists(st.orders, side, s0);
    }
    if best(st.orders, side) is Some {
        let b = choose|x: u32| is_best(st.orders, side, x);
        assert(is_best(st.orders, side, b));
    }
}

/// The identifier check (decision 002): a command names a live order of its sender exactly
/// when the identifier's slot is in range, holds an order of the identifier's generation,
/// and that order is the sender's; the slot is then the identifier's. No identifier, however
/// made up, reaches past the slots.
pub proof fn law_lookup_checks_the_identifier(cfg: Config, st: BookView, id: OrderId, account: u32)
    requires
        book_inv(cfg, st),
    ensures
        lookup(cfg, st, id, account) is Some <==> {
            &&& slot_of(id) < cfg.capacity
            &&& st.gens[slot_of(id) as int] % 2 == 1
            &&& st.gens[slot_of(id) as int] == gen_of(id)
            &&& st.orders[slot_of(id)].account == account
        },
        lookup(cfg, st, id, account) matches Some(s) ==> s == slot_of(id) && s < cfg.capacity,
{
    let s = slot_of(id);
    if s < cfg.capacity {
        assert(st.gens[s as int] == st.gens[s as int]);
    }
}

/// Reduce (decision 007): for a live order of the sender with `f` lots filled and `m` open,
/// a reduce to total `t` cancels the open lots when `t <= f`, shrinks the open lots to
/// `t - f` in place (same side, price and arrival number, so the same queue place) when
/// `f < t <= f + m`, and is refused with nothing changed when `t > f + m`; the order's
/// total never grows.
pub proof fn law_reduce_outcomes(cfg: Config, st: BookView, env: Envelope, s: u32)
    requires
        book_inv(cfg, st),
        env.cmd is Reduce,
        lookup(cfg, st, env.cmd->Reduce_id, env.account) == Some(s),
    ensures
        ({
            let id = env.cmd->Reduce_id;
            let t = env.cmd->Reduce_total_qty.0;
            let o = st.orders[s];
            let (st2, evs) = step(cfg, st, env);
            &&& t <= o.filled ==> evs == seq![
                Event::Cancelled {
                    req: env.req,
                    id: Some(id),
                    qty: Qty(o.remaining),
                    reason: CancelReason::ReduceToZero,
                },
            ] && !st2.orders.contains_key(s)
            &&& o.filled < t <= o.filled + o.remaining ==> evs == seq![
                Event::Reduced {
                    req: env.req,
                    id,
                    filled: Qty(o.filled),
                    remaining: Qty((t - o.filled) as u32),
                },
            ] && st2.orders.contains_key(s) && st2.orders[s] == (OrderView {
                remaining: (t - o.filled) as u32,
                ..o
            }) && st2.orders[s].filled + st2.orders[s].remaining <= o.filled + o.remaining
                && st2.orders.dom() == st.orders.dom() && best(st2.orders, Side::Buy) == best(
                st.orders,
                Side::Buy,
            ) && best(st2.orders, Side::Sell) == best(st.orders, Side::Sell) && best_price(
                st2.orders,
                Side::Buy,
            ) == best_price(st.orders, Side::Buy) && best_price(st2.orders, Side::Sell)
                == best_price(st.orders, Side::Sell) && st2.retired == st.retired && st2.free
                == st.free
            &&& t > o.filled + o.remaining ==> evs == seq![
                Event::Rejected { req: env.req, reason: RejectReason::InvalidChange },
            ] && st2 == st
        }),
{
    let o = st.orders[s];
    let t = env.cmd->Reduce_total_qty.0;
    if t <= o.filled {
        crate::model::lemma_remove_order_inv(cfg, st, s);
    } else if t <= o.filled + o.remaining {
        let st2 = step(cfg, st, env).0;
        assert(st2.orders.dom() =~= st.orders.dom());
        lemma_same_priority(st.orders, st2.orders, Side::Buy);
        lemma_same_priority(st.orders, st2.orders, Side::Sell);
    }
}

/// Two books with the same orders by side, price and arrival have the same best order.
proof fn lemma_same_priority(a: Map<u32, OrderView>, b: Map<u32, OrderView>, side: Side)
    requires
        a.dom() == b.dom(),
        forall|k: u32| #[trigger]
            a.contains_key(k) ==> a[k].side == b[k].side && a[k].price == b[k].price && a[k].seq
                == b[k].seq,
    ensures
        best(a, side) == best(b, side),
{
    assert forall|x: u32| is_best(a, side, x) <==> is_best(b, side, x) by {
        if is_best(a, side, x) {
            assert forall|t: u32| #![trigger b.contains_key(t)]
                b.contains_key(t) && b[t].side == side && t != x implies ahead(side, b[x], b[t]) by {
                assert(a.contains_key(t));
            }
        }
        if is_best(b, side, x) {
            assert forall|t: u32| #![trigger a.contains_key(t)]
                a.contains_key(t) && a[t].side == side && t != x implies ahead(side, a[x], a[t]) by {
                assert(b.contains_key(t));
            }
        }
    }
    if exists|x: u32| is_best(a, side, x) {
        let x = choose|x: u32| is_best(a, side, x);
        crate::model::lemma_best_is(a, side, x);
        crate::model::lemma_best_is(b, side, x);
    }
}

/// Replace (decision 007): the refusals come in this order, each with nothing changed:
/// a price out of range, a total above the largest order, an identifier that is not a live
/// order of the sender, a post-only price that would cross, and no slot for the
/// replacement. Otherwise the old order is cancelled first, with its open lots, and, unless
/// the new total is at most what already filled, the replacement follows as a new order
/// of the old side with the lots not yet filled.
pub proof fn law_replace_order(cfg: Config, st: BookView, env: Envelope)
    requires
        env.cmd is Replace,
    ensures
        ({
            let id = env.cmd->Replace_id;
            let price = env.cmd->Replace_price;
            let total = env.cmd->Replace_total_qty.0;
            let post_only = env.cmd->Replace_post_only;
            let (st2, evs) = step(cfg, st, env);
            let refused = |reason: RejectReason|
                evs == seq![Event::Rejected { req: env.req, reason }] && st2 == st;
            &&& !price_in_range(cfg, price.0) ==> refused(RejectReason::InvalidPrice)
            &&& price_in_range(cfg, price.0) && total > cfg.max_order_qty.0 ==> refused(
                RejectReason::InvalidQty,
            )
            &&& price_in_range(cfg, price.0) && total <= cfg.max_order_qty.0 ==> (match lookup(
                cfg,
                st,
                id,
                env.account,
            ) {
                None => refused(RejectReason::UnknownOrStaleId),
                Some(s) => {
                    let o = st.orders[s];
                    let cancel_old = Event::Cancelled {
                        req: env.req,
                        id: Some(id),
                        qty: Qty(o.remaining),
                        reason: CancelReason::Replaced,
                    };
                    let kind = if post_only {
                        OrderKind::PostOnly { price }
                    } else {
                        OrderKind::Limit { price, tif: Tif::Gtc }
                    };
                    &&& total <= o.filled ==> evs == seq![cancel_old] && st2 == remove_order(cfg, st, s)
                    &&& total > o.filled && post_only && marketable(st.orders, o.side, price.0)
                        ==> refused(RejectReason::PostOnlyWouldCross)
                    &&& total > o.filled && !(post_only && marketable(st.orders, o.side, price.0))
                        && st.free.len() == 0 && will_retire(cfg, st, s) ==> refused(
                        RejectReason::BookFull,
                    )
                    &&& total > o.filled && !(post_only && marketable(st.orders, o.side, price.0))
                        && !(st.free.len() == 0 && will_retire(cfg, st, s)) ==> {
                        let r = submit(
                            cfg,
                            remove_order(cfg, st, s),
                            env,
                            o.side,
                            (total - o.filled) as u32,
                            kind,
                        );
                        &&& evs == seq![cancel_old] + r.1
                        &&& st2 == r.0
                    }
                },
            })
        }),
{
}

/// New orders by kind (decisions 003 and 004, M4): for a new order whose price and size are
/// in range,
/// - a post-only order either rests at once or is rejected as crossing or for a full book;
/// - an IOC or market order never rests and is never rejected;
/// - a GTC limit order is rejected exactly when no slot is free and nothing on the other
///   side crosses its limit, and then for a full book;
/// - only a GTC limit order can end cancelled for exhausted capacity;
/// - once an order rests, nothing on the other side crosses its limit.
pub proof fn law_new_order_outcomes(cfg: Config, st: BookView, env: Envelope)
    requires
        book_inv(cfg, st),
        env.cmd is New,
        !(crate::model::named_price(env.cmd->New_kind) matches Some(p) && !price_in_range(cfg, p.0)),
        crate::types::qty_in_range(cfg, env.cmd->New_qty.0),
    ensures
        ({
            let side = env.cmd->New_side;
            let kind = env.cmd->New_kind;
            let limit = limit_for(cfg, side, kind);
            let (st2, evs) = step(cfg, st, env);
            &&& evs.len() >= 1
            &&& kind is PostOnly ==> evs.len() == 1 && (evs[0] is Rested || evs[0] == Event::Rejected {
                req: env.req,
                reason: RejectReason::PostOnlyWouldCross,
            } || evs[0] == Event::Rejected { req: env.req, reason: RejectReason::BookFull })
            &&& !rests_spec(kind) ==> forall|i: int|
                #![trigger evs[i]]
                0 <= i < evs.len() ==> !(evs[i] is Rested) && !(evs[i] is Rejected)
            &&& (kind matches OrderKind::Limit { tif: Tif::Gtc, .. }) ==> (is_rejection(evs) <==> (
            st.free.len() == 0 && !marketable(st.orders, side, limit))) && (is_rejection(evs)
                ==> evs[0] == Event::Rejected { req: env.req, reason: RejectReason::BookFull })
            &&& (evs.last() matches Event::Cancelled { reason: CancelReason::CapacityExhausted, .. })
                ==> (kind matches OrderKind::Limit { tif: Tif::Gtc, .. })
            &&& evs.last() is Rested ==> forall|t: u32|
                #![trigger st2.orders.contains_key(t)]
                st2.orders.contains_key(t) && st2.orders[t].side == opposite_of(side) ==> !crosses_at(
                    side,
                    limit,
                    st2.orders[t].price,
                )
        }),
{
    if let Command::New { side, qty, kind } = env.cmd {
        let limit = limit_for(cfg, side, kind);
        let mk = marketable(st.orders, side, limit);
        let (st2, evs) = step(cfg, st, env);
        crate::model::lemma_match_loop(cfg, st, env, side, limit, qty.0, Seq::empty());
        lemma_match_events(cfg, st, env, side, limit, qty.0, Seq::empty());
        let m = match_loop(cfg, st, env, side, limit, qty.0, Seq::empty());
        if !mk {
            lemma_no_cross_no_trade(cfg, st, env, side, limit, qty.0);
        }
        let full = st.free.len() == 0;
        let rejected_early = ((kind is PostOnly) && (mk || full)) || ((kind matches OrderKind::Limit {
            tif: Tif::Gtc,
            ..
        }) && full && !mk);
        if !rejected_early {
            assert(evs.drop_last() =~= m.events);
            assert forall|i: int| 0 <= i < evs.len() - 1 implies #[trigger] evs[i] == m.events[i] by {
                assert(evs.drop_last()[i] == evs[i]);
            }
            assert(!(evs.last() is Rejected));
            if evs.len() == 1 {
                assert(!is_rejection(evs));
            }
            assert forall|i: int| #![trigger evs[i]] 0 <= i < evs.len() implies !(evs[i] is Rejected) by {
                if i < evs.len() - 1 {
                    assert(m.events[i] is Trade || m.events[i] is MakerFilled);
                }
            }
            if !rests_spec(kind) {
                assert forall|i: int| #![trigger evs[i]] 0 <= i < evs.len() implies !(evs[i] is Rested) by {
                    if i < evs.len() - 1 {
                        assert(m.events[i] is Trade || m.events[i] is MakerFilled);
                    }
                }
            }
            if evs.last() is Rested {
                let s = m.st.free.last();
                assert forall|t: u32|
                    #![trigger st2.orders.contains_key(t)]
                    st2.orders.contains_key(t) && st2.orders[t].side == opposite_of(side) implies !crosses_at(
                    side,
                    limit,
                    st2.orders[t].price,
                ) by {
                    if t != s {
                        assert(m.st.orders.contains_key(t));
                    }
                }
            }
        }
    }
}

/// Market protection is an absolute bound (decision 004): a market order with protection
/// `p` never buys above `p` and never sells below `p`, whatever the book holds.
pub proof fn law_market_protection_bounds_every_trade(cfg: Config, st: BookView, env: Envelope, p: Price)
    requires
        env.cmd matches Command::New { kind: OrderKind::Market { protection: Some(q) }, .. } && q == p,
    ensures
        forall|i: int|
            #![trigger step(cfg, st, env).1[i]]
            0 <= i < step(cfg, st, env).1.len() && step(cfg, st, env).1[i] is Trade ==> {
                let price = step(cfg, st, env).1[i]->Trade_price.0;
                &&& env.cmd->New_side == Side::Buy ==> price <= p.0
                &&& env.cmd->New_side == Side::Sell ==> price >= p.0
            },
{
    law_trades_within_limit(cfg, st, env);
}

} // verus!
