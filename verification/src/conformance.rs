//! The audit accepts every step of the book model: whatever events an engine following the
//! model emits, the independent checker finds them lawful and rebuilds the same book.
use vstd::prelude::*;

use crate::workload::{observe_ok, observe_spec, rest_side, KnownOrder};
use crate::audit::{
    audit_check, command_ok, crossing, event_req, flow_ok, not_crossed, owned, trades_ok, AuditView,
};
use crate::model::{
    ahead, best, book_inv, id_in, initial, is_best, lemma_best_is, lemma_match_loop,
    lemma_remove_order_inv, lemma_step_inv, lemma_update_order_inv, lookup, marketable, match_loop,
    min_u32, remove_order, step, submit, take_slot, will_retire, BookView, OrderView,
};
use crate::types::{
    cfg_valid, crosses_at, gen_of, lemma_id_parts, limit_for, opposite_of, rests_spec, slot_of,
    CancelReason, Command, Config, Envelope, Event, OrderId, OrderKind, Price, Qty, Side, Tif,
};

verus! {

/// The resting orders keyed as the audit keys them: identifier `k` names the order in its
/// slot while the slot is at `k`'s generation.
pub open spec fn live_by_id(st: BookView) -> Map<u64, OrderView> {
    Map::new(
        |k: u64|
            st.orders.contains_key(slot_of(OrderId(k))) && st.gens[slot_of(OrderId(k)) as int]
                == gen_of(OrderId(k)),
        |k: u64| st.orders[slot_of(OrderId(k))],
    )
}

/// Every identifier in `ever` lies behind its slot's generation: below it while the slot is
/// free, at most it while the slot holds an order.
pub open spec fn issued_behind(ever: Set<u64>, st: BookView) -> bool {
    forall|k: u64| #[trigger]
        ever.contains(k) ==> {
            let s = slot_of(OrderId(k));
            &&& st.free.contains(s) ==> gen_of(OrderId(k)) < st.gens[s as int]
            &&& st.orders.contains_key(s) ==> gen_of(OrderId(k)) <= st.gens[s as int]
        }
}

/// The audit's rebuilt book is the model's book: the same orders under their identifiers,
/// the same arrival counter, and only identifiers the slots can no longer issue.
pub open spec fn audit_agrees(a: AuditView, st: BookView) -> bool {
    &&& a.live == live_by_id(st)
    &&& a.next_seq == st.next_seq
    &&& issued_behind(a.ever, st)
}

/// The identifier of a live slot finds it, and every identifier found names its slot.
proof fn lemma_live_by_id(cfg: Config, st: BookView)
    requires
        book_inv(cfg, st),
    ensures
        forall|s: u32| #[trigger]
            st.orders.contains_key(s) ==> live_by_id(st).contains_key(id_in(st, s).0)
                && live_by_id(st)[id_in(st, s).0] == st.orders[s],
        forall|k: u64| #[trigger]
            live_by_id(st).contains_key(k) ==> st.orders.contains_key(slot_of(OrderId(k)))
                && id_in(st, slot_of(OrderId(k))) == OrderId(k) && live_by_id(st)[k]
                == st.orders[slot_of(OrderId(k))],
{
    assert forall|s: u32| #[trigger] st.orders.contains_key(s) implies live_by_id(st).contains_key(
        id_in(st, s).0,
    ) && live_by_id(st)[id_in(st, s).0] == st.orders[s] by {
        lemma_id_parts(s, st.gens[s as int], id_in(st, s));
    }
    assert forall|k: u64| #[trigger] live_by_id(st).contains_key(k) implies st.orders.contains_key(
        slot_of(OrderId(k)),
    ) && id_in(st, slot_of(OrderId(k))) == OrderId(k) by {
        lemma_id_parts(slot_of(OrderId(k)), gen_of(OrderId(k)), OrderId(k));
    }
}

/// The first order of a side is the same order whether the book is keyed by slot or by
/// identifier.
proof fn lemma_best_by_id(cfg: Config, st: BookView, side: Side)
    requires
        book_inv(cfg, st),
    ensures
        match best(st.orders, side) {
            Some(s) => best(live_by_id(st), side) == Some(id_in(st, s).0),
            None => best(live_by_id(st), side) is None,
        },
{
    let m = st.orders;
    let l = live_by_id(st);
    lemma_live_by_id(cfg, st);
    match best(m, side) {
        Some(s) => {
            let c = choose|x: u32| is_best(m, side, x);
            assert(is_best(m, side, s));
            let k = id_in(st, s).0;
            assert forall|t: u64| #![trigger l.contains_key(t)]
                l.contains_key(t) && l[t].side == side && t != k implies ahead(side, l[k], l[t]) by {
                let ts = slot_of(OrderId(t));
                assert(m.contains_key(ts));
                if ts == s {
                    assert(id_in(st, ts) == OrderId(t));
                }
            }
            assert(is_best(l, side, k));
            lemma_best_is(l, side, k);
        },
        None => {
            if exists|k: u64| is_best(l, side, k) {
                let k = choose|k: u64| is_best(l, side, k);
                let ks = slot_of(OrderId(k));
                assert forall|t: u32| #![trigger m.contains_key(t)]
                    m.contains_key(t) && m[t].side == side && t != ks implies ahead(side, m[ks], m[t]) by {
                    assert(l.contains_key(id_in(st, t).0));
                    if id_in(st, t).0 == k {
                        assert(slot_of(id_in(st, t)) == t) by {
                            lemma_id_parts(t, st.gens[t as int], id_in(st, t));
                        }
                    }
                }
                assert(is_best(m, side, ks));
            }
        },
    }
}

/// The audit's crossing maker is the model's best maker exactly when the order is
/// marketable.
proof fn lemma_crossing_by_id(cfg: Config, st: BookView, side: Side, limit: u16)
    requires
        book_inv(cfg, st),
    ensures
        crossing(live_by_id(st), side, limit) is Some <==> marketable(st.orders, side, limit),
        crossing(live_by_id(st), side, limit) matches Some(k) ==> best(
            st.orders,
            opposite_of(side),
        ) matches Some(s) && k == id_in(st, s).0 && live_by_id(st)[k] == st.orders[s],
{
    lemma_best_by_id(cfg, st, opposite_of(side));
    lemma_live_by_id(cfg, st);
    if let Some(s) = best(st.orders, opposite_of(side)) {
        let c = choose|x: u32| is_best(st.orders, opposite_of(side), x);
        assert(st.orders.contains_key(s));
    }
}

/// Taking an order off the book takes its identifier out of the audit's keys.
proof fn lemma_remove_by_id(cfg: Config, st: BookView, s: u32)
    requires
        book_inv(cfg, st),
        st.orders.contains_key(s),
    ensures
        live_by_id(remove_order(cfg, st, s)) == live_by_id(st).remove(id_in(st, s).0),
{
    let st2 = remove_order(cfg, st, s);
    lemma_live_by_id(cfg, st);
    lemma_remove_order_inv(cfg, st, s);
    assert forall|k: u64| #[trigger] live_by_id(st2).contains_key(k) == live_by_id(st).remove(
        id_in(st, s).0,
    ).contains_key(k) by {
        let ks = slot_of(OrderId(k));
        if ks != s && ks < st.gens.len() {
            assert(st2.gens[ks as int] == st.gens[ks as int]);
        }
        if live_by_id(st).contains_key(k) && ks == s {
            assert(id_in(st, s) == OrderId(k));
        }
    }
    assert forall|k: u64| #[trigger] live_by_id(st2).contains_key(k) implies live_by_id(st2)[k]
        == live_by_id(st).remove(id_in(st, s).0)[k] by {
        let ks = slot_of(OrderId(k));
        assert(ks != s);
        assert(st2.gens[ks as int] == st.gens[ks as int]);
    }
    assert(live_by_id(st2) =~= live_by_id(st).remove(id_in(st, s).0));
}

/// Changing a resting order in place changes it under its identifier.
proof fn lemma_update_by_id(cfg: Config, st: BookView, s: u32, o: OrderView)
    requires
        book_inv(cfg, st),
        st.orders.contains_key(s),
    ensures
        live_by_id(BookView { orders: st.orders.insert(s, o), ..st }) == live_by_id(st).insert(
            id_in(st, s).0,
            o,
        ),
{
    let st2 = BookView { orders: st.orders.insert(s, o), ..st };
    lemma_live_by_id(cfg, st);
    lemma_id_parts(s, st.gens[s as int], id_in(st, s));
    assert forall|k: u64| #[trigger] live_by_id(st2).contains_key(k) == live_by_id(st).insert(
        id_in(st, s).0,
        o,
    ).contains_key(k) by {
        let ks = slot_of(OrderId(k));
        if live_by_id(st2).contains_key(k) && ks == s {
            lemma_id_parts(s, st.gens[s as int], OrderId(k));
        }
    }
    assert forall|k: u64| #[trigger] live_by_id(st2).contains_key(k) implies live_by_id(st2)[k]
        == live_by_id(st).insert(id_in(st, s).0, o)[k] by {
        let ks = slot_of(OrderId(k));
        if ks == s {
            lemma_id_parts(s, st.gens[s as int], OrderId(k));
        }
    }
    assert(live_by_id(st2) =~= live_by_id(st).insert(id_in(st, s).0, o));
}

/// A new order in the slot on top of the free stack appears under the slot's new
/// identifier, an odd generation that `ever` has not seen; `ever` with it stays behind.
proof fn lemma_rest_by_id(cfg: Config, st: BookView, ever: Set<u64>, o: OrderView)
    requires
        book_inv(cfg, st),
        issued_behind(ever, st),
        st.free.len() > 0,
    ensures
        ({
            let s = st.free.last();
            let st1 = take_slot(st);
            let st2 = BookView { orders: st1.orders.insert(s, o), next_seq: st1.next_seq + 1, ..st1 };
            let id = id_in(st2, s);
            &&& live_by_id(st2) == live_by_id(st).insert(id.0, o)
            &&& gen_of(id) % 2 == 1
            &&& !ever.contains(id.0)
            &&& issued_behind(ever.insert(id.0), st2)
        }),
{
    let s = st.free.last();
    let st1 = take_slot(st);
    let st2 = BookView { orders: st1.orders.insert(s, o), next_seq: st1.next_seq + 1, ..st1 };
    let id = id_in(st2, s);
    let k_last = st.free.len() - 1;
    assert(st.free[k_last] == s);
    assert(st.free.contains(s));
    assert(!st.orders.contains_key(s));
    lemma_id_parts(s, st2.gens[s as int], id);
    lemma_live_by_id(cfg, st);
    assert forall|k: u64| #[trigger] live_by_id(st2).contains_key(k) == live_by_id(st).insert(
        id.0,
        o,
    ).contains_key(k) by {
        let ks = slot_of(OrderId(k));
        if ks == s {
            lemma_id_parts(s, st2.gens[s as int], OrderId(k));
        } else if ks < st.gens.len() {
            assert(st2.gens[ks as int] == st.gens[ks as int]);
        }
    }
    assert forall|k: u64| #[trigger] live_by_id(st2).contains_key(k) implies live_by_id(st2)[k]
        == live_by_id(st).insert(id.0, o)[k] by {
        let ks = slot_of(OrderId(k));
        if ks == s {
            lemma_id_parts(s, st2.gens[s as int], OrderId(k));
        } else {
            assert(st2.gens[ks as int] == st.gens[ks as int]);
        }
    }
    assert(live_by_id(st2) =~= live_by_id(st).insert(id.0, o));
    if ever.contains(id.0) {
        assert(slot_of(id) == s);
    }
    assert forall|k: u64| #[trigger] ever.insert(id.0).contains(k) implies {
        let ks = slot_of(OrderId(k));
        &&& st2.free.contains(ks) ==> gen_of(OrderId(k)) < st2.gens[ks as int]
        &&& st2.orders.contains_key(ks) ==> gen_of(OrderId(k)) <= st2.gens[ks as int]
    } by {
        let ks = slot_of(OrderId(k));
        if ks == s {
            assert(!st2.free.contains(s)) by {
                if st2.free.contains(s) {
                    let j = choose|j: int| 0 <= j < st2.free.len() && st2.free[j] == s;
                    assert(st.free[j] == st.free[k_last]);
                }
            }
        } else {
            if st2.free.contains(ks) {
                let j = choose|j: int| 0 <= j < st2.free.len() && st2.free[j] == ks;
                assert(st.free[j] == ks);
            }
            if ks < st.gens.len() {
                assert(st2.gens[ks as int] == st.gens[ks as int]);
            }
        }
    }
}

/// Taking an order off the book, or changing it in place, keeps `ever` behind.
proof fn lemma_behind_kept(cfg: Config, st: BookView, ever: Set<u64>, s: u32, o: OrderView)
    requires
        book_inv(cfg, st),
        issued_behind(ever, st),
        st.orders.contains_key(s),
    ensures
        issued_behind(ever, remove_order(cfg, st, s)),
        issued_behind(ever, BookView { orders: st.orders.insert(s, o), ..st }),
{
    let st2 = remove_order(cfg, st, s);
    assert(!st.free.contains(s)) by {
        if st.free.contains(s) {
            let i = choose|i: int| 0 <= i < st.free.len() && st.free[i] == s;
            assert(st.free[i] == s);
        }
    }
    assert forall|k: u64| #[trigger] ever.contains(k) implies {
        let ks = slot_of(OrderId(k));
        &&& st2.free.contains(ks) ==> gen_of(OrderId(k)) < st2.gens[ks as int]
        &&& st2.orders.contains_key(ks) ==> gen_of(OrderId(k)) <= st2.gens[ks as int]
    } by {
        let ks = slot_of(OrderId(k));
        if ks != s {
            if st2.free.contains(ks) {
                let j = choose|j: int| 0 <= j < st2.free.len() && st2.free[j] == ks;
                if j < st.free.len() {
                    assert(st.free[j] == ks);
                }
            }
            if ks < st.gens.len() {
                assert(st2.gens[ks as int] == st.gens[ks as int]);
            }
        }
    }
}

/// Matching appends only events that answer the command.
proof fn lemma_match_reqs(
    cfg: Config,
    st: BookView,
    env: Envelope,
    side: Side,
    limit: u16,
    remaining: u32,
    events: Seq<Event>,
)
    ensures
        ({
            let m = match_loop(cfg, st, env, side, limit, remaining, events);
            &&& m.events.len() >= events.len()
            &&& forall|i: int| 0 <= i < events.len() ==> #[trigger] m.events[i] == events[i]
            &&& forall|i: int|
                events.len() <= i < m.events.len() ==> event_req(#[trigger] m.events[i], env)
                    == env.req && (m.events[i] is Trade || m.events[i] is MakerFilled)
        }),
    decreases remaining,
{
    if remaining > 0 {
        if let Some(s) = best(st.orders, opposite_of(side)) {
            let m = st.orders[s];
            if crosses_at(side, limit, m.price) && m.account != env.account && m.remaining != 0 {
                let fill = min_u32(remaining, m.remaining);
                let left = (m.remaining - fill) as u32;
                let maker_id = id_in(st, s);
                let trade = Event::Trade {
                    taker_req: env.req,
                    taker_side: side,
                    maker_id,
                    price: Price(m.price),
                    qty: Qty(fill),
                    maker_remaining: Qty(left),
                    ts: env.ts,
                };
                if left == 0 {
                    let ev1 = events.push(trade).push(Event::MakerFilled { id: maker_id });
                    lemma_match_reqs(cfg, remove_order(cfg, st, s), env, side, limit, (remaining - fill) as u32, ev1);
                    assert forall|i: int| 0 <= i < events.len() implies ev1[i] == events[i] by {}
                } else {
                    let m2 = OrderView { remaining: left, filled: (m.filled + fill) as u32, ..m };
                    let ev1 = events.push(trade);
                    lemma_match_reqs(
                        cfg,
                        BookView { orders: st.orders.insert(s, m2), ..st },
                        env,
                        side,
                        limit,
                        (remaining - fill) as u32,
                        ev1,
                    );
                }
            }
        }
    }
}

/// Matching and the audit's trade rules walk in step: the trades the model emits from
/// position `off + events.len()` of `full` pass the audit one by one, leaving the audit with
/// the model's book, and the reason matching stopped is one the audit accepts.
#[verifier::rlimit(60)]
proof fn lemma_trades_audited(
    cfg: Config,
    st: BookView,
    ever: Set<u64>,
    env: Envelope,
    side: Side,
    limit: u16,
    kind: OrderKind,
    remaining: u32,
    events: Seq<Event>,
    full: Seq<Event>,
    off: int,
)
    requires
        book_inv(cfg, st),
        issued_behind(ever, st),
        kind is PostOnly ==> !marketable(st.orders, side, limit),
        0 <= off,
        off + match_loop(cfg, st, env, side, limit, remaining, events).events.len() < full.len(),
        forall|j: int|
            0 <= j < match_loop(cfg, st, env, side, limit, remaining, events).events.len()
                ==> full[off + j] == #[trigger] match_loop(
                cfg,
                st,
                env,
                side,
                limit,
                remaining,
                events,
            ).events[j],
        !(full[off + match_loop(cfg, st, env, side, limit, remaining, events).events.len()] is Trade),
    ensures
        ({
            let m = match_loop(cfg, st, env, side, limit, remaining, events);
            &&& trades_ok(live_by_id(st), env, side, limit, kind, remaining, full, off + events.len())
                == Some((live_by_id(m.st), m.remaining, off + m.events.len()))
            &&& issued_behind(ever, m.st)
            &&& m.self_trade ==> m.remaining > 0 && (crossing(live_by_id(m.st), side, limit) matches Some(
                k,
            ) && live_by_id(m.st)[k].account == env.account)
            &&& !m.self_trade && m.remaining > 0 ==> crossing(live_by_id(m.st), side, limit) is None
            &&& kind is PostOnly ==> m.st == st && m.events == events && !m.self_trade
        }),
    decreases remaining,
{
    let opp = opposite_of(side);
    let m = match_loop(cfg, st, env, side, limit, remaining, events);
    lemma_match_loop(cfg, st, env, side, limit, remaining, events);
    lemma_best_by_id(cfg, st, opp);
    lemma_live_by_id(cfg, st);
    lemma_crossing_by_id(cfg, st, side, limit);
    let i = off + events.len();
    if remaining == 0 {
    } else {
        match best(st.orders, opp) {
            None => {
                lemma_crossing_by_id(cfg, m.st, side, limit);
            },
            Some(s) => {
                let c = choose|x: u32| is_best(st.orders, opp, x);
                assert(is_best(st.orders, opp, s));
                let mk = st.orders[s];
                if !crosses_at(side, limit, mk.price) {
                    lemma_crossing_by_id(cfg, m.st, side, limit);
                } else if mk.account == env.account {
                } else if mk.remaining == 0 {
                } else {
                    let fill = min_u32(remaining, mk.remaining);
                    let left = (mk.remaining - fill) as u32;
                    let maker_id = id_in(st, s);
                    let trade = Event::Trade {
                        taker_req: env.req,
                        taker_side: side,
                        maker_id,
                        price: Price(mk.price),
                        qty: Qty(fill),
                        maker_remaining: Qty(left),
                        ts: env.ts,
                    };
                    if left == 0 {
                        let st1 = remove_order(cfg, st, s);
                        let ev1 = events.push(trade).push(Event::MakerFilled { id: maker_id });
                        lemma_remove_order_inv(cfg, st, s);
                        lemma_remove_by_id(cfg, st, s);
                        lemma_behind_kept(cfg, st, ever, s, mk);
                        lemma_match_reqs(cfg, st1, env, side, limit, (remaining - fill) as u32, ev1);
                        assert(m == match_loop(cfg, st1, env, side, limit, (remaining - fill) as u32, ev1));
                        assert(m.events[events.len() as int] == ev1[events.len() as int]);
                        assert(m.events[events.len() + 1int] == ev1[events.len() + 1int]);
                        assert(full[i] == trade);
                        assert(full[i + 1] == Event::MakerFilled { id: maker_id });
                        lemma_trades_audited(
                            cfg,
                            st1,
                            ever,
                            env,
                            side,
                            limit,
                            kind,
                            (remaining - fill) as u32,
                            ev1,
                            full,
                            off,
                        );
                        assert(off + ev1.len() == i + 2);
                    } else {
                        let m2 = OrderView { remaining: left, filled: (mk.filled + fill) as u32, ..mk };
                        let st1 = BookView { orders: st.orders.insert(s, m2), ..st };
                        let ev1 = events.push(trade);
                        lemma_update_order_inv(cfg, st, s, m2);
                        lemma_update_by_id(cfg, st, s, m2);
                        lemma_behind_kept(cfg, st, ever, s, m2);
                        lemma_match_reqs(cfg, st1, env, side, limit, (remaining - fill) as u32, ev1);
                        assert(m == match_loop(cfg, st1, env, side, limit, (remaining - fill) as u32, ev1));
                        assert(m.events[events.len() as int] == ev1[events.len() as int]);
                        assert(full[i] == trade);
                        lemma_trades_audited(
                            cfg,
                            st1,
                            ever,
                            env,
                            side,
                            limit,
                            kind,
                            (remaining - fill) as u32,
                            ev1,
                            full,
                            off,
                        );
                        assert(off + ev1.len() == i + 1);
                    }
                }
            },
        }
    }
}

/// Only the last of `events` may be a `Rested`; when it is, it names an identifier not in
/// `ever`, for at least one lot, and `ever2` adds it to `ever`; otherwise `ever2` is `ever`.
pub open spec fn rests_fresh(ever: Set<u64>, ever2: Set<u64>, events: Seq<Event>) -> bool {
    &&& events.len() >= 1
    &&& forall|i: int| 0 <= i < events.len() - 1 ==> !(#[trigger] events[i] is Rested)
    &&& if events.last() is Rested {
        let id = events.last()->Rested_id;
        &&& !ever.contains(id.0)
        &&& ever2 == ever.insert(id.0)
        &&& events.last()->Rested_qty.0 >= 1
    } else {
        ever2 == ever
    }
}

/// An order that `submit` does not refuse passes the audit's flow rules from position
/// `prefix.len()` on: its trades and then its one terminal event, leaving the audit in
/// agreement with the model.
#[verifier::rlimit(60)]
proof fn lemma_submit_audited(
    cfg: Config,
    st: BookView,
    a: AuditView,
    env: Envelope,
    side: Side,
    qty: u32,
    kind: OrderKind,
    prefix: Seq<Event>,
)
    requires
        book_inv(cfg, st),
        audit_agrees(a, st),
        1 <= qty,
        rests_spec(kind) ==> crate::types::price_in_range(cfg, limit_for(cfg, side, kind)),
        !(kind is PostOnly && marketable(st.orders, side, limit_for(cfg, side, kind))),
        !(kind is PostOnly && st.free.len() == 0),
        !((kind matches OrderKind::Limit { tif: Tif::Gtc, .. }) && st.free.len() == 0
            && !marketable(st.orders, side, limit_for(cfg, side, kind))),
    ensures
        ({
            let r = submit(cfg, st, env, side, qty, kind);
            &&& flow_ok(cfg, a, env, side, qty, kind, prefix + r.1, prefix.len() as int) matches Some(
                a2,
            ) && audit_agrees(a2, r.0) && rests_fresh(a.ever, a2.ever, r.1)
            &&& r.1.len() >= 1
            &&& !(r.1[0] is Rejected)
            &&& forall|i: int| 0 <= i < r.1.len() ==> event_req(#[trigger] r.1[i], env) == env.req
        }),
{
    let limit = limit_for(cfg, side, kind);
    let r = submit(cfg, st, env, side, qty, kind);
    let m = match_loop(cfg, st, env, side, limit, qty, Seq::empty());
    let full = prefix + r.1;
    let off = prefix.len() as int;
    lemma_match_loop(cfg, st, env, side, limit, qty, Seq::empty());
    lemma_match_reqs(cfg, st, env, side, limit, qty, Seq::empty());
    assert(r.1 == m.events.push(r.1.last()));
    assert forall|j: int| 0 <= j < m.events.len() implies full[off + j] == #[trigger] m.events[j] by {
        assert(full[off + j] == r.1[j]);
    }
    assert(full[off + m.events.len()] == r.1.last());
    lemma_trades_audited(cfg, st, a.ever, env, side, limit, kind, qty, Seq::empty(), full, off);
    lemma_crossing_by_id(cfg, m.st, side, limit);
    if m.events.len() > 0 {
        assert(!(m.events[0] is Rejected));
        assert(r.1[0] == m.events[0]);
    }
    assert forall|i: int| 0 <= i < r.1.len() implies event_req(#[trigger] r.1[i], env) == env.req by {
        if i < m.events.len() {
            assert(r.1[i] == m.events[i]);
        }
    }
    if !m.self_trade && m.remaining > 0 && rests_spec(kind) && m.st.free.len() > 0 {
        let o = OrderView {
            account: env.account,
            side,
            price: limit,
            remaining: m.remaining,
            filled: 0,
            seq: m.st.next_seq,
        };
        lemma_rest_by_id(cfg, m.st, a.ever, o);
    }
}

/// The audit's view of an identifier is the model's view of the command's target.
proof fn lemma_owned_is_lookup(cfg: Config, st: BookView, id: OrderId, account: u32)
    requires
        book_inv(cfg, st),
    ensures
        match lookup(cfg, st, id, account) {
            Some(s) => owned(live_by_id(st), id, account) == Some(st.orders[s]) && id_in(st, s)
                == id,
            None => owned(live_by_id(st), id, account) is None,
        },
{
    lemma_live_by_id(cfg, st);
    lemma_id_parts(slot_of(id), gen_of(id), id);
}

/// After any command the rebuilt book is uncrossed, as the model's is.
proof fn lemma_not_crossed_by_id(cfg: Config, st: BookView)
    requires
        book_inv(cfg, st),
    ensures
        not_crossed(live_by_id(st)),
{
    lemma_best_by_id(cfg, st, Side::Buy);
    lemma_best_by_id(cfg, st, Side::Sell);
    lemma_live_by_id(cfg, st);
    if let (Some(b), Some(a)) = (best(st.orders, Side::Buy), best(st.orders, Side::Sell)) {
        let cb = choose|x: u32| is_best(st.orders, Side::Buy, x);
        let ca = choose|x: u32| is_best(st.orders, Side::Sell, x);
        assert(st.orders.contains_key(b) && st.orders.contains_key(a));
    }
}

/// Taking an order off its own side leaves the other side, and so whether an order on the
/// first side would trade, unchanged.
proof fn lemma_marketable_after_remove(cfg: Config, st: BookView, s: u32, limit: u16)
    requires
        book_inv(cfg, st),
        st.orders.contains_key(s),
    ensures
        marketable(remove_order(cfg, st, s).orders, st.orders[s].side, limit) == marketable(
            st.orders,
            st.orders[s].side,
            limit,
        ),
{
    let side = st.orders[s].side;
    let opp = opposite_of(side);
    let m = st.orders;
    let m2 = m.remove(s);
    lemma_remove_order_inv(cfg, st, s);
    assert forall|x: u32| #[trigger] is_best(m, opp, x) == is_best(m2, opp, x) by {
        if is_best(m2, opp, x) {
            assert forall|t: u32| #![trigger m.contains_key(t)]
                m.contains_key(t) && m[t].side == opp && t != x implies ahead(opp, m[x], m[t]) by {
                assert(m2.contains_key(t));
            }
        }
        if is_best(m, opp, x) {
            assert(x != s);
            assert forall|t: u32| #![trigger m2.contains_key(t)]
                m2.contains_key(t) && m2[t].side == opp && t != x implies ahead(opp, m2[x], m2[t]) by {
                assert(m.contains_key(t));
            }
        }
    }
    if let Some(x) = best(m, opp) {
        let c = choose|y: u32| is_best(m, opp, y);
        assert(is_best(m2, opp, x));
        lemma_best_is(m2, opp, x);
    } else if let Some(x) = best(m2, opp) {
        let c = choose|y: u32| is_best(m2, opp, y);
        assert(is_best(m, opp, x));
    }
    assert(best(m, opp) == best(m2, opp));
}

/// An audit that has seen nothing agrees with the starting book.
pub proof fn law_audit_starts_in_agreement(cfg: Config)
    requires
        cfg_valid(cfg),
    ensures
        audit_agrees(
            AuditView { live: Map::empty(), ever: Set::empty(), next_seq: 0 },
            initial(cfg),
        ),
{
    assert(live_by_id(initial(cfg)) =~= Map::<u64, OrderView>::empty());
}

/// A new order's events pass the audit's rules for new orders.
#[verifier::rlimit(60)]
proof fn lemma_new_audited(cfg: Config, a: AuditView, st: BookView, env: Envelope)
    requires
        book_inv(cfg, st),
        audit_agrees(a, st),
        env.cmd is New,
    ensures
        command_ok(cfg, a, env, step(cfg, st, env).1) matches Some(a2) && audit_agrees(
            a2,
            step(cfg, st, env).0,
        ) && rests_fresh(a.ever, a2.ever, step(cfg, st, env).1),
{
    let r = step(cfg, st, env);
    if let Command::New { side, qty, kind } = env.cmd {
        let limit = limit_for(cfg, side, kind);
        lemma_crossing_by_id(cfg, st, side, limit);
        if !(crate::model::named_price(kind) matches Some(p) && !crate::types::price_in_range(
            cfg,
            p.0,
        )) && crate::types::qty_in_range(cfg, qty.0) {
            let mk = marketable(st.orders, side, limit);
            let full = st.free.len() == 0;
            if !((kind is PostOnly) && mk) && !((kind is PostOnly) && full) && !((kind matches OrderKind::Limit {
                tif: Tif::Gtc,
                ..
            }) && full && !mk) {
                lemma_submit_audited(cfg, st, a, env, side, qty.0, kind, Seq::empty());
                assert(Seq::<Event>::empty() + r.1 == r.1);
            }
        }
    }
}

/// A cancel's event passes the audit's cancel rule.
proof fn lemma_cancel_audited(cfg: Config, a: AuditView, st: BookView, env: Envelope)
    requires
        book_inv(cfg, st),
        audit_agrees(a, st),
        env.cmd is Cancel,
    ensures
        command_ok(cfg, a, env, step(cfg, st, env).1) matches Some(a2) && audit_agrees(
            a2,
            step(cfg, st, env).0,
        ) && rests_fresh(a.ever, a2.ever, step(cfg, st, env).1),
{
    if let Command::Cancel { id } = env.cmd {
        lemma_owned_is_lookup(cfg, st, id, env.account);
        if let Some(s) = lookup(cfg, st, id, env.account) {
            lemma_remove_by_id(cfg, st, s);
            lemma_behind_kept(cfg, st, a.ever, s, st.orders[s]);
            lemma_remove_order_inv(cfg, st, s);
        }
    }
}

/// A reduce's event passes the audit's reduce rules.
proof fn lemma_reduce_audited(cfg: Config, a: AuditView, st: BookView, env: Envelope)
    requires
        book_inv(cfg, st),
        audit_agrees(a, st),
        env.cmd is Reduce,
    ensures
        command_ok(cfg, a, env, step(cfg, st, env).1) matches Some(a2) && audit_agrees(
            a2,
            step(cfg, st, env).0,
        ) && rests_fresh(a.ever, a2.ever, step(cfg, st, env).1),
{
    if let Command::Reduce { id, total_qty } = env.cmd {
        lemma_owned_is_lookup(cfg, st, id, env.account);
        if let Some(s) = lookup(cfg, st, id, env.account) {
            let o = st.orders[s];
            lemma_remove_by_id(cfg, st, s);
            lemma_remove_order_inv(cfg, st, s);
            let left = (total_qty.0 - o.filled) as u32;
            lemma_update_by_id(cfg, st, s, OrderView { remaining: left, ..o });
            lemma_behind_kept(cfg, st, a.ever, s, OrderView { remaining: left, ..o });
        }
    }
}

/// A replace's events pass the audit's replace rules.
#[verifier::rlimit(60)]
proof fn lemma_replace_audited(cfg: Config, a: AuditView, st: BookView, env: Envelope)
    requires
        book_inv(cfg, st),
        audit_agrees(a, st),
        env.cmd is Replace,
    ensures
        command_ok(cfg, a, env, step(cfg, st, env).1) matches Some(a2) && audit_agrees(
            a2,
            step(cfg, st, env).0,
        ) && rests_fresh(a.ever, a2.ever, step(cfg, st, env).1),
{
    let r = step(cfg, st, env);
    if let Command::Replace { id, price, total_qty, post_only } = env.cmd {
        lemma_owned_is_lookup(cfg, st, id, env.account);
        if crate::types::price_in_range(cfg, price.0) && total_qty.0 <= cfg.max_order_qty.0 {
            if let Some(s) = lookup(cfg, st, id, env.account) {
                let old = st.orders[s];
                lemma_remove_by_id(cfg, st, s);
                lemma_remove_order_inv(cfg, st, s);
                lemma_behind_kept(cfg, st, a.ever, s, old);
                lemma_crossing_by_id(cfg, st, old.side, price.0);
                if total_qty.0 > old.filled && !(post_only && marketable(
                    st.orders,
                    old.side,
                    price.0,
                )) && !(st.free.len() == 0 && will_retire(cfg, st, s)) {
                    let st1 = remove_order(cfg, st, s);
                    let kind = if post_only {
                        OrderKind::PostOnly { price }
                    } else {
                        OrderKind::Limit { price, tif: Tif::Gtc }
                    };
                    let cancel_old = Event::Cancelled {
                        req: env.req,
                        id: Some(id),
                        qty: Qty(old.remaining),
                        reason: CancelReason::Replaced,
                    };
                    lemma_marketable_after_remove(cfg, st, s, price.0);
                    assert(st1.free.len() > 0);
                    let a1 = AuditView { live: a.live.remove(id.0), ..a };
                    lemma_submit_audited(
                        cfg,
                        st1,
                        a1,
                        env,
                        old.side,
                        (total_qty.0 - old.filled) as u32,
                        kind,
                        seq![cancel_old],
                    );
                    let sub = submit(cfg, st1, env, old.side, (total_qty.0 - old.filled) as u32, kind);
                    assert(r.1 == seq![cancel_old] + sub.1);
                    assert(r.1.len() >= 2);
                    assert forall|i: int| 0 <= i < r.1.len() implies event_req(#[trigger] r.1[i], env)
                        == env.req by {
                        if i > 0 {
                            assert(r.1[i] == sub.1[i - 1]);
                        }
                    }
                }
            }
        }
    }
}

/// One step passes the audit, which comes out agreeing with the model and with only the
/// identifier of an order that rested added to what it has seen.
proof fn lemma_step_audited(cfg: Config, a: AuditView, st: BookView, env: Envelope)
    requires
        book_inv(cfg, st),
        audit_agrees(a, st),
    ensures
        audit_check(cfg, a, env, step(cfg, st, env).1) matches Some(a2) && audit_agrees(
            a2,
            step(cfg, st, env).0,
        ) && rests_fresh(a.ever, a2.ever, step(cfg, st, env).1),
{
    lemma_step_inv(cfg, st, env);
    lemma_not_crossed_by_id(cfg, step(cfg, st, env).0);
    match env.cmd {
        Command::New { .. } => lemma_new_audited(cfg, a, st, env),
        Command::Cancel { .. } => lemma_cancel_audited(cfg, a, st, env),
        Command::Reduce { .. } => lemma_reduce_audited(cfg, a, st, env),
        Command::Replace { .. } => lemma_replace_audited(cfg, a, st, env),
    }
}

/// The audit accepts every step of the model: on any book that keeps the invariants and
/// that the audit agrees with, the events of any command pass the audit, and the audit
/// comes out agreeing with the model's next book. With the starting agreement, this is why
/// the audit never refuses what an engine following the model emits.
pub proof fn law_audit_accepts_every_step(cfg: Config, a: AuditView, st: BookView, env: Envelope)
    requires
        book_inv(cfg, st),
        audit_agrees(a, st),
    ensures
        audit_check(cfg, a, env, step(cfg, st, env).1) matches Some(a2) && audit_agrees(
            a2,
            step(cfg, st, env).0,
        ),
{
    lemma_step_audited(cfg, a, st, env);
}

/// Price-time matching (M1 to M3, M6): every trade of an accepted new order is against the
/// best and oldest maker on the other side as the earlier trades left the book, within the
/// order's limit, at the maker's price, never with the order's own account, for the smaller
/// of what the order and the maker have left, with the maker's fill right after a trade that
/// empties it; and the trades are followed by exactly one final event. This is `trades_ok`
/// holding over the model's book, keyed by identifier, up to the last event.
pub proof fn law_trades_follow_price_time(cfg: Config, st: BookView, env: Envelope)
    requires
        book_inv(cfg, st),
        env.cmd is New,
        !(step(cfg, st, env).1.len() == 1 && step(cfg, st, env).1[0] is Rejected),
    ensures
        ({
            let side = env.cmd->New_side;
            let kind = env.cmd->New_kind;
            let evs = step(cfg, st, env).1;
            trades_ok(
                live_by_id(st),
                env,
                side,
                limit_for(cfg, side, kind),
                kind,
                env.cmd->New_qty.0,
                evs,
                0,
            ) matches Some(t) && t.2 == evs.len() - 1
        }),
{
    let a = AuditView { live: live_by_id(st), ever: Set::empty(), next_seq: st.next_seq };
    lemma_new_audited(cfg, a, st, env);
}

/// A replacement gets a new identifier (O3): when a replace ends with the replacement
/// resting, its identifier is not the one the replaced order had.
pub proof fn law_replace_issues_a_new_id(cfg: Config, st: BookView, env: Envelope)
    requires
        book_inv(cfg, st),
        env.cmd is Replace,
    ensures
        step(cfg, st, env).1.last() matches Event::Rested { id, .. } ==> id != env.cmd->Replace_id,
{
    let id = env.cmd->Replace_id;
    if lookup(cfg, st, id, env.account) is Some {
        let ever = set![id.0];
        let s = slot_of(id);
        assert(issued_behind(ever, st)) by {
            assert(st.orders.contains_key(s));
            if st.free.contains(s) {
                let i = choose|i: int| 0 <= i < st.free.len() && st.free[i] == s;
                assert(st.free[i] == s);
            }
        }
        let a = AuditView { live: live_by_id(st), ever, next_seq: st.next_seq };
        lemma_replace_audited(cfg, a, st, env);
    }
}

/// Observing events without a `Rested` only forgets known orders.
proof fn lemma_observe_drops(
    known: Map<u64, KnownOrder>,
    side: Option<Side>,
    account: u32,
    evs: Seq<Event>,
)
    requires
        forall|i: int| 0 <= i < evs.len() ==> !(#[trigger] evs[i] is Rested),
    ensures
        forall|k: u64| #[trigger]
            observe_spec(known, side, account, evs).contains_key(k) ==> known.contains_key(k)
                && observe_spec(known, side, account, evs)[k] == known[k],
    decreases evs.len(),
{
    if evs.len() > 0 {
        let w = evs.drop_last();
        assert forall|i: int| 0 <= i < w.len() implies !(#[trigger] w[i] is Rested) by {
            assert(w[i] == evs[i]);
        }
        lemma_observe_drops(known, side, account, w);
        assert(evs.last() == evs[evs.len() - 1]);
        let before = observe_spec(known, side, account, w);
        let after = observe_spec(known, side, account, evs);
        assert forall|k: u64| #[trigger] after.contains_key(k) implies before.contains_key(k)
            && after[k] == before[k] by {}
    }
}

/// What the order-flow generator learns from one step of the model, when every order it
/// knows lies behind its slot's generation and every command it makes names a known order:
/// an order that rests is one it does not know yet, and afterwards the orders it knows
/// still lie behind, each with at least one lot.
pub proof fn lemma_generator_step(cfg: Config, st: BookView, known: Map<u64, KnownOrder>, env: Envelope)
    requires
        book_inv(cfg, st),
        issued_behind(known.dom(), st),
        forall|k: u64| #[trigger] known.contains_key(k) ==> known[k].qty >= 1,
        env.cmd matches Command::Replace { id, .. } ==> known.contains_key(id.0),
    ensures
        ({
            let r = step(cfg, st, env);
            let side = rest_side(known, env);
            let k2 = observe_spec(known, side, env.account, r.1);
            &&& observe_ok(known, side, env.account, r.1)
            &&& issued_behind(k2.dom(), r.0)
            &&& forall|k: u64| #[trigger] k2.contains_key(k) ==> k2[k].qty >= 1
        }),
{
    let r = step(cfg, st, env);
    let side = rest_side(known, env);
    let a = AuditView { live: live_by_id(st), ever: known.dom(), next_seq: st.next_seq };
    lemma_step_audited(cfg, a, st, env);
    let a2 = audit_check(cfg, a, env, r.1)->0;
    let evs = r.1;
    let pre = evs.drop_last();
    assert forall|i: int| 0 <= i < pre.len() implies !(#[trigger] pre[i] is Rested) by {
        assert(pre[i] == evs[i]);
    }
    lemma_observe_drops(known, side, env.account, pre);
    assert(evs.take(evs.len() - 1) =~= pre);
    let k2 = observe_spec(known, side, env.account, evs);
    if evs.last() is Rested {
        assert(side is Some) by {
            match env.cmd {
                Command::Cancel { id } => {
                    assert(evs.len() == 1);
                },
                Command::Reduce { id, total_qty } => {
                    assert(evs.len() == 1);
                },
                _ => {},
            }
        }
    }
    assert forall|i: int| 0 <= i < evs.len() && #[trigger] evs[i] is Rested implies side is Some
        && !observe_spec(known, side, env.account, evs.take(i)).contains_key(evs[i]->Rested_id.0) by {
        assert(i == evs.len() - 1);
    }
    assert forall|k: u64| #[trigger] k2.contains_key(k) implies a2.ever.contains(k) && k2[k].qty >= 1 by {
        let k1 = observe_spec(known, side, env.account, pre);
        if k1.contains_key(k) {
            assert(known.contains_key(k));
        }
    }
}

} // verus!
