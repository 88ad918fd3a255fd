//! The abstract book and the meaning of every command: both engines are proved to move
//! this state and emit these events.
use vstd::prelude::*;

use crate::types::{
    crosses_at, gen_of, id_of, limit_for, opposite_of, price_in_range, qty_in_range, rests_spec,
    slot_of, cfg_valid, CancelReason, Config, Envelope, Event, OrderId, OrderKind, Price, Qty,
    RejectReason, Side, Tif, Command,
};

verus! {

/// A resting order: owner, side, price in ticks, open and filled lots, and its arrival
/// number (smaller arrived earlier).
pub struct OrderView {
    pub account: u32,
    pub side: Side,
    pub price: u16,
    pub remaining: u32,
    pub filled: u32,
    pub seq: nat,
}

/// The state of a book: the generation of every slot, the free-slot stack (top last), the
/// number of retired slots, the resting orders by slot, and the next arrival number.
pub struct BookView {
    pub gens: Seq<u32>,
    pub free: Seq<u32>,
    pub retired: u32,
    pub orders: Map<u32, OrderView>,
    pub next_seq: nat,
}

/// For makers on `side`, price `a` comes before price `b`.
pub open spec fn better(side: Side, a: u16, b: u16) -> bool {
    match side {
        Side::Buy => a > b,
        Side::Sell => a < b,
    }
}

/// Price-time priority among makers on `side`: `o` is matched before `t`.
pub open spec fn ahead(side: Side, o: OrderView, t: OrderView) -> bool {
    better(side, o.price, t.price) || (o.price == t.price && o.seq < t.seq)
}

/// `s` is the order on `side` that an incoming order meets first.
pub open spec fn is_best<K>(orders: Map<K, OrderView>, side: Side, s: K) -> bool {
    &&& orders.contains_key(s)
    &&& orders[s].side == side
    &&& forall|t: K|
        #![trigger orders.contains_key(t)]
        orders.contains_key(t) && orders[t].side == side && t != s ==> ahead(
            side,
            orders[s],
            orders[t],
        )
}

/// The first order on `side` in price-time priority, if any.
pub open spec fn best<K>(orders: Map<K, OrderView>, side: Side) -> Option<K> {
    if exists|s: K| is_best(orders, side, s) {
        Some(choose|s: K| is_best(orders, side, s))
    } else {
        None
    }
}

/// There is at most one best order.
pub proof fn lemma_best_unique<K>(orders: Map<K, OrderView>, side: Side, s: K, t: K)
    requires
        is_best(orders, side, s),
        is_best(orders, side, t),
    ensures
        s == t,
{
    if s != t {
        assert(orders.contains_key(t));
        assert(orders.contains_key(s));
    }
}

/// A best order is the one `best` names.
pub proof fn lemma_best_is<K>(orders: Map<K, OrderView>, side: Side, s: K)
    requires
        is_best(orders, side, s),
    ensures
        best(orders, side) == Some(s),
{
    let c = choose|x: K| is_best(orders, side, x);
    lemma_best_unique(orders, side, s, c);
}

/// An order on `side` with `limit` would trade on arrival.
pub open spec fn marketable(orders: Map<u32, OrderView>, side: Side, limit: u16) -> bool {
    match best(orders, opposite_of(side)) {
        Some(s) => crosses_at(side, limit, orders[s].price),
        None => false,
    }
}

/// The slot a cancel, reduce or replace from `account` refers to: in range, live, of the
/// same generation and owned by `account`.
pub open spec fn lookup(cfg: Config, st: BookView, id: OrderId, account: u32) -> Option<u32> {
    let s = slot_of(id);
    if s < cfg.capacity && st.orders.contains_key(s) && st.gens[s as int] == gen_of(id)
        && st.orders[s].account == account {
        Some(s)
    } else {
        None
    }
}

/// The identifier of the order in slot `s`.
pub open spec fn id_in(st: BookView, s: u32) -> OrderId {
    id_of(s, st.gens[s as int])
}

/// Taking the top free slot: its generation becomes odd.
pub open spec fn take_slot(st: BookView) -> BookView {
    let s = st.free.last();
    BookView {
        gens: st.gens.update(s as int, (st.gens[s as int] + 1) as u32),
        free: st.free.drop_last(),
        ..st
    }
}

/// Freeing slot `s` would take its generation past the limit.
pub open spec fn will_retire(cfg: Config, st: BookView, s: u32) -> bool {
    st.gens[s as int] + 2 > cfg.generation_limit
}

/// Giving back slot `s`: retired for good when its generation cannot advance, else
/// pushed on the free stack with an even generation.
pub open spec fn release(cfg: Config, st: BookView, s: u32) -> BookView {
    if will_retire(cfg, st, s) {
        BookView {
            gens: st.gens.update(s as int, (st.gens[s as int] - 1) as u32),
            retired: (st.retired + 1) as u32,
            ..st
        }
    } else {
        BookView {
            gens: st.gens.update(s as int, (st.gens[s as int] + 1) as u32),
            free: st.free.push(s),
            ..st
        }
    }
}

/// Taking the order in slot `s` off the book and releasing the slot.
pub open spec fn remove_order(cfg: Config, st: BookView, s: u32) -> BookView {
    release(cfg, BookView { orders: st.orders.remove(s), ..st }, s)
}

/// The smaller of two lot counts.
pub open spec fn min_u32(a: u32, b: u32) -> u32 {
    if a <= b {
        a
    } else {
        b
    }
}

/// The result of matching: the book, the events so far, the taker's open quantity, and
/// whether matching stopped at the taker's own order.
pub struct MatchOutcome {
    pub st: BookView,
    pub events: Seq<Event>,
    pub remaining: u32,
    pub self_trade: bool,
}

/// Matching an incoming order on `side` with `limit` and `remaining` lots against the
/// book, best maker first, each trade at the maker's price, until the taker is done,
/// the best maker no longer crosses, or the best maker is the taker's own account.
pub open spec fn match_loop(
    cfg: Config,
    st: BookView,
    env: Envelope,
    side: Side,
    limit: u16,
    remaining: u32,
    events: Seq<Event>,
) -> MatchOutcome
    decreases remaining,
{
    let stop = MatchOutcome { st, events, remaining, self_trade: false };
    if remaining == 0 {
        stop
    } else {
        match best(st.orders, opposite_of(side)) {
            None => stop,
            Some(s) => {
                let m = st.orders[s];
                if !crosses_at(side, limit, m.price) {
                    stop
                } else if m.account == env.account {
                    MatchOutcome { self_trade: true, ..stop }
                } else if m.remaining == 0 {
                    stop
                } else {
                    let fill = min_u32(remaining, m.remaining);
                    let left = (m.remaining - fill) as u32;
                    let maker_id = id_in(st, s);
                    let trade = Event::Trade {
                        taker_req: env.req,
                        taker_side: side,
                        maker_id,
                        price: Price(m.price),
                        qty: Qty(fill),
                        maker_remaining: Qty(left),
                        ts: env.ts,
                    };
                    if left == 0 {
                        match_loop(
                            cfg,
                            remove_order(cfg, st, s),
                            env,
                            side,
                            limit,
                            (remaining - fill) as u32,
                            events.push(trade).push(Event::MakerFilled { id: maker_id }),
                        )
                    } else {
                        let m2 = OrderView { remaining: left, filled: (m.filled + fill) as u32, ..m };
                        match_loop(
                            cfg,
                            BookView { orders: st.orders.insert(s, m2), ..st },
                            env,
                            side,
                            limit,
                            (remaining - fill) as u32,
                            events.push(trade),
                        )
                    }
                }
            },
        }
    }
}

/// The refusal of the command in `env`.
pub open spec fn rejected(env: Envelope, reason: RejectReason) -> Event {
    Event::Rejected { req: env.req, reason }
}

/// Submitting a validated order of `qty` lots: the capacity and post-only rejections,
/// then matching, then the one terminal event (filled, cancelled, or rested with a new
/// identifier).
pub open spec fn submit(
    cfg: Config,
    st: BookView,
    env: Envelope,
    side: Side,
    qty: u32,
    kind: OrderKind,
) -> (BookView, Seq<Event>) {
    let limit = limit_for(cfg, side, kind);
    let mk = marketable(st.orders, side, limit);
    let full = st.free.len() == 0;
    if (kind is PostOnly) && mk {
        (st, seq![rejected(env, RejectReason::PostOnlyWouldCross)])
    } else if (kind is PostOnly) && full {
        (st, seq![rejected(env, RejectReason::BookFull)])
    } else if (kind matches OrderKind::Limit { tif: Tif::Gtc, .. }) && full && !mk {
        (st, seq![rejected(env, RejectReason::BookFull)])
    } else {
        let m = match_loop(cfg, st, env, side, limit, qty, Seq::empty());
        let cancel = |reason: CancelReason|
            Event::Cancelled { req: env.req, id: None, qty: Qty(m.remaining), reason };
        if m.self_trade {
            (m.st, m.events.push(cancel(CancelReason::SelfTrade)))
        } else if m.remaining == 0 {
            (m.st, m.events.push(Event::Filled { req: env.req }))
        } else if !rests_spec(kind) {
            (m.st, m.events.push(cancel(CancelReason::Unfilled)))
        } else if m.st.free.len() > 0 {
            let s = m.st.free.last();
            let st1 = take_slot(m.st);
            let o = OrderView {
                account: env.account,
                side,
                price: limit,
                remaining: m.remaining,
                filled: 0,
                seq: st1.next_seq,
            };
            let st2 = BookView { orders: st1.orders.insert(s, o), next_seq: st1.next_seq + 1, ..st1 };
            (st2, m.events.push(Event::Rested { req: env.req, id: id_in(st2, s), qty: Qty(m.remaining) }))
        } else {
            (m.st, m.events.push(cancel(CancelReason::CapacityExhausted)))
        }
    }
}

/// The price a new order names, if any.
pub open spec fn named_price(kind: OrderKind) -> Option<Price> {
    match kind {
        OrderKind::Limit { price, .. } => Some(price),
        OrderKind::PostOnly { price } => Some(price),
        OrderKind::Market { protection } => protection,
    }
}

/// A new order: a price outside the tick range, then a size outside `1..=max_order_qty`,
/// is refused; anything else is submitted.
pub open spec fn new_order(
    cfg: Config,
    st: BookView,
    env: Envelope,
    side: Side,
    qty: Qty,
    kind: OrderKind,
) -> (BookView, Seq<Event>) {
    if named_price(kind) matches Some(p) && !price_in_range(cfg, p.0) {
        (st, seq![rejected(env, RejectReason::InvalidPrice)])
    } else if !qty_in_range(cfg, qty.0) {
        (st, seq![rejected(env, RejectReason::InvalidQty)])
    } else {
        submit(cfg, st, env, side, qty.0, kind)
    }
}

/// A cancel takes the sender's live order off the book, or is refused as unknown.
pub open spec fn cancel(cfg: Config, st: BookView, env: Envelope, id: OrderId) -> (
    BookView,
    Seq<Event>,
) {
    match lookup(cfg, st, id, env.account) {
        None => (st, seq![rejected(env, RejectReason::UnknownOrStaleId)]),
        Some(s) => (
            remove_order(cfg, st, s),
            seq![
                Event::Cancelled {
                    req: env.req,
                    id: Some(id),
                    qty: Qty(st.orders[s].remaining),
                    reason: CancelReason::User,
                },
            ],
        ),
    }
}

/// Reduce to a total size (filled + remaining): at or below the filled part cancels the
/// rest, above the current total is refused, otherwise the open part shrinks in place.
pub open spec fn reduce(cfg: Config, st: BookView, env: Envelope, id: OrderId, total: Qty) -> (
    BookView,
    Seq<Event>,
) {
    match lookup(cfg, st, id, env.account) {
        None => (st, seq![rejected(env, RejectReason::UnknownOrStaleId)]),
        Some(s) => {
            let o = st.orders[s];
            if total.0 <= o.filled {
                (
                    remove_order(cfg, st, s),
                    seq![
                        Event::Cancelled {
                            req: env.req,
                            id: Some(id),
                            qty: Qty(o.remaining),
                            reason: CancelReason::ReduceToZero,
                        },
                    ],
                )
            } else if total.0 > o.filled + o.remaining {
                (st, seq![rejected(env, RejectReason::InvalidChange)])
            } else {
                let left = (total.0 - o.filled) as u32;
                (
                    BookView { orders: st.orders.insert(s, OrderView { remaining: left, ..o }), ..st },
                    seq![Event::Reduced { req: env.req, id, filled: Qty(o.filled), remaining: Qty(left) }],
                )
            }
        },
    }
}

/// Replace keeps the side, takes a new price and total size, and loses priority: every
/// refusal is decided while the old order still rests.
pub open spec fn replace(
    cfg: Config,
    st: BookView,
    env: Envelope,
    id: OrderId,
    price: Price,
    total: Qty,
    post_only: bool,
) -> (BookView, Seq<Event>) {
    if !price_in_range(cfg, price.0) {
        (st, seq![rejected(env, RejectReason::InvalidPrice)])
    } else if total.0 > cfg.max_order_qty.0 {
        (st, seq![rejected(env, RejectReason::InvalidQty)])
    } else {
        match lookup(cfg, st, id, env.account) {
            None => (st, seq![rejected(env, RejectReason::UnknownOrStaleId)]),
            Some(s) => {
                let old = st.orders[s];
                let cancel_old = Event::Cancelled {
                    req: env.req,
                    id: Some(id),
                    qty: Qty(old.remaining),
                    reason: CancelReason::Replaced,
                };
                if total.0 <= old.filled {
                    (remove_order(cfg, st, s), seq![cancel_old])
                } else if post_only && marketable(st.orders, old.side, price.0) {
                    (st, seq![rejected(env, RejectReason::PostOnlyWouldCross)])
                } else if st.free.len() == 0 && will_retire(cfg, st, s) {
                    (st, seq![rejected(env, RejectReason::BookFull)])
                } else {
                    let kind = if post_only {
                        OrderKind::PostOnly { price }
                    } else {
                        OrderKind::Limit { price, tif: Tif::Gtc }
                    };
                    let r = submit(
                        cfg,
                        remove_order(cfg, st, s),
                        env,
                        old.side,
                        (total.0 - old.filled) as u32,
                        kind,
                    );
                    (r.0, seq![cancel_old] + r.1)
                }
            },
        }
    }
}

/// One command: the next book and the events it emits, in order.
pub open spec fn step(cfg: Config, st: BookView, env: Envelope) -> (BookView, Seq<Event>) {
    match env.cmd {
        Command::New { side, qty, kind } => new_order(cfg, st, env, side, qty, kind),
        Command::Cancel { id } => cancel(cfg, st, env, id),
        Command::Reduce { id, total_qty } => reduce(cfg, st, env, id, total_qty),
        Command::Replace { id, price, total_qty, post_only } => replace(
            cfg,
            st,
            env,
            id,
            price,
            total_qty,
            post_only,
        ),
    }
}

/// The book an engine starts with: every slot free at generation 0, the lowest slot on
/// top of the free stack, no orders.
pub open spec fn initial(cfg: Config) -> BookView {
    BookView {
        gens: Seq::new(cfg.capacity as nat, |i: int| 0u32),
        free: Seq::new(cfg.capacity as nat, |i: int| (cfg.capacity - 1 - i) as u32),
        retired: 0,
        orders: Map::empty(),
        next_seq: 0,
    }
}

/// The invariants every reachable book keeps (numbers N1, N2; slots S1 to S4; the book
/// is never crossed, L6).
pub open spec fn book_inv(cfg: Config, st: BookView) -> bool {
    &&& cfg_valid(cfg)
    &&& st.gens.len() == cfg.capacity
    &&& st.orders.dom().finite()
    &&& st.orders.dom().len() + st.free.len() + st.retired == cfg.capacity
    &&& forall|s: u32| #[trigger]
        st.orders.contains_key(s) ==> {
            let o = st.orders[s];
            &&& s < cfg.capacity
            &&& st.gens[s as int] % 2 == 1
            &&& o.remaining >= 1
            &&& o.filled + o.remaining <= cfg.max_order_qty.0
            &&& price_in_range(cfg, o.price)
            &&& o.seq < st.next_seq
        }
    &&& forall|s: u32|
        #![trigger st.gens[s as int]]
        s < cfg.capacity ==> st.gens[s as int] <= cfg.generation_limit && (st.gens[s as int]
            % 2 == 1 ==> st.orders.contains_key(s))
    &&& st.free.no_duplicates()
    &&& forall|i: int|
        #![trigger st.free[i]]
        0 <= i < st.free.len() ==> {
            let s = st.free[i];
            &&& s < cfg.capacity
            &&& st.gens[s as int] % 2 == 0
            &&& st.gens[s as int] + 1 <= cfg.generation_limit
        }
    &&& forall|s: u32, t: u32|
        #![trigger st.orders.contains_key(s), st.orders.contains_key(t)]
        st.orders.contains_key(s) && st.orders.contains_key(t) && s != t ==> st.orders[s].seq
            != st.orders[t].seq
    &&& forall|b: u32, a: u32|
        #![trigger st.orders.contains_key(b), st.orders.contains_key(a)]
        st.orders.contains_key(b) && st.orders.contains_key(a) && st.orders[b].side == Side::Buy
            && st.orders[a].side == Side::Sell ==> st.orders[b].price < st.orders[a].price
}

} // verus!

verus! {

/// Releasing a slot from a book without its order keeps the slot invariants.
pub proof fn lemma_remove_order_inv(cfg: Config, st: BookView, s: u32)
    requires
        book_inv(cfg, st),
        st.orders.contains_key(s),
    ensures
        book_inv(cfg, remove_order(cfg, st, s)),
        remove_order(cfg, st, s).orders == st.orders.remove(s),
        remove_order(cfg, st, s).next_seq == st.next_seq,
        remove_order(cfg, st, s).retired >= st.retired,
{
    let st1 = BookView { orders: st.orders.remove(s), ..st };
    let st2 = release(cfg, st1, s);
    assert(st.gens[s as int] % 2 == 1);
    assert(!st.free.contains(s)) by {
        if st.free.contains(s) {
            let i = choose|i: int| 0 <= i < st.free.len() && st.free[i] == s;
            assert(st.free[i] == s);
        }
    }
    assert(st1.orders.dom() == st.orders.dom().remove(s));
    assert forall|t: u32| #[trigger] st2.gens[t as int] == st2.gens[t as int] && t < cfg.capacity
        implies st2.gens[t as int] <= cfg.generation_limit && (st2.gens[t as int] % 2 == 1
        ==> st2.orders.contains_key(t)) by {
        if t != s {
            assert(st.gens[t as int] == st2.gens[t as int]);
        }
    }
    assert forall|i: int| 0 <= i < st2.free.len() implies {
        let f = #[trigger] st2.free[i];
        &&& f < cfg.capacity
        &&& st2.gens[f as int] % 2 == 0
        &&& st2.gens[f as int] + 1 <= cfg.generation_limit
    } by {
        if i < st.free.len() {
            assert(st.free[i] != s);
        }
    }
    if !will_retire(cfg, st1, s) {
        assert forall|i: int, j: int|
            0 <= i < st2.free.len() && 0 <= j < st2.free.len() && i != j implies st2.free[i]
            != st2.free[j] by {
            if i < st.free.len() && j < st.free.len() {
            } else if i < st.free.len() {
                assert(st.free[i] != s);
            } else if j < st.free.len() {
                assert(st.free[j] != s);
            }
        }
    }
}

} // verus!

verus! {

/// Changing the open and filled lots of a resting order within the bounds keeps the
/// invariants.
pub proof fn lemma_update_order_inv(cfg: Config, st: BookView, s: u32, o: OrderView)
    requires
        book_inv(cfg, st),
        st.orders.contains_key(s),
        o.side == st.orders[s].side,
        o.price == st.orders[s].price,
        o.seq == st.orders[s].seq,
        o.remaining >= 1,
        o.filled + o.remaining <= cfg.max_order_qty.0,
    ensures
        book_inv(cfg, BookView { orders: st.orders.insert(s, o), ..st }),
{
    let st2 = BookView { orders: st.orders.insert(s, o), ..st };
    assert(st2.orders.dom() == st.orders.dom());
    assert forall|t: u32| #[trigger] st2.orders.contains_key(t) implies st.orders.contains_key(t)
        && (t != s ==> st2.orders[t] == st.orders[t]) by {}
}

/// A new order on the book, on a slot just taken from the free stack, keeps the invariants
/// when it is within the bounds, arrives last, and does not cross the other side.
pub proof fn lemma_rest_inv(cfg: Config, st: BookView, o: OrderView)
    requires
        book_inv(cfg, st),
        st.free.len() > 0,
        o.remaining >= 1,
        o.filled + o.remaining <= cfg.max_order_qty.0,
        price_in_range(cfg, o.price),
        o.seq == st.next_seq,
        forall|t: u32|
            #![trigger st.orders.contains_key(t)]
            st.orders.contains_key(t) && st.orders[t].side == opposite_of(o.side) ==> (if o.side
                == Side::Buy {
                o.price < st.orders[t].price
            } else {
                st.orders[t].price < o.price
            }),
    ensures
        ({
            let s = st.free.last();
            let st1 = take_slot(st);
            let st2 = BookView { orders: st1.orders.insert(s, o), next_seq: st1.next_seq + 1, ..st1 };
            &&& book_inv(cfg, st2)
            &&& !st.orders.contains_key(s)
            &&& s < cfg.capacity
            &&& st2.gens[s as int] == st.gens[s as int] + 1
        }),
{
    let s = st.free.last();
    let st1 = take_slot(st);
    let st2 = BookView { orders: st1.orders.insert(s, o), next_seq: st1.next_seq + 1, ..st1 };
    let k = st.free.len() - 1;
    assert(st.free[k] == s);
    assert(!st.orders.contains_key(s));
    assert(st2.orders.dom() == st.orders.dom().insert(s));
    assert forall|t: u32| #[trigger] st2.orders.contains_key(t) implies {
        let p = st2.orders[t];
        &&& t < cfg.capacity
        &&& st2.gens[t as int] % 2 == 1
        &&& p.remaining >= 1
        &&& p.filled + p.remaining <= cfg.max_order_qty.0
        &&& price_in_range(cfg, p.price)
        &&& p.seq < st2.next_seq
    } by {
        if t != s {
            assert(st.orders.contains_key(t));
        }
    }
    assert forall|t: u32| #[trigger] st2.gens[t as int] == st2.gens[t as int] && t < cfg.capacity
        implies st2.gens[t as int] <= cfg.generation_limit && (st2.gens[t as int] % 2 == 1
        ==> st2.orders.contains_key(t)) by {
        if t != s {
            assert(st.gens[t as int] == st2.gens[t as int]);
        }
    }
    assert forall|i: int| 0 <= i < st2.free.len() implies {
        let f = #[trigger] st2.free[i];
        &&& f < cfg.capacity
        &&& st2.gens[f as int] % 2 == 0
        &&& st2.gens[f as int] + 1 <= cfg.generation_limit
    } by {
        assert(st.free[i] == st2.free[i]);
        assert(st.free[i] != st.free[k]);
    }
    assert forall|a: u32, b: u32|
        st2.orders.contains_key(a) && st2.orders.contains_key(b) && a != b implies st2.orders[a].seq
        != st2.orders[b].seq by {
        if a != s && b != s {
            assert(st.orders.contains_key(a) && st.orders.contains_key(b));
        } else if a == s {
            assert(st.orders.contains_key(b));
        } else {
            assert(st.orders.contains_key(a));
        }
    }
    assert forall|b: u32, a: u32|
        st2.orders.contains_key(b) && st2.orders.contains_key(a) && st2.orders[b].side == Side::Buy
            && st2.orders[a].side == Side::Sell implies st2.orders[b].price < st2.orders[a].price by {
        if a != s && b != s {
            assert(st.orders.contains_key(a) && st.orders.contains_key(b));
        } else if a == s {
            assert(st.orders.contains_key(b));
        } else {
            assert(st.orders.contains_key(a));
        }
    }
}

/// Whenever some order rests on `side`, one of them is first in price-time priority.
pub proof fn lemma_best_exists<K>(orders: Map<K, OrderView>, side: Side, s0: K)
    requires
        orders.dom().finite(),
        orders.contains_key(s0),
        orders[s0].side == side,
        forall|s: K, t: K|
            #![trigger orders.contains_key(s), orders.contains_key(t)]
            orders.contains_key(s) && orders.contains_key(t) && s != t ==> orders[s].seq
                != orders[t].seq,
    ensures
        exists|s: K| is_best(orders, side, s),
        best(orders, side) is Some,
    decreases orders.dom().len(),
{
    let rest = orders.remove(s0);
    assert(rest.dom() == orders.dom().remove(s0));
    if exists|t: K| rest.contains_key(t) && rest[t].side == side {
        let t = choose|t: K| rest.contains_key(t) && rest[t].side == side;
        lemma_best_exists(rest, side, t);
        let b = choose|b: K| is_best(rest, side, b);
        assert(rest.contains_key(b));
        if ahead(side, orders[b], orders[s0]) {
            assert forall|u: K|
                #![trigger orders.contains_key(u)]
                orders.contains_key(u) && orders[u].side == side && u != b implies ahead(
                side,
                orders[b],
                orders[u],
            ) by {
                if u != s0 {
                    assert(rest.contains_key(u));
                }
            }
            assert(is_best(orders, side, b));
        } else {
            assert(orders[b].seq != orders[s0].seq);
            assert forall|u: K|
                #![trigger orders.contains_key(u)]
                orders.contains_key(u) && orders[u].side == side && u != s0 implies ahead(
                side,
                orders[s0],
                orders[u],
            ) by {
                assert(rest.contains_key(u));
                if u != b {
                    assert(ahead(side, rest[b], rest[u]));
                }
            }
            assert(is_best(orders, side, s0));
        }
    } else {
        assert(is_best(orders, side, s0));
    }
}

/// What matching leaves behind: a book that keeps the invariants, and, unless it stopped
/// at the taker's own order with lots left, nothing on the other side that still crosses.
pub proof fn lemma_match_loop(
    cfg: Config,
    st: BookView,
    env: Envelope,
    side: Side,
    limit: u16,
    remaining: u32,
    events: Seq<Event>,
)
    requires
        book_inv(cfg, st),
    ensures
        ({
            let m = match_loop(cfg, st, env, side, limit, remaining, events);
            &&& book_inv(cfg, m.st)
            &&& m.st.next_seq == st.next_seq
            &&& m.st.retired >= st.retired
            &&& m.remaining <= remaining
            &&& (!m.self_trade && m.remaining > 0 ==> forall|t: u32|
                #![trigger m.st.orders.contains_key(t)]
                m.st.orders.contains_key(t) && m.st.orders[t].side == opposite_of(side)
                    ==> !crosses_at(side, limit, m.st.orders[t].price))
        }),
    decreases remaining,
{
    let opp = opposite_of(side);
    if remaining == 0 {
    } else {
        match best(st.orders, opp) {
            None => {
                assert forall|t: u32|
                    #![trigger st.orders.contains_key(t)]
                    st.orders.contains_key(t) && st.orders[t].side == opp implies !crosses_at(
                    side,
                    limit,
                    st.orders[t].price,
                ) by {
                    lemma_best_exists(st.orders, opp, t);
                }
            },
            Some(s) => {
                let c = choose|x: u32| is_best(st.orders, opp, x);
                assert(is_best(st.orders, opp, s));
                let m = st.orders[s];
                if !crosses_at(side, limit, m.price) {
                    assert forall|t: u32|
                        #![trigger st.orders.contains_key(t)]
                        st.orders.contains_key(t) && st.orders[t].side == opp implies !crosses_at(
                        side,
                        limit,
                        st.orders[t].price,
                    ) by {
                        if t != s {
                            assert(ahead(opp, st.orders[s], st.orders[t]));
                        }
                    }
                } else if m.account == env.account {
                } else if m.remaining == 0 {
                } else {
                    let fill = min_u32(remaining, m.remaining);
                    let left = (m.remaining - fill) as u32;
                    let maker_id = id_in(st, s);
                    let trade = Event::Trade {
                        taker_req: env.req,
                        taker_side: side,
                        maker_id,
                        price: Price(m.price),
                        qty: Qty(fill),
                        maker_remaining: Qty(left),
                        ts: env.ts,
                    };
                    if left == 0 {
                        lemma_remove_order_inv(cfg, st, s);
                        lemma_match_loop(
                            cfg,
                            remove_order(cfg, st, s),
                            env,
                            side,
                            limit,
                            (remaining - fill) as u32,
                            events.push(trade).push(Event::MakerFilled { id: maker_id }),
                        );
                    } else {
                        let m2 = OrderView { remaining: left, filled: (m.filled + fill) as u32, ..m };
                        lemma_update_order_inv(cfg, st, s, m2);
                        lemma_match_loop(
                            cfg,
                            BookView { orders: st.orders.insert(s, m2), ..st },
                            env,
                            side,
                            limit,
                            (remaining - fill) as u32,
                            events.push(trade),
                        );
                    }
                }
            },
        }
    }
}

} // verus!

verus! {

/// Submitting a validated order keeps the invariants.
pub proof fn lemma_submit_inv(
    cfg: Config,
    st: BookView,
    env: Envelope,
    side: Side,
    qty: u32,
    kind: OrderKind,
)
    requires
        book_inv(cfg, st),
        qty <= cfg.max_order_qty.0,
        rests_spec(kind) ==> price_in_range(cfg, limit_for(cfg, side, kind)),
    ensures
        book_inv(cfg, submit(cfg, st, env, side, qty, kind).0),
        submit(cfg, st, env, side, qty, kind).0.next_seq <= st.next_seq + 1,
        submit(cfg, st, env, side, qty, kind).0.retired >= st.retired,
{
    let limit = limit_for(cfg, side, kind);
    lemma_match_loop(cfg, st, env, side, limit, qty, Seq::empty());
    let m = match_loop(cfg, st, env, side, limit, qty, Seq::empty());
    if !m.self_trade && m.remaining > 0 && rests_spec(kind) && m.st.free.len() > 0 {
        let o = OrderView {
            account: env.account,
            side,
            price: limit,
            remaining: m.remaining,
            filled: 0,
            seq: m.st.next_seq,
        };
        lemma_rest_inv(cfg, m.st, o);
    }
}

/// Every command keeps the book's invariants, gives out at most one arrival number and
/// never brings a retired slot back.
pub proof fn lemma_step_inv(cfg: Config, st: BookView, env: Envelope)
    requires
        book_inv(cfg, st),
    ensures
        book_inv(cfg, step(cfg, st, env).0),
        step(cfg, st, env).0.next_seq <= st.next_seq + 1,
        step(cfg, st, env).0.retired >= st.retired,
{
    match env.cmd {
        Command::New { side, qty, kind } => {
            if !(named_price(kind) matches Some(p) && !price_in_range(cfg, p.0)) && qty_in_range(
                cfg,
                qty.0,
            ) {
                lemma_submit_inv(cfg, st, env, side, qty.0, kind);
            }
        },
        Command::Cancel { id } => {
            if let Some(s) = lookup(cfg, st, id, env.account) {
                lemma_remove_order_inv(cfg, st, s);
            }
        },
        Command::Reduce { id, total_qty } => {
            if let Some(s) = lookup(cfg, st, id, env.account) {
                let o = st.orders[s];
                if total_qty.0 <= o.filled {
                    lemma_remove_order_inv(cfg, st, s);
                } else if total_qty.0 <= o.filled + o.remaining {
                    let left = (total_qty.0 - o.filled) as u32;
                    lemma_update_order_inv(cfg, st, s, OrderView { remaining: left, ..o });
                }
            }
        },
        Command::Replace { id, price, total_qty, post_only } => {
            if price_in_range(cfg, price.0) && total_qty.0 <= cfg.max_order_qty.0 {
                if let Some(s) = lookup(cfg, st, id, env.account) {
                    let old = st.orders[s];
                    if total_qty.0 > old.filled {
                        lemma_remove_order_inv(cfg, st, s);
                        let kind = if post_only {
                            OrderKind::PostOnly { price }
                        } else {
                            OrderKind::Limit { price, tif: Tif::Gtc }
                        };
                        lemma_submit_inv(
                            cfg,
                            remove_order(cfg, st, s),
                            env,
                            old.side,
                            (total_qty.0 - old.filled) as u32,
                            kind,
                        );
                    } else {
                        lemma_remove_order_inv(cfg, st, s);
                    }
                }
            }
        },
    }
}

/// The starting book keeps the invariants.
pub proof fn lemma_initial_inv(cfg: Config)
    requires
        cfg_valid(cfg),
    ensures
        book_inv(cfg, initial(cfg)),
{
    let st = initial(cfg);
    assert(st.orders.dom() == Set::<u32>::empty());
    assert forall|i: int, j: int|
        0 <= i < st.free.len() && 0 <= j < st.free.len() && i != j implies st.free[i]
        != st.free[j] by {}
}

} // verus!

verus! {

/// One round of matching against the best maker `s`.
pub proof fn lemma_match_loop_unfold(
    cfg: Config,
    st: BookView,
    env: Envelope,
    side: Side,
    limit: u16,
    remaining: u32,
    events: Seq<Event>,
    s: u32,
)
    requires
        remaining > 0,
        best(st.orders, opposite_of(side)) == Some(s),
        crosses_at(side, limit, st.orders[s].price),
        st.orders[s].account != env.account,
        st.orders[s].remaining > 0,
    ensures
        ({
            let m = st.orders[s];
            let fill = min_u32(remaining, m.remaining);
            let left = (m.remaining - fill) as u32;
            let maker_id = id_in(st, s);
            let trade = Event::Trade {
                taker_req: env.req,
                taker_side: side,
                maker_id,
                price: Price(m.price),
                qty: Qty(fill),
                maker_remaining: Qty(left),
                ts: env.ts,
            };
            match_loop(cfg, st, env, side, limit, remaining, events) == if left == 0 {
                match_loop(
                    cfg,
                    remove_order(cfg, st, s),
                    env,
                    side,
                    limit,
                    (remaining - fill) as u32,
                    events.push(trade).push(Event::MakerFilled { id: maker_id }),
                )
            } else {
                match_loop(
                    cfg,
                    BookView {
                        orders: st.orders.insert(
                            s,
                            OrderView { remaining: left, filled: (m.filled + fill) as u32, ..m },
                        ),
                        ..st
                    },
                    env,
                    side,
                    limit,
                    (remaining - fill) as u32,
                    events.push(trade),
                )
            }
        }),
{
}

} // verus!

verus! {

/// The price of the first order on `side`, if any (the best bid or best ask).
pub open spec fn best_price(orders: Map<u32, OrderView>, side: Side) -> Option<Price> {
    match best(orders, side) {
        Some(s) => Some(Price(orders[s].price)),
        None => None,
    }
}

} // verus!
