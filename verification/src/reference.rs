//! The reference engine: a plain vector of resting orders, searched in full for every
//! match. Slow, and proved to follow `model::step`.
use vstd::prelude::*;

use crate::model::{
    best, book_inv, id_in, initial, is_best, lemma_best_is, lemma_initial_inv, lemma_match_loop,
    lemma_match_loop_unfold, lemma_remove_order_inv, lemma_rest_inv, lemma_step_inv,
    lemma_update_order_inv, lookup, marketable, match_loop, min_u32, remove_order, step, submit,
    take_slot, will_retire, BookView, MatchOutcome, OrderView,
};
use crate::types::{
    cfg_valid, id_of, lemma_id_parts, limit_for, opposite_of, price_in_range, rests, rests_spec,
    slot_of, AccountId, CancelReason, Command, Config, Engine, Envelope, Event, EventSink, OrderId,
    OrderKind, Price, Qty, RejectReason, Side, Tif,
};

verus! {

#[derive(Clone, Copy, Debug, PartialEq, Eq)]
struct Resting {
    id: OrderId,
    account: AccountId,
    side: Side,
    price: Price,
    remaining: u32,
    filled: u32,
    seq: u64,
}

spec fn rview(r: Resting) -> OrderView {
    OrderView {
        account: r.account,
        side: r.side,
        price: r.price.0,
        remaining: r.remaining,
        filled: r.filled,
        seq: r.seq as nat,
    }
}

spec fn rslot(r: Resting) -> u32 {
    slot_of(r.id)
}

spec fn has_slot(v: Seq<Resting>, s: u32) -> bool {
    exists|i: int| 0 <= i < v.len() && #[trigger] rslot(v[i]) == s
}

spec fn index_of_slot(v: Seq<Resting>, s: u32) -> int {
    choose|i: int| 0 <= i < v.len() && #[trigger] rslot(v[i]) == s
}

/// The resting orders by slot.
spec fn order_map(v: Seq<Resting>) -> Map<u32, OrderView> {
    Map::new(|s: u32| has_slot(v, s), |s: u32| rview(v[index_of_slot(v, s)]))
}

spec fn slots_distinct(v: Seq<Resting>) -> bool {
    forall|i: int, j: int|
        0 <= i < v.len() && 0 <= j < v.len() && i != j ==> rslot(v[i]) != rslot(v[j])
}

proof fn lemma_map_at(v: Seq<Resting>, i: int)
    requires
        slots_distinct(v),
        0 <= i < v.len(),
    ensures
        order_map(v).contains_key(rslot(v[i])),
        order_map(v)[rslot(v[i])] == rview(v[i]),
{
    assert(has_slot(v, rslot(v[i])));
    let j = index_of_slot(v, rslot(v[i]));
    assert(rslot(v[j]) == rslot(v[i]));
}

proof fn lemma_map_has(v: Seq<Resting>, s: u32) -> (i: int)
    requires
        slots_distinct(v),
        order_map(v).contains_key(s),
    ensures
        0 <= i < v.len(),
        rslot(v[i]) == s,
        order_map(v)[s] == rview(v[i]),
{
    let i = index_of_slot(v, s);
    lemma_map_at(v, i);
    i
}

proof fn lemma_map_remove(v: Seq<Resting>, i: int)
    requires
        slots_distinct(v),
        0 <= i < v.len(),
    ensures
        slots_distinct(v.remove(i)),
        order_map(v.remove(i)) == order_map(v).remove(rslot(v[i])),
{
    let w = v.remove(i);
    let s = rslot(v[i]);
    assert(forall|j: int| 0 <= j < w.len() ==> w[j] == (if j < i { v[j] } else { v[j + 1] }));
    assert forall|t: u32| #[trigger] order_map(w).contains_key(t) <==> order_map(v).remove(
        s,
    ).contains_key(t) by {
        if has_slot(w, t) {
            let j = choose|j: int| 0 <= j < w.len() && #[trigger] rslot(w[j]) == t;
            let k = if j < i { j } else { j + 1 };
            assert(rslot(v[k]) == t);
            assert(has_slot(v, t));
        }
        if has_slot(v, t) && t != s {
            let k = choose|k: int| 0 <= k < v.len() && #[trigger] rslot(v[k]) == t;
            let j = if k < i { k } else { k - 1 };
            assert(rslot(w[j]) == t);
        }
    }
    assert forall|t: u32| #[trigger] order_map(w).contains_key(t) implies order_map(w)[t]
        == order_map(v)[t] by {
        let j = lemma_map_has(w, t);
        let k = if j < i { j } else { j + 1 };
        lemma_map_at(v, k);
    }
    assert(order_map(w) =~= order_map(v).remove(s));
}

proof fn lemma_map_update(v: Seq<Resting>, i: int, r: Resting)
    requires
        slots_distinct(v),
        0 <= i < v.len(),
        rslot(r) == rslot(v[i]),
    ensures
        slots_distinct(v.update(i, r)),
        order_map(v.update(i, r)) == order_map(v).insert(rslot(r), rview(r)),
{
    let w = v.update(i, r);
    let s = rslot(r);
    assert forall|t: u32| #[trigger] order_map(w).contains_key(t) <==> order_map(v).insert(
        s,
        rview(r),
    ).contains_key(t) by {
        if has_slot(w, t) {
            let j = choose|j: int| 0 <= j < w.len() && #[trigger] rslot(w[j]) == t;
            assert(rslot(v[j]) == t);
        }
        if has_slot(v, t) {
            let j = choose|j: int| 0 <= j < v.len() && #[trigger] rslot(v[j]) == t;
            assert(rslot(w[j]) == t);
        }
        if t == s {
            assert(rslot(w[i]) == t);
        }
    }
    assert forall|t: u32| #[trigger] order_map(w).contains_key(t) implies order_map(w)[t]
        == order_map(v).insert(s, rview(r))[t] by {
        let j = lemma_map_has(w, t);
        if j != i {
            lemma_map_at(v, j);
        }
    }
    assert(order_map(w) =~= order_map(v).insert(s, rview(r)));
}

proof fn lemma_map_push(v: Seq<Resting>, r: Resting)
    requires
        slots_distinct(v),
        !order_map(v).contains_key(rslot(r)),
    ensures
        slots_distinct(v.push(r)),
        order_map(v.push(r)) == order_map(v).insert(rslot(r), rview(r)),
{
    let w = v.push(r);
    let s = rslot(r);
    assert forall|j: int| 0 <= j < v.len() implies rslot(v[j]) != s by {
        lemma_map_at(v, j);
    }
    assert forall|t: u32| #[trigger] order_map(w).contains_key(t) <==> order_map(v).insert(
        s,
        rview(r),
    ).contains_key(t) by {
        if has_slot(w, t) {
            let j = choose|j: int| 0 <= j < w.len() && #[trigger] rslot(w[j]) == t;
            if j < v.len() {
                assert(rslot(v[j]) == t);
            }
        }
        if has_slot(v, t) {
            let j = choose|j: int| 0 <= j < v.len() && #[trigger] rslot(v[j]) == t;
            assert(rslot(w[j]) == t);
        }
        if t == s {
            assert(rslot(w[v.len() as int]) == t);
        }
    }
    assert forall|t: u32| #[trigger] order_map(w).contains_key(t) implies order_map(w)[t]
        == order_map(v).insert(s, rview(r))[t] by {
        let j = lemma_map_has(w, t);
        if j < v.len() {
            lemma_map_at(v, j);
        }
    }
    assert(order_map(w) =~= order_map(v).insert(s, rview(r)));
}

proof fn lemma_map_empty(v: Seq<Resting>)
    requires
        v.len() == 0,
    ensures
        order_map(v) == Map::<u32, OrderView>::empty(),
{
    assert(order_map(v) =~= Map::<u32, OrderView>::empty());
}

/// The reference engine: slot generations, a free-slot stack, and the resting orders in
/// arrival order.
#[derive(Clone, Debug, PartialEq, Eq)]
pub struct Reference {
    cfg: Config,
    generations: Vec<u32>,
    free: Vec<u32>,
    retired: u32,
    orders: Vec<Resting>,
    next_seq: u64,
}

impl Reference {
    /// The resting orders by slot, with their identifiers.
    spec fn rep_ok(&self) -> bool {
        &&& slots_distinct(self.orders@)
        &&& forall|i: int|
            #![trigger self.orders@[i]]
            0 <= i < self.orders@.len() ==> {
                let r = self.orders@[i];
                &&& rslot(r) < self.cfg.capacity
                &&& r.id == id_of(rslot(r), self.generations@[rslot(r) as int])
            }
        &&& forall|i: int, j: int|
            #![trigger self.orders@[i], self.orders@[j]]
            0 <= i < j < self.orders@.len() ==> self.orders@[i].seq < self.orders@[j].seq
    }
}

impl Reference {
    /// A book with every slot free. The configuration must be one `Config::validate`
    /// accepts.
    pub fn new(cfg: Config) -> (r: Self)
        requires
            cfg_valid(cfg),
        ensures
            r.wf(),
            r.ready(),
            r.config() == cfg,
            r.book() == initial(cfg),
    {
        let mut generations: Vec<u32> = Vec::new();
        let mut i: u32 = 0;
        while i < cfg.capacity
            invariant
                i <= cfg.capacity,
                generations@ == Seq::new(i as nat, |k: int| 0u32),
            decreases cfg.capacity - i,
        {
            generations.push(0);
            i = i + 1;
        }
        let mut free: Vec<u32> = Vec::new();
        let mut j: u32 = cfg.capacity;
        while j > 0
            invariant
                j <= cfg.capacity,
                free@ == Seq::new((cfg.capacity - j) as nat, |k: int| (cfg.capacity - 1 - k) as u32),
            decreases j,
        {
            j = j - 1;
            free.push(j);
        }
        let r = Reference {
            cfg,
            generations,
            free,
            retired: 0,
            orders: Vec::new(),
            next_seq: 0,
        };
        proof {
            lemma_map_empty(r.orders@);
            assert(r.book() == initial(cfg));
            lemma_initial_inv(cfg);
        }
        r
    }

    /// Number of resting orders.
    pub fn live_orders(&self) -> (r: usize)
        requires
            self.wf(),
        ensures
            r == self.book().orders.dom().len(),
    {
        proof {
            self.lemma_dom_len();
        }
        self.orders.len()
    }

    /// Number of slots on the free stack.
    pub fn free_slots(&self) -> (r: usize)
        ensures
            r == self.book().free.len(),
    {
        self.free.len()
    }

    /// Number of slots retired for good.
    pub fn retired_slots(&self) -> (r: u32)
        ensures
            r == self.book().retired,
    {
        self.retired
    }

    proof fn lemma_dom_len(&self)
        requires
            slots_distinct(self.orders@),
        ensures
            order_map(self.orders@).dom().finite(),
            order_map(self.orders@).dom().len() == self.orders@.len(),
    {
        lemma_map_len(self.orders@);
    }

    fn alloc_slot(&mut self) -> (r: Option<OrderId>)
        requires
            old(self).wf(),
        ensures
            final(self).cfg == old(self).cfg,
            final(self).orders == old(self).orders,
            final(self).next_seq == old(self).next_seq,
            final(self).retired == old(self).retired,
            old(self).free@.len() == 0 ==> r is None && final(self).book() == old(self).book(),
            old(self).free@.len() > 0 ==> {
                let s = old(self).free@.last();
                &&& r == Some(id_of(s, (old(self).generations@[s as int] + 1) as u32))
                &&& final(self).generations@ == take_slot(old(self).book()).gens
                &&& final(self).free@ == take_slot(old(self).book()).free
            },
    {
        if self.free.len() == 0 {
            return None;
        }
        match self.free.pop() {
            None => None,
            Some(slot) => {
                proof {
                    let k = old(self).free@.len() - 1;
                    assert(old(self).free@[k] == slot);
                }
                let g = self.generations[slot as usize] + 1;
                self.generations.set(slot as usize, g);
                Some(OrderId::new(slot, g))
            },
        }
    }

    fn will_retire(&self, id: OrderId) -> (r: bool)
        requires
            slot_of(id) < self.generations@.len(),
        ensures
            r == will_retire(self.cfg, self.book(), slot_of(id)),
    {
        self.generations[id.slot() as usize] as u64 + 2 > self.cfg.generation_limit as u64
    }

    fn release(&mut self, id: OrderId)
        requires
            slot_of(id) < old(self).generations@.len(),
            old(self).generations@[slot_of(id) as int] % 2 == 1,
            old(self).retired < u32::MAX,
            !will_retire(old(self).cfg, old(self).book(), slot_of(id)) ==> old(self).generations@[slot_of(id) as int] + 2 <= u32::MAX,
        ensures
            final(self).cfg == old(self).cfg,
            final(self).orders == old(self).orders,
            final(self).next_seq == old(self).next_seq,
            final(self).book() == crate::model::release(old(self).cfg, old(self).book(), slot_of(id)),
    {
        let slot = id.slot();
        if self.will_retire(id) {
            let g = self.generations[slot as usize] - 1;
            self.generations.set(slot as usize, g);
            self.retired = self.retired + 1;
        } else {
            let g = self.generations[slot as usize] + 1;
            self.generations.set(slot as usize, g);
            self.free.push(slot);
        }
    }

    /// Takes the order at index `i` off the book and releases its slot.
    fn remove_at(&mut self, i: usize) -> (r: Resting)
        requires
            old(self).wf(),
            i < old(self).orders@.len(),
        ensures
            final(self).wf(),
            final(self).cfg == old(self).cfg,
            final(self).next_seq == old(self).next_seq,
            r == old(self).orders@[i as int],
            final(self).book() == remove_order(old(self).cfg, old(self).book(), rslot(r)),
    {
        let ghost st = self.book();
        proof {
            lemma_map_at(self.orders@, i as int);
            lemma_remove_order_inv(self.cfg, st, rslot(self.orders@[i as int]));
            self.lemma_dom_len();
            lemma_map_remove(self.orders@, i as int);
        }
        let o = self.orders.remove(i);
        self.release(o.id);
        proof {
            let s = rslot(o);
            let v = old(self).orders@;
            let w = self.orders@;
            assert(w == v.remove(i as int));
            assert(forall|j: int| 0 <= j < w.len() ==> w[j] == (if j < i { v[j] } else { v[j + 1] }));
            assert forall|j: int| #![trigger w[j]] 0 <= j < w.len() implies {
                let r = w[j];
                &&& rslot(r) < self.cfg.capacity
                &&& r.id == id_of(rslot(r), self.generations@[rslot(r) as int])
            } by {
                let k = if j < i { j } else { j + 1 };
                assert(w[j] == v[k]);
                assert(rslot(v[k]) != s);
            }
            assert forall|a: int, b: int| #![trigger w[a], w[b]] 0 <= a < b < w.len() implies w[a].seq < w[b].seq by {
                let ka = if a < i { a } else { a + 1 };
                let kb = if b < i { b } else { b + 1 };
                assert(w[a] == v[ka] && w[b] == v[kb]);
            }
        }
        o
    }

    /// The index of the first maker on `maker_side` in price-time priority.
    fn best(&self, maker_side: Side) -> (r: Option<usize>)
        requires
            self.wf(),
        ensures
            match r {
                None => best(self.book().orders, maker_side) is None && forall|t: u32|
                    #![trigger self.book().orders.contains_key(t)]
                    self.book().orders.contains_key(t) ==> self.book().orders[t].side != maker_side,
                Some(i) => i < self.orders@.len() && best(self.book().orders, maker_side) == Some(
                    rslot(self.orders@[i as int]),
                ),
            },
    {
        let mut found: Option<usize> = None;
        let mut i: usize = 0;
        let ghost v = self.orders@;
        while i < self.orders.len()
            invariant
                v == self.orders@,
                i <= v.len(),
                self.wf(),
                match found {
                    None => forall|j: int| 0 <= j < i ==> #[trigger] v[j].side != maker_side,
                    Some(b) => b < i && v[b as int].side == maker_side && forall|j: int|
                        #![trigger v[j]]
                        0 <= j < i && j != b && v[j].side == maker_side ==> crate::model::ahead(
                            maker_side,
                            rview(v[b as int]),
                            rview(v[j]),
                        ),
                },
            decreases v.len() - i,
        {
            let o = self.orders[i];
            if o.side == maker_side {
                found = match found {
                    None => Some(i),
                    Some(b) => {
                        let cur = self.orders[b];
                        let better_price = match maker_side {
                            Side::Buy => o.price.0 > cur.price.0,
                            Side::Sell => o.price.0 < cur.price.0,
                        };
                        if better_price || (o.price.0 == cur.price.0 && o.seq < cur.seq) {
                            proof {
                                assert forall|j: int| #![trigger v[j]] 0 <= j < i + 1 && j != i && v[j].side == maker_side
                                    implies crate::model::ahead(maker_side, rview(v[i as int]), rview(v[j])) by {
                                    if j != b {
                                        assert(crate::model::ahead(maker_side, rview(v[b as int]), rview(v[j])));
                                    }
                                }
                            }
                            Some(i)
                        } else {
                            proof {
                                assert(v[b as int].seq < v[i as int].seq);
                            }
                            Some(b)
                        }
                    },
                };
            }
            i = i + 1;
        }
        proof {
            let m = self.book().orders;
            match found {
                None => {
                    assert forall|t: u32| #![trigger m.contains_key(t)] m.contains_key(t) implies m[t].side != maker_side by {
                        let j = lemma_map_has(v, t);
                    }
                    if best(m, maker_side) is Some {
                        let c = choose|x: u32| is_best(m, maker_side, x);
                        assert(m.contains_key(c));
                    }
                },
                Some(b) => {
                    let s = rslot(v[b as int]);
                    lemma_map_at(v, b as int);
                    assert forall|t: u32| #![trigger m.contains_key(t)]
                        m.contains_key(t) && m[t].side == maker_side && t != s implies crate::model::ahead(maker_side, m[s], m[t]) by {
                        let j = lemma_map_has(v, t);
                    }
                    assert(is_best(m, maker_side, s));
                    lemma_best_is(m, maker_side, s);
                },
            }
        }
        found
    }

    fn marketable(&self, side: Side, limit: Price) -> (r: bool)
        requires
            self.wf(),
        ensures
            r == marketable(self.book().orders, side, limit.0),
    {
        match self.best(side.opposite()) {
            None => false,
            Some(i) => {
                proof {
                    lemma_map_at(self.orders@, i as int);
                }
                side.crosses(limit, self.orders[i].price)
            },
        }
    }

    /// The index of the order a command from `account` names by `id`, if it may touch it.
    fn lookup(&self, id: OrderId, account: AccountId) -> (r: Option<usize>)
        requires
            self.wf(),
        ensures
            match r {
                None => lookup(self.cfg, self.book(), id, account) is None,
                Some(i) => i < self.orders@.len() && lookup(self.cfg, self.book(), id, account)
                    == Some(rslot(self.orders@[i as int])),
            },
    {
        if id.slot() >= self.cfg.capacity {
            return None;
        }
        let ghost v = self.orders@;
        let mut i: usize = 0;
        while i < self.orders.len()
            invariant
                v == self.orders@,
                i <= v.len(),
                self.wf(),
                forall|j: int| 0 <= j < i ==> !(#[trigger] v[j].id == id && v[j].account == account),
            decreases v.len() - i,
        {
            if self.orders[i].id == id && self.orders[i].account == account {
                proof {
                    let s = rslot(v[i as int]);
                    lemma_map_at(v, i as int);
                    lemma_id_parts(s, self.generations@[s as int], id);
                }
                return Some(i);
            }
            i = i + 1;
        }
        proof {
            let s = slot_of(id);
            if lookup(self.cfg, self.book(), id, account) is Some {
                let j = lemma_map_has(v, s);
                lemma_id_parts(s, self.generations@[s as int], id);
                assert(v[j].id == id && v[j].account == account);
            }
        }
        None
    }
}


impl Reference {
    fn new_order<S: EventSink>(
        &mut self,
        env: &Envelope,
        side: Side,
        qty: Qty,
        kind: OrderKind,
        out: &mut S,
    )
        requires
            old(self).wf(),
            old(self).ready(),
        ensures
            final(self).wf(),
            final(self).cfg == old(self).cfg,
            final(self).book() == crate::model::new_order(old(self).cfg, old(self).book(), *env, side, qty, kind).0,
            final(out).events() == old(out).events() + crate::model::new_order(old(self).cfg, old(self).book(), *env, side, qty, kind).1,
    {
        let price: Option<Price> = match kind {
            OrderKind::Limit { price, .. } => Some(price),
            OrderKind::PostOnly { price } => Some(price),
            OrderKind::Market { protection } => protection,
        };
        let bad_price = match price {
            Some(p) => !self.cfg.price_ok(p),
            None => false,
        };
        if bad_price {
            out.emit(Event::Rejected { req: env.req, reason: RejectReason::InvalidPrice });
            proof {
                assert(seq![Event::Rejected { req: env.req, reason: RejectReason::InvalidPrice }] == seq![crate::model::rejected(*env, RejectReason::InvalidPrice)]);
            }
            return;
        }
        if !self.cfg.qty_ok(qty) {
            out.emit(Event::Rejected { req: env.req, reason: RejectReason::InvalidQty });
            return;
        }
        self.submit(env, side, qty.0, kind, out);
    }

    fn submit<S: EventSink>(
        &mut self,
        env: &Envelope,
        side: Side,
        qty: u32,
        kind: OrderKind,
        out: &mut S,
    )
        requires
            old(self).wf(),
            old(self).ready(),
            qty <= old(self).cfg.max_order_qty.0,
            rests_spec(kind) ==> price_in_range(old(self).cfg, limit_for(old(self).cfg, side, kind)),
        ensures
            final(self).wf(),
            final(self).cfg == old(self).cfg,
            final(self).book() == submit(old(self).cfg, old(self).book(), *env, side, qty, kind).0,
            final(out).events() == old(out).events() + submit(old(self).cfg, old(self).book(), *env, side, qty, kind).1,
    {
        let req = env.req;
        let limit = self.cfg.limit_of(side, kind);
        let crossing = self.marketable(side, limit);
        let full = self.free.len() == 0;
        match kind {
            OrderKind::PostOnly { .. } => {
                if crossing {
                    out.emit(Event::Rejected { req, reason: RejectReason::PostOnlyWouldCross });
                    return;
                }
                if full {
                    out.emit(Event::Rejected { req, reason: RejectReason::BookFull });
                    return;
                }
            },
            OrderKind::Limit { tif: Tif::Gtc, .. } => {
                if full && !crossing {
                    out.emit(Event::Rejected { req, reason: RejectReason::BookFull });
                    return;
                }
            },
            _ => {},
        }
        let ghost cfg = self.cfg;
        let ghost st0 = self.book();
        let ghost out0 = out.events();
        let ghost mut evs: Seq<Event> = Seq::empty();
        let mut remaining = qty;
        let opp = side.opposite();
        proof {
            lemma_match_loop(cfg, st0, *env, side, limit.0, qty, evs);
        }
        loop
            invariant_except_break
                self.wf(),
                self.cfg == cfg,
                cfg == old(self).cfg,
                req == env.req,
                limit.0 == limit_for(cfg, side, kind),
                !((kind is PostOnly) && marketable(st0.orders, side, limit.0)),
                !((kind is PostOnly) && st0.free.len() == 0),
                !((kind matches OrderKind::Limit { tif: Tif::Gtc, .. }) && st0.free.len() == 0
                    && !marketable(st0.orders, side, limit.0)),
                st0 == old(self).book(),
                out0 == old(out).events(),
                self.next_seq == st0.next_seq,
                opp == opposite_of(side),
                out.events() == out0 + evs,
                match_loop(cfg, st0, *env, side, limit.0, qty, Seq::empty()) == match_loop(
                    cfg,
                    self.book(),
                    *env,
                    side,
                    limit.0,
                    remaining,
                    evs,
                ),
            ensures
                self.wf(),
                self.cfg == cfg,
                self.next_seq == st0.next_seq,
                out.events() == out0 + evs,
                match_loop(cfg, st0, *env, side, limit.0, qty, Seq::empty()) == (MatchOutcome {
                    st: self.book(),
                    events: evs,
                    remaining,
                    self_trade: false,
                }),
            decreases remaining,
        {
            if remaining == 0 {
                break;
            }
            let i = match self.best(opp) {
                None => {
                    break;
                },
                Some(i) => i,
            };
            let ghost st = self.book();
            let ghost s = rslot(self.orders@[i as int]);
            proof {
                lemma_map_at(self.orders@, i as int);
            }
            if !side.crosses(limit, self.orders[i].price) {
                break;
            }
            if self.orders[i].account == env.account {
                out.emit(Event::Cancelled { req, id: None, qty: Qty(remaining), reason: CancelReason::SelfTrade });
                proof {
                    assert(out.events() == out0 + evs.push(Event::Cancelled { req, id: None, qty: Qty(remaining), reason: CancelReason::SelfTrade }));
                }
                return;
            }
            let mr = self.orders[i].remaining;
            let fill = if remaining <= mr { remaining } else { mr };
            let ghost rem0 = remaining;
            let ghost evs0 = evs;
            remaining = remaining - fill;
            let mut maker = self.orders[i];
            maker.remaining = mr - fill;
            maker.filled = maker.filled + fill;
            let trade = Event::Trade {
                taker_req: req,
                taker_side: side,
                maker_id: maker.id,
                price: maker.price,
                qty: Qty(fill),
                maker_remaining: Qty(maker.remaining),
                ts: env.ts,
            };
            proof {
                assert(maker.id == id_in(st, s));
            }
            out.emit(trade);
            proof {
                evs = evs.push(trade);
            }
            if maker.remaining == 0 {
                let removed = self.remove_at(i);
                out.emit(Event::MakerFilled { id: removed.id });
                proof {
                    evs = evs.push(Event::MakerFilled { id: removed.id });
                    assert(fill == min_u32(rem0, st.orders[s].remaining));
                    lemma_match_loop_unfold(cfg, st, *env, side, limit.0, rem0, evs0, s);
                    assert(maker.price == Price(st.orders[s].price));
                    assert(trade == Event::Trade {
                        taker_req: env.req,
                        taker_side: side,
                        maker_id: id_in(st, s),
                        price: Price(st.orders[s].price),
                        qty: Qty(fill),
                        maker_remaining: Qty((st.orders[s].remaining - fill) as u32),
                        ts: env.ts,
                    });
                    assert(evs == evs0.push(trade).push(Event::MakerFilled { id: id_in(st, s) }));
                    assert(remaining == (rem0 - fill) as u32);
                    assert(match_loop(cfg, st, *env, side, limit.0, rem0, evs0) == match_loop(
                        cfg,
                        remove_order(cfg, st, s),
                        *env,
                        side,
                        limit.0,
                        remaining,
                        evs,
                    ));
                }
            } else {
                let ghost m2 = rview(maker);
                proof {
                    assert(m2 == OrderView { remaining: maker.remaining, filled: maker.filled, ..st.orders[s] });
                    lemma_map_update(self.orders@, i as int, maker);
                    lemma_update_order_inv(cfg, st, s, m2);
                }
                let ghost v0 = self.orders@;
                self.orders.set(i, maker);
                proof {
                    let v = self.orders@;
                    assert forall|j: int| #![trigger v[j]] 0 <= j < v.len() implies {
                        let r = v[j];
                        &&& rslot(r) < self.cfg.capacity
                        &&& r.id == id_of(rslot(r), self.generations@[rslot(r) as int])
                    } by {
                        if j != i {
                            assert(v[j] == v0[j]);
                        }
                    }
                    assert(fill == min_u32(rem0, st.orders[s].remaining));
                    lemma_match_loop_unfold(cfg, st, *env, side, limit.0, rem0, evs0, s);
                    assert(match_loop(cfg, st, *env, side, limit.0, rem0, evs0) == match_loop(
                        cfg,
                        BookView { orders: st.orders.insert(s, m2), ..st },
                        *env,
                        side,
                        limit.0,
                        remaining,
                        evs,
                    ));
                }
            }
        }
        proof {
            lemma_match_loop(cfg, st0, *env, side, limit.0, qty, Seq::empty());
        }
        if remaining == 0 {
            out.emit(Event::Filled { req });
        } else if !rests(kind) {
            out.emit(Event::Cancelled { req, id: None, qty: Qty(remaining), reason: CancelReason::Unfilled });
        } else {
            let ghost st1 = self.book();
            match self.alloc_slot() {
                Some(id) => {
                    let r = Resting {
                        id,
                        account: env.account,
                        side,
                        price: limit,
                        remaining,
                        filled: 0,
                        seq: self.next_seq,
                    };
                    proof {
                        let s = st1.free.last();
                        let o = OrderView {
                            account: env.account,
                            side,
                            price: limit.0,
                            remaining,
                            filled: 0,
                            seq: st1.next_seq,
                        };
                        lemma_rest_inv(cfg, st1, o);
                        lemma_id_parts(s, self.generations@[s as int], id);
                        lemma_map_push(self.orders@, r);
                        assert forall|j: int| 0 <= j < self.orders@.len() implies #[trigger] self.orders@[j].seq < r.seq by {
                            lemma_map_at(self.orders@, j);
                        }
                        assert forall|j: int| #![trigger self.orders@[j]] 0 <= j < self.orders@.len() implies rslot(self.orders@[j]) != s by {
                            lemma_map_at(self.orders@, j);
                        }
                    }
                    let ghost v0 = self.orders@;
                    self.orders.push(r);
                    self.next_seq = self.next_seq + 1;
                    out.emit(Event::Rested { req, id, qty: Qty(remaining) });
                    proof {
                        let v = self.orders@;
                        assert forall|j: int| #![trigger v[j]] 0 <= j < v.len() implies {
                            let q = v[j];
                            &&& rslot(q) < self.cfg.capacity
                            &&& q.id == id_of(rslot(q), self.generations@[rslot(q) as int])
                        } by {
                            if j < v.len() - 1 {
                                assert(v[j] == v0[j]);
                            }
                        }
                    }
                },
                None => {
                    out.emit(Event::Cancelled { req, id: None, qty: Qty(remaining), reason: CancelReason::CapacityExhausted });
                },
            }
        }
    }
}


impl Reference {
    fn cancel<S: EventSink>(&mut self, env: &Envelope, id: OrderId, out: &mut S)
        requires
            old(self).wf(),
        ensures
            final(self).wf(),
            final(self).cfg == old(self).cfg,
            final(self).next_seq == old(self).next_seq,
            final(self).book() == crate::model::cancel(old(self).cfg, old(self).book(), *env, id).0,
            final(out).events() == old(out).events() + crate::model::cancel(old(self).cfg, old(self).book(), *env, id).1,
    {
        match self.lookup(id, env.account) {
            None => {
                out.emit(Event::Rejected { req: env.req, reason: RejectReason::UnknownOrStaleId });
            },
            Some(i) => {
                proof {
                    lemma_map_at(self.orders@, i as int);
                }
                let o = self.remove_at(i);
                out.emit(
                    Event::Cancelled {
                        req: env.req,
                        id: Some(id),
                        qty: Qty(o.remaining),
                        reason: CancelReason::User,
                    },
                );
            },
        }
    }

    fn reduce<S: EventSink>(&mut self, env: &Envelope, id: OrderId, total_qty: Qty, out: &mut S)
        requires
            old(self).wf(),
        ensures
            final(self).wf(),
            final(self).cfg == old(self).cfg,
            final(self).next_seq == old(self).next_seq,
            final(self).book() == crate::model::reduce(old(self).cfg, old(self).book(), *env, id, total_qty).0,
            final(out).events() == old(out).events() + crate::model::reduce(old(self).cfg, old(self).book(), *env, id, total_qty).1,
    {
        let req = env.req;
        match self.lookup(id, env.account) {
            None => {
                out.emit(Event::Rejected { req, reason: RejectReason::UnknownOrStaleId });
            },
            Some(i) => {
                let ghost st = self.book();
                let ghost s = rslot(self.orders@[i as int]);
                proof {
                    lemma_map_at(self.orders@, i as int);
                }
                let o = self.orders[i];
                let total = total_qty.0 as u64;
                if total <= o.filled as u64 {
                    self.remove_at(i);
                    out.emit(
                        Event::Cancelled {
                            req,
                            id: Some(id),
                            qty: Qty(o.remaining),
                            reason: CancelReason::ReduceToZero,
                        },
                    );
                } else if total > o.filled as u64 + o.remaining as u64 {
                    out.emit(Event::Rejected { req, reason: RejectReason::InvalidChange });
                } else {
                    let mut o2 = o;
                    o2.remaining = total_qty.0 - o.filled;
                    proof {
                        assert(rview(o2) == OrderView { remaining: o2.remaining, ..st.orders[s] });
                        lemma_map_update(self.orders@, i as int, o2);
                        lemma_update_order_inv(self.cfg, st, s, rview(o2));
                    }
                    let ghost v0 = self.orders@;
                    self.orders.set(i, o2);
                    proof {
                        let v = self.orders@;
                        assert forall|j: int| #![trigger v[j]] 0 <= j < v.len() implies {
                            let r = v[j];
                            &&& rslot(r) < self.cfg.capacity
                            &&& r.id == id_of(rslot(r), self.generations@[rslot(r) as int])
                        } by {
                            if j != i {
                                assert(v[j] == v0[j]);
                            }
                        }
                    }
                    out.emit(
                        Event::Reduced { req, id, filled: Qty(o2.filled), remaining: Qty(o2.remaining) },
                    );
                }
            },
        }
    }

    fn replace<S: EventSink>(
        &mut self,
        env: &Envelope,
        id: OrderId,
        price: Price,
        total_qty: Qty,
        post_only: bool,
        out: &mut S,
    )
        requires
            old(self).wf(),
            old(self).ready(),
        ensures
            final(self).wf(),
            final(self).cfg == old(self).cfg,
            final(self).book() == crate::model::replace(old(self).cfg, old(self).book(), *env, id, price, total_qty, post_only).0,
            final(out).events() == old(out).events() + crate::model::replace(old(self).cfg, old(self).book(), *env, id, price, total_qty, post_only).1,
    {
        let req = env.req;
        if !self.cfg.price_ok(price) {
            out.emit(Event::Rejected { req, reason: RejectReason::InvalidPrice });
            return;
        }
        if total_qty.0 > self.cfg.max_order_qty.0 {
            out.emit(Event::Rejected { req, reason: RejectReason::InvalidQty });
            return;
        }
        let i = match self.lookup(id, env.account) {
            None => {
                out.emit(Event::Rejected { req, reason: RejectReason::UnknownOrStaleId });
                return;
            },
            Some(i) => i,
        };
        proof {
            lemma_map_at(self.orders@, i as int);
        }
        let prev = self.orders[i];
        let new_remaining = if total_qty.0 > prev.filled { total_qty.0 - prev.filled } else { 0 };
        let cancel_old = Event::Cancelled {
            req,
            id: Some(id),
            qty: Qty(prev.remaining),
            reason: CancelReason::Replaced,
        };
        if new_remaining == 0 {
            self.remove_at(i);
            out.emit(cancel_old);
            return;
        }
        if post_only && self.marketable(prev.side, price) {
            out.emit(Event::Rejected { req, reason: RejectReason::PostOnlyWouldCross });
            return;
        }
        if self.free.len() == 0 && self.will_retire(id) {
            out.emit(Event::Rejected { req, reason: RejectReason::BookFull });
            return;
        }
        self.remove_at(i);
        out.emit(cancel_old);
        let kind = if post_only {
            OrderKind::PostOnly { price }
        } else {
            OrderKind::Limit { price, tif: Tif::Gtc }
        };
        let ghost mid = out.events();
        self.submit(env, prev.side, new_remaining, kind, out);
        proof {
            let r = submit(old(self).cfg, remove_order(old(self).cfg, old(self).book(), rslot(prev)), *env, prev.side, new_remaining, kind);
            assert(out.events() == old(out).events() + (seq![cancel_old] + r.1));
        }
    }
}

impl Reference {
    /// Checks the book's invariants at run time (S1 to S4, N1, N2, L6). A book built by
    /// `new` and moved only by `process` always passes.
    pub fn check_state(&self) -> (r: Result<(), String>)
        requires
            self.wf(),
        ensures
            r is Ok,
    {
        let ghost v = self.orders@;
        let ghost st = self.book();
        proof {
            self.lemma_dom_len();
        }
        let cap = self.cfg.capacity as usize;
        let mut seen: Vec<bool> = Vec::new();
        let mut k: usize = 0;
        while k < cap
            invariant
                k <= cap,
                seen@ == Seq::new(k as nat, |x: int| false),
            decreases cap - k,
        {
            seen.push(false);
            k = k + 1;
        }
        let mut i: usize = 0;
        while i < self.orders.len()
            invariant
                self.wf(),
                v == self.orders@,
                st == self.book(),
                cap == self.cfg.capacity,
                i <= v.len(),
                seen@.len() == cap,
                forall|x: int|
                    0 <= x < cap ==> (seen@[x] <==> exists|j: int|
                        0 <= j < i && #[trigger] rslot(v[j]) == x),
            decreases v.len() - i,
        {
            let o = self.orders[i];
            let slot = o.id.slot() as usize;
            if slot >= cap || seen[slot] {
                proof {
                    if slot < cap {
                        let j = choose|j: int| 0 <= j < i && #[trigger] rslot(v[j]) == slot;
                    }
                }
                return Err("S2: bad or duplicate slot".to_string());
            }
            seen.set(slot, true);
            let g = self.generations[slot];
            proof {
                lemma_map_at(v, i as int);
                lemma_id_parts(rslot(o), self.generations@[rslot(o) as int], o.id);
            }
            if g % 2 == 0 || g != o.id.generation() {
                return Err("S2: live order with a mismatched slot generation".to_string());
            }
            if !self.cfg.price_ok(o.price) {
                return Err("N2: price out of range".to_string());
            }
            if o.remaining == 0 || o.filled as u64 + o.remaining as u64
                > self.cfg.max_order_qty.0 as u64 {
                return Err("N1: bad quantities".to_string());
            }
            proof {
                assert forall|x: int| 0 <= x < cap implies (seen@[x] <==> exists|j: int|
                    0 <= j < i + 1 && #[trigger] rslot(v[j]) == x) by {
                    if x == slot {
                        assert(rslot(v[i as int]) == x);
                    }
                    if exists|j: int| 0 <= j < i + 1 && #[trigger] rslot(v[j]) == x {
                        let j = choose|j: int| 0 <= j < i + 1 && #[trigger] rslot(v[j]) == x;
                        if j < i {
                        }
                    }
                }
            }
            i = i + 1;
        }
        let mut f: usize = 0;
        while f < self.free.len()
            invariant
                self.wf(),
                v == self.orders@,
                st == self.book(),
                cap == self.cfg.capacity,
                f <= self.free@.len(),
                seen@.len() == cap,
                forall|x: int|
                    0 <= x < cap ==> (seen@[x] <==> (has_slot(v, x as u32) || exists|j: int|
                        0 <= j < f && self.free@[j] == x)),
            decreases self.free@.len() - f,
        {
            let slot = self.free[f] as usize;
            proof {
                assert(st.free[f as int] == slot);
                if has_slot(v, slot as u32) {
                    let j = choose|j: int| 0 <= j < v.len() && #[trigger] rslot(v[j]) == slot as u32;
                    lemma_map_at(v, j);
                }
                if exists|j: int| 0 <= j < f && self.free@[j] == slot {
                    let j = choose|j: int| 0 <= j < f && self.free@[j] == slot;
                    assert(self.free@[j] == self.free@[f as int]);
                }
            }
            if seen[slot] || self.generations[slot] % 2 != 0 {
                return Err("S3: free slot is live or duplicated".to_string());
            }
            seen.set(slot, true);
            proof {
                assert forall|x: int| 0 <= x < cap implies (seen@[x] <==> (has_slot(v, x as u32)
                    || exists|j: int| 0 <= j < f + 1 && self.free@[j] == x)) by {
                    if x == slot {
                        assert(self.free@[f as int] == x);
                    }
                    if exists|j: int| 0 <= j < f + 1 && self.free@[j] == x {
                        let j = choose|j: int| 0 <= j < f + 1 && self.free@[j] == x;
                        if j < f {
                        }
                    }
                }
            }
            f = f + 1;
        }
        let mut n: usize = 0;
        while n < self.generations.len()
            invariant
                self.wf(),
                st == self.book(),
                n <= self.generations@.len(),
            decreases self.generations@.len() - n,
        {
            proof {
                assert(st.gens[(n as u32) as int] <= self.cfg.generation_limit);
            }
            if self.generations[n] > self.cfg.generation_limit {
                return Err("S4: a generation exceeds the limit (should have retired)".to_string());
            }
            n = n + 1;
        }
        if self.orders.len() + self.free.len() + self.retired as usize != cap {
            return Err("S1: live + free + retired != capacity".to_string());
        }
        if let (Some(b), Some(a)) = (self.best(Side::Buy), self.best(Side::Sell)) {
            proof {
                lemma_map_at(v, b as int);
                lemma_map_at(v, a as int);
                let sb = rslot(v[b as int]);
                let sa = rslot(v[a as int]);
                let cb = choose|x: u32| is_best(st.orders, Side::Buy, x);
                let ca = choose|x: u32| is_best(st.orders, Side::Sell, x);
                assert(st.orders.contains_key(sb) && st.orders.contains_key(sa));
            }
            if self.orders[b].price.0 >= self.orders[a].price.0 {
                return Err("L6: book is crossed".to_string());
            }
        }
        Ok(())
    }
}

proof fn lemma_map_len(v: Seq<Resting>)
    requires
        slots_distinct(v),
    ensures
        order_map(v).dom().finite(),
        order_map(v).dom().len() == v.len(),
    decreases v.len(),
{
    if v.len() == 0 {
        lemma_map_empty(v);
    } else {
        let w = v.drop_last();
        assert(slots_distinct(w));
        lemma_map_len(w);
        let r = v.last();
        assert(!order_map(w).contains_key(rslot(r))) by {
            if order_map(w).contains_key(rslot(r)) {
                let j = lemma_map_has(w, rslot(r));
                assert(v[j] == w[j]);
            }
        }
        lemma_map_push(w, r);
        assert(w.push(r) == v);
    }
}

impl Engine for Reference {
    closed spec fn wf(&self) -> bool {
        &&& book_inv(self.cfg, self.book())
        &&& self.rep_ok()
    }

    closed spec fn ready(&self) -> bool {
        self.next_seq < u64::MAX
    }

    proof fn lemma_wf_book_inv(&self) {
    }

    proof fn lemma_ready(&self) {
    }

    closed spec fn config(&self) -> Config {
        self.cfg
    }

    closed spec fn book(&self) -> BookView {
        BookView {
            gens: self.generations@,
            free: self.free@,
            retired: self.retired,
            orders: order_map(self.orders@),
            next_seq: self.next_seq as nat,
        }
    }

    fn process<S: EventSink>(&mut self, env: &Envelope, out: &mut S) {
        proof {
            lemma_step_inv(self.cfg, self.book(), *env);
        }
        match env.cmd {
            Command::New { side, qty, kind } => self.new_order(env, side, qty, kind, out),
            Command::Cancel { id } => self.cancel(env, id, out),
            Command::Reduce { id, total_qty } => self.reduce(env, id, total_qty, out),
            Command::Replace { id, price, total_qty, post_only } => self.replace(
                env,
                id,
                price,
                total_qty,
                post_only,
                out,
            ),
        }
    }
}

} // verus!
