use vstd::prelude::*;

use crate::model::{book_inv, step, BookView};

verus! {

/// A price in ticks. Valid prices are `Config::min_tick ..= Config::max_tick`.
#[derive(Clone, Copy, Debug, PartialEq, Eq, PartialOrd, Ord, Hash, Structural)]
pub struct Price(pub u16);

/// A quantity in lots.
#[derive(Clone, Copy, Debug, PartialEq, Eq, PartialOrd, Ord, Hash, Structural)]
pub struct Qty(pub u32);

/// An engine-assigned order identifier: the generation in the high 32 bits, the slot in
/// the low 32 bits.
#[derive(Clone, Copy, Debug, PartialEq, Eq, PartialOrd, Ord, Hash, Structural)]
pub struct OrderId(pub u64);

/// The identifier of the order that lives in `slot` with `generation`.
pub open spec fn id_of(slot: u32, generation: u32) -> OrderId {
    OrderId((generation * 0x1_0000_0000 + slot) as u64)
}

/// The slot part of an identifier.
pub open spec fn slot_of(id: OrderId) -> u32 {
    (id.0 % 0x1_0000_0000) as u32
}

/// The generation part of an identifier.
pub open spec fn gen_of(id: OrderId) -> u32 {
    (id.0 / 0x1_0000_0000) as u32
}

/// An identifier is made of its two parts, and the parts of a made identifier are the
/// ones it was made of.
pub proof fn lemma_id_parts(slot: u32, generation: u32, id: OrderId)
    ensures
        slot_of(id_of(slot, generation)) == slot,
        gen_of(id_of(slot, generation)) == generation,
        id_of(slot_of(id), gen_of(id)) == id,
        (id == id_of(slot, generation)) <==> (slot_of(id) == slot && gen_of(id) == generation),
{
    let g = generation as int;
    let s = slot as int;
    assert(0 <= g * 0x1_0000_0000 + s <= u64::MAX) by (nonlinear_arith)
        requires
            0 <= g <= 0xffff_ffff,
            0 <= s <= 0xffff_ffff,
    ;
    assert((g * 0x1_0000_0000 + s) % 0x1_0000_0000 == s && (g * 0x1_0000_0000 + s)
        / 0x1_0000_0000 == g) by (nonlinear_arith)
        requires
            0 <= s < 0x1_0000_0000,
    ;
    let v = id.0 as int;
    assert(v == (v / 0x1_0000_0000) * 0x1_0000_0000 + v % 0x1_0000_0000 && 0 <= v
        / 0x1_0000_0000 <= 0xffff_ffff && 0 <= v % 0x1_0000_0000 < 0x1_0000_0000)
        by (nonlinear_arith)
        requires
            0 <= v <= u64::MAX,
    ;
}

impl OrderId {
    /// The identifier for `slot` at `generation`.
    pub fn new(slot: u32, generation: u32) -> (r: OrderId)
        ensures
            r == id_of(slot, generation),
    {
        let v: u64 = ((generation as u64) << 32u64) | slot as u64;
        assert(v == (generation as u64) * 0x1_0000_0000u64 + slot as u64) by (bit_vector)
            requires
                v == ((generation as u64) << 32u64) | slot as u64,
        ;
        OrderId(v)
    }

    /// The slot part (low 32 bits).
    pub fn slot(self) -> (r: u32)
        ensures
            r == slot_of(self),
    {
        let v = self.0;
        assert((v as u32) as int == v % 0x1_0000_0000) by (bit_vector);
        v as u32
    }

    /// The generation part (high 32 bits).
    pub fn generation(self) -> (r: u32)
        ensures
            r == gen_of(self),
    {
        let v = self.0;
        assert(((v >> 32u64) as u32) as int == v / 0x1_0000_0000) by (bit_vector);
        (v >> 32u64) as u32
    }
}

pub type AccountId = u32;

pub type ReqId = u64;

pub type Timestamp = u64;

/// The side of an order.
#[derive(Clone, Copy, Debug, PartialEq, Eq, Hash, Structural)]
pub enum Side {
    Buy,
    Sell,
}

/// The other side of the book.
pub open spec fn opposite_of(side: Side) -> Side {
    match side {
        Side::Buy => Side::Sell,
        Side::Sell => Side::Buy,
    }
}

/// An order on `side` with limit `limit` may trade with a resting order at `resting`.
pub open spec fn crosses_at(side: Side, limit: u16, resting: u16) -> bool {
    match side {
        Side::Buy => resting <= limit,
        Side::Sell => resting >= limit,
    }
}

impl Side {
    /// The other side.
    pub fn opposite(self) -> (r: Side)
        ensures
            r == opposite_of(self),
    {
        match self {
            Side::Buy => Side::Sell,
            Side::Sell => Side::Buy,
        }
    }

    /// Whether an order on this side with `limit` may trade against `resting`
    /// (equal prices cross).
    pub fn crosses(self, limit: Price, resting: Price) -> (r: bool)
        ensures
            r == crosses_at(self, limit.0, resting.0),
    {
        match self {
            Side::Buy => resting.0 <= limit.0,
            Side::Sell => resting.0 >= limit.0,
        }
    }
}

/// How long a limit order's residual lives: good till cancelled, or immediate or cancel.
#[derive(Clone, Copy, Debug, PartialEq, Eq, Structural)]
pub enum Tif {
    Gtc,
    Ioc,
}

/// What kind of new order, with its price or protection.
#[derive(Clone, Copy, Debug, PartialEq, Eq)]
pub enum OrderKind {
    Limit { price: Price, tif: Tif },
    Market { protection: Option<Price> },
    PostOnly { price: Price },
}

/// What a client asks of the book.
#[derive(Clone, Copy, Debug, PartialEq, Eq)]
pub enum Command {
    New { side: Side, qty: Qty, kind: OrderKind },
    Cancel { id: OrderId },
    Reduce { id: OrderId, total_qty: Qty },
    Replace { id: OrderId, price: Price, total_qty: Qty, post_only: bool },
}

/// A command stamped by the ingress: request number, timestamp and sender.
#[derive(Clone, Copy, Debug, PartialEq, Eq)]
pub struct Envelope {
    pub req: ReqId,
    pub ts: Timestamp,
    pub account: AccountId,
    pub cmd: Command,
}

/// Why a command was refused.
#[derive(Clone, Copy, Debug, PartialEq, Eq, Hash, Structural)]
pub enum RejectReason {
    InvalidPrice,
    InvalidQty,
    PostOnlyWouldCross,
    BookFull,
    UnknownOrStaleId,
    InvalidChange,
}

/// Why open lots left the book or were never placed.
#[derive(Clone, Copy, Debug, PartialEq, Eq, Hash, Structural)]
pub enum CancelReason {
    User,
    Unfilled,
    SelfTrade,
    ReduceToZero,
    Replaced,
    CapacityExhausted,
}

/// What the book tells about a command, in order.
#[derive(Clone, Copy, Debug, PartialEq, Eq, Structural)]
pub enum Event {
    Rejected { req: ReqId, reason: RejectReason },
    Trade {
        taker_req: ReqId,
        taker_side: Side,
        maker_id: OrderId,
        price: Price,
        qty: Qty,
        maker_remaining: Qty,
        ts: Timestamp,
    },
    MakerFilled { id: OrderId },
    Rested { req: ReqId, id: OrderId, qty: Qty },
    Filled { req: ReqId },
    Cancelled { req: ReqId, id: Option<OrderId>, qty: Qty, reason: CancelReason },
    Reduced { req: ReqId, id: OrderId, filled: Qty, remaining: Qty },
}

/// The book's limits: the tick range, the largest order, the number of slots and how
/// often a slot may be reused.
#[derive(Clone, Copy, Debug, PartialEq, Eq, Structural)]
pub struct Config {
    pub min_tick: Price,
    pub max_tick: Price,
    pub max_order_qty: Qty,
    pub capacity: u32,
    pub generation_limit: u32,
}

/// The configuration is one that `Config::validate` accepts.
pub open spec fn cfg_valid(cfg: Config) -> bool {
    &&& cfg.min_tick.0 >= 1
    &&& cfg.min_tick.0 <= cfg.max_tick.0
    &&& cfg.max_order_qty.0 >= 1
    &&& 1 <= cfg.capacity < u32::MAX
    &&& cfg.generation_limit >= 1
}

/// `p` lies in the tick range.
pub open spec fn price_in_range(cfg: Config, p: u16) -> bool {
    cfg.min_tick.0 <= p <= cfg.max_tick.0
}

/// `q` is a valid order size.
pub open spec fn qty_in_range(cfg: Config, q: u32) -> bool {
    1 <= q <= cfg.max_order_qty.0
}

/// The limit an order trades up to: its price, or for a market order its protection, or
/// else the far end of the tick range.
pub open spec fn limit_for(cfg: Config, side: Side, kind: OrderKind) -> u16 {
    match kind {
        OrderKind::Limit { price, .. } => price.0,
        OrderKind::PostOnly { price } => price.0,
        OrderKind::Market { protection } => match protection {
            Some(p) => p.0,
            None => match side {
                Side::Buy => cfg.max_tick.0,
                Side::Sell => cfg.min_tick.0,
            },
        },
    }
}

/// The order kind keeps its residual on the book.
pub open spec fn rests_spec(kind: OrderKind) -> bool {
    match kind {
        OrderKind::Limit { tif, .. } => tif == Tif::Gtc,
        OrderKind::PostOnly { .. } => true,
        OrderKind::Market { .. } => false,
    }
}

impl Config {
    /// Binary contracts quoted in cents: ticks 1..=99, orders up to 1,000,000 lots,
    /// unlimited slot reuse.
    pub fn binary_cents(capacity: u32) -> (r: Config)
        ensures
            r == (Config {
                min_tick: Price(1),
                max_tick: Price(99),
                max_order_qty: Qty(1_000_000),
                capacity,
                generation_limit: u32::MAX,
            }),
    {
        Config {
            min_tick: Price(1),
            max_tick: Price(99),
            max_order_qty: Qty(1_000_000),
            capacity,
            generation_limit: u32::MAX,
        }
    }

    /// Checks the configuration; the first rule it breaks names the error.
    pub fn validate(&self) -> (r: Result<(), &'static str>)
        ensures
            r is Ok <==> cfg_valid(*self),
            self.min_tick.0 == 0 ==> (r matches Err(m) && m@ == "min_tick must be >= 1"@),
            self.min_tick.0 != 0 && self.min_tick.0 > self.max_tick.0 ==> (r matches Err(m)
                && m@ == "min_tick must be <= max_tick"@),
            self.min_tick.0 != 0 && self.min_tick.0 <= self.max_tick.0 && self.max_order_qty.0
                == 0 ==> (r matches Err(m) && m@ == "max_order_qty must be >= 1"@),
            self.min_tick.0 != 0 && self.min_tick.0 <= self.max_tick.0 && self.max_order_qty.0
                != 0 && (self.capacity == 0 || self.capacity == u32::MAX) ==> (r matches Err(m)
                && m@ == "capacity must be in 1..u32::MAX (u32::MAX is the NIL index)"@),
            self.min_tick.0 != 0 && self.min_tick.0 <= self.max_tick.0 && self.max_order_qty.0
                != 0 && self.capacity != 0 && self.capacity != u32::MAX
                && self.generation_limit == 0 ==> (r matches Err(m) && m@
                == "generation_limit must be >= 1"@),
    {
        if self.min_tick.0 == 0 {
            return Err("min_tick must be >= 1");
        }
        if self.min_tick.0 > self.max_tick.0 {
            return Err("min_tick must be <= max_tick");
        }
        if self.max_order_qty.0 == 0 {
            return Err("max_order_qty must be >= 1");
        }
        if self.capacity == 0 || self.capacity == u32::MAX {
            return Err("capacity must be in 1..u32::MAX (u32::MAX is the NIL index)");
        }
        if self.generation_limit == 0 {
            return Err("generation_limit must be >= 1");
        }
        Ok(())
    }

    /// The price lies in the tick range.
    pub fn price_ok(&self, p: Price) -> (r: bool)
        ensures
            r == price_in_range(*self, p.0),
    {
        self.min_tick.0 <= p.0 && p.0 <= self.max_tick.0
    }

    /// The size is at least one lot and at most `max_order_qty`.
    pub fn qty_ok(&self, q: Qty) -> (r: bool)
        ensures
            r == qty_in_range(*self, q.0),
    {
        1 <= q.0 && q.0 <= self.max_order_qty.0
    }

    /// The limit an order trades up to (see `limit_for`).
    pub fn limit_of(&self, side: Side, kind: OrderKind) -> (r: Price)
        ensures
            r.0 == limit_for(*self, side, kind),
            kind matches OrderKind::Limit { price, .. } ==> r == price,
            kind matches OrderKind::PostOnly { price } ==> r == price,
            kind matches OrderKind::Market { protection: Some(p) } ==> r == p,
            kind == (OrderKind::Market { protection: None }) && side == Side::Buy ==> r
                == self.max_tick,
            kind == (OrderKind::Market { protection: None }) && side == Side::Sell ==> r
                == self.min_tick,
    {
        match kind {
            OrderKind::Limit { price, .. } => price,
            OrderKind::PostOnly { price } => price,
            OrderKind::Market { protection } => match protection {
                Some(p) => p,
                None => match side {
                    Side::Buy => self.max_tick,
                    Side::Sell => self.min_tick,
                },
            },
        }
    }
}

/// Whether an order of this kind rests its residual: GTC limits and post-only do, IOC
/// limits and market orders do not.
pub fn rests(kind: OrderKind) -> (r: bool)
    ensures
        r == rests_spec(kind),
{
    match kind {
        OrderKind::Limit { tif, .. } => match tif {
            Tif::Gtc => true,
            Tif::Ioc => false,
        },
        OrderKind::PostOnly { .. } => true,
        OrderKind::Market { .. } => false,
    }
}

/// Where an engine sends the events a command causes.
pub trait EventSink {
    /// The events received so far, in order.
    spec fn events(&self) -> Seq<Event>;

    fn emit(&mut self, event: Event)
        ensures
            final(self).events() == old(self).events().push(event),
    ;
}

impl EventSink for Vec<Event> {
    open spec fn events(&self) -> Seq<Event> {
        self@
    }

    fn emit(&mut self, event: Event) {
        self.push(event);
    }
}

/// A matching engine: each command moves the book to the state `model::step` gives and
/// emits exactly the events it gives.
pub trait Engine {
    /// The engine's internal consistency.
    spec fn wf(&self) -> bool;

    /// The engine can take one more command without running out of counters.
    spec fn ready(&self) -> bool;

    spec fn config(&self) -> Config;

    /// The abstract book the engine represents.
    spec fn book(&self) -> BookView;

    /// A consistent engine represents a book that keeps the invariants.
    proof fn lemma_wf_book_inv(&self)
        requires
            self.wf(),
        ensures
            book_inv(self.config(), self.book()),
    ;

    /// A consistent engine whose book has not used up the arrival numbers can take one more
    /// command.
    proof fn lemma_ready(&self)
        requires
            self.wf(),
            self.book().next_seq < u64::MAX,
        ensures
            self.ready(),
    ;

    fn process<S: EventSink>(&mut self, env: &Envelope, out: &mut S)
        requires
            old(self).wf(),
            old(self).ready(),
        ensures
            final(self).wf(),
            final(self).book().next_seq <= old(self).book().next_seq + 1,
            final(self).book().next_seq < u64::MAX ==> final(self).ready(),
            final(self).config() == old(self).config(),
            final(self).book() == step(old(self).config(), old(self).book(), *env).0,
            final(out).events() == old(out).events() + step(
                old(self).config(),
                old(self).book(),
                *env,
            ).1,
    ;
}

} // verus!
